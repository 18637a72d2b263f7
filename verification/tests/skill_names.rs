use honse_sim::language::SkillId;
use honse_sim::skill_names::{SkillNames, NAMED_FROM};

#[test]
fn skill_ids_are_read_as_the_data_writes_them() {
    let mut names = SkillNames::new();
    assert_eq!(names.identify("100012"), Some(SkillId::new(100012)));
    let inherited = names.identify("910031-2").expect("a version");
    assert_eq!(inherited.number, 910031);
    assert_eq!(inherited.version, 2);
    assert_eq!(inherited.base(), 910031);
    assert_eq!(names.identify("0"), Some(SkillId::new(0)));
    assert_eq!(names.identify("2147483647"), Some(SkillId::new(2147483647)));
    assert_eq!(names.base_name(100012), None);
    assert_eq!(names.base_name(NAMED_FROM), None, "no text needed a number");
}

#[test]
fn any_text_is_a_skill_id_of_its_own() {
    let mut names = SkillNames::new();
    let texts = [
        "", "-", "-1", "12", "12-", "12-0", "12-1", "012", "12-01", "1a", "4294967295",
        "2147483648", "99999999999999999999", "1-2-3", "1-2", "groundwork", "groundwork-2",
        "\u{539f}",
    ];
    let ids: Vec<SkillId> = texts
        .iter()
        .map(|t| names.identify(t).expect("numbers are left"))
        .collect();
    for (i, a) in ids.iter().enumerate() {
        for (j, b) in ids.iter().enumerate() {
            assert_eq!(a == b, i == j, "{:?} {:?}", texts[i], texts[j]);
        }
    }
    // A text keeps its id.
    for (text, id) in texts.iter().zip(&ids) {
        assert_eq!(names.identify(text), Some(*id), "{text:?}");
    }
    // Versions share the number, and the names can be read back.
    let plain = names.identify("groundwork").expect("known");
    let inherited = names.identify("groundwork-2").expect("known");
    assert_eq!(plain.base(), inherited.base());
    assert_eq!((plain.version, inherited.version), (0, 2));
    assert!(plain.number >= NAMED_FROM);
    assert_eq!(names.base_name(plain.number), Some("groundwork"));
    let odd = names.identify("1-2-3").expect("known");
    assert_eq!(odd.number, 1);
    assert_eq!(names.version_name(odd.version), Some("2-3"));
    assert_eq!(names.version_name(inherited.version), None);
    assert_eq!(names.base_name(u32::MAX), None);
}
