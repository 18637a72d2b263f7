//! Skill ids as the skill data writes them: any text, with a hyphen before the
//! version where there is one.
//!
//! The rest of the library tells skills apart by [`SkillId`]. A text that
//! writes a number stands for that number; every other text is given one of
//! its own when it is first met.
use crate::language::{
    digit_value, digits_value, find_char, first_place, lemma_digits_are_natural, read_number,
    same_text, written_number, SkillId,
};
use vstd::prelude::*;

verus! {

/// The numbers from here on are given to texts that write none.
pub const NAMED_FROM: u32 = 0x8000_0000;

/// The number a text stands for by itself: one under [`NAMED_FROM`] and not
/// under `least`, written in decimal without leading zeros.
pub open spec fn plain_number(text: Seq<char>, least: int) -> Option<u32> {
    match written_number(text) {
        Some(v) => if least <= v < NAMED_FROM && (text.len() == 1 || text[0] != '0') {
            Some(v)
        } else {
            None
        },
        None => None,
    }
}

/// The first place of `text` in `list`, from `at` on; its length where there is
/// none.
pub open spec fn place_of(list: Seq<Seq<char>>, text: Seq<char>, at: int) -> int
    decreases list.len() - at,
{
    if at >= list.len() {
        list.len() as int
    } else if list[at] == text {
        at
    } else {
        place_of(list, text, at + 1)
    }
}

/// The number a text has when the texts of `list` have been given one each:
/// none where it is not among them and writes none.
pub open spec fn number_of(list: Seq<Seq<char>>, text: Seq<char>, least: int) -> Option<u32> {
    let place = place_of(list, text, 0);
    if plain_number(text, least) is Some {
        plain_number(text, least)
    } else if place < list.len() && place < NAMED_FROM {
        Some((NAMED_FROM + place) as u32)
    } else {
        None
    }
}

/// `list` with `text` given a number, if it has none and there is one left.
pub open spec fn with_name(list: Seq<Seq<char>>, text: Seq<char>, least: int) -> Seq<Seq<char>> {
    if number_of(list, text, least) is Some || list.len() >= NAMED_FROM {
        list
    } else {
        list.push(text)
    }
}

/// The part of an id's text that every version of the skill shares: what comes
/// before the first hyphen.
pub open spec fn base_of(text: Seq<char>) -> Seq<char> {
    text.take(first_place(text, '-', 0))
}

/// The version an id's text writes: what comes after the first hyphen.
pub open spec fn version_of(text: Seq<char>) -> Option<Seq<char>> {
    let hyphen = first_place(text, '-', 0);
    if hyphen == text.len() {
        None
    } else {
        Some(text.skip(hyphen + 1))
    }
}

/// The texts that have been given a number, in the order they were met.
#[verifier::ext_equal]
pub struct NamesState {
    /// The skills'.
    pub bases: Seq<Seq<char>>,
    /// The versions'.
    pub versions: Seq<Seq<char>>,
}

impl NamesState {
    /// The id a text stands for; none where it has not been met and writes none
    /// by itself.
    pub open spec fn id_of(self, text: Seq<char>) -> Option<SkillId> {
        let number = number_of(self.bases, base_of(text), 0);
        let version = match version_of(text) {
            None => Some(0u32),
            Some(v) => number_of(self.versions, v, 1),
        };
        if number is Some && version is Some {
            Some(SkillId { number: number->0, version: version->0 })
        } else {
            None
        }
    }

    /// The texts with `text` met.
    pub open spec fn met(self, text: Seq<char>) -> NamesState {
        NamesState {
            bases: with_name(self.bases, base_of(text), 0),
            versions: match version_of(text) {
                None => self.versions,
                Some(v) => with_name(self.versions, v, 1),
            },
        }
    }
}

/// The characters of each text.
pub open spec fn texts(list: Seq<String>) -> Seq<Seq<char>> {
    Seq::new(list.len(), |i: int| list[i]@)
}

fn read_plain_number(text: &str, least: u32) -> (number: Option<u32>)
    ensures
        number == plain_number(text@, least as int),
{
    let len: usize = text.unicode_len();
    proof {
        assert(text@.subrange(0, len as int) =~= text@);
    }
    match read_number(text, 0, len) {
        Some(v) => {
            if least <= v && v < NAMED_FROM && (len == 1 || text.get_char(0) != '0') {
                Some(v)
            } else {
                None
            }
        },
        None => None,
    }
}

fn find_text(list: &Vec<String>, text: &str) -> (place: usize)
    ensures
        place == place_of(texts(list@), text@, 0),
        place <= list@.len(),
{
    let mut at: usize = 0;
    while at < list.len()
        invariant
            at <= list@.len(),
            place_of(texts(list@), text@, 0) == place_of(texts(list@), text@, at as int),
        decreases list@.len() - at,
    {
        if same_text(list[at].as_str(), text) {
            return at;
        }
        at = at + 1;
    }
    at
}

fn number_text(list: &mut Vec<String>, text: &str, least: u32) -> (number: Option<u32>)
    ensures
        texts(final(list)@) == with_name(texts(old(list)@), text@, least as int),
        number == number_of(texts(final(list)@), text@, least as int),
{
    let plain: Option<u32> = read_plain_number(text, least);
    if plain.is_some() {
        return plain;
    }
    let place: usize = find_text(list, text);
    if place < list.len() {
        return if place < NAMED_FROM as usize {
            Some(NAMED_FROM + place as u32)
        } else {
            None
        };
    }
    if list.len() >= NAMED_FROM as usize {
        return None;
    }
    let ghost before = texts(list@);
    list.push(text.to_owned());
    proof {
        assert(texts(list@) =~= before.push(text@));
        lemma_place_of_the_last(before, text@, 0);
    }
    Some(NAMED_FROM + place as u32)
}

proof fn lemma_place_of(list: Seq<Seq<char>>, text: Seq<char>, at: int)
    requires
        0 <= at <= list.len(),
    ensures
        at <= place_of(list, text, at) <= list.len(),
        place_of(list, text, at) < list.len() ==> list[place_of(list, text, at)] == text,
        forall|j: int| at <= j < place_of(list, text, at) ==> list[j] != text,
    decreases list.len() - at,
{
    if at < list.len() {
        lemma_place_of(list, text, at + 1);
    }
}

proof fn lemma_place_of_the_last(list: Seq<Seq<char>>, text: Seq<char>, at: int)
    requires
        0 <= at <= list.len(),
        place_of(list, text, at) == list.len(),
    ensures
        place_of(list.push(text), text, at) == list.len(),
    decreases list.len() - at,
{
    if at < list.len() {
        lemma_place_of(list, text, at + 1);
        lemma_place_of_the_last(list, text, at + 1);
    }
}

proof fn lemma_place_stays(list: Seq<Seq<char>>, text: Seq<char>, other: Seq<char>, at: int)
    requires
        0 <= at <= list.len(),
        place_of(list, text, at) < list.len(),
    ensures
        place_of(list.push(other), text, at) == place_of(list, text, at),
    decreases list.len() - at,
{
    if at < list.len() && list[at] != text {
        lemma_place_stays(list, text, other, at + 1);
    }
}

/// The texts met as skill ids.
pub struct SkillNames {
    bases: Vec<String>,
    versions: Vec<String>,
}

impl View for SkillNames {
    type V = NamesState;

    closed spec fn view(&self) -> NamesState {
        NamesState { bases: texts(self.bases@), versions: texts(self.versions@) }
    }
}

impl SkillNames {
    /// No text met yet.
    pub fn new() -> (names: SkillNames)
        ensures
            names@ == (NamesState {
                bases: Seq::<Seq<char>>::empty(),
                versions: Seq::<Seq<char>>::empty(),
            }),
    {
        let names = SkillNames { bases: Vec::new(), versions: Vec::new() };
        proof {
            assert(names@.bases =~= Seq::<Seq<char>>::empty());
            assert(names@.versions =~= Seq::<Seq<char>>::empty());
        }
        names
    }

    /// The id `text` stands for, from now on; none once every number is taken.
    pub fn identify(&mut self, text: &str) -> (id: Option<SkillId>)
        ensures
            final(self)@ == old(self)@.met(text@),
            id == final(self)@.id_of(text@),
    {
        let len: usize = text.unicode_len();
        let hyphen: usize = find_char(text, '-', len);
        let base: &str = text.substring_char(0, hyphen);
        proof {
            assert(text@.subrange(0, hyphen as int) =~= base_of(text@));
        }
        let number: Option<u32> = number_text(&mut self.bases, base, 0);
        let version: Option<u32> = if hyphen == len {
            Some(0)
        } else {
            let rest: &str = text.substring_char(hyphen + 1, len);
            proof {
                assert(text@.subrange(hyphen + 1, len as int) =~= text@.skip(hyphen + 1));
            }
            number_text(&mut self.versions, rest, 1)
        };
        match (number, version) {
            (Some(number), Some(version)) => Some(SkillId { number, version }),
            _ => None,
        }
    }

    /// The text that was given `number` as a skill's; none for a number that
    /// stands for itself or was not given.
    pub fn base_name(&self, number: u32) -> (name: Option<&str>)
        ensures
            match name {
                Some(text) => NAMED_FROM <= number < NAMED_FROM + self@.bases.len()
                    && self@.bases[number - NAMED_FROM] == text@,
                None => number < NAMED_FROM || number - NAMED_FROM >= self@.bases.len(),
            },
    {
        given_text(&self.bases, number)
    }

    /// The text that was given `number` as a version's; none for a number that
    /// stands for itself or was not given.
    pub fn version_name(&self, number: u32) -> (name: Option<&str>)
        ensures
            match name {
                Some(text) => NAMED_FROM <= number < NAMED_FROM + self@.versions.len()
                    && self@.versions[number - NAMED_FROM] == text@,
                None => number < NAMED_FROM || number - NAMED_FROM >= self@.versions.len(),
            },
    {
        given_text(&self.versions, number)
    }
}

fn given_text(list: &Vec<String>, number: u32) -> (name: Option<&str>)
    ensures
        match name {
            Some(text) => NAMED_FROM <= number < NAMED_FROM + list@.len() && texts(list@)[number
                - NAMED_FROM] == text@,
            None => number < NAMED_FROM || number - NAMED_FROM >= list@.len(),
        },
{
    if number < NAMED_FROM {
        return None;
    }
    let at: usize = (number - NAMED_FROM) as usize;
    if at < list.len() {
        Some(list[at].as_str())
    } else {
        None
    }
}

proof fn lemma_some_value(text: Seq<char>)
    requires
        text.len() > 0,
        text[0] != '0',
    ensures
        digits_value(text) matches Some(v) ==> v > 0,
    decreases text.len(),
{
    if text.len() > 1 {
        assert(text.drop_last()[0] == text[0]);
        lemma_some_value(text.drop_last());
    } else {
        assert(text.drop_last() =~= Seq::<char>::empty());
        assert(digits_value(text.drop_last()) == Some(0int));
        assert(text.last() == text[0]);
    }
}

/// Whether a run of digits has no leading zero.
pub open spec fn leads_with_no_zero(text: Seq<char>) -> bool {
    text.len() <= 1 || text[0] != '0'
}

proof fn lemma_one_way_to_write(a: Seq<char>, b: Seq<char>)
    requires
        a.len() > 0,
        b.len() > 0,
        leads_with_no_zero(a),
        leads_with_no_zero(b),
        digits_value(a) is Some,
        digits_value(a) == digits_value(b),
    ensures
        a == b,
    decreases a.len(),
{
    let front_a = a.drop_last();
    let front_b = b.drop_last();
    lemma_digits_are_natural(front_a);
    lemma_digits_are_natural(front_b);
    assert(a =~= front_a.push(a.last()));
    assert(b =~= front_b.push(b.last()));
    assert(digit_value(a.last()) == digit_value(b.last()));
    assert(digits_value(front_a) == digits_value(front_b));
    if a.len() > 1 {
        assert(front_a[0] == a[0]);
        lemma_some_value(front_a);
    } else {
        assert(front_a =~= Seq::<char>::empty());
    }
    if b.len() > 1 {
        assert(front_b[0] == b[0]);
        lemma_some_value(front_b);
    } else {
        assert(front_b =~= Seq::<char>::empty());
    }
    if a.len() > 1 && b.len() > 1 {
        lemma_one_way_to_write(front_a, front_b);
    }
}

proof fn lemma_number_stands_for_one_text(
    list: Seq<Seq<char>>,
    a: Seq<char>,
    b: Seq<char>,
    least: int,
)
    requires
        number_of(list, a, least) is Some,
        number_of(list, a, least) == number_of(list, b, least),
    ensures
        a == b,
{
    lemma_place_of(list, a, 0);
    lemma_place_of(list, b, 0);
    if plain_number(a, least) is Some {
        assert(number_of(list, a, least)->0 < NAMED_FROM);
        assert(plain_number(b, least) is Some);
        lemma_digits_are_natural(a);
        lemma_digits_are_natural(b);
        lemma_one_way_to_write(a, b);
    } else {
        assert(plain_number(b, least) is None);
    }
}

proof fn lemma_number_stays(
    list: Seq<Seq<char>>,
    text: Seq<char>,
    other: Seq<char>,
    least: int,
)
    requires
        number_of(list, text, least) is Some,
    ensures
        number_of(with_name(list, other, least), text, least) == number_of(list, text, least),
{
    if plain_number(text, least) is None {
        lemma_place_of(list, text, 0);
        lemma_place_stays(list, text, other, 0);
    }
}

proof fn lemma_a_number_is_given(list: Seq<Seq<char>>, text: Seq<char>, least: int)
    requires
        list.len() < NAMED_FROM,
    ensures
        number_of(with_name(list, text, least), text, least) is Some,
{
    lemma_place_of(list, text, 0);
    if number_of(list, text, least) is None {
        lemma_place_of_the_last(list, text, 0);
    }
}

proof fn lemma_text_of_its_parts(text: Seq<char>, at: int)
    requires
        0 <= at <= text.len(),
    ensures
        at <= first_place(text, '-', at) <= text.len(),
        first_place(text, '-', at) < text.len() ==> text[first_place(text, '-', at)] == '-',
    decreases text.len() - at,
{
    if at < text.len() {
        lemma_text_of_its_parts(text, at + 1);
    }
}

/// An id stands for one text: two texts with the same id are the same.
pub proof fn an_id_stands_for_one_text(names: NamesState, a: Seq<char>, b: Seq<char>)
    requires
        names.id_of(a) is Some,
        names.id_of(a) == names.id_of(b),
    ensures
        a == b,
{
    lemma_number_stands_for_one_text(names.bases, base_of(a), base_of(b), 0);
    lemma_text_of_its_parts(a, 0);
    lemma_text_of_its_parts(b, 0);
    let ha = first_place(a, '-', 0);
    let hb = first_place(b, '-', 0);
    assert(base_of(a).len() == ha && base_of(b).len() == hb);
    match (version_of(a), version_of(b)) {
        (Some(va), Some(vb)) => {
            lemma_number_stands_for_one_text(names.versions, va, vb, 1);
            assert(a =~= base_of(a) + seq!['-'] + va);
            assert(b =~= base_of(b) + seq!['-'] + vb);
        },
        (None, None) => {
            assert(a =~= base_of(a));
            assert(b =~= base_of(b));
        },
        (Some(v), None) | (None, Some(v)) => {
            lemma_place_of(names.versions, v, 0);
            assert(number_of(names.versions, v, 1)->0 != 0);
        },
    }
}

/// Versions of a skill, and no other ids, share its number.
pub proof fn versions_share_the_number(names: NamesState, a: Seq<char>, b: Seq<char>)
    requires
        names.id_of(a) is Some,
        names.id_of(b) is Some,
    ensures
        names.id_of(a)->0.number == names.id_of(b)->0.number <==> base_of(a) == base_of(b),
{
    if names.id_of(a)->0.number == names.id_of(b)->0.number {
        lemma_number_stands_for_one_text(names.bases, base_of(a), base_of(b), 0);
    }
}

/// A text keeps its id, whatever is met later.
pub proof fn an_id_once_given_stays(names: NamesState, text: Seq<char>, later: Seq<char>)
    requires
        names.id_of(text) is Some,
    ensures
        names.met(later).id_of(text) == names.id_of(text),
{
    lemma_number_stays(names.bases, base_of(text), base_of(later), 0);
    if let Some(v) = version_of(text) {
        if let Some(w) = version_of(later) {
            lemma_number_stays(names.versions, v, w, 1);
        }
    }
}

/// Every text that is met gets an id, while there are numbers left.
pub proof fn every_text_gets_an_id(names: NamesState, text: Seq<char>)
    requires
        names.bases.len() < NAMED_FROM,
        names.versions.len() < NAMED_FROM,
    ensures
        names.met(text).id_of(text) is Some,
{
    lemma_a_number_is_given(names.bases, base_of(text), 0);
    if let Some(v) = version_of(text) {
        lemma_a_number_is_given(names.versions, v, 1);
    }
}

/// A text that writes a number, or a number and a version, stands for just
/// that, whatever has been met.
pub proof fn a_written_id_stands_for_itself(names: NamesState, text: Seq<char>)
    requires
        plain_number(base_of(text), 0) is Some,
        version_of(text) matches Some(v) ==> plain_number(v, 1) is Some,
    ensures
        names.id_of(text) == Some(
            SkillId {
                number: plain_number(base_of(text), 0)->0,
                version: match version_of(text) {
                    Some(v) => plain_number(v, 1)->0,
                    None => 0,
                },
            },
        ),
        names.met(text) == names,
{
}

/// An id's text is its base and, behind the first hyphen, its version.
pub proof fn a_text_is_its_base_and_version(text: Seq<char>)
    ensures
        forall|i: int| 0 <= i < base_of(text).len() ==> base_of(text)[i] != '-',
        match version_of(text) {
            Some(v) => text == base_of(text) + seq!['-'] + v,
            None => text == base_of(text),
        },
{
    crate::language::the_first_place_is_the_first(text, '-', 0);
    let hyphen = first_place(text, '-', 0);
    if let Some(v) = version_of(text) {
        assert(text =~= base_of(text) + seq!['-'] + v);
    } else {
        assert(text =~= base_of(text));
    }
}

/// A text stands for the number it writes by itself where it is one under the
/// first given one, not under the least, and written without a leading zero; any
/// other text gets the next number in turn.
pub proof fn a_text_writes_its_number_or_gets_one(
    list: Seq<Seq<char>>,
    text: Seq<char>,
    least: int,
    i: int,
)
    ensures
        ({
            let written = crate::language::digits_value(text);
            let plain = text.len() > 0 && written is Some && least <= written->0
                && written->0 < 0x8000_0000 && (text.len() == 1 || text[0] != '0');
            &&& plain ==> number_of(list, text, least) is Some && number_of(
                list,
                text,
                least,
            )->0 == written->0
            &&& !plain && 0 <= i < list.len() && i < 0x8000_0000 && list[i] == text && (forall|
                j: int,
            | 0 <= j < i ==> list[j] != text) ==> number_of(list, text, least) == Some(
                (0x8000_0000 + i) as u32,
            )
            &&& !plain && (forall|j: int| 0 <= j < list.len() ==> list[j] != text) ==> number_of(
                list,
                text,
                least,
            ) is None
        }),
{
    crate::language::lemma_digits_are_natural(text);
    lemma_place_of(list, text, 0);
}

} // verus!
