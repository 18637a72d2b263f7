//! The words of a race: who runs, how, and where.
use vstd::prelude::*;

verus! {

/// A runner of the field.
#[derive(Debug, Clone, Copy, PartialEq, Eq, Structural)]
pub struct RunnerId(pub u32);

/// A skill: its number in the skill data, and which inherited or upgraded
/// version of it this is (0 for the plain one).
#[derive(Debug, Clone, Copy, PartialEq, Eq, Structural)]
pub struct SkillId {
    /// The skill's number.
    pub number: u32,
    /// The version.
    pub version: u32,
}

impl SkillId {
    /// The plain version of skill `number`.
    pub fn new(number: u32) -> (id: SkillId)
        ensures
            id == (SkillId { number, version: 0 }),
    {
        SkillId { number, version: 0 }
    }

    /// The skill's number, which every version of it shares.
    pub fn base(&self) -> (number: u32)
        ensures
            number == self.number,
    {
        self.number
    }
}

/// The value of a decimal digit.
pub open spec fn digit_value(c: char) -> Option<int> {
    if '0' <= c && c <= '9' {
        Some(c as int - '0' as int)
    } else {
        None
    }
}

/// The number a run of decimal digits stands for; none where some character is
/// no digit.
pub open spec fn digits_value(text: Seq<char>) -> Option<int>
    decreases text.len(),
{
    if text.len() == 0 {
        Some(0)
    } else {
        match (digits_value(text.drop_last()), digit_value(text.last())) {
            (Some(front), Some(d)) => Some(front * 10 + d),
            _ => None,
        }
    }
}

/// The number `text` writes: at least one digit, and no larger than a `u32`.
pub open spec fn written_number(text: Seq<char>) -> Option<u32> {
    if text.len() == 0 {
        None
    } else {
        match digits_value(text) {
            Some(v) => if v <= u32::MAX {
                Some(v as u32)
            } else {
                None
            },
            None => None,
        }
    }
}

/// The first place of `c` in `text`, from `at` on; its length where there is
/// none.
pub open spec fn first_place(text: Seq<char>, c: char, at: int) -> int
    decreases text.len() - at,
{
    if at >= text.len() {
        text.len() as int
    } else if text[at] == c {
        at
    } else {
        first_place(text, c, at + 1)
    }
}

proof fn lemma_more_digits_is_larger(text: Seq<char>, n: int)
    requires
        0 <= n <= text.len(),
    ensures
        digits_value(text) matches Some(v) ==> (digits_value(text.take(n)) matches Some(front)
            && 0 <= front <= v),
    decreases text.len() - n,
{
    if n < text.len() {
        lemma_more_digits_is_larger(text, n + 1);
        assert(text.take(n + 1).drop_last() =~= text.take(n));
        lemma_digits_are_natural(text.take(n));
    } else {
        assert(text.take(n) =~= text);
        lemma_digits_are_natural(text);
    }
}

pub(crate) proof fn lemma_digits_are_natural(text: Seq<char>)
    ensures
        digits_value(text) matches Some(v) ==> v >= 0,
    decreases text.len(),
{
    if text.len() > 0 {
        lemma_digits_are_natural(text.drop_last());
    }
}

fn read_digit(c: char) -> (d: Option<u64>)
    ensures
        match d {
            Some(v) => digit_value(c) == Some(v as int) && v <= 9,
            None => digit_value(c) is None,
        },
{
    if '0' <= c && c <= '9' {
        Some(c as u64 - '0' as u64)
    } else {
        None
    }
}

/// The number written in `text` from place `from` up to place `to`.
pub(crate) fn read_number(text: &str, from: usize, to: usize) -> (number: Option<u32>)
    requires
        from <= to <= text@.len(),
    ensures
        number == written_number(text@.subrange(from as int, to as int)),
{
    let ghost part = text@.subrange(from as int, to as int);
    if from == to {
        return None;
    }
    let mut value: u64 = 0;
    let mut at: usize = from;
    proof {
        assert(part.take(0) =~= Seq::<char>::empty());
    }
    while at < to
        invariant
            from <= at <= to <= text@.len(),
            from < to,
            part == text@.subrange(from as int, to as int),
            value <= u32::MAX,
            digits_value(part.take(at - from)) == Some(value as int),
        decreases to - at,
    {
        proof {
            assert(part.take(at - from + 1).drop_last() =~= part.take(at - from));
            assert(part.take(at - from + 1).last() == text@[at as int]);
            lemma_more_digits_is_larger(part, at - from + 1);
        }
        match read_digit(text.get_char(at)) {
            Some(d) => {
                value = value * 10 + d;
                if value > u32::MAX as u64 {
                    return None;
                }
            },
            None => {
                return None;
            },
        }
        at = at + 1;
    }
    proof {
        assert(part.take(at - from) =~= part);
    }
    Some(value as u32)
}

pub(crate) fn find_char(text: &str, c: char, len: usize) -> (at: usize)
    requires
        len == text@.len(),
    ensures
        at == first_place(text@, c, 0),
        at <= len,
{
    let mut at: usize = 0;
    while at < len
        invariant
            at <= len,
            len == text@.len(),
            first_place(text@, c, 0) == first_place(text@, c, at as int),
        decreases len - at,
    {
        if text.get_char(at) == c {
            return at;
        }
        at = at + 1;
    }
    at
}

/// Running style.
#[derive(Debug, Clone, Copy, PartialEq, Eq, Structural)]
pub enum Strategy {
    FrontRunner,
    PaceChaser,
    LateSurger,
    EndCloser,
    Runaway,
}

/// Whether style `a` counts as style `b`: a Runaway is a Front Runner.
pub open spec fn styles_match(a: Strategy, b: Strategy) -> bool {
    a == b || (a == Strategy::Runaway && b == Strategy::FrontRunner) || (a == Strategy::FrontRunner
        && b == Strategy::Runaway)
}

/// Whether style `a` counts as style `b`: a Runaway is a Front Runner.
pub fn strategy_matches(a: Strategy, b: Strategy) -> (matching: bool)
    ensures
        matching == styles_match(a, b),
{
    a == b || (a == Strategy::Runaway && b == Strategy::FrontRunner) || (a == Strategy::FrontRunner
        && b == Strategy::Runaway)
}

/// A quarter of the race by its rules.
#[derive(Debug, Clone, Copy, PartialEq, Eq, Structural)]
pub enum Phase {
    EarlyRace,
    MidRace,
    LateRace,
    LastSpurt,
}

impl Phase {
    /// The phase's place in the race, from 0.
    pub open spec fn place(self) -> int {
        match self {
            Phase::EarlyRace => 0,
            Phase::MidRace => 1,
            Phase::LateRace => 2,
            Phase::LastSpurt => 3,
        }
    }

    /// The phase's place in the race, from 0.
    pub fn index(&self) -> (i: usize)
        ensures
            i == self.place(),
            i < 4,
    {
        match self {
            Phase::EarlyRace => 0,
            Phase::MidRace => 1,
            Phase::LateRace => 2,
            Phase::LastSpurt => 3,
        }
    }
}

/// A runner's mood.
#[derive(Debug, Clone, Copy, PartialEq, Eq, Structural)]
pub enum Mood {
    Awful,
    Bad,
    Normal,
    Good,
    Great,
}

/// How a condition's value is held against its argument.
#[derive(Debug, Clone, Copy, PartialEq, Eq, Structural)]
pub enum Comparison {
    Eq,
    Neq,
    Lt,
    Lte,
    Gt,
    Gte,
}

/// A stretch of the course, `[start, end)`.
#[derive(Debug, Clone, Copy, PartialEq, Eq, Structural)]
pub struct Region {
    pub start: i64,
    pub end: i64,
}

impl Region {
    /// Whether `position` lies in the stretch.
    pub open spec fn holds(self, position: int) -> bool {
        self.start <= position < self.end
    }

    /// The stretch `[start, end)`.
    pub fn new(start: i64, end: i64) -> (r: Region)
        ensures
            r == (Region { start, end }),
    {
        Region { start, end }
    }

    /// Whether `position` lies in the stretch.
    pub fn contains(&self, position: i64) -> (inside: bool)
        ensures
            inside == self.holds(position as int),
    {
        position >= self.start && position < self.end
    }

    /// The part of the stretch that lies in `other` too.
    pub open spec fn overlap(self, other: Region) -> Region {
        Region {
            start: if self.start >= other.start {
                self.start
            } else {
                other.start
            },
            end: if self.end <= other.end {
                self.end
            } else {
                other.end
            },
        }
    }

    /// Whether the stretch holds no position.
    pub open spec fn vacant(self) -> bool {
        self.end <= self.start
    }

    /// The part of the stretch that lies in `other` too.
    pub fn intersect(&self, other: &Region) -> (r: Region)
        ensures
            r == self.overlap(*other),
    {
        Region {
            start: if self.start >= other.start {
                self.start
            } else {
                other.start
            },
            end: if self.end <= other.end {
                self.end
            } else {
                other.end
            },
        }
    }
}

/// A list of stretches.
#[derive(Debug)]
pub struct RegionList(pub Vec<Region>);

impl View for RegionList {
    type V = Seq<Region>;

    open spec fn view(&self) -> Seq<Region> {
        self.0@
    }
}

/// The stretches of `regions` narrowed to `bounds`, the vacant ones left out.
pub open spec fn narrowed(regions: Seq<Region>, bounds: Region) -> Seq<Region>
    decreases regions.len(),
{
    if regions.len() == 0 {
        Seq::empty()
    } else {
        let kept = narrowed(regions.drop_last(), bounds);
        let part = regions.last().overlap(bounds);
        if part.vacant() {
            kept
        } else {
            kept.push(part)
        }
    }
}

/// Narrowing keeps exactly the positions that lie in the list and in the
/// bounds.
pub proof fn narrowing_keeps_the_common_positions(
    regions: Seq<Region>,
    bounds: Region,
    position: int,
)
    ensures
        (exists|i: int|
            0 <= i < narrowed(regions, bounds).len() && (#[trigger] narrowed(
                regions,
                bounds,
            )[i]).holds(position)) <==> bounds.holds(position) && (exists|i: int|
            0 <= i < regions.len() && (#[trigger] regions[i]).holds(position)),
    decreases regions.len(),
{
    if regions.len() > 0 {
        let kept = narrowed(regions.drop_last(), bounds);
        let all = narrowed(regions, bounds);
        let part = regions.last().overlap(bounds);
        narrowing_keeps_the_common_positions(regions.drop_last(), bounds, position);
        assert(part.holds(position) <==> regions.last().holds(position) && bounds.holds(position));
        if exists|i: int| 0 <= i < all.len() && (#[trigger] all[i]).holds(position) {
            let i = choose|i: int| 0 <= i < all.len() && (#[trigger] all[i]).holds(position);
            if i < kept.len() {
                assert(kept[i].holds(position));
                let j = choose|j: int|
                    0 <= j < regions.drop_last().len() && (#[trigger] regions.drop_last()[j]).holds(
                        position,
                    );
                assert(regions[j].holds(position));
            } else {
                assert(regions[regions.len() - 1].holds(position));
            }
        }
        if bounds.holds(position) && (exists|i: int|
            0 <= i < regions.len() && (#[trigger] regions[i]).holds(position)) {
            let i = choose|i: int|
                0 <= i < regions.len() && (#[trigger] regions[i]).holds(position);
            if i < regions.len() - 1 {
                assert(regions.drop_last()[i].holds(position));
                let j = choose|j: int| 0 <= j < kept.len() && (#[trigger] kept[j]).holds(position);
                assert(all[j].holds(position));
            } else {
                assert(all[all.len() - 1].holds(position));
            }
        }
    }
}

impl RegionList {
    /// An empty list.
    pub fn new() -> (list: RegionList)
        ensures
            list@ == Seq::<Region>::empty(),
    {
        RegionList(Vec::new())
    }

    /// Add a stretch at the end.
    pub fn push(&mut self, region: Region)
        ensures
            final(self)@ == old(self)@.push(region),
    {
        self.0.push(region);
    }

    /// Whether some stretch of the list holds `position`.
    pub fn contains(&self, position: i64) -> (inside: bool)
        ensures
            inside == covered(self@, position as int),
    {
        let mut i: usize = 0;
        while i < self.0.len()
            invariant
                i <= self.0.len(),
                forall|k: int| 0 <= k < i ==> !(#[trigger] self@[k]).holds(position as int),
            decreases self.0.len() - i,
        {
            if self.0[i].contains(position) {
                assert(self@[i as int].holds(position as int));
                return true;
            }
            i = i + 1;
        }
        false
    }

    /// The list narrowed to `bounds`, vacant stretches left out.
    pub fn narrow(&self, bounds: &Region) -> (list: RegionList)
        ensures
            list@ == narrowed(self@, *bounds),
    {
        let mut list = RegionList::new();
        let mut i: usize = 0;
        proof {
            assert(self@.take(0) =~= Seq::<Region>::empty());
        }
        while i < self.0.len()
            invariant
                i <= self.0.len(),
                list@ == narrowed(self@.take(i as int), *bounds),
            decreases self.0.len() - i,
        {
            proof {
                assert(self@.take(i + 1).drop_last() =~= self@.take(i as int));
            }
            let part = self.0[i].intersect(bounds);
            if part.end > part.start {
                list.push(part);
            }
            i = i + 1;
        }
        proof {
            assert(self@.take(i as int) =~= self@);
        }
        list
    }

    /// The same list again.
    pub fn duplicate(&self) -> (list: RegionList)
        ensures
            list@ == self@,
    {
        RegionList(copy_regions(&self.0))
    }
}

/// Whether some stretch of the list holds `position`.
pub open spec fn covered(regions: Seq<Region>, position: int) -> bool {
    exists|i: int| 0 <= i < regions.len() && (#[trigger] regions[i]).holds(position)
}

/// The same stretches again.
pub fn copy_regions(regions: &Vec<Region>) -> (copy: Vec<Region>)
    ensures
        copy@ == regions@,
{
    let mut copy: Vec<Region> = Vec::new();
    let mut i: usize = 0;
    while i < regions.len()
        invariant
            i <= regions.len(),
            copy@ == regions@.take(i as int),
        decreases regions.len() - i,
    {
        copy.push(regions[i]);
        i = i + 1;
        proof {
            assert(regions@.take(i as int) =~= regions@.take(i - 1).push(regions@[i - 1]));
        }
    }
    proof {
        assert(regions@.take(i as int) =~= regions@);
    }
    copy
}

/// Whether `needle` stands in `text` from place `at`.
pub open spec fn stands_at(text: Seq<char>, needle: Seq<char>, at: int) -> bool {
    0 <= at && at + needle.len() <= text.len() && text.subrange(at, at + needle.len() as int)
        == needle
}

/// Whether `needle` stands somewhere in `text`.
pub open spec fn mentions(text: Seq<char>, needle: Seq<char>) -> bool {
    exists|at: int| stands_at(text, needle, at)
}

/// Whether `needle` stands in `text` from place `at`.
fn text_at(text: &str, needle: &str, at: usize, text_len: usize, needle_len: usize) -> (found: bool)
    requires
        text@.len() == text_len,
        needle@.len() == needle_len,
        at + needle_len <= text_len,
    ensures
        found == stands_at(text@, needle@, at as int),
{
    let mut k: usize = 0;
    while k < needle_len
        invariant
            k <= needle_len,
            text@.len() == text_len,
            needle@.len() == needle_len,
            at + needle_len <= text_len,
            forall|j: int| 0 <= j < k ==> text@[at + j] == needle@[j],
        decreases needle_len - k,
    {
        if text.get_char(at + k) != needle.get_char(k) {
            assert(text@.subrange(at as int, at + needle_len as int)[k as int] != needle@[k as int]);
            return false;
        }
        k = k + 1;
    }
    assert(text@.subrange(at as int, at + needle_len as int) =~= needle@);
    true
}

/// Whether `needle` stands somewhere in `text`.
pub fn text_mentions(text: &str, needle: &str) -> (found: bool)
    ensures
        found == mentions(text@, needle@),
{
    let text_len: usize = text.unicode_len();
    let needle_len: usize = needle.unicode_len();
    if needle_len > text_len {
        return false;
    }
    let mut at: usize = 0;
    while at <= text_len - needle_len
        invariant
            text@.len() == text_len,
            needle@.len() == needle_len,
            needle_len <= text_len,
            at <= text_len - needle_len + 1,
            forall|k: int| 0 <= k < at ==> !#[trigger] stands_at(text@, needle@, k),
        decreases text_len - needle_len + 1 - at,
    {
        if text_at(text, needle, at, text_len, needle_len) {
            return true;
        }
        if at == text_len - needle_len {
            assert forall|k: int| !#[trigger] stands_at(text@, needle@, k) by {
                if k == at as int {
                }
            }
            return false;
        }
        at = at + 1;
    }
    false
}

/// Whether the two texts are the same.
pub fn same_text(a: &str, b: &str) -> (same: bool)
    ensures
        same == (a@ == b@),
{
    let a_len: usize = a.unicode_len();
    let b_len: usize = b.unicode_len();
    if a_len != b_len {
        return false;
    }
    let same: bool = text_at(a, b, 0, a_len, b_len);
    proof {
        assert(a@.subrange(0, a@.len() as int) =~= a@);
    }
    same
}

/// A digit in front of a written number counts as many tens as digits follow,
/// one behind it counts once and moves the others up; a character that is no
/// digit makes it no number.
pub proof fn digits_count_by_their_place(front: char, text: Seq<char>)
    ensures
        match (digit_value(front), digits_value(text)) {
            (Some(d), Some(v)) => digits_value(seq![front] + text) == Some(
                d * vstd::arithmetic::power::pow(10, text.len()) + v,
            ),
            _ => digits_value(seq![front] + text) is None,
        },
        digit_value(front) is Some <==> '0' <= front && front <= '9',
        digit_value('0') == Some(0int),
        digit_value('9') == Some(9int),
    decreases text.len(),
{
    let all = seq![front] + text;
    if text.len() == 0 {
        assert(all.drop_last() =~= Seq::<char>::empty());
        vstd::arithmetic::power::lemma_pow0(10);
        assert(all.last() == front);
        assert(digits_value(all.drop_last()) == Some(0int));
    } else {
        digits_count_by_their_place(front, text.drop_last());
        assert(all.drop_last() =~= seq![front] + text.drop_last());
        assert(all.last() == text.last());
        reveal(vstd::arithmetic::power::pow);
        let p = vstd::arithmetic::power::pow(10, (text.len() - 1) as nat);
        assert(vstd::arithmetic::power::pow(10, text.len()) == 10 * p);
        if let (Some(d), Some(v)) = (digit_value(front), digits_value(text.drop_last())) {
            assert((d * p + v) * 10 == d * (10 * p) + v * 10) by (nonlinear_arith);
        }
    }
}

/// A number is written where there is at least one digit, and only digits, and it
/// fits.
pub proof fn a_number_is_written_in_digits(text: Seq<char>)
    ensures
        text.len() == 0 ==> written_number(text) is None,
        text.len() > 0 ==> match digits_value(text) {
            Some(v) => if v <= 0xffff_ffff {
                written_number(text) is Some && written_number(text)->0 == v
            } else {
                written_number(text) is None
            },
            None => written_number(text) is None,
        },
{
    lemma_digits_are_natural(text);
}

/// The first place of a character holds it and no place before it does; where
/// there is none the place is past the end.
pub proof fn the_first_place_is_the_first(text: Seq<char>, c: char, at: int)
    requires
        0 <= at <= text.len(),
    ensures
        at <= first_place(text, c, at) <= text.len(),
        first_place(text, c, at) < text.len() ==> text[first_place(text, c, at)] == c,
        forall|i: int| at <= i < first_place(text, c, at) ==> text[i] != c,
    decreases text.len() - at,
{
    if at < text.len() && text[at] != c {
        the_first_place_is_the_first(text, c, at + 1);
    }
}

/// A style counts as itself, a Runaway and a Front Runner as each other, and no
/// other two as each other.
pub proof fn a_runaway_is_a_front_runner(a: Strategy, b: Strategy)
    ensures
        styles_match(a, a),
        styles_match(a, b) == styles_match(b, a),
        styles_match(Strategy::Runaway, Strategy::FrontRunner),
        styles_match(a, b) && a != b ==> a == Strategy::Runaway || b == Strategy::Runaway,
        styles_match(a, b) && a != b ==> a == Strategy::FrontRunner || b == Strategy::FrontRunner,
{
}

/// Narrowed stretches stand in the order of the list, one for each that has
/// something in common with the bounds, from the later start to the earlier end.
pub proof fn narrowed_stretches_keep_their_order(regions: Seq<Region>, bounds: Region)
    ensures
        ({
            let touching = regions.filter(
                |r: Region|
                    r.start < r.end && bounds.start < bounds.end && r.start < bounds.end
                        && bounds.start < r.end,
            );
            let parts = narrowed(regions, bounds);
            &&& parts.len() == touching.len()
            &&& forall|i: int|
                0 <= i < parts.len() ==> {
                    let p = #[trigger] parts[i];
                    &&& p.start >= touching[i].start && p.start >= bounds.start
                    &&& p.start == touching[i].start || p.start == bounds.start
                    &&& p.end <= touching[i].end && p.end <= bounds.end
                    &&& p.end == touching[i].end || p.end == bounds.end
                    &&& p.start < p.end
                }
        }),
    decreases regions.len(),
{
    reveal(Seq::filter);
    if regions.len() > 0 {
        narrowed_stretches_keep_their_order(regions.drop_last(), bounds);
    }
}

} // verus!
