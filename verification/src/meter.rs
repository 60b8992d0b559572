use crate::alignment::{
    best_path, best_row, lemma_best_row_len, lemma_prefix_max, pred_limit, prefix_argmax,
    prefix_max,
};
use crate::candidates::{bindings_of, get_possible_rhymes, rhyme_slots, rows_view, RhymeCandidates};
use crate::rhyme::{Rhyme, RhymeDict, RhymeId};
use crate::text::{chars_views, sentences_of, split_sentences, str_chars, string_of_chars};
use crate::tone::{meter_view, tone_match, tone_matches, MeterTone};
use vstd::prelude::*;

verus! {

/// How one character of a sentence fares against its slot.
#[derive(Clone, Copy, PartialEq, Eq, Structural, Debug)]
pub enum MatchType {
    /// The tone is wrong, or there is no slot or no character.
    NoMatch,
    /// The tone is right and the rhyme is wrong.
    ToneOnly,
    /// Tone and rhyme are right.
    AllMatch,
}

/// The score 1.0 in the fixed-point scale of all scores. It is five
/// times the least common multiple of 1 to 40, so that the score of a
/// sentence against a line is exact wherever neither is longer than 40.
pub const SCORE_ONE: u64 = 26_714_657_285_316_000;

/// What one fifth of a character is worth before the division by the
/// length: a character scores four units for its tone and one for its
/// rhyme.
pub const SCORE_UNIT: u64 = 5_342_931_457_063_200;

/// One segment of an alignment. A sentence on a template line has all
/// three parts; a sentence in a gap has its text and an empty
/// classification; a template line without a sentence has the line
/// alone.
pub struct SentenceMatchResult {
    pub match_result: Option<Vec<MatchType>>,
    pub text: Option<String>,
    pub meter: Option<Vec<MeterTone>>,
}

/// What a segment holds.
pub struct SegmentView {
    pub match_result: Option<Seq<MatchType>>,
    pub text: Option<Seq<char>>,
    pub meter: Option<Seq<MeterTone>>,
}

impl View for SentenceMatchResult {
    type V = SegmentView;

    open spec fn view(&self) -> SegmentView {
        SegmentView {
            match_result: match self.match_result {
                Some(v) => Some(v@),
                None => None,
            },
            text: match self.text {
                Some(t) => Some(t@),
                None => None,
            },
            meter: match self.meter {
                Some(m) => Some(m@),
                None => None,
            },
        }
    }
}

/// The result of matching a text against a template: the segments in
/// reading order, and the score, between 0 and `SCORE_ONE`.
pub struct MeterMatchResult {
    pub score: u64,
    pub result: Vec<SentenceMatchResult>,
}

/// What a result holds.
pub struct MatchView {
    pub score: nat,
    pub result: Seq<SegmentView>,
}

/// The views of a vector of segments.
pub open spec fn segments_view(v: Seq<SentenceMatchResult>) -> Seq<SegmentView> {
    Seq::new(v.len(), |i: int| v[i]@)
}

impl View for MeterMatchResult {
    type V = MatchView;

    open spec fn view(&self) -> MatchView {
        MatchView { score: self.score as nat, result: segments_view(self.result@) }
    }
}

/// Whether one of `records` has a tone that slot `q` accepts.
pub open spec fn tone_satisfied(records: Seq<Rhyme>, q: MeterTone) -> bool {
    exists|k: int| 0 <= k < records.len() && tone_matches(#[trigger] records[k].tone, q)
}

/// Whether one of `records` is the rhyme `id`.
pub open spec fn has_rhyme(records: Seq<Rhyme>, id: RhymeId) -> bool {
    exists|k: int| 0 <= k < records.len() && (#[trigger] records[k]).id == id
}

/// Whether the rhyme constraint of slot `q` is met, when `bound` is the
/// rhyme that the slot is bound to. A slot without a rhyme-group number
/// has no constraint.
pub open spec fn rhyme_satisfied(records: Seq<Rhyme>, q: MeterTone, bound: Option<RhymeId>) -> bool {
    q.rhyme_num is None || (bound is Some && has_rhyme(records, bound->0))
}

/// Where `q` first stands among `slots`, or `slots.len()`.
pub open spec fn slot_index(slots: Seq<MeterTone>, q: MeterTone) -> int
    decreases slots.len(),
{
    if slots.len() == 0 {
        0
    } else if slots[0] == q {
        0
    } else {
        1 + slot_index(slots.drop_first(), q)
    }
}

/// The rhyme that slot `q` is bound to under `bound`, which runs
/// parallel to `slots`.
pub open spec fn bound_rhyme(slots: Seq<MeterTone>, bound: Seq<Option<RhymeId>>, q: MeterTone) -> Option<
    RhymeId,
> {
    let i = slot_index(slots, q);
    if i < slots.len() && i < bound.len() {
        bound[i]
    } else {
        None
    }
}

/// The classification of a character with `records` at slot `q`.
pub open spec fn char_class(records: Seq<Rhyme>, q: MeterTone, bound: Option<RhymeId>) -> MatchType {
    if tone_satisfied(records, q) {
        if rhyme_satisfied(records, q, bound) {
            MatchType::AllMatch
        } else {
            MatchType::ToneOnly
        }
    } else {
        MatchType::NoMatch
    }
}

/// The units that a character with `records` earns at slot `q`: four
/// for the tone and one for the rhyme.
pub open spec fn char_units(records: Seq<Rhyme>, q: MeterTone, bound: Option<RhymeId>) -> nat {
    (if tone_satisfied(records, q) {
        4nat
    } else {
        0nat
    }) + (if rhyme_satisfied(records, q, bound) {
        1nat
    } else {
        0nat
    })
}

/// All that the scoring of a sentence against a line depends on.
pub struct Scoring {
    pub dict: RhymeDict,
    pub slots: Seq<MeterTone>,
    pub bound: Seq<Option<RhymeId>>,
}

impl Scoring {
    /// The classification of place `i` of sentence `c` against line `q`.
    pub open spec fn class_at(self, c: Seq<char>, q: Seq<MeterTone>, i: int) -> MatchType {
        if 0 <= i < c.len() && i < q.len() {
            char_class(self.dict.rhymes_of(c[i]), q[i], bound_rhyme(self.slots, self.bound, q[i]))
        } else {
            MatchType::NoMatch
        }
    }

    /// The units earned at place `i` of sentence `c` against line `q`.
    pub open spec fn units_at(self, c: Seq<char>, q: Seq<MeterTone>, i: int) -> nat {
        if 0 <= i < c.len() && i < q.len() {
            char_units(self.dict.rhymes_of(c[i]), q[i], bound_rhyme(self.slots, self.bound, q[i]))
        } else {
            0
        }
    }

    /// The units earned at the first `n` places.
    pub open spec fn units_upto(self, c: Seq<char>, q: Seq<MeterTone>, n: int) -> nat
        decreases n,
    {
        if n <= 0 {
            0
        } else {
            self.units_upto(c, q, n - 1) + self.units_at(c, q, n - 1)
        }
    }

    /// The classifications of sentence `c` against line `q`, one for
    /// each place of the longer of the two.
    pub open spec fn classes(self, c: Seq<char>, q: Seq<MeterTone>) -> Seq<MatchType> {
        Seq::new(match_len(c, q), |i: int| self.class_at(c, q, i))
    }

    /// The units that sentence `c` earns against line `q`.
    pub open spec fn units(self, c: Seq<char>, q: Seq<MeterTone>) -> nat {
        self.units_upto(c, q, match_len(c, q) as int)
    }

    /// The score of sentence `c` against line `q`: its units over five
    /// times the length of the longer of the two, in fixed point.
    pub open spec fn score(self, c: Seq<char>, q: Seq<MeterTone>) -> nat {
        sentence_score(self.units(c, q), match_len(c, q))
    }
}

/// The length of the longer of a sentence and a line.
pub open spec fn match_len(c: Seq<char>, q: Seq<MeterTone>) -> nat {
    if c.len() >= q.len() {
        c.len()
    } else {
        q.len()
    }
}

/// The fixed-point score of `units` earned over `n` places.
pub open spec fn sentence_score(units: nat, n: nat) -> nat {
    if n == 0 {
        0
    } else {
        (units * SCORE_UNIT / n as int) as nat
    }
}

/// The units of the first `n` places are at most five for each place
/// where both a character and a slot stand.
pub proof fn lemma_units_bound(sc: Scoring, c: Seq<char>, q: Seq<MeterTone>, n: int)
    ensures
        sc.units_upto(c, q, n) <= 5 * n || n < 0,
        n < 0 ==> sc.units_upto(c, q, n) == 0,
    decreases n,
{
    if n > 0 {
        lemma_units_bound(sc, c, q, n - 1);
    }
}

/// A sentence never scores more than 1.0 against a line.
pub proof fn lemma_sentence_score_bound(units: nat, n: nat)
    requires
        units <= 5 * n,
    ensures
        sentence_score(units, n) <= SCORE_ONE,
        units == 5 * n && n > 0 ==> sentence_score(units, n) == SCORE_ONE,
{
    if n > 0 {
        let unit = SCORE_UNIT as int;
        let m = n as int;
        let top = m * (5 * unit);
        assert(units * unit <= top) by (nonlinear_arith)
            requires
                units <= 5 * m,
                unit >= 0,
                top == m * (5 * unit),
        ;
        vstd::arithmetic::div_mod::lemma_div_is_ordered(units * unit, top, m);
        vstd::arithmetic::div_mod::lemma_div_multiples_vanish(5 * unit, m);
        assert(top / m == 5 * unit);
        assert(5 * unit == SCORE_ONE);
        assert(sentence_score(units, n) == (units * unit) / m);
        if units == 5 * n {
            assert(units * unit == top) by (nonlinear_arith)
                requires
                    units == 5 * m,
                    top == m * (5 * unit),
            ;
        }
    }
}

/// Where `q` first stands among `slots`.
pub fn find_slot(slots: &Vec<MeterTone>, q: &MeterTone) -> (r: usize)
    ensures
        r == slot_index(slots@, *q),
        r <= slots.len(),
        r < slots.len() ==> slots@[r as int] == *q,
{
    let mut i: usize = 0;
    assert(slots@.subrange(0, slots.len() as int) =~= slots@);
    while i < slots.len()
        invariant
            i <= slots.len(),
            slot_index(slots@, *q) == i + slot_index(slots@.subrange(i as int, slots.len() as int), *q),
        decreases slots.len() - i,
    {
        let ghost rest = slots@.subrange(i as int, slots.len() as int);
        assert(rest[0] == slots@[i as int]);
        if slots[i] == *q {
            return i;
        }
        assert(rest.drop_first() =~= slots@.subrange(i + 1, slots.len() as int));
        i += 1;
    }
    i
}

/// Whether a reading of `c` has a tone that slot `q` accepts.
pub fn char_has_tone(dict: &RhymeDict, c: char, q: &MeterTone) -> (r: bool)
    ensures
        r == tone_satisfied(dict.rhymes_of(c), *q),
{
    match dict.record_indices(c) {
        None => false,
        Some(idx) => {
            let ghost records = dict.rhymes_of(c);
            let mut k: usize = 0;
            while k < idx.len()
                invariant
                    k <= idx.len(),
                    idx@ == dict.indices_of(c),
                    records == dict.rhymes_of(c),
                    forall|j: int|
                        0 <= j < idx@.len() ==> (#[trigger] idx@[j]) < dict.rhymes().len(),
                    forall|j: int| 0 <= j < k ==> !tone_matches(#[trigger] records[j].tone, *q),
                decreases idx.len() - k,
            {
                assert(idx@[k as int] < dict.rhymes().len());
                let record = dict.rhyme_at(idx[k]);
                assert(*record == records[k as int]);
                if tone_match(&record.tone, q) {
                    return true;
                }
                k += 1;
            }
            false
        },
    }
}

/// Whether `c` belongs to the rhyme `id`.
pub fn char_has_rhyme(dict: &RhymeDict, c: char, id: RhymeId) -> (r: bool)
    ensures
        r == has_rhyme(dict.rhymes_of(c), id),
{
    match dict.record_indices(c) {
        None => false,
        Some(idx) => {
            let ghost records = dict.rhymes_of(c);
            let mut k: usize = 0;
            while k < idx.len()
                invariant
                    k <= idx.len(),
                    idx@ == dict.indices_of(c),
                    records == dict.rhymes_of(c),
                    forall|j: int|
                        0 <= j < idx@.len() ==> (#[trigger] idx@[j]) < dict.rhymes().len(),
                    forall|j: int| 0 <= j < k ==> (#[trigger] records[j]).id != id,
                decreases idx.len() - k,
            {
                assert(idx@[k as int] < dict.rhymes().len());
                let record = dict.rhyme_at(idx[k]);
                assert(*record == records[k as int]);
                if record.id == id {
                    return true;
                }
                k += 1;
            }
            false
        },
    }
}

/// Scores a sentence against a template line under one binding of the
/// rhyme slots, and classifies each place. A place beyond the end of
/// the sentence or of the line is a `NoMatch` and earns nothing.
pub fn match_sentence(
    dict: &RhymeDict,
    sentence: &Vec<char>,
    rule: &Vec<MeterTone>,
    slots: &Vec<MeterTone>,
    bound: &Vec<Option<RhymeId>>,
) -> (r: (u64, Vec<MatchType>))
    ensures
        ({
            let sc = Scoring { dict: *dict, slots: slots@, bound: bound@ };
            &&& r.0 == sc.score(sentence@, rule@)
            &&& r.1@ == sc.classes(sentence@, rule@)
            &&& r.0 <= SCORE_ONE
        }),
{
    let ghost sc = Scoring { dict: *dict, slots: slots@, bound: bound@ };
    let n = if sentence.len() >= rule.len() {
        sentence.len()
    } else {
        rule.len()
    };
    let mut classes: Vec<MatchType> = Vec::new();
    let mut units: u128 = 0;
    let mut i: usize = 0;
    while i < n
        invariant
            i <= n,
            n == match_len(sentence@, rule@),
            sc == (Scoring { dict: *dict, slots: slots@, bound: bound@ }),
            units == sc.units_upto(sentence@, rule@, i as int),
            units <= 5 * i,
            classes@.len() == i,
            forall|j: int| 0 <= j < i ==> #[trigger] classes@[j] == sc.class_at(sentence@, rule@, j),
        decreases n - i,
    {
        if i >= sentence.len() || i >= rule.len() {
            classes.push(MatchType::NoMatch);
        } else {
            let c = sentence[i];
            let q = rule[i];
            let tone_ok = char_has_tone(dict, c, &q);
            let rhyme_ok = if q.rhyme_num.is_none() {
                true
            } else {
                let at = find_slot(slots, &q);
                if at < slots.len() && at < bound.len() {
                    match bound[at] {
                        Some(id) => char_has_rhyme(dict, c, id),
                        None => false,
                    }
                } else {
                    false
                }
            };
            assert(rhyme_ok == rhyme_satisfied(
                dict.rhymes_of(c),
                q,
                bound_rhyme(slots@, bound@, q),
            ));
            if tone_ok {
                units += 4;
            }
            if rhyme_ok {
                units += 1;
            }
            classes.push(
                if tone_ok && rhyme_ok {
                    MatchType::AllMatch
                } else if tone_ok {
                    MatchType::ToneOnly
                } else {
                    MatchType::NoMatch
                },
            );
        }
        i += 1;
    }
    proof {
        lemma_sentence_score_bound(units as nat, n as nat);
        assert(classes@ =~= sc.classes(sentence@, rule@));
    }
    if n == 0 {
        (0, classes)
    } else {
        assert(units * SCORE_UNIT <= 5 * n * SCORE_UNIT) by (nonlinear_arith)
            requires
                units <= 5 * n,
        ;
        let total: u128 = units * (SCORE_UNIT as u128);
        ((total / (n as u128)) as u64, classes)
    }
}

/// What sentence `i` scores at position `p` of the template: nothing in
/// a gap, and on a line its score against that line.
pub open spec fn step_of(sc: Scoring, sentences: Seq<Seq<char>>, meter: Seq<Seq<MeterTone>>) -> spec_fn(
    int,
    int,
) -> nat {
    |i: int, p: int|
        if p % 2 == 0 {
            0nat
        } else {
            sc.score(sentences[i], meter[p / 2])
        }
}

/// The entries of a row of the table, as numbers.
pub open spec fn nat_row(row: Seq<u128>) -> Seq<nat> {
    Seq::new(row.len(), |p: int| row[p] as nat)
}

/// Every entry of row `i` is at most `i + 1` times 1.0.
pub proof fn lemma_best_row_bound(step: spec_fn(int, int) -> nat, width: nat, i: int, p: int)
    requires
        0 <= i,
        0 <= p < width,
        forall|j: int, q: int| 0 <= j <= i && 0 <= q < width ==> #[trigger] step(j, q) <= SCORE_ONE,
    ensures
        best_row(step, width, i)[p] <= (i + 1) * SCORE_ONE,
    decreases i,
{
    if i > 0 {
        let prev = best_row(step, width, i - 1);
        let n = pred_limit(p) + 1;
        lemma_prefix_max(prev, n);
        let at = prefix_argmax(prev, n);
        lemma_best_row_bound(step, width, i - 1, at);
        assert(step(i, p) <= SCORE_ONE);
        assert((i + 1) * SCORE_ONE == i * SCORE_ONE + SCORE_ONE) by (nonlinear_arith);
    } else {
        assert(step(0, p) <= SCORE_ONE);
    }
}

/// The first place of the greatest of the first `n` entries of `row`,
/// and that entry.
pub(crate) fn prefix_best(row: &Vec<u128>, n: usize) -> (r: (usize, u128))
    requires
        1 <= n <= row.len(),
    ensures
        r.0 == prefix_argmax(nat_row(row@), n as int),
        r.1 == prefix_max(nat_row(row@), n as int),
        r.0 < n,
{
    let ghost spec_row = nat_row(row@);
    let mut at: usize = 0;
    let mut best: u128 = row[0];
    let mut j: usize = 1;
    while j < n
        invariant
            1 <= j <= n <= row.len(),
            spec_row == nat_row(row@),
            at == prefix_argmax(spec_row, j as int),
            best == prefix_max(spec_row, j as int),
            at < j,
        decreases n - j,
    {
        if row[j] > best {
            best = row[j];
            at = j;
        }
        j += 1;
    }
    (at, best)
}

/// Fills the table for one binding of the rhyme slots: entry `p` of
/// row `i` is the best total of the sentences 0 to `i` with sentence
/// `i` at position `p`.
pub(crate) fn fill_table(
    dict: &RhymeDict,
    text: &Vec<Vec<char>>,
    meter: &Vec<Vec<MeterTone>>,
    slots: &Vec<MeterTone>,
    bound: &Vec<Option<RhymeId>>,
) -> (table: Vec<Vec<u128>>)
    requires
        2 * meter.len() + 1 <= usize::MAX,
    ensures
        table@.len() == text@.len(),
        forall|i: int|
            0 <= i < table@.len() ==> nat_row((#[trigger] table@[i])@) == best_row(
                step_of(
                    Scoring { dict: *dict, slots: slots@, bound: bound@ },
                    chars_views(text@),
                    meter_view(meter@),
                ),
                (2 * meter.len() + 1) as nat,
                i,
            ),
        forall|i: int, p: int|
            0 <= i < table@.len() && 0 <= p < 2 * meter.len() + 1 ==> (#[trigger] table@[i]@[p])
                <= (i + 1) * SCORE_ONE,
{
    let ghost sc = Scoring { dict: *dict, slots: slots@, bound: bound@ };
    let ghost sentences = chars_views(text@);
    let ghost lines = meter_view(meter@);
    let ghost step = step_of(sc, sentences, lines);
    let width: usize = 2 * meter.len() + 1;
    let mut table: Vec<Vec<u128>> = Vec::new();
    let mut i: usize = 0;
    while i < text.len()
        invariant
            i <= text.len(),
            width == 2 * meter.len() + 1,
            sc == (Scoring { dict: *dict, slots: slots@, bound: bound@ }),
            sentences == chars_views(text@),
            lines == meter_view(meter@),
            step == step_of(sc, sentences, lines),
            table@.len() == i,
            forall|j: int|
                0 <= j < i ==> nat_row((#[trigger] table@[j])@) == best_row(step, width as nat, j),
            forall|j: int, q: int|
                0 <= j < i && 0 <= q < width ==> (#[trigger] table@[j]@[q]) <= (j + 1)
                    * SCORE_ONE,
        decreases text.len() - i,
    {
        let ghost prev = best_row(step, width as nat, i - 1);
        let ghost goal = best_row(step, width as nat, i as int);
        let mut row: Vec<u128> = Vec::new();
        let mut run: u128 = 0;
        let mut p: usize = 0;
        proof {
            lemma_best_row_len(step, width as nat, i as int);
            if i > 0 {
                lemma_best_row_len(step, width as nat, i - 1);
                assert(nat_row(table@[i - 1]@) == prev);
                assert(table@[i - 1]@.len() == width);
            }
        }
        while p < width
            invariant
                p <= width,
                i < text.len(),
                width == 2 * meter.len() + 1,
                sc == (Scoring { dict: *dict, slots: slots@, bound: bound@ }),
                sentences == chars_views(text@),
                lines == meter_view(meter@),
                step == step_of(sc, sentences, lines),
                table@.len() == i,
                prev == best_row(step, width as nat, i - 1),
                goal == best_row(step, width as nat, i as int),
                goal.len() == width,
                i > 0 ==> nat_row(table@[i - 1]@) == prev && table@[i - 1]@.len() == width,
                forall|q: int|
                    i > 0 && 0 <= q < width ==> (#[trigger] table@[i - 1]@[q]) <= i * SCORE_ONE,
                row@.len() == p,
                forall|q: int| 0 <= q < p ==> (#[trigger] row@[q]) as nat == goal[q],
                forall|q: int| 0 <= q < p ==> (#[trigger] row@[q]) <= (i + 1) * SCORE_ONE,
                i > 0 && p > 0 ==> run == prefix_max(prev, p as int),
                run <= i * SCORE_ONE,
            decreases width - p,
        {
            let earned: u64 = if p % 2 == 0 {
                0
            } else {
                assert(sentences[i as int] == text@[i as int]@);
                assert(lines[p as int / 2] == meter@[p as int / 2]@);
                match_sentence(dict, &text[i], &meter[p / 2], slots, bound).0
            };
            assert(earned == step(i as int, p as int));
            let mut base: u128 = 0;
            if i > 0 {
                let before = table[i - 1][p];
                assert(before as nat == prev[p as int]) by {
                    assert(nat_row(table@[i - 1]@)[p as int] == table@[i - 1]@[p as int] as nat);
                }
                let through = if p == 0 || before > run {
                    before
                } else {
                    run
                };
                assert(through == prefix_max(prev, p + 1));
                base = if p % 2 == 0 {
                    through
                } else {
                    run
                };
                assert(base == prefix_max(prev, pred_limit(p as int) + 1));
                run = through;
            }
            assert((i + 1) * SCORE_ONE == i * SCORE_ONE + SCORE_ONE) by (nonlinear_arith);
            assert(i * SCORE_ONE <= 0xFFFF_FFFF_FFFF_FFFF * SCORE_ONE) by (nonlinear_arith)
                requires
                    i <= 0xFFFF_FFFF_FFFF_FFFF,
            ;
            row.push(earned as u128 + base);
            p += 1;
        }
        proof {
            assert(nat_row(row@) =~= goal);
        }
        table.push(row);
        i += 1;
    }
    table
}

/// How many lines of a meter are not empty.
pub open spec fn nonempty_lines(meter: Seq<Seq<MeterTone>>) -> nat
    decreases meter.len(),
{
    if meter.len() == 0 {
        0
    } else {
        nonempty_lines(meter.drop_last()) + (if meter.last().len() > 0 {
            1nat
        } else {
            0nat
        })
    }
}

/// How many template lines stand wholly before position `p`.
pub open spec fn lines_before(p: int) -> int {
    p / 2
}

/// How many template lines stand at or before position `p`.
pub open spec fn lines_through(p: int) -> int {
    (p + 1) / 2
}

/// The segment of a template line that no sentence took.
pub open spec fn line_segment(line: Seq<MeterTone>) -> SegmentView {
    SegmentView { match_result: None, text: None, meter: Some(line) }
}

/// The segments of the template lines `from` to `to - 1`, none of which
/// a sentence took.
pub open spec fn extra_lines(meter: Seq<Seq<MeterTone>>, from: int, to: int) -> Seq<SegmentView>
    decreases to - from,
{
    if to <= from {
        Seq::empty()
    } else {
        extra_lines(meter, from, to - 1).push(line_segment(meter[to - 1]))
    }
}

/// The segment of sentence `c` at position `p`.
pub open spec fn sentence_segment(sc: Scoring, c: Seq<char>, meter: Seq<Seq<MeterTone>>, p: int) -> SegmentView {
    if p % 2 == 0 {
        SegmentView { match_result: Some(Seq::empty()), text: Some(c), meter: None }
    } else {
        SegmentView {
            match_result: Some(sc.classes(c, meter[p / 2])),
            text: Some(c),
            meter: Some(meter[p / 2]),
        }
    }
}

/// The segments up to and including the first `count` sentences, which
/// stand at the positions `pos`: before each sentence come the lines
/// that were passed over since the sentence before.
pub open spec fn segments_upto(
    sc: Scoring,
    sentences: Seq<Seq<char>>,
    meter: Seq<Seq<MeterTone>>,
    pos: Seq<int>,
    count: int,
) -> Seq<SegmentView>
    decreases count,
{
    if count <= 0 {
        Seq::empty()
    } else {
        let from = if count == 1 {
            0
        } else {
            lines_through(pos[count - 2])
        };
        (segments_upto(sc, sentences, meter, pos, count - 1) + extra_lines(
            meter,
            from,
            lines_before(pos[count - 1]),
        )).push(sentence_segment(sc, sentences[count - 1], meter, pos[count - 1]))
    }
}

/// All segments of an alignment, in reading order: every sentence once,
/// and every template line once, with its sentence or alone.
pub open spec fn all_segments(
    sc: Scoring,
    sentences: Seq<Seq<char>>,
    meter: Seq<Seq<MeterTone>>,
    pos: Seq<int>,
) -> Seq<SegmentView> {
    if pos.len() == 0 {
        Seq::empty()
    } else {
        segments_upto(sc, sentences, meter, pos, pos.len() as int) + extra_lines(
            meter,
            lines_through(pos.last()),
            meter.len() as int,
        )
    }
}

/// A text to align with a template, and the candidate bindings of the
/// template's rhyme slots.
pub struct Problem {
    pub dict: RhymeDict,
    pub sentences: Seq<Seq<char>>,
    pub meter: Seq<Seq<MeterTone>>,
    pub slots: Seq<MeterTone>,
    pub bindings: Seq<Seq<Option<RhymeId>>>,
}

impl Problem {
    /// The number of positions: a gap before each line and one after
    /// the last.
    pub open spec fn width(self) -> nat {
        2 * self.meter.len() + 1
    }

    /// How sentences are scored under candidate `k`.
    pub open spec fn scoring(self, k: int) -> Scoring {
        Scoring { dict: self.dict, slots: self.slots, bound: self.bindings[k] }
    }

    /// What each sentence scores at each position under candidate `k`.
    pub open spec fn step(self, k: int) -> spec_fn(int, int) -> nat {
        step_of(self.scoring(k), self.sentences, self.meter)
    }

    /// The last row of the table of candidate `k`.
    pub open spec fn last_row(self, k: int) -> Seq<nat> {
        best_row(self.step(k), self.width(), self.sentences.len() - 1)
    }

    /// The best total under candidate `k`.
    pub open spec fn total(self, k: int) -> nat {
        prefix_max(self.last_row(k), self.width() as int)
    }

    /// The first position of the last sentence that gives the best
    /// total under candidate `k`.
    pub open spec fn end_pos(self, k: int) -> int {
        prefix_argmax(self.last_row(k), self.width() as int)
    }

    /// Whether candidate `k` is to be preferred to candidate `c`: for
    /// its greater total, or for its earlier end at the same total.
    pub open spec fn better(self, k: int, c: int) -> bool {
        self.total(k) > self.total(c) || (self.total(k) == self.total(c) && self.end_pos(k)
            < self.end_pos(c))
    }

    /// The candidate chosen among the first `count`: the first that no
    /// other is preferred to.
    pub open spec fn pick(self, count: int) -> int
        decreases count,
    {
        if count <= 1 {
            0
        } else {
            let c = self.pick(count - 1);
            if self.better(count - 1, c) {
                count - 1
            } else {
                c
            }
        }
    }

    /// The chosen candidate.
    pub open spec fn chosen(self) -> int {
        self.pick(self.bindings.len() as int)
    }

    /// The positions of the sentences in the chosen alignment.
    pub open spec fn positions(self) -> Seq<int> {
        best_path(
            self.step(self.chosen()),
            self.width(),
            self.sentences.len() as int,
            self.end_pos(self.chosen()),
        )
    }

    /// What the total is divided by: the number of sentences or of
    /// non-empty lines, whichever is greater.
    pub open spec fn denominator(self) -> nat {
        if self.sentences.len() >= nonempty_lines(self.meter) {
            self.sentences.len()
        } else {
            nonempty_lines(self.meter)
        }
    }

    /// The score of the chosen alignment.
    pub open spec fn score(self) -> nat {
        if self.sentences.len() == 0 {
            0
        } else {
            self.total(self.chosen()) / self.denominator()
        }
    }

    /// The result of the alignment. A text without sentences has the
    /// empty result.
    pub open spec fn outcome(self) -> MatchView {
        if self.sentences.len() == 0 {
            MatchView { score: 0, result: Seq::empty() }
        } else {
            MatchView {
                score: self.score(),
                result: all_segments(
                    self.scoring(self.chosen()),
                    self.sentences,
                    self.meter,
                    self.positions(),
                ),
            }
        }
    }
}

/// The problem that a text and a template pose: the candidates are all
/// the bindings of the template's rhyme slots that keep the rules.
pub open spec fn problem_of(dict: RhymeDict, sentences: Seq<Seq<char>>, meter: Seq<Seq<MeterTone>>) -> Problem {
    Problem {
        dict,
        sentences,
        meter,
        slots: rhyme_slots(meter),
        bindings: bindings_of(dict, sentences, meter),
    }
}

/// The positions as numbers.
pub open spec fn int_seq(v: Seq<usize>) -> Seq<int> {
    Seq::new(v.len(), |i: int| v[i] as int)
}

fn trace_back(table: &Vec<Vec<u128>>, last: usize, width: usize, Ghost(step): Ghost<
    spec_fn(int, int) -> nat,
>) -> (pos: Vec<usize>)
    requires
        table@.len() >= 1,
        last < width,
        forall|i: int|
            0 <= i < table@.len() ==> nat_row((#[trigger] table@[i])@) == best_row(
                step,
                width as nat,
                i,
            ),
    ensures
        int_seq(pos@) == best_path(step, width as nat, table@.len() as int, last as int),
        pos@.len() == table@.len(),
        forall|i: int| 0 <= i < pos@.len() ==> (#[trigger] pos@[i]) < width,
{
    let n = table.len();
    let mut pos: Vec<usize> = Vec::new();
    let mut f: usize = 0;
    while f < n
        invariant
            f <= n,
            pos@.len() == f,
            forall|i: int| 0 <= i < f ==> (#[trigger] pos@[i]) == last,
        decreases n - f,
    {
        pos.push(last);
        f += 1;
    }
    let ghost whole = best_path(step, width as nat, n as int, last as int);
    let mut i: usize = n - 1;
    assert(int_seq(pos@).subrange(n as int, n as int) =~= Seq::<int>::empty());
    assert(whole =~= best_path(step, width as nat, n as int, last as int) + Seq::<int>::empty());
    while i > 0
        invariant
            i < n,
            n == table@.len(),
            pos@.len() == n,
            pos@[i as int] < width,
            forall|j: int| i < j < n ==> (#[trigger] pos@[j]) < width,
            forall|j: int| 0 <= j < i ==> (#[trigger] pos@[j]) < width,
            forall|j: int|
                0 <= j < table@.len() ==> nat_row((#[trigger] table@[j])@) == best_row(
                    step,
                    width as nat,
                    j,
                ),
            whole == best_path(step, width as nat, i + 1, pos@[i as int] as int) + int_seq(
                pos@,
            ).subrange(i + 1, n as int),
        decreases i,
    {
        let here = pos[i];
        let limit: usize = if here % 2 == 0 {
            here
        } else {
            here - 1
        };
        proof {
            lemma_best_row_len(step, width as nat, i - 1);
            assert(nat_row(table@[i - 1]@) == best_row(step, width as nat, i - 1));
            assert(table@[i - 1]@.len() == width);
        }
        let found = prefix_best(&table[i - 1], limit + 1);
        let ghost old_pos = int_seq(pos@);
        pos.set(i - 1, found.0);
        proof {
            let new_pos = int_seq(pos@);
            assert(new_pos.subrange(i as int, n as int) =~= seq![here as int] + old_pos.subrange(
                i + 1,
                n as int,
            ));
            let head = best_path(step, width as nat, i as int, found.0 as int);
            assert(best_path(step, width as nat, i + 1, here as int) == head.push(here as int));
            assert(head.push(here as int) + old_pos.subrange(i + 1, n as int) =~= head + (
            seq![here as int] + old_pos.subrange(i + 1, n as int)));
        }
        i -= 1;
    }
    proof {
        assert(best_path(step, width as nat, 1, pos@[0] as int) == seq![pos@[0] as int]);
        assert(int_seq(pos@) =~= seq![pos@[0] as int] + int_seq(pos@).subrange(1, n as int));
    }
    pos
}

fn copy_line(line: &Vec<MeterTone>) -> (r: Vec<MeterTone>)
    ensures
        r@ == line@,
{
    let mut out: Vec<MeterTone> = Vec::new();
    let mut i: usize = 0;
    while i < line.len()
        invariant
            i <= line.len(),
            out@ == line@.take(i as int),
        decreases line.len() - i,
    {
        out.push(line[i]);
        i += 1;
        assert(out@ =~= line@.take(i as int));
    }
    assert(line@.take(line.len() as int) =~= line@);
    out
}

fn push_extra_lines(out: &mut Vec<SentenceMatchResult>, meter: &Vec<Vec<MeterTone>>, from: usize, to: usize)
    requires
        to <= meter.len(),
    ensures
        segments_view(final(out)@) == segments_view(old(out)@) + extra_lines(
            meter_view(meter@),
            from as int,
            to as int,
        ),
{
    let ghost lines = meter_view(meter@);
    let ghost before = segments_view(out@);
    let mut j: usize = from;
    assert(before + extra_lines(lines, from as int, from as int) =~= before);
    if from >= to {
        assert(extra_lines(lines, from as int, to as int) =~= Seq::<SegmentView>::empty());
        return ;
    }
    while j < to
        invariant
            from <= j <= to <= meter.len(),
            lines == meter_view(meter@),
            segments_view(out@) == before + extra_lines(lines, from as int, j as int),
        decreases to - j,
    {
        let ghost sofar = segments_view(out@);
        let segment = SentenceMatchResult {
            match_result: None,
            text: None,
            meter: Some(copy_line(&meter[j])),
        };
        assert(segment@ == line_segment(lines[j as int]));
        out.push(segment);
        assert(segments_view(out@) =~= sofar.push(line_segment(lines[j as int])));
        assert(sofar.push(line_segment(lines[j as int])) =~= before + extra_lines(
            lines,
            from as int,
            j + 1,
        ));
        j += 1;
    }
}

/// Builds the segments of an alignment from the positions of its
/// sentences: each sentence with the line it stands on, or alone in a
/// gap, and between them the template lines that no sentence took.
pub(crate) fn build_result(
    dict: &RhymeDict,
    text: &Vec<Vec<char>>,
    meter: &Vec<Vec<MeterTone>>,
    slots: &Vec<MeterTone>,
    bound: &Vec<Option<RhymeId>>,
    pos: &Vec<usize>,
) -> (r: Vec<SentenceMatchResult>)
    requires
        pos@.len() == text@.len(),
        forall|i: int| 0 <= i < pos@.len() ==> (#[trigger] pos@[i]) < 2 * meter.len() + 1,
    ensures
        segments_view(r@) == all_segments(
            Scoring { dict: *dict, slots: slots@, bound: bound@ },
            chars_views(text@),
            meter_view(meter@),
            int_seq(pos@),
        ),
{
    let ghost sc = Scoring { dict: *dict, slots: slots@, bound: bound@ };
    let ghost sentences = chars_views(text@);
    let ghost lines = meter_view(meter@);
    let ghost places = int_seq(pos@);
    let n = text.len();
    let mut out: Vec<SentenceMatchResult> = Vec::new();
    if n == 0 {
        assert(segments_view(out@) =~= Seq::<SegmentView>::empty());
        return out;
    }
    let mut i: usize = 0;
    assert(segments_view(out@) =~= segments_upto(sc, sentences, lines, places, 0));
    while i < n
        invariant
            i <= n,
            n == text@.len(),
            pos@.len() == n,
            forall|j: int| 0 <= j < pos@.len() ==> (#[trigger] pos@[j]) < 2 * meter.len() + 1,
            sc == (Scoring { dict: *dict, slots: slots@, bound: bound@ }),
            sentences == chars_views(text@),
            lines == meter_view(meter@),
            places == int_seq(pos@),
            segments_view(out@) == segments_upto(sc, sentences, lines, places, i as int),
        decreases n - i,
    {
        let here = pos[i];
        assert(pos@[i as int] < 2 * meter.len() + 1);
        let from: usize = if i == 0 {
            0
        } else {
            assert(pos@[i - 1] < 2 * meter.len() + 1);
            let before = pos[i - 1];
            if before % 2 == 0 {
                before / 2
            } else {
                before / 2 + 1
            }
        };
        assert(i > 0 ==> from == lines_through(places[i - 1]));
        let ghost base = segments_view(out@);
        push_extra_lines(&mut out, meter, from, here / 2);
        let ghost mid = segments_view(out@);
        let segment = if here % 2 == 0 {
            SentenceMatchResult {
                match_result: Some(Vec::new()),
                text: Some(string_of_chars(&text[i])),
                meter: None,
            }
        } else {
            let matched = match_sentence(dict, &text[i], &meter[here / 2], slots, bound);
            SentenceMatchResult {
                match_result: Some(matched.1),
                text: Some(string_of_chars(&text[i])),
                meter: Some(copy_line(&meter[here / 2])),
            }
        };
        proof {
            assert(sentences[i as int] == text@[i as int]@);
            if here % 2 != 0 {
                assert(lines[here as int / 2] == meter@[here as int / 2]@);
            }
            assert(segment@ == sentence_segment(sc, sentences[i as int], lines, here as int));
        }
        out.push(segment);
        proof {
            assert(segments_view(out@) =~= mid.push(
                sentence_segment(sc, sentences[i as int], lines, here as int),
            ));
        }
        i += 1;
    }
    let last = pos[n - 1];
    let from: usize = if last % 2 == 0 {
        last / 2
    } else {
        last / 2 + 1
    };
    push_extra_lines(&mut out, meter, from, meter.len());
    out
}

/// How many lines of `meter` are not empty.
pub fn count_nonempty_lines(meter: &Vec<Vec<MeterTone>>) -> (r: usize)
    ensures
        r == nonempty_lines(meter_view(meter@)),
        r <= meter.len(),
{
    let ghost lines = meter_view(meter@);
    let mut count: usize = 0;
    let mut i: usize = 0;
    assert(lines.take(0) =~= Seq::<Seq<MeterTone>>::empty());
    while i < meter.len()
        invariant
            i <= meter.len(),
            lines == meter_view(meter@),
            count == nonempty_lines(lines.take(i as int)),
            count <= i,
        decreases meter.len() - i,
    {
        assert(lines.take(i + 1).drop_last() =~= lines.take(i as int));
        assert(lines.take(i + 1).last() == meter@[i as int]@);
        if meter[i].len() > 0 {
            count += 1;
        }
        i += 1;
    }
    assert(lines.take(meter.len() as int) =~= lines);
    count
}

/// The problem that `align` solves.
pub open spec fn problem_for(
    dict: RhymeDict,
    text: Seq<Vec<char>>,
    meter: Seq<Vec<MeterTone>>,
    candidates: RhymeCandidates,
) -> Problem {
    Problem {
        dict,
        sentences: chars_views(text),
        meter: meter_view(meter),
        slots: candidates.slots@,
        bindings: rows_view(candidates.bindings@),
    }
}

/// Aligns the sentences with the template under each candidate binding
/// and returns the best alignment: the greatest total; among equals the
/// one whose last sentence stands earliest; among those the first
/// candidate. The score is the total over the number of sentences or
/// of non-empty lines, whichever is greater.
pub fn align(
    dict: &RhymeDict,
    text: &Vec<Vec<char>>,
    meter: &Vec<Vec<MeterTone>>,
    candidates: &RhymeCandidates,
) -> (r: MeterMatchResult)
    requires
        candidates.bindings@.len() >= 1,
        2 * meter.len() + 1 <= usize::MAX,
    ensures
        r@ == problem_for(*dict, text@, meter@, *candidates).outcome(),
        r.score <= SCORE_ONE,
{
    let ghost problem = problem_for(*dict, text@, meter@, *candidates);
    let n = text.len();
    if n == 0 {
        let empty = MeterMatchResult { score: 0, result: Vec::new() };
        assert(empty@.result =~= Seq::<SegmentView>::empty());
        return empty;
    }
    let width: usize = 2 * meter.len() + 1;
    let count = candidates.bindings.len();
    let slots = &candidates.slots;
    let mut table = fill_table(dict, text, meter, slots, &candidates.bindings[0]);
    assert(problem.scoring(0) == (Scoring {
        dict: *dict,
        slots: slots@,
        bound: candidates.bindings@[0]@,
    }));
    proof {
        lemma_best_row_len(problem.step(0), width as nat, n - 1);
        assert(nat_row(table@[n - 1]@) == problem.last_row(0));
    }
    let first = prefix_best(&table[n - 1], width);
    let mut best_k: usize = 0;
    let mut best_pos: usize = first.0;
    let mut best_total: u128 = first.1;
    proof {
        lemma_prefix_max(problem.last_row(0), width as int);
        assert(best_total == table@[n - 1]@[best_pos as int]);
    }
    let mut k: usize = 1;
    while k < count
        invariant
            1 <= k <= count,
            n == text@.len(),
            n >= 1,
            width == 2 * meter.len() + 1,
            count == candidates.bindings@.len(),
            slots == &candidates.slots,
            problem == problem_for(*dict, text@, meter@, *candidates),
            best_k < k,
            best_k == problem.pick(k as int),
            best_pos == problem.end_pos(best_k as int),
            best_total == problem.total(best_k as int),
            best_pos < width,
            best_total <= n * SCORE_ONE,
            table@.len() == n,
            forall|i: int|
                0 <= i < table@.len() ==> nat_row((#[trigger] table@[i])@) == best_row(
                    problem.step(best_k as int),
                    width as nat,
                    i,
                ),
        decreases count - k,
    {
        let other = fill_table(dict, text, meter, slots, &candidates.bindings[k]);
        assert(problem.scoring(k as int) == (Scoring {
            dict: *dict,
            slots: slots@,
            bound: candidates.bindings@[k as int]@,
        }));
        proof {
            lemma_best_row_len(problem.step(k as int), width as nat, n - 1);
            assert(nat_row(other@[n - 1]@) == problem.last_row(k as int));
        }
        let found = prefix_best(&other[n - 1], width);
        proof {
            lemma_prefix_max(problem.last_row(k as int), width as int);
            assert(found.1 == other@[n - 1]@[found.0 as int]);
        }
        if found.1 > best_total || (found.1 == best_total && found.0 < best_pos) {
            best_k = k;
            best_pos = found.0;
            best_total = found.1;
            table = other;
        }
        k += 1;
    }
    assert(best_k == problem.chosen());
    let bound = &candidates.bindings[best_k];
    let pos = trace_back(&table, best_pos, width, Ghost(problem.step(best_k as int)));
    let result = build_result(dict, text, meter, slots, bound, &pos);
    let lines = count_nonempty_lines(meter);
    let over: usize = if n >= lines {
        n
    } else {
        lines
    };
    assert(over == problem.denominator());
    proof {
        let total = best_total as int;
        let d = over as int;
        assert(total <= d * SCORE_ONE) by (nonlinear_arith)
            requires
                total <= n * SCORE_ONE,
                n <= d,
        ;
        vstd::arithmetic::div_mod::lemma_div_is_ordered(total, d * SCORE_ONE, d);
        vstd::arithmetic::div_mod::lemma_div_multiples_vanish(SCORE_ONE as int, d);
    }
    let score = (best_total / (over as u128)) as u64;
    MeterMatchResult { score, result }
}

/// Matches sentences against a template: finds the candidate bindings
/// of the rhyme slots and returns the best alignment under them.
pub fn match_sentences(dict: &RhymeDict, text: &Vec<Vec<char>>, meter: &Vec<Vec<MeterTone>>) -> (r:
    MeterMatchResult)
    requires
        2 * meter.len() + 1 <= usize::MAX,
    ensures
        r@ == problem_of(*dict, chars_views(text@), meter_view(meter@)).outcome(),
        r.score <= SCORE_ONE,
{
    let candidates = get_possible_rhymes(dict, text, meter);
    align(dict, text, meter, &candidates)
}

/// Matches a text against a template. The text is split into
/// sentences; the result holds each sentence once, on the template line
/// it was aligned with or in a gap, and each template line once, and
/// the score of the alignment.
pub fn match_meter(dict: &RhymeDict, input_text: &str, meter: &Vec<Vec<MeterTone>>) -> (r:
    MeterMatchResult)
    requires
        2 * meter.len() + 1 <= usize::MAX,
    ensures
        r@ == problem_of(*dict, sentences_of(input_text@), meter_view(meter@)).outcome(),
        r.score <= SCORE_ONE,
{
    let chars = str_chars(input_text);
    let text = split_sentences(&chars);
    match_sentences(dict, &text, meter)
}

} // verus!
