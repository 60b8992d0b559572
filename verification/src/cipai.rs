use crate::cipai_parser::opt_view;
use crate::meter::{match_meter, problem_of, MatchView, MeterMatchResult, SCORE_ONE};
use crate::rhyme::RhymeDict;
use crate::text::{sentences_of, str_chars};
use crate::tone::{meter_view, MeterTone};
use vstd::prelude::*;

verus! {

/// A named template of lyric verse: its names, the first of which is
/// the canonical one, and its meter, line by line.
pub struct CiPai {
    pub names: Vec<String>,
    pub variant: Option<String>,
    pub description: Option<String>,
    pub meter: Vec<Vec<MeterTone>>,
}

/// Whether some slot of the meter carries a rhyme-group number.
pub open spec fn has_rhyme_slot(meter: Seq<Seq<MeterTone>>) -> bool {
    exists|i: int, j: int|
        0 <= i < meter.len() && 0 <= j < meter[i].len() && (#[trigger] meter[i][j]).rhyme_num is Some
}

/// Whether `n` is the greatest rhyme-group number of the meter.
pub open spec fn is_max_rhyme_num(meter: Seq<Seq<MeterTone>>, n: i32) -> bool {
    &&& exists|i: int, j: int|
        0 <= i < meter.len() && 0 <= j < meter[i].len() && (#[trigger] meter[i][j]).rhyme_num == Some(
            n,
        )
    &&& forall|i: int, j: int|
        0 <= i < meter.len() && 0 <= j < meter[i].len() && (#[trigger] meter[i][j]).rhyme_num is Some
            ==> meter[i][j].rhyme_num->0 <= n
}

impl CiPai {
    /// The greatest rhyme-group number that the meter uses, and 0 where
    /// it uses none.
    pub fn get_max_rhyme_num(&self) -> (r: i32)
        ensures
            has_rhyme_slot(meter_view(self.meter@)) ==> is_max_rhyme_num(
                meter_view(self.meter@),
                r,
            ),
            !has_rhyme_slot(meter_view(self.meter@)) ==> r == 0,
    {
        let ghost lines = meter_view(self.meter@);
        let ghost mut wa: int = 0;
        let ghost mut wb: int = 0;
        let mut best: Option<i32> = None;
        let mut i: usize = 0;
        while i < self.meter.len()
            invariant
                i <= self.meter.len(),
                lines == meter_view(self.meter@),
                best is None ==> forall|a: int, b: int|
                    0 <= a < i && 0 <= b < lines[a].len() ==> (#[trigger] lines[a][b]).rhyme_num is None,
                best is Some ==> 0 <= wa < i && 0 <= wb < lines[wa].len() && lines[wa][wb].rhyme_num
                    == best,
                best is Some ==> forall|a: int, b: int|
                    0 <= a < i && 0 <= b < lines[a].len() && (#[trigger] lines[a][b]).rhyme_num is Some
                        ==> lines[a][b].rhyme_num->0 <= best->0,
            decreases self.meter.len() - i,
        {
            let line = &self.meter[i];
            assert(lines[i as int] == line@);
            let mut j: usize = 0;
            while j < line.len()
                invariant
                    j <= line.len(),
                    i < self.meter.len(),
                    lines == meter_view(self.meter@),
                    lines[i as int] == line@,
                    best is None ==> forall|a: int, b: int|
                        (0 <= a < i && 0 <= b < lines[a].len()) || (a == i && 0 <= b < j) ==> (
                        #[trigger] lines[a][b]).rhyme_num is None,
                    best is Some ==> ((0 <= wa < i && 0 <= wb < lines[wa].len()) || (wa == i && 0
                        <= wb < j)) && lines[wa][wb].rhyme_num == best,
                    best is Some ==> forall|a: int, b: int|
                        ((0 <= a < i && 0 <= b < lines[a].len()) || (a == i && 0 <= b < j)) && (
                        #[trigger] lines[a][b]).rhyme_num is Some ==> lines[a][b].rhyme_num->0
                            <= best->0,
                decreases line.len() - j,
            {
                match line[j].rhyme_num {
                    None => {},
                    Some(n) => {
                        let greater = match best {
                            None => true,
                            Some(m) => n > m,
                        };
                        if greater {
                            best = Some(n);
                            proof {
                                wa = i as int;
                                wb = j as int;
                            }
                        }
                    },
                }
                j += 1;
            }
            i += 1;
        }
        match best {
            Some(n) => {
                assert(lines[wa][wb].rhyme_num == Some(n));
                n
            },
            None => 0,
        }
    }
}

/// A template together with the result of matching a text against it.
pub struct CiPaiMatchResult<'a> {
    pub cipai: &'a CiPai,
    pub match_result: MeterMatchResult,
}

/// The result of matching `text` against the meter of `cipai`.
pub open spec fn outcome_of(dict: RhymeDict, text: Seq<char>, cipai: CiPai) -> MatchView {
    problem_of(dict, sentences_of(text), meter_view(cipai.meter@)).outcome()
}

/// The scores of `text` against each of `cipais`.
pub open spec fn match_scores(dict: RhymeDict, text: Seq<char>, cipais: Seq<CiPai>) -> Seq<nat> {
    Seq::new(cipais.len(), |i: int| outcome_of(dict, text, cipais[i]).score)
}

/// Where an entry of score `x` goes into `order`: before the first
/// entry of a smaller score.
pub open spec fn insertion_point(scores: Seq<nat>, order: Seq<int>, x: nat) -> int
    decreases order.len(),
{
    if order.len() == 0 {
        0
    } else if scores[order[0]] < x {
        0
    } else {
        1 + insertion_point(scores, order.drop_first(), x)
    }
}

/// The first `n` entries by falling score, entries of equal score in
/// their first order.
pub open spec fn ranking(scores: Seq<nat>, n: int) -> Seq<int>
    decreases n,
{
    if n <= 0 {
        Seq::empty()
    } else {
        let before = ranking(scores, n - 1);
        before.insert(insertion_point(scores, before, scores[n - 1]), n - 1)
    }
}

/// Whether `order` holds its entries by falling score, and entries of
/// equal score by rising position.
pub open spec fn is_ranked(scores: Seq<nat>, order: Seq<int>) -> bool {
    forall|a: int, b: int|
        0 <= a < b < order.len() ==> scores[#[trigger] order[a]] > scores[#[trigger] order[b]] || (
        scores[order[a]] == scores[order[b]] && order[a] < order[b])
}

/// An entry goes in after every entry of a score at least its own,
/// and before one of a smaller score.
pub proof fn lemma_insertion_point(scores: Seq<nat>, order: Seq<int>, x: nat)
    ensures
        0 <= insertion_point(scores, order, x) <= order.len(),
        forall|t: int|
            0 <= t < insertion_point(scores, order, x) ==> scores[#[trigger] order[t]] >= x,
        insertion_point(scores, order, x) < order.len() ==> scores[order[insertion_point(
            scores,
            order,
            x,
        )]] < x,
    decreases order.len(),
{
    if order.len() > 0 && scores[order[0]] >= x {
        let rest = order.drop_first();
        lemma_insertion_point(scores, rest, x);
        let j = insertion_point(scores, rest, x);
        assert forall|t: int| 0 <= t < j + 1 implies scores[#[trigger] order[t]] >= x by {
            if t > 0 {
                assert(order[t] == rest[t - 1]);
            }
        }
        if j + 1 < order.len() {
            assert(order[j + 1] == rest[j]);
        }
    }
}

/// The ranking holds each of the first `n` positions once, by falling
/// score, and positions of equal score in rising order.
pub proof fn lemma_ranking(scores: Seq<nat>, n: int)
    requires
        0 <= n <= scores.len(),
    ensures
        ranking(scores, n).len() == n,
        forall|j: int| 0 <= j < n ==> 0 <= #[trigger] ranking(scores, n)[j] < n,
        forall|i: int| 0 <= i < n ==> ranking(scores, n).contains(i),
        is_ranked(scores, ranking(scores, n)),
    decreases n,
{
    if n > 0 {
        lemma_ranking(scores, n - 1);
        let before = ranking(scores, n - 1);
        let x = scores[n - 1];
        let at = insertion_point(scores, before, x);
        lemma_insertion_point(scores, before, x);
        let order = before.insert(at, n - 1);
        assert(order == ranking(scores, n));
        assert forall|j: int| 0 <= j < n implies 0 <= #[trigger] order[j] < n by {
            if j < at {
                assert(order[j] == before[j]);
            } else if j > at {
                assert(order[j] == before[j - 1]);
            }
        }
        assert forall|i: int| 0 <= i < n implies order.contains(i) by {
            if i == n - 1 {
                assert(order[at] == i);
            } else {
                assert(before.contains(i));
                let k = choose|k: int| 0 <= k < before.len() && before[k] == i;
                if k < at {
                    assert(order[k] == i);
                } else {
                    assert(order[k + 1] == i);
                }
            }
        }
        assert forall|t: int| at <= t < before.len() implies scores[#[trigger] before[t]] < x by {
            if t > at {
                assert(scores[before[at]] > scores[before[t]] || (scores[before[at]]
                    == scores[before[t]] && before[at] < before[t]));
            }
        }
        assert forall|a: int, b: int| 0 <= a < b < order.len() implies scores[#[trigger] order[a]]
            > scores[#[trigger] order[b]] || (scores[order[a]] == scores[order[b]] && order[a]
            < order[b]) by {
            let ia = if a < at {
                a
            } else {
                a - 1
            };
            let ib = if b < at {
                b
            } else {
                b - 1
            };
            if a != at {
                assert(order[a] == before[ia]);
                assert(0 <= before[ia] < n - 1);
            }
            if b != at {
                assert(order[b] == before[ib]);
                assert(0 <= before[ib] < n - 1);
            }
            if a != at && b != at {
                assert(scores[before[ia]] > scores[before[ib]] || (scores[before[ia]]
                    == scores[before[ib]] && before[ia] < before[ib]));
            }
        }
    }
}

/// Whether `out` holds, in the places given by `order`, the templates
/// with their results.
pub open spec fn holds_ranked<'a>(
    out: Seq<CiPaiMatchResult<'a>>,
    order: Seq<int>,
    cipais: Seq<CiPai>,
    dict: RhymeDict,
    text: Seq<char>,
) -> bool {
    &&& out.len() == order.len()
    &&& forall|j: int|
        0 <= j < out.len() ==> {
            let i = #[trigger] order[j];
            &&& 0 <= i < cipais.len()
            &&& *out[j].cipai == cipais[i]
            &&& out[j].match_result@ == outcome_of(dict, text, cipais[i])
            &&& out[j].match_result.score <= SCORE_ONE
        }
}

proof fn lemma_insertion_point_is(scores: Seq<nat>, order: Seq<int>, x: nat, at: int)
    requires
        0 <= at <= order.len(),
        forall|t: int| 0 <= t < at ==> scores[#[trigger] order[t]] >= x,
        at < order.len() ==> scores[order[at]] < x,
    ensures
        insertion_point(scores, order, x) == at,
    decreases order.len(),
{
    if at > 0 {
        let rest = order.drop_first();
        assert(scores[order[0]] >= x);
        assert forall|t: int| 0 <= t < at - 1 implies scores[#[trigger] rest[t]] >= x by {
            assert(rest[t] == order[t + 1]);
        }
        if at - 1 < rest.len() {
            assert(rest[at - 1] == order[at]);
        }
        lemma_insertion_point_is(scores, rest, x, at - 1);
    }
}

proof fn lemma_holds_after_insert<'a>(
    out: Seq<CiPaiMatchResult<'a>>,
    order: Seq<int>,
    cipais: Seq<CiPai>,
    dict: RhymeDict,
    text: Seq<char>,
    at: int,
    item: CiPaiMatchResult<'a>,
    i: int,
)
    requires
        holds_ranked(out, order, cipais, dict, text),
        0 <= at <= out.len(),
        0 <= i < cipais.len(),
        *item.cipai == cipais[i],
        item.match_result@ == outcome_of(dict, text, cipais[i]),
        item.match_result.score <= SCORE_ONE,
    ensures
        holds_ranked(out.insert(at, item), order.insert(at, i), cipais, dict, text),
{
    let out2 = out.insert(at, item);
    let order2 = order.insert(at, i);
    assert forall|j: int| 0 <= j < out2.len() implies {
        let k = #[trigger] order2[j];
        &&& 0 <= k < cipais.len()
        &&& *out2[j].cipai == cipais[k]
        &&& out2[j].match_result@ == outcome_of(dict, text, cipais[k])
        &&& out2[j].match_result.score <= SCORE_ONE
    } by {
        if j < at {
            assert(out2[j] == out[j]);
            assert(order2[j] == order[j]);
        } else if j > at {
            assert(out2[j] == out[j - 1]);
            assert(order2[j] == order[j - 1]);
        }
    }
}

fn find_place<'a>(out: &Vec<CiPaiMatchResult<'a>>, score: u64) -> (at: usize)
    ensures
        at <= out@.len(),
        forall|t: int| 0 <= t < at ==> (#[trigger] out@[t]).match_result.score >= score,
        at < out@.len() ==> out@[at as int].match_result.score < score,
{
    let mut at: usize = 0;
    while at < out.len() && out[at].match_result.score >= score
        invariant
            at <= out@.len(),
            forall|t: int| 0 <= t < at ==> (#[trigger] out@[t]).match_result.score >= score,
        decreases out@.len() - at,
    {
        at += 1;
    }
    at
}

/// Matches the text against every template and ranks the templates by
/// falling score; templates of equal score keep their order.
pub fn best_match<'a>(cipais: &'a Vec<CiPai>, rhyme_dict: &RhymeDict, input_text: &str) -> (r: Vec<
    CiPaiMatchResult<'a>,
>)
    requires
        forall|i: int|
            0 <= i < cipais@.len() ==> 2 * (#[trigger] cipais@[i]).meter@.len() + 1 <= usize::MAX,
    ensures
        holds_ranked(
            r@,
            ranking(match_scores(*rhyme_dict, input_text@, cipais@), cipais@.len() as int),
            cipais@,
            *rhyme_dict,
            input_text@,
        ),
        r@.len() == cipais@.len(),
        forall|a: int, b: int|
            0 <= a <= b < r@.len() ==> (#[trigger] r@[a]).match_result.score >= (
            #[trigger] r@[b]).match_result.score,
{
    let ghost scores = match_scores(*rhyme_dict, input_text@, cipais@);
    let n = cipais.len();
    let mut out: Vec<CiPaiMatchResult<'a>> = Vec::new();
    let mut i: usize = 0;
    while i < n
        invariant
            i <= n,
            n == cipais@.len(),
            scores == match_scores(*rhyme_dict, input_text@, cipais@),
            forall|k: int|
                0 <= k < cipais@.len() ==> 2 * (#[trigger] cipais@[k]).meter@.len() + 1
                    <= usize::MAX,
            holds_ranked(out@, ranking(scores, i as int), cipais@, *rhyme_dict, input_text@),
        decreases n - i,
    {
        let ghost before = ranking(scores, i as int);
        let cipai = &cipais[i];
        let matched = match_meter(rhyme_dict, input_text, &cipai.meter);
        let at = find_place(&out, matched.score);
        let item = CiPaiMatchResult { cipai, match_result: matched };
        proof {
            assert forall|t: int| 0 <= t < at implies scores[#[trigger] before[t]]
                >= scores[i as int] by {
                assert(out@[t].match_result.score == scores[before[t]]);
            }
            if at < before.len() {
                assert(out@[at as int].match_result.score == scores[before[at as int]]);
            }
            lemma_insertion_point_is(scores, before, scores[i as int], at as int);
            lemma_holds_after_insert(
                out@,
                before,
                cipais@,
                *rhyme_dict,
                input_text@,
                at as int,
                item,
                i as int,
            );
        }
        out.insert(at, item);
        i += 1;
    }
    proof {
        lemma_ranking(scores, n as int);
        let order = ranking(scores, n as int);
        assert forall|a: int, b: int| 0 <= a <= b < out@.len() implies (
        #[trigger] out@[a]).match_result.score >= (#[trigger] out@[b]).match_result.score by {
            assert(out@[a].match_result.score == scores[order[a]]);
            assert(out@[b].match_result.score == scores[order[b]]);
            if a < b {
                assert(scores[order[a]] > scores[order[b]] || (scores[order[a]]
                    == scores[order[b]] && order[a] < order[b]));
            }
        }
    }
    out
}

/// Whether `needle` stands somewhere in `hay`.
pub open spec fn holds_text(hay: Seq<char>, needle: Seq<char>) -> bool {
    exists|i: int|
        0 <= i && i + needle.len() <= hay.len() && #[trigger] hay.subrange(i, i + needle.len())
            == needle
}

/// Whether one of the names of the template holds `name`.
pub open spec fn has_name(cipai: CiPai, name: Seq<char>) -> bool {
    exists|j: int| 0 <= j < cipai.names@.len() && holds_text((#[trigger] cipai.names@[j])@, name)
}

/// Whether the template is asked for: one of its names holds `name`,
/// and its variant is the one asked for, where one is.
pub open spec fn is_wanted(cipai: CiPai, name: Seq<char>, variant: Option<Seq<char>>) -> bool {
    has_name(cipai, name) && (variant is None || opt_view(cipai.variant) == variant)
}

/// The positions among the first `n` templates of those asked for.
pub open spec fn wanted_upto(
    cipais: Seq<CiPai>,
    name: Seq<char>,
    variant: Option<Seq<char>>,
    n: int,
) -> Seq<usize>
    decreases n,
{
    if n <= 0 {
        Seq::empty()
    } else {
        wanted_upto(cipais, name, variant, n - 1) + (if is_wanted(cipais[n - 1], name, variant) {
            seq![(n - 1) as usize]
        } else {
            Seq::empty()
        })
    }
}

fn starts_at(hay: &Vec<char>, needle: &Vec<char>, at: usize) -> (b: bool)
    requires
        at + needle.len() <= hay.len(),
    ensures
        b == (hay@.subrange(at as int, at + needle.len()) == needle@),
{
    let mut j: usize = 0;
    while j < needle.len()
        invariant
            j <= needle.len(),
            at + needle.len() <= hay.len(),
            forall|t: int| 0 <= t < j ==> hay@[at + t] == needle@[t],
        decreases needle.len() - j,
    {
        if hay[at + j] != needle[j] {
            assert(hay@.subrange(at as int, at + needle.len())[j as int] != needle@[j as int]);
            return false;
        }
        j += 1;
    }
    assert(hay@.subrange(at as int, at + needle.len()) =~= needle@);
    true
}

/// Whether `needle` stands somewhere in `hay`.
pub fn contains_text(hay: &Vec<char>, needle: &Vec<char>) -> (b: bool)
    ensures
        b == holds_text(hay@, needle@),
{
    if needle.len() > hay.len() {
        return false;
    }
    let last = hay.len() - needle.len();
    let mut i: usize = 0;
    while i < last
        invariant
            i <= last,
            last == hay.len() - needle.len(),
            forall|t: int|
                0 <= t < i ==> #[trigger] hay@.subrange(t, t + needle.len()) != needle@,
        decreases last - i,
    {
        if starts_at(hay, needle, i) {
            return true;
        }
        i += 1;
    }
    starts_at(hay, needle, last)
}

fn name_matches(cipai: &CiPai, name: &Vec<char>) -> (b: bool)
    ensures
        b == has_name(*cipai, name@),
{
    let mut j: usize = 0;
    while j < cipai.names.len()
        invariant
            j <= cipai.names.len(),
            forall|t: int| 0 <= t < j ==> !holds_text((#[trigger] cipai.names@[t])@, name@),
        decreases cipai.names.len() - j,
    {
        let own = str_chars(cipai.names[j].as_str());
        if contains_text(&own, name) {
            return true;
        }
        j += 1;
    }
    false
}

fn variant_matches(cipai: &CiPai, variant: &Option<String>) -> (b: bool)
    ensures
        b == (*variant is None || opt_view(cipai.variant) == opt_view(*variant)),
{
    match variant {
        None => true,
        Some(asked) => match &cipai.variant {
            None => false,
            Some(own) => {
                let same = *own == *asked;
                assert(same == (Some(own@) == Some(asked@)));
                same
            },
        },
    }
}

/// The positions of the templates one of whose names holds `name` and
/// whose variant is `variant`, where one is asked for.
pub fn find_cipais(cipais: &Vec<CiPai>, name: &str, variant: &Option<String>) -> (r: Vec<usize>)
    ensures
        r@ == wanted_upto(cipais@, name@, opt_view(*variant), cipais@.len() as int),
        forall|j: int| 0 <= j < r@.len() ==> (#[trigger] r@[j]) < cipais@.len(),
{
    let wanted = str_chars(name);
    let mut out: Vec<usize> = Vec::new();
    let mut i: usize = 0;
    while i < cipais.len()
        invariant
            i <= cipais.len(),
            wanted@ == name@,
            out@ == wanted_upto(cipais@, name@, opt_view(*variant), i as int),
            forall|j: int| 0 <= j < out@.len() ==> (#[trigger] out@[j]) < cipais@.len(),
        decreases cipais.len() - i,
    {
        let ghost before = out@;
        if name_matches(&cipais[i], &wanted) && variant_matches(&cipais[i], variant) {
            out.push(i);
            assert(out@ =~= before + seq![i]);
        } else {
            assert(before + Seq::<usize>::empty() =~= before);
        }
        i += 1;
    }
    out
}

} // verus!
