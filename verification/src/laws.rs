use crate::alignment::{
    is_alignment, lemma_best_path_attains, lemma_best_row_len, lemma_prefix_max,
    lemma_table_is_upper_bound, path_total, pred_limit,
};
use crate::meter::{
    all_segments, bound_rhyme, extra_lines, lemma_best_row_bound, lemma_sentence_score_bound,
    lemma_units_bound, lines_before, lines_through, match_len, nonempty_lines, rhyme_satisfied,
    segments_upto, sentence_segment, step_of, tone_satisfied, MatchType, Problem, Scoring,
    SegmentView, SCORE_ONE, SCORE_UNIT,
};
use crate::tone::MeterTone;
use vstd::prelude::*;

verus! {

/// A classification is one of three, and tells what the place earned:
/// five units for `AllMatch`, four for `ToneOnly`, and for `NoMatch` one
/// where a character meets a slot that asks for no rhyme, else none.
pub proof fn lemma_class_and_units(sc: Scoring, c: Seq<char>, q: Seq<MeterTone>, i: int)
    ensures
        sc.class_at(c, q, i) is AllMatch || sc.class_at(c, q, i) is ToneOnly || sc.class_at(
            c,
            q,
            i,
        ) is NoMatch,
        sc.class_at(c, q, i) is AllMatch <==> sc.units_at(c, q, i) == 5,
        sc.class_at(c, q, i) is ToneOnly <==> sc.units_at(c, q, i) == 4,
        sc.class_at(c, q, i) is NoMatch <==> sc.units_at(c, q, i) <= 1,
        sc.units_at(c, q, i) <= 5,
{
}

/// A sentence scores at most 1.0 at any position.
pub proof fn lemma_step_bound(sc: Scoring, sentences: Seq<Seq<char>>, meter: Seq<Seq<MeterTone>>, i: int, p: int)
    ensures
        step_of(sc, sentences, meter)(i, p) <= SCORE_ONE,
{
    if p % 2 != 0 {
        let c = sentences[i];
        let q = meter[p / 2];
        lemma_units_bound(sc, c, q, match_len(c, q) as int);
        lemma_sentence_score_bound(sc.units(c, q), match_len(c, q));
    }
}

/// The best total of a candidate is at most the number of sentences
/// times 1.0, and stands in the last row at the end position.
pub proof fn lemma_total_bound(problem: Problem, k: int)
    requires
        problem.sentences.len() >= 1,
    ensures
        problem.total(k) <= problem.sentences.len() * SCORE_ONE,
        0 <= problem.end_pos(k) < problem.width(),
        problem.last_row(k)[problem.end_pos(k)] == problem.total(k),
        forall|p: int| 0 <= p < problem.width() ==> problem.last_row(k)[p] <= problem.total(k),
{
    let n = problem.sentences.len() as int;
    let step = problem.step(k);
    let width = problem.width();
    lemma_best_row_len(step, width, n - 1);
    lemma_prefix_max(problem.last_row(k), width as int);
    assert forall|j: int, q: int| 0 <= j <= n - 1 && 0 <= q < width implies #[trigger] step(j, q)
        <= SCORE_ONE by {
        lemma_step_bound(problem.scoring(k), problem.sentences, problem.meter, j, q);
    }
    lemma_best_row_bound(step, width, n - 1, problem.end_pos(k));
}

/// The score of every match lies between 0 and 1.0.
pub proof fn lemma_score_bounds(problem: Problem)
    ensures
        0 <= problem.score() <= SCORE_ONE,
        problem.outcome().score == problem.score(),
{
    let n = problem.sentences.len() as int;
    if n > 0 {
        lemma_total_bound(problem, problem.chosen());
        let total = problem.total(problem.chosen()) as int;
        let d = problem.denominator() as int;
        assert(total <= d * SCORE_ONE) by (nonlinear_arith)
            requires
                total <= n * SCORE_ONE,
                n <= d,
        ;
        vstd::arithmetic::div_mod::lemma_div_is_ordered(total, d * SCORE_ONE, d);
        vstd::arithmetic::div_mod::lemma_div_multiples_vanish(SCORE_ONE as int, d);
        vstd::arithmetic::div_mod::lemma_div_pos_is_pos(total, d);
    }
}

/// The chosen candidate is one of the candidates, and none has a
/// greater total; of those with its total none ends earlier, and of
/// those that end where it ends none comes before it.
pub proof fn lemma_pick(problem: Problem, count: int, k: int)
    requires
        0 <= k < count,
    ensures
        0 <= problem.pick(count) < count,
        problem.total(k) <= problem.total(problem.pick(count)),
        problem.total(k) == problem.total(problem.pick(count)) ==> problem.end_pos(
            problem.pick(count),
        ) < problem.end_pos(k) || (problem.end_pos(problem.pick(count)) == problem.end_pos(k)
            && problem.pick(count) <= k),
    decreases count,
{
    if count > 1 {
        if k < count - 1 {
            lemma_pick(problem, count - 1, k);
        } else {
            lemma_pick(problem, count - 1, 0);
        }
    }
}

/// The chosen alignment is the first of the greatest total when the
/// ends are gone through position by position and, at each position,
/// candidate by candidate.
pub proof fn lemma_chosen_is_first_maximum(problem: Problem, p: int, k: int)
    requires
        problem.sentences.len() >= 1,
        0 <= k < problem.bindings.len(),
        0 <= p < problem.width(),
    ensures
        0 <= problem.chosen() < problem.bindings.len(),
        problem.last_row(k)[p] <= problem.total(problem.chosen()),
        problem.last_row(k)[p] == problem.total(problem.chosen()) ==> problem.end_pos(
            problem.chosen(),
        ) < p || (problem.end_pos(problem.chosen()) == p && problem.chosen() <= k),
{
    let count = problem.bindings.len() as int;
    lemma_pick(problem, count, k);
    lemma_total_bound(problem, k);
    let row = problem.last_row(k);
    lemma_best_row_len(problem.step(k), problem.width(), problem.sentences.len() - 1);
    lemma_prefix_max(row, problem.width() as int);
}

/// How many of the first `n` places hold different characters in `c`
/// and `d`.
pub open spec fn replaced_upto(c: Seq<char>, d: Seq<char>, n: int) -> nat
    decreases n,
{
    if n <= 0 {
        0
    } else {
        replaced_upto(c, d, n - 1) + (if n - 1 < c.len() && n - 1 < d.len() && c[n - 1] != d[n
            - 1] {
            1nat
        } else {
            0nat
        })
    }
}

/// Whether `d` is `c` with some characters at rhyme positions of line
/// `q`, which had their tone and their rhyme, replaced by characters
/// that have the tone and not the rhyme.
pub open spec fn loses_rhymes_only(sc: Scoring, q: Seq<MeterTone>, c: Seq<char>, d: Seq<char>) -> bool {
    &&& c.len() == d.len()
    &&& forall|i: int|
        0 <= i < c.len() && #[trigger] c[i] != d[i] ==> {
            &&& i < q.len()
            &&& q[i].rhyme_num is Some
            &&& sc.class_at(c, q, i) is AllMatch
            &&& tone_satisfied(sc.dict.rhymes_of(d[i]), q[i])
            &&& !rhyme_satisfied(
                sc.dict.rhymes_of(d[i]),
                q[i],
                bound_rhyme(sc.slots, sc.bound, q[i]),
            )
        }
}

proof fn lemma_regression_upto(sc: Scoring, q: Seq<MeterTone>, c: Seq<char>, d: Seq<char>, n: int)
    requires
        loses_rhymes_only(sc, q, c, d),
    ensures
        sc.units_upto(d, q, n) + replaced_upto(c, d, n) == sc.units_upto(c, q, n),
    decreases n,
{
    if n > 0 {
        lemma_regression_upto(sc, q, c, d, n - 1);
        if n - 1 < c.len() && c[n - 1] != d[n - 1] {
            lemma_class_and_units(sc, c, q, n - 1);
        }
    }
}

/// Where characters at rhyme positions are replaced by characters of
/// the right tone and the wrong rhyme, exactly those places become
/// `ToneOnly`, every other place keeps its classification, and the
/// sentence loses one unit, a fifth of a character, for each.
pub proof fn lemma_tone_only_regression(sc: Scoring, q: Seq<MeterTone>, c: Seq<char>, d: Seq<char>)
    requires
        loses_rhymes_only(sc, q, c, d),
    ensures
        sc.classes(d, q).len() == sc.classes(c, q).len(),
        forall|i: int|
            0 <= i < sc.classes(c, q).len() ==> #[trigger] sc.classes(d, q)[i] == (if i < c.len()
                && c[i] != d[i] {
                MatchType::ToneOnly
            } else {
                sc.classes(c, q)[i]
            }),
        sc.units(d, q) + replaced_upto(c, d, c.len() as int) == sc.units(c, q),
{
    let n = match_len(c, q) as int;
    lemma_regression_upto(sc, q, c, d, n);
    lemma_replaced_stops(c, d, n);
}

proof fn lemma_replaced_stops(c: Seq<char>, d: Seq<char>, n: int)
    requires
        n >= c.len(),
    ensures
        replaced_upto(c, d, n) == replaced_upto(c, d, c.len() as int),
    decreases n,
{
    if n > c.len() {
        lemma_replaced_stops(c, d, n - 1);
    }
}

/// Whether sentence `c` fits line `q` place by place: one character for
/// each slot, each with its tone and its rhyme.
pub open spec fn is_perfect(sc: Scoring, c: Seq<char>, q: Seq<MeterTone>) -> bool {
    &&& c.len() == q.len()
    &&& c.len() > 0
    &&& forall|i: int| 0 <= i < c.len() ==> sc.class_at(c, q, i) is AllMatch
}

proof fn lemma_full_units(sc: Scoring, c: Seq<char>, q: Seq<MeterTone>, n: int)
    requires
        n >= 0,
    ensures
        sc.units_upto(c, q, n) <= 5 * n,
        sc.units_upto(c, q, n) == 5 * n <==> forall|i: int|
            0 <= i < n ==> sc.units_at(c, q, i) == 5,
    decreases n,
{
    if n > 0 {
        lemma_full_units(sc, c, q, n - 1);
        lemma_class_and_units(sc, c, q, n - 1);
        if sc.units_upto(c, q, n) == 5 * n {
            assert forall|i: int| 0 <= i < n implies sc.units_at(c, q, i) == 5 by {
                if i < n - 1 {
                }
            }
        }
    }
}

/// A sentence scores 1.0 against a line exactly when it fits the line
/// place by place.
pub proof fn lemma_perfect_is_one(sc: Scoring, c: Seq<char>, q: Seq<MeterTone>)
    ensures
        is_perfect(sc, c, q) <==> sc.score(c, q) == SCORE_ONE,
{
    let n = match_len(c, q) as int;
    lemma_full_units(sc, c, q, n);
    lemma_sentence_score_bound(sc.units(c, q), n as nat);
    if is_perfect(sc, c, q) {
        assert forall|i: int| 0 <= i < n implies sc.units_at(c, q, i) == 5 by {
            lemma_class_and_units(sc, c, q, i);
        }
    }
    if sc.score(c, q) == SCORE_ONE {
        assert(n > 0);
        let units = sc.units(c, q) as int;
        if units < 5 * n {
            let unit = SCORE_UNIT as int;
            assert(units * unit < n * (5 * unit)) by (nonlinear_arith)
                requires
                    units < 5 * n,
                    unit > 0,
            ;
            vstd::arithmetic::div_mod::lemma_multiply_divide_lt(units * unit, n, 5 * unit);
            assert(false);
        }
        assert forall|i: int| 0 <= i < n implies sc.class_at(c, q, i) is AllMatch by {
            assert(sc.units_at(c, q, i) == 5);
            lemma_class_and_units(sc, c, q, i);
        }
        if c.len() < n {
            assert(sc.units_at(c, q, n - 1) == 5);
        }
        if q.len() < n {
            assert(sc.units_at(c, q, n - 1) == 5);
        }
    }
}

proof fn lemma_all_ones(step: spec_fn(int, int) -> nat, pos: Seq<int>)
    requires
        forall|i: int| 0 <= i < pos.len() ==> #[trigger] step(i, pos[i]) <= SCORE_ONE,
    ensures
        path_total(step, pos) <= pos.len() * SCORE_ONE,
        path_total(step, pos) == pos.len() * SCORE_ONE <==> forall|i: int|
            0 <= i < pos.len() ==> #[trigger] step(i, pos[i]) == SCORE_ONE,
    decreases pos.len(),
{
    if pos.len() > 0 {
        let before = pos.drop_last();
        let n = pos.len() as int;
        assert forall|i: int| 0 <= i < before.len() implies #[trigger] step(i, before[i])
            <= SCORE_ONE by {
            assert(before[i] == pos[i]);
        }
        lemma_all_ones(step, before);
        assert(step(n - 1, pos[n - 1]) <= SCORE_ONE);
        assert(n * SCORE_ONE == (n - 1) * SCORE_ONE + SCORE_ONE) by (nonlinear_arith);
        if path_total(step, pos) == n * SCORE_ONE {
            assert forall|i: int| 0 <= i < pos.len() implies #[trigger] step(i, pos[i])
                == SCORE_ONE by {
                if i < n - 1 {
                    assert(step(i, before[i]) == SCORE_ONE);
                    assert(before[i] == pos[i]);
                }
            }
        }
        if forall|i: int| 0 <= i < pos.len() ==> #[trigger] step(i, pos[i]) == SCORE_ONE {
            assert forall|i: int| 0 <= i < before.len() implies #[trigger] step(i, before[i])
                == SCORE_ONE by {
                assert(before[i] == pos[i]);
            }
            assert(step(n - 1, pos[n - 1]) == SCORE_ONE);
        }
    }
}

/// Where the sentences can stand on template lines in order so that,
/// under one candidate, each fits its line place by place, and no more
/// lines are non-empty than there are sentences, the score is 1.0, and
/// in the chosen alignment every sentence stands on a line that it
/// fits place by place: every classification is `AllMatch`.
pub proof fn lemma_perfect_match(problem: Problem, k: int, pos: Seq<int>)
    requires
        problem.sentences.len() >= 1,
        0 <= k < problem.bindings.len(),
        pos.len() == problem.sentences.len(),
        is_alignment(pos, problem.width()),
        forall|i: int|
            0 <= i < pos.len() ==> (#[trigger] pos[i]) % 2 == 1 && is_perfect(
                problem.scoring(k),
                problem.sentences[i],
                problem.meter[pos[i] / 2],
            ),
        nonempty_lines(problem.meter) <= problem.sentences.len(),
    ensures
        problem.score() == SCORE_ONE,
        problem.positions().len() == problem.sentences.len(),
        forall|i: int|
            0 <= i < problem.sentences.len() ==> (#[trigger] problem.positions()[i]) % 2 == 1
                && is_perfect(
                problem.scoring(problem.chosen()),
                problem.sentences[i],
                problem.meter[problem.positions()[i] / 2],
            ),
{
    let n = problem.sentences.len() as int;
    let width = problem.width();
    let step = problem.step(k);
    assert forall|i: int| 0 <= i < pos.len() implies #[trigger] step(i, pos[i]) == SCORE_ONE by {
        lemma_perfect_is_one(problem.scoring(k), problem.sentences[i], problem.meter[pos[i] / 2]);
    }
    lemma_all_ones(step, pos);
    lemma_table_is_upper_bound(step, width, pos);
    lemma_total_bound(problem, k);
    assert(pos.last() == pos[n - 1]);
    assert(0 <= pos[n - 1] < width);
    let chosen = problem.chosen();
    lemma_pick(problem, problem.bindings.len() as int, k);
    lemma_total_bound(problem, chosen);
    assert(problem.total(chosen) == n * SCORE_ONE);
    assert(problem.denominator() == n);
    vstd::arithmetic::div_mod::lemma_div_multiples_vanish(SCORE_ONE as int, n);
    assert(n * SCORE_ONE == SCORE_ONE * n) by (nonlinear_arith);
    let best = problem.step(chosen);
    let path = problem.positions();
    lemma_best_path_attains(best, width, n, problem.end_pos(chosen));
    assert forall|i: int| 0 <= i < path.len() implies #[trigger] best(i, path[i]) <= SCORE_ONE by {
        lemma_step_bound(problem.scoring(chosen), problem.sentences, problem.meter, i, path[i]);
    }
    lemma_all_ones(best, path);
    assert forall|i: int| 0 <= i < n implies (#[trigger] path[i]) % 2 == 1 && is_perfect(
        problem.scoring(chosen),
        problem.sentences[i],
        problem.meter[path[i] / 2],
    ) by {
        assert(best(i, path[i]) == SCORE_ONE);
        assert(0 <= path[i] < width);
        lemma_perfect_is_one(
            problem.scoring(chosen),
            problem.sentences[i],
            problem.meter[path[i] / 2],
        );
    }
}

proof fn lemma_gaps_add_nothing(step: spec_fn(int, int) -> nat, pos: Seq<int>, m: int)
    requires
        0 <= m <= pos.len(),
        forall|i: int| m <= i < pos.len() ==> #[trigger] step(i, pos[i]) == 0,
    ensures
        path_total(step, pos) == path_total(step, pos.take(m)),
    decreases pos.len() - m,
{
    if m < pos.len() {
        let before = pos.drop_last();
        assert forall|i: int| m <= i < before.len() implies #[trigger] step(i, before[i]) == 0 by {
            assert(before[i] == pos[i]);
        }
        lemma_gaps_add_nothing(step, before, m);
        assert(before.take(m) =~= pos.take(m));
        assert(step(pos.len() - 1, pos[pos.len() - 1]) == 0);
    } else {
        assert(pos.take(m) =~= pos);
    }
}

proof fn lemma_same_steps_same_total(
    one: spec_fn(int, int) -> nat,
    other: spec_fn(int, int) -> nat,
    pos: Seq<int>,
)
    requires
        forall|i: int| 0 <= i < pos.len() ==> #[trigger] one(i, pos[i]) == other(i, pos[i]),
    ensures
        path_total(one, pos) == path_total(other, pos),
    decreases pos.len(),
{
    if pos.len() > 0 {
        let before = pos.drop_last();
        assert forall|i: int| 0 <= i < before.len() implies #[trigger] one(i, before[i]) == other(
            i,
            before[i],
        ) by {
            assert(before[i] == pos[i]);
        }
        lemma_same_steps_same_total(one, other, before);
        assert(one(pos.len() - 1, pos[pos.len() - 1]) == other(pos.len() - 1, pos[pos.len() - 1]));
    }
}

/// Whether `longer` is `shorter` with sentences added at the end, under
/// the same dictionary, template and candidates.
pub open spec fn extends(shorter: Problem, longer: Problem) -> bool {
    &&& shorter.dict == longer.dict
    &&& shorter.meter == longer.meter
    &&& shorter.slots == longer.slots
    &&& shorter.bindings == longer.bindings
    &&& shorter.sentences.len() <= longer.sentences.len()
    &&& longer.sentences.take(shorter.sentences.len() as int) == shorter.sentences
}

/// Sentences added at the end of a text that the chosen alignment puts
/// into gaps never raise the score, the candidates being the same.
pub proof fn lemma_surplus_never_raises_score(shorter: Problem, longer: Problem)
    requires
        extends(shorter, longer),
        shorter.bindings.len() >= 1,
        forall|i: int|
            shorter.sentences.len() <= i < longer.sentences.len() ==> (
            #[trigger] longer.positions()[i]) % 2 == 0,
    ensures
        longer.score() <= shorter.score(),
{
    let m = shorter.sentences.len() as int;
    let n = longer.sentences.len() as int;
    if n > 0 {
        let width = longer.width();
        let k = longer.chosen();
        let step = longer.step(k);
        let path = longer.positions();
        lemma_pick(longer, longer.bindings.len() as int, 0);
        lemma_total_bound(longer, k);
        lemma_best_path_attains(step, width, n, longer.end_pos(k));
        assert forall|i: int| m <= i < path.len() implies #[trigger] step(i, path[i]) == 0 by {
            assert(path[i] % 2 == 0);
        }
        lemma_gaps_add_nothing(step, path, m);
        let head = path.take(m);
        if m == 0 {
            assert(path_total(step, head) == 0);
            assert(longer.total(k) == 0);
        } else {
            let short_step = shorter.step(k);
            assert forall|i: int| 0 <= i < head.len() implies #[trigger] short_step(i, head[i])
                == step(i, head[i]) by {
                assert(longer.sentences.take(m)[i] == longer.sentences[i]);
            }
            lemma_same_steps_same_total(short_step, step, head);
            assert(is_alignment(head, width)) by {
                assert forall|i: int| 0 <= i < head.len() implies 0 <= #[trigger] head[i]
                    < width by {
                    assert(head[i] == path[i]);
                }
                assert forall|i: int| 0 <= i < head.len() - 1 implies #[trigger] head[i]
                    <= pred_limit(head[i + 1]) by {
                    assert(head[i] == path[i]);
                    assert(head[i + 1] == path[i + 1]);
                }
            }
            lemma_table_is_upper_bound(short_step, width, head);
            lemma_total_bound(shorter, k);
            assert(0 <= head[m - 1] < width);
            assert(head.last() == head[m - 1]);
            lemma_pick(shorter, shorter.bindings.len() as int, k);
            let top = shorter.total(shorter.chosen()) as int;
            let low = longer.total(k) as int;
            let d_short = shorter.denominator() as int;
            let d_long = longer.denominator() as int;
            assert(low <= top);
            vstd::arithmetic::div_mod::lemma_div_is_ordered(low, top, d_long);
            vstd::arithmetic::div_mod::lemma_div_is_ordered_by_denominator(top, d_short, d_long);
        }
    }
}


/// The chosen alignment places the sentences in order, scores the
/// chosen total, and no placing of the sentences in order scores more
/// under any candidate.
pub proof fn lemma_chosen_is_optimal(problem: Problem, k: int, pos: Seq<int>)
    requires
        problem.sentences.len() >= 1,
        0 <= k < problem.bindings.len(),
        pos.len() == problem.sentences.len(),
        is_alignment(pos, problem.width()),
    ensures
        is_alignment(problem.positions(), problem.width()),
        problem.positions().len() == problem.sentences.len(),
        path_total(problem.step(problem.chosen()), problem.positions()) == problem.total(
            problem.chosen(),
        ),
        path_total(problem.step(k), pos) <= problem.total(problem.chosen()),
{
    let n = problem.sentences.len() as int;
    let chosen = problem.chosen();
    lemma_total_bound(problem, chosen);
    lemma_best_path_attains(problem.step(chosen), problem.width(), n, problem.end_pos(chosen));
    lemma_table_is_upper_bound(problem.step(k), problem.width(), pos);
    lemma_total_bound(problem, k);
    assert(pos.last() == pos[n - 1]);
    lemma_pick(problem, problem.bindings.len() as int, k);
}

/// The texts of the segments that hold a sentence, in order.
pub open spec fn texts_of(segments: Seq<SegmentView>) -> Seq<Seq<char>>
    decreases segments.len(),
{
    if segments.len() == 0 {
        Seq::empty()
    } else {
        texts_of(segments.drop_last()) + (match segments.last().text {
            Some(t) => seq![t],
            None => Seq::empty(),
        })
    }
}

/// The template lines of the segments that hold one, in order.
pub open spec fn lines_of(segments: Seq<SegmentView>) -> Seq<Seq<MeterTone>>
    decreases segments.len(),
{
    if segments.len() == 0 {
        Seq::empty()
    } else {
        lines_of(segments.drop_last()) + (match segments.last().meter {
            Some(m) => seq![m],
            None => Seq::empty(),
        })
    }
}

proof fn lemma_parts_of_concat(a: Seq<SegmentView>, b: Seq<SegmentView>)
    ensures
        texts_of(a + b) == texts_of(a) + texts_of(b),
        lines_of(a + b) == lines_of(a) + lines_of(b),
    decreases b.len(),
{
    if b.len() == 0 {
        assert(a + b =~= a);
        assert(texts_of(a) + texts_of(b) =~= texts_of(a));
        assert(lines_of(a) + lines_of(b) =~= lines_of(a));
    } else {
        lemma_parts_of_concat(a, b.drop_last());
        assert((a + b).drop_last() =~= a + b.drop_last());
        assert((a + b).last() == b.last());
        let t = match b.last().text {
            Some(t) => seq![t],
            None => Seq::<Seq<char>>::empty(),
        };
        let m = match b.last().meter {
            Some(m) => seq![m],
            None => Seq::<Seq<MeterTone>>::empty(),
        };
        assert((texts_of(a) + texts_of(b.drop_last())) + t =~= texts_of(a) + (texts_of(
            b.drop_last(),
        ) + t));
        assert((lines_of(a) + lines_of(b.drop_last())) + m =~= lines_of(a) + (lines_of(
            b.drop_last(),
        ) + m));
    }
}

proof fn lemma_parts_of_extra_lines(meter: Seq<Seq<MeterTone>>, from: int, to: int)
    requires
        0 <= from <= to <= meter.len(),
    ensures
        texts_of(extra_lines(meter, from, to)) == Seq::<Seq<char>>::empty(),
        lines_of(extra_lines(meter, from, to)) == meter.subrange(from, to),
    decreases to - from,
{
    if from < to {
        lemma_parts_of_extra_lines(meter, from, to - 1);
        let e = extra_lines(meter, from, to);
        assert(e.drop_last() =~= extra_lines(meter, from, to - 1));
        assert(texts_of(e) =~= Seq::<Seq<char>>::empty());
        assert(lines_of(e) =~= meter.subrange(from, to));
    } else {
        assert(meter.subrange(from, to) =~= Seq::<Seq<MeterTone>>::empty());
    }
}

proof fn lemma_parts_upto(
    sc: Scoring,
    sentences: Seq<Seq<char>>,
    meter: Seq<Seq<MeterTone>>,
    pos: Seq<int>,
    count: int,
)
    requires
        0 <= count <= pos.len(),
        pos.len() == sentences.len(),
        is_alignment(pos, 2 * meter.len() + 1),
    ensures
        texts_of(segments_upto(sc, sentences, meter, pos, count)) == sentences.take(count),
        lines_of(segments_upto(sc, sentences, meter, pos, count)) == meter.take(
            if count == 0 {
                0
            } else {
                lines_through(pos[count - 1])
            },
        ),
    decreases count,
{
    if count == 0 {
        assert(sentences.take(0) =~= Seq::<Seq<char>>::empty());
        assert(meter.take(0) =~= Seq::<Seq<MeterTone>>::empty());
    } else {
        lemma_parts_upto(sc, sentences, meter, pos, count - 1);
        let p = pos[count - 1];
        assert(0 <= p < 2 * meter.len() + 1);
        let from = if count == 1 {
            0
        } else {
            lines_through(pos[count - 2])
        };
        if count > 1 {
            assert(0 <= pos[count - 2] < 2 * meter.len() + 1);
            assert(pos[count - 2] <= pred_limit(pos[count - 2 + 1]));
        }
        let to = lines_before(p);
        assert(0 <= from <= to <= meter.len());
        let before = segments_upto(sc, sentences, meter, pos, count - 1);
        let gap = extra_lines(meter, from, to);
        let own = sentence_segment(sc, sentences[count - 1], meter, p);
        lemma_parts_of_extra_lines(meter, from, to);
        lemma_parts_of_concat(before, gap);
        let all = (before + gap).push(own);
        assert(all == segments_upto(sc, sentences, meter, pos, count));
        assert(all.drop_last() =~= before + gap);
        assert(all.last() == own);
        assert(texts_of(all) =~= sentences.take(count));
        assert(meter.take(from) + meter.subrange(from, to) =~= meter.take(to));
        if p % 2 == 0 {
            assert(lines_through(p) == to);
            assert(lines_of(all) =~= meter.take(to));
        } else {
            assert(lines_through(p) == to + 1);
            assert(meter.take(to) + seq![meter[p / 2]] =~= meter.take(to + 1));
        }
    }
}

/// Whatever the alignment, its segments hold every sentence once, in
/// the order of the text, and every template line once, in the order of
/// the template.
pub proof fn lemma_segments_hold_all(
    sc: Scoring,
    sentences: Seq<Seq<char>>,
    meter: Seq<Seq<MeterTone>>,
    pos: Seq<int>,
)
    requires
        pos.len() == sentences.len(),
        pos.len() >= 1,
        is_alignment(pos, 2 * meter.len() + 1),
    ensures
        texts_of(all_segments(sc, sentences, meter, pos)) == sentences,
        lines_of(all_segments(sc, sentences, meter, pos)) == meter,
{
    let n = pos.len() as int;
    lemma_parts_upto(sc, sentences, meter, pos, n);
    let through = lines_through(pos.last());
    assert(pos.last() == pos[n - 1]);
    assert(0 <= pos[n - 1] < 2 * meter.len() + 1);
    lemma_parts_of_extra_lines(meter, through, meter.len() as int);
    lemma_parts_of_concat(
        segments_upto(sc, sentences, meter, pos, n),
        extra_lines(meter, through, meter.len() as int),
    );
    assert(sentences.take(n) =~= sentences);
    assert(sentences + Seq::<Seq<char>>::empty() =~= sentences);
    assert(meter.take(through) + meter.subrange(through, meter.len() as int) =~= meter);
}

/// The result of a match holds every sentence of the text once, in
/// order, and every line of the template once, in order.
pub proof fn lemma_result_holds_all(problem: Problem)
    requires
        problem.sentences.len() >= 1,
    ensures
        texts_of(problem.outcome().result) == problem.sentences,
        lines_of(problem.outcome().result) == problem.meter,
{
    let n = problem.sentences.len() as int;
    let chosen = problem.chosen();
    lemma_total_bound(problem, chosen);
    lemma_best_path_attains(problem.step(chosen), problem.width(), n, problem.end_pos(chosen));
    lemma_segments_hold_all(
        problem.scoring(chosen),
        problem.sentences,
        problem.meter,
        problem.positions(),
    );
}

} // verus!
