use vstd::prelude::*;

verus! {

/// The last position that the sentence before one at position `p` may
/// take. Positions alternate between gaps (even) and template lines
/// (odd): a gap takes any number of sentences, a line at most one.
pub open spec fn pred_limit(p: int) -> int {
    if p % 2 == 0 {
        p
    } else {
        p - 1
    }
}

/// The greatest of the first `n` entries of `row`.
pub open spec fn prefix_max(row: Seq<nat>, n: int) -> nat
    decreases n,
{
    if n <= 1 {
        row[0]
    } else {
        let m = prefix_max(row, n - 1);
        if row[n - 1] > m {
            row[n - 1]
        } else {
            m
        }
    }
}

/// The first place among the first `n` entries of `row` that holds the
/// greatest of them.
pub open spec fn prefix_argmax(row: Seq<nat>, n: int) -> int
    decreases n,
{
    if n <= 1 {
        0
    } else if row[n - 1] > prefix_max(row, n - 1) {
        n - 1
    } else {
        prefix_argmax(row, n - 1)
    }
}

/// Row `i` of the table: entry `p` is the best total of the sentences
/// 0 to `i`, with sentence `i` at position `p`, where `step(i, p)` is
/// what sentence `i` scores at position `p`.
pub open spec fn best_row(step: spec_fn(int, int) -> nat, width: nat, i: int) -> Seq<nat>
    decreases i,
{
    if i <= 0 {
        Seq::new(width, |p: int| step(0, p))
    } else {
        let prev = best_row(step, width, i - 1);
        Seq::new(width, |p: int| step(i, p) + prefix_max(prev, pred_limit(p) + 1))
    }
}

/// The positions of the sentences 0 to `n - 1` on the best way that
/// ends with sentence `n - 1` at position `last`: each sentence before
/// stands at the first position that gives the best total.
pub open spec fn best_path(step: spec_fn(int, int) -> nat, width: nat, n: int, last: int) -> Seq<
    int,
>
    decreases n,
{
    if n <= 1 {
        seq![last]
    } else {
        best_path(
            step,
            width,
            n - 1,
            prefix_argmax(best_row(step, width, n - 2), pred_limit(last) + 1),
        ).push(last)
    }
}

/// Whether `pos` places its sentences in order: each at a position of
/// the template, none before its predecessor, and none on a line that
/// its predecessor took.
pub open spec fn is_alignment(pos: Seq<int>, width: nat) -> bool {
    &&& forall|i: int| 0 <= i < pos.len() ==> 0 <= #[trigger] pos[i] < width
    &&& forall|i: int| 0 <= i < pos.len() - 1 ==> #[trigger] pos[i] <= pred_limit(pos[i + 1])
}

/// What the sentences score together at the positions `pos`.
pub open spec fn path_total(step: spec_fn(int, int) -> nat, pos: Seq<int>) -> nat
    decreases pos.len(),
{
    if pos.len() == 0 {
        0
    } else {
        path_total(step, pos.drop_last()) + step(pos.len() - 1, pos.last())
    }
}

/// `prefix_max` is the greatest entry, and `prefix_argmax` the first
/// place that holds it.
pub proof fn lemma_prefix_max(row: Seq<nat>, n: int)
    requires
        1 <= n <= row.len(),
    ensures
        0 <= prefix_argmax(row, n) < n,
        row[prefix_argmax(row, n)] == prefix_max(row, n),
        forall|j: int| 0 <= j < n ==> #[trigger] row[j] <= prefix_max(row, n),
        forall|j: int| 0 <= j < prefix_argmax(row, n) ==> #[trigger] row[j] < prefix_max(row, n),
    decreases n,
{
    if n > 1 {
        lemma_prefix_max(row, n - 1);
    }
}

/// Every row of the table has an entry for each position.
pub proof fn lemma_best_row_len(step: spec_fn(int, int) -> nat, width: nat, i: int)
    ensures
        best_row(step, width, i).len() == width,
{
}

/// No way of placing the sentences scores more than the table says.
pub proof fn lemma_table_is_upper_bound(step: spec_fn(int, int) -> nat, width: nat, pos: Seq<int>)
    requires
        pos.len() >= 1,
        is_alignment(pos, width),
    ensures
        path_total(step, pos) <= best_row(step, width, pos.len() - 1)[pos.last()],
    decreases pos.len(),
{
    let n = pos.len() as int;
    if n == 1 {
        assert(pos.drop_last().len() == 0);
        assert(path_total(step, pos.drop_last()) == 0);
    } else {
        let before = pos.drop_last();
        assert(is_alignment(before, width)) by {
            assert forall|i: int| 0 <= i < before.len() implies 0 <= #[trigger] before[i]
                < width by {
                assert(before[i] == pos[i]);
            }
            assert forall|i: int| 0 <= i < before.len() - 1 implies #[trigger] before[i]
                <= pred_limit(before[i + 1]) by {
                assert(before[i] == pos[i]);
                assert(before[i + 1] == pos[i + 1]);
            }
        }
        lemma_table_is_upper_bound(step, width, before);
        let prev = best_row(step, width, n - 2);
        let limit = pred_limit(pos.last());
        assert(before.last() == pos[n - 2]);
        assert(pos[n - 2] <= pred_limit(pos[n - 2 + 1]));
        lemma_prefix_max(prev, limit + 1);
    }
}

/// The best way is a way of placing the sentences in order, and scores
/// what the table says.
pub proof fn lemma_best_path_attains(step: spec_fn(int, int) -> nat, width: nat, n: int, last: int)
    requires
        n >= 1,
        0 <= last < width,
    ensures
        best_path(step, width, n, last).len() == n,
        best_path(step, width, n, last).last() == last,
        is_alignment(best_path(step, width, n, last), width),
        path_total(step, best_path(step, width, n, last)) == best_row(step, width, n - 1)[last],
    decreases n,
{
    let path = best_path(step, width, n, last);
    if n == 1 {
        assert(path.drop_last().len() == 0);
        assert(path_total(step, path.drop_last()) == 0);
    } else {
        let prev = best_row(step, width, n - 2);
        let before_last = prefix_argmax(prev, pred_limit(last) + 1);
        lemma_prefix_max(prev, pred_limit(last) + 1);
        lemma_best_path_attains(step, width, n - 1, before_last);
        let before = best_path(step, width, n - 1, before_last);
        assert(path == before.push(last));
        assert(path.drop_last() =~= before);
        assert forall|i: int| 0 <= i < path.len() implies 0 <= #[trigger] path[i] < width by {
            if i < n - 1 {
                assert(path[i] == before[i]);
            }
        }
        assert forall|i: int| 0 <= i < path.len() - 1 implies #[trigger] path[i] <= pred_limit(
            path[i + 1],
        ) by {
            assert(path[i] == before[i]);
            if i < n - 2 {
                assert(path[i + 1] == before[i + 1]);
            }
        }
    }
}

} // verus!
