use crate::rhyme::{Rhyme, RhymeDict, RhymeId};
use crate::text::chars_views;
use crate::tone::{meter_view, BasicTone, MeterTone, MeterToneType};
use vstd::prelude::*;

verus! {

/// The rhyme slots of `line` that are not yet in `acc`, added to it in
/// reading order.
pub open spec fn collect_line(acc: Seq<MeterTone>, line: Seq<MeterTone>) -> Seq<MeterTone>
    decreases line.len(),
{
    if line.len() == 0 {
        acc
    } else {
        let a = collect_line(acc, line.drop_last());
        let q = line.last();
        if q.rhyme_num is Some && !a.contains(q) {
            a.push(q)
        } else {
            a
        }
    }
}

/// The distinct slots of a meter that carry a rhyme-group number, in
/// the order in which they first appear.
pub open spec fn rhyme_slots(meter: Seq<Seq<MeterTone>>) -> Seq<MeterTone>
    decreases meter.len(),
{
    if meter.len() == 0 {
        Seq::empty()
    } else {
        collect_line(rhyme_slots(meter.drop_last()), meter.last())
    }
}

/// Whether the record at position `i` is already in the pool: a record
/// of the same identifier and tone.
pub open spec fn pool_has(rhymes: Seq<Rhyme>, pool: Seq<usize>, i: usize) -> bool {
    exists|e: int|
        0 <= e < pool.len() && rhymes[(#[trigger] pool[e]) as int].id == rhymes[i as int].id
            && rhymes[pool[e] as int].tone == rhymes[i as int].tone
}

/// The pool with the records at `indices` added, each unless it is
/// there already.
pub open spec fn add_records(rhymes: Seq<Rhyme>, pool: Seq<usize>, indices: Seq<usize>) -> Seq<
    usize,
>
    decreases indices.len(),
{
    if indices.len() == 0 {
        pool
    } else {
        let p = add_records(rhymes, pool, indices.drop_last());
        if pool_has(rhymes, p, indices.last()) {
            p
        } else {
            p.push(indices.last())
        }
    }
}

/// The rhymes that a binding may choose from: the positions of the
/// records of the last character of each sentence, in the order of the
/// sentences and then of the dictionary, each rhyme of each tone once.
pub open spec fn rhyme_pool(dict: RhymeDict, sentences: Seq<Seq<char>>) -> Seq<usize>
    decreases sentences.len(),
{
    if sentences.len() == 0 {
        Seq::empty()
    } else {
        let p = rhyme_pool(dict, sentences.drop_last());
        let s = sentences.last();
        if s.len() == 0 {
            p
        } else {
            add_records(dict.rhymes(), p, dict.indices_of(s.last()))
        }
    }
}

/// The group label of a record.
pub open spec fn group_of(r: Rhyme) -> Option<Seq<char>> {
    match r.group {
        Some(g) => Some(g@),
        None => None,
    }
}

/// Tone polarity: a Ping slot takes a Ping rhyme, a Ze slot a Ze rhyme,
/// and a Zhong slot none.
pub open spec fn slot_takes(q: MeterTone, r: Rhyme) -> bool {
    match q.tone {
        MeterToneType::Ping => r.tone == BasicTone::Ping,
        MeterToneType::Ze => r.tone == BasicTone::Ze,
        MeterToneType::Zhong => false,
    }
}

/// Whether the rhyme `r`, bound at slot `q`, agrees with the rhyme `r2`
/// bound at another slot `q2`: slots of one rhyme-group number take
/// rhymes of one group label, and slots of different numbers take
/// different rhymes.
pub open spec fn agrees(q: MeterTone, r: Rhyme, q2: MeterTone, r2: Rhyme) -> bool {
    if q.rhyme_num == q2.rhyme_num {
        group_of(r) == group_of(r2)
    } else {
        r.id != r2.id
    }
}

/// Whether pool entry `e` may be bound at the slot that follows those
/// of `prefix`.
pub open spec fn compatible(
    rhymes: Seq<Rhyme>,
    slots: Seq<MeterTone>,
    pool: Seq<usize>,
    prefix: Seq<Option<usize>>,
    e: int,
) -> bool {
    let q = slots[prefix.len() as int];
    let r = rhymes[pool[e] as int];
    &&& slot_takes(q, r)
    &&& forall|t: int|
        0 <= t < prefix.len() && (#[trigger] prefix[t]) is Some ==> agrees(
            q,
            r,
            slots[t],
            rhymes[pool[prefix[t]->0 as int] as int],
        )
}

/// All the ways to go on from `prefix`, in the order of the search: the
/// next slot unbound first, then bound to each pool entry that may
/// stand there, in pool order.
pub open spec fn completions(
    rhymes: Seq<Rhyme>,
    slots: Seq<MeterTone>,
    pool: Seq<usize>,
    prefix: Seq<Option<usize>>,
) -> Seq<Seq<Option<usize>>>
    decreases slots.len() - prefix.len(), 1int, 0int,
{
    if prefix.len() >= slots.len() {
        seq![prefix]
    } else {
        completions(rhymes, slots, pool, prefix.push(None)) + bound_completions(
            rhymes,
            slots,
            pool,
            prefix,
            pool.len() as int,
        )
    }
}

/// The ways to go on from `prefix` with the next slot bound to one of
/// the first `upto` pool entries.
pub open spec fn bound_completions(
    rhymes: Seq<Rhyme>,
    slots: Seq<MeterTone>,
    pool: Seq<usize>,
    prefix: Seq<Option<usize>>,
    upto: int,
) -> Seq<Seq<Option<usize>>>
    decreases slots.len() - prefix.len(), 0int, upto,
{
    if upto <= 0 || prefix.len() >= slots.len() {
        Seq::empty()
    } else {
        bound_completions(rhymes, slots, pool, prefix, upto - 1) + (if compatible(
            rhymes,
            slots,
            pool,
            prefix,
            upto - 1,
        ) {
            completions(rhymes, slots, pool, prefix.push(Some((upto - 1) as usize)))
        } else {
            Seq::empty()
        })
    }
}

/// The rhyme identifiers that a choice of pool entries stands for.
pub open spec fn binding_of(rhymes: Seq<Rhyme>, pool: Seq<usize>, choice: Seq<Option<usize>>) -> Seq<
    Option<RhymeId>,
> {
    Seq::new(
        choice.len(),
        |i: int|
            match choice[i] {
                Some(e) => Some(rhymes[pool[e as int] as int].id),
                None => None,
            },
    )
}

/// The candidate bindings of the rhyme slots of `meter` for the
/// sentences: every binding that keeps the rules, in the order of the
/// search. Each runs parallel to `rhyme_slots(meter)`.
pub open spec fn bindings_of(
    dict: RhymeDict,
    sentences: Seq<Seq<char>>,
    meter: Seq<Seq<MeterTone>>,
) -> Seq<Seq<Option<RhymeId>>> {
    let pool = rhyme_pool(dict, sentences);
    completions(dict.rhymes(), rhyme_slots(meter), pool, Seq::empty()).map_values(
        |choice: Seq<Option<usize>>| binding_of(dict.rhymes(), pool, choice),
    )
}

/// Whether `choice` is a prefix of a binding that keeps the rules: each
/// bound entry is in the pool and may stand where it stands.
pub open spec fn keeps_rules(
    rhymes: Seq<Rhyme>,
    slots: Seq<MeterTone>,
    pool: Seq<usize>,
    choice: Seq<Option<usize>>,
) -> bool {
    &&& choice.len() <= slots.len()
    &&& forall|i: int|
        0 <= i < choice.len() && (#[trigger] choice[i]) is Some ==> choice[i]->0 < pool.len()
            && compatible(rhymes, slots, pool, choice.take(i), choice[i]->0 as int)
}

/// The views of a vector of choices or bindings.
pub open spec fn rows_view<T>(rows: Seq<Vec<T>>) -> Seq<Seq<T>> {
    Seq::new(rows.len(), |i: int| rows[i]@)
}

/// The candidate bindings of the rhyme slots of a template, for one
/// text. `bindings[k][i]` is the rhyme that candidate `k` binds
/// `slots[i]` to; `None` leaves the slot unbound.
pub struct RhymeCandidates {
    pub slots: Vec<MeterTone>,
    pub bindings: Vec<Vec<Option<RhymeId>>>,
}

fn contains_slot(slots: &Vec<MeterTone>, q: &MeterTone) -> (r: bool)
    ensures
        r == slots@.contains(*q),
{
    let mut i: usize = 0;
    while i < slots.len()
        invariant
            i <= slots.len(),
            forall|j: int| 0 <= j < i ==> slots@[j] != *q,
        decreases slots.len() - i,
    {
        if slots[i] == *q {
            return true;
        }
        i += 1;
    }
    false
}

/// The distinct rhyme slots of a meter, in the order in which they
/// first appear.
pub fn collect_rhyme_slots(meter: &Vec<Vec<MeterTone>>) -> (r: Vec<MeterTone>)
    ensures
        r@ == rhyme_slots(meter_view(meter@)),
{
    let ghost lines = meter_view(meter@);
    let mut out: Vec<MeterTone> = Vec::new();
    let mut i: usize = 0;
    assert(lines.take(0) =~= Seq::<Seq<MeterTone>>::empty());
    while i < meter.len()
        invariant
            i <= meter.len(),
            lines == meter_view(meter@),
            out@ == rhyme_slots(lines.take(i as int)),
        decreases meter.len() - i,
    {
        let line = &meter[i];
        let ghost base = out@;
        let mut j: usize = 0;
        assert(line@.take(0) =~= Seq::<MeterTone>::empty());
        while j < line.len()
            invariant
                j <= line.len(),
                out@ == collect_line(base, line@.take(j as int)),
            decreases line.len() - j,
        {
            let q = line[j];
            assert(line@.take(j + 1).drop_last() =~= line@.take(j as int));
            if q.rhyme_num.is_some() && !contains_slot(&out, &q) {
                out.push(q);
            }
            j += 1;
        }
        proof {
            assert(line@.take(line@.len() as int) =~= line@);
            assert(lines.take(i + 1).drop_last() =~= lines.take(i as int));
            assert(lines.take(i + 1).last() == line@);
        }
        i += 1;
    }
    assert(lines.take(meter.len() as int) =~= lines);
    out
}

fn pool_contains(dict: &RhymeDict, pool: &Vec<usize>, i: usize) -> (r: bool)
    requires
        i < dict.rhymes().len(),
        forall|e: int| 0 <= e < pool@.len() ==> (#[trigger] pool@[e]) < dict.rhymes().len(),
    ensures
        r == pool_has(dict.rhymes(), pool@, i),
{
    let record = dict.rhyme_at(i);
    let mut e: usize = 0;
    while e < pool.len()
        invariant
            e <= pool.len(),
            *record == dict.rhymes()[i as int],
            forall|k: int| 0 <= k < pool@.len() ==> (#[trigger] pool@[k]) < dict.rhymes().len(),
            forall|k: int|
                0 <= k < e ==> !(dict.rhymes()[(#[trigger] pool@[k]) as int].id == record.id
                    && dict.rhymes()[pool@[k] as int].tone == record.tone),
        decreases pool.len() - e,
    {
        assert(pool@[e as int] < dict.rhymes().len());
        let other = dict.rhyme_at(pool[e]);
        if other.id == record.id && other.tone == record.tone {
            return true;
        }
        e += 1;
    }
    false
}

/// The pool of rhymes that the bindings for `text` choose from.
pub fn collect_rhyme_pool(dict: &RhymeDict, text: &Vec<Vec<char>>) -> (r: Vec<usize>)
    ensures
        r@ == rhyme_pool(*dict, chars_views(text@)),
        forall|e: int| 0 <= e < r@.len() ==> (#[trigger] r@[e]) < dict.rhymes().len(),
{
    let ghost sentences = chars_views(text@);
    let mut pool: Vec<usize> = Vec::new();
    let mut i: usize = 0;
    assert(sentences.take(0) =~= Seq::<Seq<char>>::empty());
    while i < text.len()
        invariant
            i <= text.len(),
            sentences == chars_views(text@),
            pool@ == rhyme_pool(*dict, sentences.take(i as int)),
            forall|e: int| 0 <= e < pool@.len() ==> (#[trigger] pool@[e]) < dict.rhymes().len(),
        decreases text.len() - i,
    {
        let sentence = &text[i];
        proof {
            assert(sentences.take(i + 1).drop_last() =~= sentences.take(i as int));
            assert(sentences.take(i + 1).last() == sentence@);
        }
        if sentence.len() > 0 {
            let last = sentence[sentence.len() - 1];
            match dict.record_indices(last) {
                None => {},
                Some(idx) => {
                    let ghost base = pool@;
                    let mut k: usize = 0;
                    assert(idx@.take(0) =~= Seq::<usize>::empty());
                    while k < idx.len()
                        invariant
                            k <= idx.len(),
                            idx@ == dict.indices_of(last),
                            forall|j: int|
                                0 <= j < idx@.len() ==> (#[trigger] idx@[j]) < dict.rhymes().len(),
                            pool@ == add_records(dict.rhymes(), base, idx@.take(k as int)),
                            forall|e: int|
                                0 <= e < pool@.len() ==> (#[trigger] pool@[e])
                                    < dict.rhymes().len(),
                        decreases idx.len() - k,
                    {
                        assert(idx@.take(k + 1).drop_last() =~= idx@.take(k as int));
                        assert(idx@[k as int] < dict.rhymes().len());
                        if !pool_contains(dict, &pool, idx[k]) {
                            pool.push(idx[k]);
                        }
                        k += 1;
                    }
                    assert(idx@.take(idx@.len() as int) =~= idx@);
                },
            }
        }
        i += 1;
    }
    assert(sentences.take(text.len() as int) =~= sentences);
    pool
}

fn same_group(a: &Rhyme, b: &Rhyme) -> (r: bool)
    ensures
        r == (group_of(*a) == group_of(*b)),
{
    match &a.group {
        None => b.group.is_none(),
        Some(x) => match &b.group {
            None => false,
            Some(y) => {
                let same = *x == *y;
                assert(same == (Some(x@) == Some(y@)));
                same
            },
        },
    }
}

fn takes_rhyme(q: &MeterTone, r: &Rhyme) -> (b: bool)
    ensures
        b == slot_takes(*q, *r),
{
    match q.tone {
        MeterToneType::Ping => r.tone == BasicTone::Ping,
        MeterToneType::Ze => r.tone == BasicTone::Ze,
        MeterToneType::Zhong => false,
    }
}

/// Whether `choice` speaks of the pool only.
pub open spec fn within_pool(pool: Seq<usize>, choice: Seq<Option<usize>>) -> bool {
    forall|t: int| 0 <= t < choice.len() && (#[trigger] choice[t]) is Some ==> choice[t]->0 < pool.len()
}

fn may_bind(
    dict: &RhymeDict,
    slots: &Vec<MeterTone>,
    pool: &Vec<usize>,
    current: &Vec<Option<usize>>,
    e: usize,
) -> (r: bool)
    requires
        current@.len() < slots@.len(),
        e < pool@.len(),
        forall|k: int| 0 <= k < pool@.len() ==> (#[trigger] pool@[k]) < dict.rhymes().len(),
        within_pool(pool@, current@),
    ensures
        r == compatible(dict.rhymes(), slots@, pool@, current@, e as int),
{
    let q = slots[current.len()];
    let record = dict.rhyme_at(pool[e]);
    if !takes_rhyme(&q, record) {
        return false;
    }
    let mut t: usize = 0;
    while t < current.len()
        invariant
            t <= current.len(),
            current@.len() < slots@.len(),
            q == slots@[current@.len() as int],
            *record == dict.rhymes()[pool@[e as int] as int],
            forall|k: int| 0 <= k < pool@.len() ==> (#[trigger] pool@[k]) < dict.rhymes().len(),
            within_pool(pool@, current@),
            forall|j: int|
                0 <= j < t && (#[trigger] current@[j]) is Some ==> agrees(
                    q,
                    *record,
                    slots@[j],
                    dict.rhymes()[pool@[current@[j]->0 as int] as int],
                ),
        decreases current.len() - t,
    {
        match current[t] {
            None => {},
            Some(other) => {
                assert(current@[t as int] is Some);
                assert(other < pool@.len());
                let q2 = slots[t];
                let r2 = dict.rhyme_at(pool[other]);
                let fine = if q.rhyme_num == q2.rhyme_num {
                    same_group(record, r2)
                } else {
                    record.id != r2.id
                };
                if !fine {
                    return false;
                }
            },
        }
        t += 1;
    }
    true
}

fn binding_ids(dict: &RhymeDict, pool: &Vec<usize>, current: &Vec<Option<usize>>) -> (r: Vec<
    Option<RhymeId>,
>)
    requires
        forall|k: int| 0 <= k < pool@.len() ==> (#[trigger] pool@[k]) < dict.rhymes().len(),
        within_pool(pool@, current@),
    ensures
        r@ == binding_of(dict.rhymes(), pool@, current@),
{
    let mut out: Vec<Option<RhymeId>> = Vec::new();
    let mut i: usize = 0;
    while i < current.len()
        invariant
            i <= current.len(),
            forall|k: int| 0 <= k < pool@.len() ==> (#[trigger] pool@[k]) < dict.rhymes().len(),
            within_pool(pool@, current@),
            out@.len() == i,
            forall|j: int|
                0 <= j < i ==> #[trigger] out@[j] == binding_of(dict.rhymes(), pool@, current@)[j],
        decreases current.len() - i,
    {
        match current[i] {
            None => {
                out.push(None);
            },
            Some(e) => {
                assert(current@[i as int] is Some);
                out.push(Some(dict.rhyme_at(pool[e]).id));
            },
        }
        i += 1;
    }
    assert(out@ =~= binding_of(dict.rhymes(), pool@, current@));
    out
}

/// The bindings that `choices` stand for.
pub open spec fn bindings_for(
    rhymes: Seq<Rhyme>,
    pool: Seq<usize>,
    choices: Seq<Seq<Option<usize>>>,
) -> Seq<Seq<Option<RhymeId>>> {
    choices.map_values(|choice: Seq<Option<usize>>| binding_of(rhymes, pool, choice))
}

/// Whether `choice` binds every slot, to pool entries only.
pub open spec fn is_full(slots: Seq<MeterTone>, pool: Seq<usize>, choice: Seq<Option<usize>>) -> bool {
    within_pool(pool, choice) && choice.len() == slots.len()
}

/// Whether all of `choices` bind every slot, to pool entries only.
pub open spec fn all_full(
    slots: Seq<MeterTone>,
    pool: Seq<usize>,
    choices: Seq<Seq<Option<usize>>>,
) -> bool {
    forall|k: int| 0 <= k < choices.len() ==> is_full(slots, pool, #[trigger] choices[k])
}

proof fn lemma_all_full_concat(
    slots: Seq<MeterTone>,
    pool: Seq<usize>,
    a: Seq<Seq<Option<usize>>>,
    b: Seq<Seq<Option<usize>>>,
)
    requires
        all_full(slots, pool, a),
        all_full(slots, pool, b),
    ensures
        all_full(slots, pool, a + b),
{
    assert forall|k: int| 0 <= k < (a + b).len() implies is_full(slots, pool, #[trigger] (a + b)[k]) by {
        if k < a.len() {
            assert((a + b)[k] == a[k]);
        } else {
            assert((a + b)[k] == b[k - a.len()]);
        }
    }
}

proof fn lemma_within_push(pool: Seq<usize>, prefix: Seq<Option<usize>>, next: Option<usize>)
    requires
        within_pool(pool, prefix),
        next is Some ==> next->0 < pool.len(),
    ensures
        within_pool(pool, prefix.push(next)),
{
    let p = prefix.push(next);
    assert forall|t: int| 0 <= t < p.len() && (#[trigger] p[t]) is Some implies p[t]->0
        < pool.len() by {
        if t < prefix.len() {
            assert(p[t] == prefix[t]);
        }
    }
}

/// Every way to go on from a prefix within the pool stays within it,
/// and binds every slot.
pub proof fn lemma_completions_full(
    rhymes: Seq<Rhyme>,
    slots: Seq<MeterTone>,
    pool: Seq<usize>,
    prefix: Seq<Option<usize>>,
)
    requires
        within_pool(pool, prefix),
        prefix.len() <= slots.len(),
        pool.len() <= usize::MAX,
    ensures
        all_full(slots, pool, completions(rhymes, slots, pool, prefix)),
    decreases slots.len() - prefix.len(), 1int, 0int,
{
    if prefix.len() < slots.len() {
        lemma_within_push(pool, prefix, None);
        lemma_completions_full(rhymes, slots, pool, prefix.push(None));
        lemma_bound_completions_full(rhymes, slots, pool, prefix, pool.len() as int);
        lemma_all_full_concat(
            slots,
            pool,
            completions(rhymes, slots, pool, prefix.push(None)),
            bound_completions(rhymes, slots, pool, prefix, pool.len() as int),
        );
    } else {
        assert(completions(rhymes, slots, pool, prefix)[0] == prefix);
    }
}

/// The same of the ways that bind the next slot.
pub proof fn lemma_bound_completions_full(
    rhymes: Seq<Rhyme>,
    slots: Seq<MeterTone>,
    pool: Seq<usize>,
    prefix: Seq<Option<usize>>,
    upto: int,
)
    requires
        within_pool(pool, prefix),
        prefix.len() < slots.len(),
        upto <= pool.len() <= usize::MAX,
    ensures
        all_full(slots, pool, bound_completions(rhymes, slots, pool, prefix, upto)),
    decreases slots.len() - prefix.len(), 0int, upto,
{
    if upto > 0 {
        let e = (upto - 1) as usize;
        lemma_bound_completions_full(rhymes, slots, pool, prefix, upto - 1);
        lemma_within_push(pool, prefix, Some(e));
        lemma_completions_full(rhymes, slots, pool, prefix.push(Some(e)));
        let rest = if compatible(rhymes, slots, pool, prefix, upto - 1) {
            completions(rhymes, slots, pool, prefix.push(Some(e)))
        } else {
            Seq::empty()
        };
        lemma_all_full_concat(
            slots,
            pool,
            bound_completions(rhymes, slots, pool, prefix, upto - 1),
            rest,
        );
    }
}

/// There is always a way to go on: the one that binds nothing more.
pub proof fn lemma_completions_nonempty(
    rhymes: Seq<Rhyme>,
    slots: Seq<MeterTone>,
    pool: Seq<usize>,
    prefix: Seq<Option<usize>>,
)
    ensures
        completions(rhymes, slots, pool, prefix).len() >= 1,
    decreases slots.len() - prefix.len(),
{
    if prefix.len() < slots.len() {
        lemma_completions_nonempty(rhymes, slots, pool, prefix.push(None));
    }
}

proof fn lemma_bindings_for_concat(
    rhymes: Seq<Rhyme>,
    pool: Seq<usize>,
    a: Seq<Seq<Option<usize>>>,
    b: Seq<Seq<Option<usize>>>,
)
    ensures
        bindings_for(rhymes, pool, a + b) == bindings_for(rhymes, pool, a) + bindings_for(
            rhymes,
            pool,
            b,
        ),
{
    assert(bindings_for(rhymes, pool, a + b) =~= bindings_for(rhymes, pool, a) + bindings_for(
        rhymes,
        pool,
        b,
    ));
}

/// The depth-first search for the bindings that keep the rules. It
/// appends to `results` the binding of every way to go on from
/// `current`: the next slot left unbound first, then bound to each pool
/// entry that may stand there.
pub(crate) fn dfs_rhyme_combines(
    dict: &RhymeDict,
    slots: &Vec<MeterTone>,
    pool: &Vec<usize>,
    current: &mut Vec<Option<usize>>,
    results: &mut Vec<Vec<Option<RhymeId>>>,
)
    requires
        old(current)@.len() <= slots@.len(),
        forall|k: int| 0 <= k < pool@.len() ==> (#[trigger] pool@[k]) < dict.rhymes().len(),
        within_pool(pool@, old(current)@),
    ensures
        final(current)@ == old(current)@,
        rows_view(final(results)@) == rows_view(old(results)@) + bindings_for(
            dict.rhymes(),
            pool@,
            completions(dict.rhymes(), slots@, pool@, old(current)@),
        ),
    decreases slots@.len() - old(current)@.len(),
{
    let ghost rhymes = dict.rhymes();
    let ghost prefix = current@;
    let ghost before = rows_view(results@);
    if current.len() >= slots.len() {
        let binding = binding_ids(dict, pool, current);
        results.push(binding);
        assert(rows_view(results@) =~= before + bindings_for(rhymes, pool@, seq![prefix]));
        return ;
    }
    current.push(None);
    proof {
        lemma_within_push(pool@, prefix, None);
    }
    dfs_rhyme_combines(dict, slots, pool, current, results);
    current.pop();
    assert(current@ =~= prefix);
    let ghost unbound = completions(rhymes, slots@, pool@, prefix.push(None));
    let mut e: usize = 0;
    proof {
        lemma_bindings_for_concat(rhymes, pool@, unbound, Seq::empty());
        assert(unbound + Seq::<Seq<Option<usize>>>::empty() =~= unbound);
    }
    while e < pool.len()
        invariant
            e <= pool.len(),
            rhymes == dict.rhymes(),
            current@ == prefix,
            prefix == old(current)@,
            prefix.len() < slots@.len(),
            forall|k: int| 0 <= k < pool@.len() ==> (#[trigger] pool@[k]) < dict.rhymes().len(),
            within_pool(pool@, prefix),
            unbound == completions(rhymes, slots@, pool@, prefix.push(None)),
            rows_view(results@) == before + bindings_for(
                rhymes,
                pool@,
                unbound + bound_completions(rhymes, slots@, pool@, prefix, e as int),
            ),
        decreases pool.len() - e,
    {
        let ghost sofar = unbound + bound_completions(rhymes, slots@, pool@, prefix, e as int);
        let ghost rows = rows_view(results@);
        if may_bind(dict, slots, pool, current, e) {
            current.push(Some(e));
            proof {
                lemma_within_push(pool@, prefix, Some(e));
            }
            dfs_rhyme_combines(dict, slots, pool, current, results);
            current.pop();
            assert(current@ =~= prefix);
            proof {
                let more = completions(rhymes, slots@, pool@, prefix.push(Some(e)));
                lemma_bindings_for_concat(rhymes, pool@, sofar, more);
                assert(sofar + more =~= unbound + (bound_completions(
                    rhymes,
                    slots@,
                    pool@,
                    prefix,
                    e as int,
                ) + more));
                assert(rows_view(results@) =~= before + bindings_for(
                    rhymes,
                    pool@,
                    sofar + more,
                ));
            }
        } else {
            proof {
                assert(bound_completions(rhymes, slots@, pool@, prefix, e as int) + Seq::<
                    Seq<Option<usize>>,
                >::empty() =~= bound_completions(rhymes, slots@, pool@, prefix, e as int));
            }
        }
        e += 1;
    }
}

/// The candidate bindings for a text and a template: the rhyme slots
/// of the template, and every binding of them, to rhymes of the last
/// characters of the sentences, that keeps the rules. A template
/// without rhyme slots has one candidate, the empty binding.
pub fn get_possible_rhymes(
    dict: &RhymeDict,
    text: &Vec<Vec<char>>,
    meter: &Vec<Vec<MeterTone>>,
) -> (r: RhymeCandidates)
    ensures
        r.slots@ == rhyme_slots(meter_view(meter@)),
        rows_view(r.bindings@) == bindings_of(
            *dict,
            chars_views(text@),
            meter_view(meter@),
        ),
        r.bindings@.len() >= 1,
{
    let slots = collect_rhyme_slots(meter);
    let pool = collect_rhyme_pool(dict, text);
    let mut current: Vec<Option<usize>> = Vec::new();
    let mut bindings: Vec<Vec<Option<RhymeId>>> = Vec::new();
    assert(within_pool(pool@, current@));
    dfs_rhyme_combines(dict, &slots, &pool, &mut current, &mut bindings);
    proof {
        let all = completions(dict.rhymes(), slots@, pool@, Seq::empty());
        lemma_completions_nonempty(dict.rhymes(), slots@, pool@, Seq::empty());
        assert(current@ =~= Seq::<Option<usize>>::empty());
        assert(rows_view(bindings@) =~= bindings_for(dict.rhymes(), pool@, all));
        assert(rows_view(bindings@).len() == bindings@.len());
    }
    RhymeCandidates { slots, bindings }
}

/// Whether all of `choices` keep the rules.
pub open spec fn all_keep_rules(
    rhymes: Seq<Rhyme>,
    slots: Seq<MeterTone>,
    pool: Seq<usize>,
    choices: Seq<Seq<Option<usize>>>,
) -> bool {
    forall|k: int| 0 <= k < choices.len() ==> keeps_rules(rhymes, slots, pool, #[trigger] choices[k])
}

proof fn lemma_keeps_rules_push(
    rhymes: Seq<Rhyme>,
    slots: Seq<MeterTone>,
    pool: Seq<usize>,
    prefix: Seq<Option<usize>>,
    next: Option<usize>,
)
    requires
        keeps_rules(rhymes, slots, pool, prefix),
        prefix.len() < slots.len(),
        next is Some ==> next->0 < pool.len() && compatible(
            rhymes,
            slots,
            pool,
            prefix,
            next->0 as int,
        ),
    ensures
        keeps_rules(rhymes, slots, pool, prefix.push(next)),
{
    let p = prefix.push(next);
    assert forall|i: int| 0 <= i < p.len() && (#[trigger] p[i]) is Some implies p[i]->0
        < pool.len() && compatible(rhymes, slots, pool, p.take(i), p[i]->0 as int) by {
        if i < prefix.len() {
            assert(p[i] == prefix[i]);
            assert(p.take(i) =~= prefix.take(i));
        } else {
            assert(p.take(i) =~= prefix);
        }
    }
}

proof fn lemma_all_keep_concat(
    rhymes: Seq<Rhyme>,
    slots: Seq<MeterTone>,
    pool: Seq<usize>,
    a: Seq<Seq<Option<usize>>>,
    b: Seq<Seq<Option<usize>>>,
)
    requires
        all_keep_rules(rhymes, slots, pool, a),
        all_keep_rules(rhymes, slots, pool, b),
    ensures
        all_keep_rules(rhymes, slots, pool, a + b),
{
    assert forall|k: int| 0 <= k < (a + b).len() implies keeps_rules(
        rhymes,
        slots,
        pool,
        #[trigger] (a + b)[k],
    ) by {
        if k < a.len() {
            assert((a + b)[k] == a[k]);
        } else {
            assert((a + b)[k] == b[k - a.len()]);
        }
    }
}

/// Every binding that the search finds keeps the rules: each bound
/// rhyme has the tone of its slot, slots of one rhyme-group number are
/// bound to rhymes of one group label, and slots of different numbers
/// to different rhymes.
pub proof fn lemma_completions_keep_rules(
    rhymes: Seq<Rhyme>,
    slots: Seq<MeterTone>,
    pool: Seq<usize>,
    prefix: Seq<Option<usize>>,
)
    requires
        keeps_rules(rhymes, slots, pool, prefix),
        pool.len() <= usize::MAX,
    ensures
        all_keep_rules(rhymes, slots, pool, completions(rhymes, slots, pool, prefix)),
    decreases slots.len() - prefix.len(), 1int, 0int,
{
    if prefix.len() < slots.len() {
        lemma_keeps_rules_push(rhymes, slots, pool, prefix, None);
        lemma_completions_keep_rules(rhymes, slots, pool, prefix.push(None));
        lemma_bound_completions_keep_rules(rhymes, slots, pool, prefix, pool.len() as int);
        lemma_all_keep_concat(
            rhymes,
            slots,
            pool,
            completions(rhymes, slots, pool, prefix.push(None)),
            bound_completions(rhymes, slots, pool, prefix, pool.len() as int),
        );
    } else {
        assert(completions(rhymes, slots, pool, prefix)[0] == prefix);
    }
}

/// The same of the bindings that bind the next slot.
pub proof fn lemma_bound_completions_keep_rules(
    rhymes: Seq<Rhyme>,
    slots: Seq<MeterTone>,
    pool: Seq<usize>,
    prefix: Seq<Option<usize>>,
    upto: int,
)
    requires
        keeps_rules(rhymes, slots, pool, prefix),
        prefix.len() < slots.len(),
        upto <= pool.len() <= usize::MAX,
    ensures
        all_keep_rules(rhymes, slots, pool, bound_completions(rhymes, slots, pool, prefix, upto)),
    decreases slots.len() - prefix.len(), 0int, upto,
{
    if upto > 0 {
        let e = (upto - 1) as usize;
        lemma_bound_completions_keep_rules(rhymes, slots, pool, prefix, upto - 1);
        let rest = if compatible(rhymes, slots, pool, prefix, upto - 1) {
            lemma_keeps_rules_push(rhymes, slots, pool, prefix, Some(e));
            lemma_completions_keep_rules(rhymes, slots, pool, prefix.push(Some(e)));
            completions(rhymes, slots, pool, prefix.push(Some(e)))
        } else {
            Seq::empty()
        };
        lemma_all_keep_concat(
            rhymes,
            slots,
            pool,
            bound_completions(rhymes, slots, pool, prefix, upto - 1),
            rest,
        );
    }
}

proof fn lemma_bound_completions_hold(
    rhymes: Seq<Rhyme>,
    slots: Seq<MeterTone>,
    pool: Seq<usize>,
    prefix: Seq<Option<usize>>,
    upto: int,
    e: int,
    choice: Seq<Option<usize>>,
)
    requires
        0 <= e < upto <= pool.len() <= usize::MAX,
        prefix.len() < slots.len(),
        compatible(rhymes, slots, pool, prefix, e),
        completions(rhymes, slots, pool, prefix.push(Some(e as usize))).contains(choice),
    ensures
        bound_completions(rhymes, slots, pool, prefix, upto).contains(choice),
    decreases upto,
{
    let before = bound_completions(rhymes, slots, pool, prefix, upto - 1);
    let rest = if compatible(rhymes, slots, pool, prefix, upto - 1) {
        completions(rhymes, slots, pool, prefix.push(Some((upto - 1) as usize)))
    } else {
        Seq::empty()
    };
    if e == upto - 1 {
        let k = choose|k: int| 0 <= k < rest.len() && rest[k] == choice;
        assert((before + rest)[before.len() + k] == choice);
    } else {
        lemma_bound_completions_hold(rhymes, slots, pool, prefix, upto - 1, e, choice);
        let k = choose|k: int| 0 <= k < before.len() && before[k] == choice;
        assert((before + rest)[k] == choice);
    }
}

/// The search finds every binding that keeps the rules: a binding of
/// all slots that keeps them is among the ways to go on from each of
/// its own beginnings.
pub proof fn lemma_completions_hold_all(
    rhymes: Seq<Rhyme>,
    slots: Seq<MeterTone>,
    pool: Seq<usize>,
    choice: Seq<Option<usize>>,
    j: int,
)
    requires
        keeps_rules(rhymes, slots, pool, choice),
        choice.len() == slots.len(),
        0 <= j <= choice.len(),
        pool.len() <= usize::MAX,
    ensures
        completions(rhymes, slots, pool, choice.take(j)).contains(choice),
    decreases choice.len() - j,
{
    let prefix = choice.take(j);
    if j == choice.len() {
        assert(prefix =~= choice);
        assert(completions(rhymes, slots, pool, prefix)[0] == choice);
    } else {
        lemma_completions_hold_all(rhymes, slots, pool, choice, j + 1);
        assert(choice.take(j + 1) =~= prefix.push(choice[j]));
        let unbound = completions(rhymes, slots, pool, prefix.push(None));
        let bound = bound_completions(rhymes, slots, pool, prefix, pool.len() as int);
        match choice[j] {
            None => {
                let k = choose|k: int| 0 <= k < unbound.len() && unbound[k] == choice;
                assert((unbound + bound)[k] == choice);
            },
            Some(e) => {
                assert(choice[j] is Some);
                lemma_bound_completions_hold(
                    rhymes,
                    slots,
                    pool,
                    prefix,
                    pool.len() as int,
                    e as int,
                    choice,
                );
                let k = choose|k: int| 0 <= k < bound.len() && bound[k] == choice;
                assert((unbound + bound)[unbound.len() + k] == choice);
            },
        }
    }
}

} // verus!
