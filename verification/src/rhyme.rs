use crate::text::chars_views;
use crate::tone::BasicTone;
use std::collections::HashMap;
use vstd::prelude::*;

verus! {

broadcast use vstd::std_specs::hash::group_hash_axioms;

/// The identifier of a rhyme record.
pub type RhymeId = i8;

/// A rhyme record: a named class of characters of one tone, optionally
/// belonging to a group. Two records are the same record when their
/// identifiers are equal.
#[derive(Clone, Debug)]
pub struct Rhyme {
    pub id: RhymeId,
    pub name: String,
    /// The group label; `None` means that groups are not enforced.
    pub group: Option<String>,
    pub tone: BasicTone,
}

impl PartialEq for Rhyme {
    fn eq(&self, other: &Self) -> (r: bool) {
        self.id == other.id
    }
}

impl Eq for Rhyme {

}

impl vstd::std_specs::cmp::PartialEqSpecImpl for Rhyme {
    open spec fn obeys_eq_spec() -> bool {
        true
    }

    open spec fn eq_spec(&self, other: &Self) -> bool {
        self.id == other.id
    }
}

/// Why a dictionary could not be built.
#[derive(Clone, Copy, PartialEq, Eq, Structural, Debug)]
pub enum RhymeDictError {
    /// The character list at this position is not empty, and no rhyme
    /// record stands at that position.
    MissingRhyme(usize),
}

/// `rid`, once for each place where `c` stands in `chars`.
pub open spec fn hits_in(chars: Seq<char>, c: char, rid: usize) -> Seq<usize>
    decreases chars.len(),
{
    if chars.len() == 0 {
        Seq::empty()
    } else {
        hits_in(chars.drop_last(), c, rid) + (if chars.last() == c {
            seq![rid]
        } else {
            Seq::empty()
        })
    }
}

/// The positions of the character lists that hold `c`, in load order,
/// once for each place where `c` stands.
pub open spec fn record_indices_of(rhyme_chars: Seq<Seq<char>>, c: char) -> Seq<usize>
    decreases rhyme_chars.len(),
{
    if rhyme_chars.len() == 0 {
        Seq::empty()
    } else {
        record_indices_of(rhyme_chars.drop_last(), c) + hits_in(
            rhyme_chars.last(),
            c,
            (rhyme_chars.len() - 1) as usize,
        )
    }
}

/// The rhyme records of `c`, in load order.
pub open spec fn rhymes_by_char(rhymes: Seq<Rhyme>, rhyme_chars: Seq<Seq<char>>, c: char) -> Seq<
    Rhyme,
> {
    record_indices_of(rhyme_chars, c).map_values(|i: usize| rhymes[i as int])
}

/// The characters of the records whose identifier is `id`, in load
/// order.
pub open spec fn chars_by_id(rhymes: Seq<Rhyme>, rhyme_chars: Seq<Seq<char>>, id: RhymeId) -> Seq<
    char,
>
    decreases rhyme_chars.len(),
{
    if rhyme_chars.len() == 0 {
        Seq::empty()
    } else {
        let last = rhyme_chars.len() - 1;
        chars_by_id(rhymes, rhyme_chars.drop_last(), id) + (if last < rhymes.len()
            && rhymes[last].id == id {
            rhyme_chars.last()
        } else {
            Seq::empty()
        })
    }
}

/// Where the first record of identifier `id` stands, or the length.
pub open spec fn first_of_id(rhymes: Seq<Rhyme>, id: RhymeId) -> int
    decreases rhymes.len(),
{
    if rhymes.len() == 0 {
        0
    } else if rhymes[0].id == id {
        0
    } else {
        1 + first_of_id(rhymes.drop_first(), id)
    }
}

/// Whether some non-empty character list stands at or beyond `n`.
pub open spec fn has_unnamed_chars(rhyme_chars: Seq<Seq<char>>, n: nat) -> bool {
    exists|i: int| n <= i < rhyme_chars.len() && (#[trigger] rhyme_chars[i]).len() > 0
}

/// Whether `i` is the first position at or beyond `n` with a non-empty
/// character list.
pub open spec fn is_first_unnamed(rhyme_chars: Seq<Seq<char>>, n: nat, i: int) -> bool {
    &&& n <= i < rhyme_chars.len()
    &&& rhyme_chars[i].len() > 0
    &&& forall|j: int| n <= j < i ==> (#[trigger] rhyme_chars[j]).len() == 0
}

/// Where the list of identifier `id` stands in the table by identifier.
pub open spec fn id_slot(id: RhymeId) -> int {
    id + 128
}

/// The positions that the index by character holds for `c`.
pub open spec fn indices_in(m: Map<u32, Vec<usize>>, c: char) -> Seq<usize> {
    if m.contains_key(c as u32) {
        m[c as u32]@
    } else {
        Seq::empty()
    }
}

/// The rhyme dictionary: from a character to its rhyme records, and
/// from a rhyme identifier to its characters.
pub struct RhymeDict {
    rhymes: Vec<Rhyme>,
    by_char: HashMap<u32, Vec<usize>>,
    by_id: Vec<Vec<char>>,
    lists: Ghost<Seq<Seq<char>>>,
}

proof fn lemma_hits_bound(chars: Seq<char>, c: char, rid: usize)
    ensures
        forall|k: int| 0 <= k < hits_in(chars, c, rid).len() ==> #[trigger] hits_in(chars, c, rid)[k] == rid,
        hits_in(chars, c, rid).len() > 0 <==> chars.contains(c),
    decreases chars.len(),
{
    if chars.len() > 0 {
        let t = chars.drop_last();
        lemma_hits_bound(t, c, rid);
        if chars.contains(c) {
            let i = choose|i: int| 0 <= i < chars.len() && chars[i] == c;
            if i < chars.len() - 1 {
                assert(t[i] == c);
            }
        }
        if t.contains(c) {
            let i = choose|i: int| 0 <= i < t.len() && t[i] == c;
            assert(chars[i] == c);
        }
        if chars.last() == c {
            assert(chars[chars.len() - 1] == c);
        }
    }
}

/// Every index that `record_indices_of` gives is the position of a list
/// that holds the character, and every such position is given.
pub proof fn lemma_record_indices(rhyme_chars: Seq<Seq<char>>, c: char)
    requires
        rhyme_chars.len() <= usize::MAX,
    ensures
        forall|k: int|
            0 <= k < record_indices_of(rhyme_chars, c).len() ==> {
                let i = #[trigger] record_indices_of(rhyme_chars, c)[k];
                i < rhyme_chars.len() && rhyme_chars[i as int].contains(c)
            },
        forall|i: int|
            0 <= i < rhyme_chars.len() && (#[trigger] rhyme_chars[i]).contains(c)
                ==> record_indices_of(rhyme_chars, c).contains(i as usize),
    decreases rhyme_chars.len(),
{
    if rhyme_chars.len() > 0 {
        let t = rhyme_chars.drop_last();
        let last = (rhyme_chars.len() - 1) as usize;
        let a = record_indices_of(t, c);
        let b = hits_in(rhyme_chars.last(), c, last);
        lemma_record_indices(t, c);
        lemma_hits_bound(rhyme_chars.last(), c, last);
        assert forall|k: int| 0 <= k < (a + b).len() implies {
            let i = #[trigger] (a + b)[k];
            i < rhyme_chars.len() && rhyme_chars[i as int].contains(c)
        } by {
            if k < a.len() {
                assert((a + b)[k] == a[k]);
                assert(t[a[k] as int] == rhyme_chars[a[k] as int]);
            } else {
                assert((a + b)[k] == b[k - a.len()]);
            }
        }
        assert forall|i: int|
            0 <= i < rhyme_chars.len() && (#[trigger] rhyme_chars[i]).contains(c) implies (a + b).contains(i as usize) by {
            if i < t.len() {
                assert(t[i] == rhyme_chars[i]);
                assert(a.contains(i as usize));
                let k = choose|k: int| 0 <= k < a.len() && a[k] == i as usize;
                assert((a + b)[k] == i as usize);
            } else {
                assert(b.len() > 0);
                assert((a + b)[a.len() as int] == b[0]);
            }
        }
    }
}

/// The characters that `chars_by_id` gives are those of the lists whose
/// record has the identifier.
pub proof fn lemma_chars_by_id(rhymes: Seq<Rhyme>, rhyme_chars: Seq<Seq<char>>, id: RhymeId, c: char)
    ensures
        chars_by_id(rhymes, rhyme_chars, id).contains(c) <==> exists|i: int|
            0 <= i < rhyme_chars.len() && i < rhymes.len() && rhymes[i].id == id
                && (#[trigger] rhyme_chars[i]).contains(c),
    decreases rhyme_chars.len(),
{
    if rhyme_chars.len() > 0 {
        let t = rhyme_chars.drop_last();
        let last = rhyme_chars.len() - 1;
        let a = chars_by_id(rhymes, t, id);
        let b = if last < rhymes.len() && rhymes[last].id == id {
            rhyme_chars.last()
        } else {
            Seq::empty()
        };
        lemma_chars_by_id(rhymes, t, id, c);
        if (a + b).contains(c) {
            let k = choose|k: int| 0 <= k < (a + b).len() && (a + b)[k] == c;
            if k < a.len() {
                assert(a[k] == c);
                assert(a.contains(c));
                let i = choose|i: int|
                    0 <= i < t.len() && i < rhymes.len() && rhymes[i].id == id && (#[trigger] t[i]).contains(c);
                assert(rhyme_chars[i] == t[i]);
            } else {
                assert(b[k - a.len()] == c);
                assert(rhyme_chars[last].contains(c));
            }
        }
        if exists|i: int|
            0 <= i < rhyme_chars.len() && i < rhymes.len() && rhymes[i].id == id
                && (#[trigger] rhyme_chars[i]).contains(c) {
            let i = choose|i: int|
                0 <= i < rhyme_chars.len() && i < rhymes.len() && rhymes[i].id == id
                    && (#[trigger] rhyme_chars[i]).contains(c);
            if i < t.len() {
                assert(t[i] == rhyme_chars[i]);
                assert(a.contains(c));
                let k = choose|k: int| 0 <= k < a.len() && a[k] == c;
                assert((a + b)[k] == c);
            } else {
                let k = choose|k: int| 0 <= k < b.len() && b[k] == c;
                assert((a + b)[a.len() + k] == c);
            }
        }
    }
}

/// The two directions of a dictionary agree: a character that stands in
/// the list of a record has that record among its rhymes, and stands
/// among the characters of that record's identifier.
pub proof fn lemma_dictionary_bijection(
    rhymes: Seq<Rhyme>,
    rhyme_chars: Seq<Seq<char>>,
    i: int,
    c: char,
)
    requires
        0 <= i < rhyme_chars.len(),
        i < rhymes.len(),
        rhyme_chars.len() <= usize::MAX,
        rhyme_chars[i].contains(c),
    ensures
        rhymes_by_char(rhymes, rhyme_chars, c).contains(rhymes[i]),
        chars_by_id(rhymes, rhyme_chars, rhymes[i].id).contains(c),
{
    lemma_record_indices(rhyme_chars, c);
    lemma_chars_by_id(rhymes, rhyme_chars, rhymes[i].id, c);
    let idx = record_indices_of(rhyme_chars, c);
    assert(idx.contains(i as usize));
    let k = choose|k: int| 0 <= k < idx.len() && idx[k] == i as usize;
    assert(rhymes_by_char(rhymes, rhyme_chars, c)[k] == rhymes[i]);
}

proof fn lemma_hits_take(chars: Seq<char>, c: char, rid: usize, j: int)
    requires
        0 <= j < chars.len(),
    ensures
        hits_in(chars.take(j + 1), c, rid) == hits_in(chars.take(j), c, rid) + (if chars[j] == c {
            seq![rid]
        } else {
            Seq::empty()
        }),
{
    assert(chars.take(j + 1).drop_last() =~= chars.take(j));
}

proof fn lemma_record_indices_take(rhyme_chars: Seq<Seq<char>>, c: char, i: int)
    requires
        0 <= i < rhyme_chars.len(),
    ensures
        record_indices_of(rhyme_chars.take(i + 1), c) == record_indices_of(rhyme_chars.take(i), c)
            + hits_in(rhyme_chars[i], c, i as usize),
{
    assert(rhyme_chars.take(i + 1).drop_last() =~= rhyme_chars.take(i));
}

proof fn lemma_chars_by_id_take(rhymes: Seq<Rhyme>, rhyme_chars: Seq<Seq<char>>, id: RhymeId, i: int)
    requires
        0 <= i < rhyme_chars.len(),
    ensures
        chars_by_id(rhymes, rhyme_chars.take(i + 1), id) == chars_by_id(
            rhymes,
            rhyme_chars.take(i),
            id,
        ) + (if i < rhymes.len() && rhymes[i].id == id {
            rhyme_chars[i]
        } else {
            Seq::empty()
        }),
{
    assert(rhyme_chars.take(i + 1).drop_last() =~= rhyme_chars.take(i));
}

fn slot_of(id: RhymeId) -> (r: usize)
    ensures
        r == id_slot(id),
        r < 256,
{
    (id as i16 + 128) as usize
}

fn chars_joined(a: &Vec<char>, b: &Vec<char>) -> (r: Vec<char>)
    ensures
        r@ == a@ + b@,
{
    let mut out: Vec<char> = Vec::new();
    let mut i: usize = 0;
    while i < a.len()
        invariant
            i <= a.len(),
            out@ == a@.take(i as int),
        decreases a.len() - i,
    {
        out.push(a[i]);
        i += 1;
        assert(out@ =~= a@.take(i as int));
    }
    assert(a@.take(a.len() as int) =~= a@);
    let mut j: usize = 0;
    while j < b.len()
        invariant
            j <= b.len(),
            out@ == a@ + b@.take(j as int),
        decreases b.len() - j,
    {
        out.push(b[j]);
        j += 1;
        assert(out@ =~= a@ + b@.take(j as int));
    }
    assert(b@.take(b.len() as int) =~= b@);
    out
}

impl RhymeDict {
    #[verifier::type_invariant]
    spec fn wf(&self) -> bool {
        &&& self.lists@.len() <= usize::MAX
        &&& !has_unnamed_chars(self.lists@, self.rhymes@.len())
        &&& self.by_id@.len() == 256
        &&& forall|id: RhymeId| #[trigger]
            self.by_id@[id_slot(id)]@ == chars_by_id(self.rhymes@, self.lists@, id)
        &&& forall|c: char| #[trigger]
            indices_in(self.by_char@, c) == record_indices_of(self.lists@, c)
    }

    /// The rhyme records, in load order.
    pub closed spec fn rhymes(&self) -> Seq<Rhyme> {
        self.rhymes@
    }

    /// The character lists, one for each record, in load order.
    pub closed spec fn rhyme_chars(&self) -> Seq<Seq<char>> {
        self.lists@
    }

    /// The positions of the records of `c`, in load order.
    pub open spec fn indices_of(&self, c: char) -> Seq<usize> {
        record_indices_of(self.rhyme_chars(), c)
    }

    /// The rhyme records of `c`, in load order; empty for an unknown
    /// character.
    pub open spec fn rhymes_of(&self, c: char) -> Seq<Rhyme> {
        rhymes_by_char(self.rhymes(), self.rhyme_chars(), c)
    }

    /// The characters of the records with identifier `id`; empty for an
    /// unknown identifier.
    pub open spec fn chars_of(&self, id: RhymeId) -> Seq<char> {
        chars_by_id(self.rhymes(), self.rhyme_chars(), id)
    }

    /// Builds the dictionary from the records and, position by position,
    /// the characters of each record. A non-empty character list without
    /// a record at its position is refused.
    pub fn new(rhyme_chars: Vec<Vec<char>>, rhymes: Vec<Rhyme>) -> (r: Result<
        RhymeDict,
        RhymeDictError,
    >)
        ensures
            r is Err <==> has_unnamed_chars(chars_views(rhyme_chars@), rhymes@.len()),
            match r {
                Ok(d) => d.rhymes() == rhymes@ && d.rhyme_chars() == chars_views(rhyme_chars@),
                Err(RhymeDictError::MissingRhyme(i)) => is_first_unnamed(
                    chars_views(rhyme_chars@),
                    rhymes@.len(),
                    i as int,
                ),
            },
    {
        let ghost lists = chars_views(rhyme_chars@);
        let n = rhymes.len();
        let total = rhyme_chars.len();
        let mut k: usize = n;
        while k < total
            invariant
                n <= k,
                n == rhymes@.len(),
                total == rhyme_chars@.len(),
                lists == chars_views(rhyme_chars@),
                forall|j: int| n <= j < k && j < total ==> (#[trigger] lists[j]).len() == 0,
            decreases total - k,
        {
            if rhyme_chars[k].len() > 0 {
                assert(lists[k as int].len() > 0);
                return Err(RhymeDictError::MissingRhyme(k));
            }
            k += 1;
        }
        let mut by_id: Vec<Vec<char>> = Vec::new();
        let mut s: usize = 0;
        while s < 256
            invariant
                s <= 256,
                by_id@.len() == s,
                forall|j: int| 0 <= j < s ==> (#[trigger] by_id@[j])@ == Seq::<char>::empty(),
            decreases 256 - s,
        {
            by_id.push(Vec::new());
            s += 1;
        }
        let mut by_char: HashMap<u32, Vec<usize>> = HashMap::new();
        let mut rid: usize = 0;
        assert(lists.take(0) =~= Seq::<Seq<char>>::empty());
        while rid < total
            invariant
                rid <= total,
                n == rhymes@.len(),
                total == rhyme_chars@.len(),
                lists == chars_views(rhyme_chars@),
                by_id@.len() == 256,
                forall|id: RhymeId| #[trigger]
                    by_id@[id_slot(id)]@ == chars_by_id(rhymes@, lists.take(rid as int), id),
                forall|c: char| #[trigger]
                    indices_in(by_char@, c) == record_indices_of(lists.take(rid as int), c),
            decreases total - rid,
        {
            let chars = &rhyme_chars[rid];
            assert(chars@ == lists[rid as int]);
            if rid < n {
                let slot = slot_of(rhymes[rid].id);
                let joined = chars_joined(&by_id[slot], chars);
                by_id.set(slot, joined);
            }
            proof {
                assert forall|id: RhymeId| #[trigger]
                    by_id@[id_slot(id)]@ == chars_by_id(
                        rhymes@,
                        lists.take(rid + 1),
                        id,
                    ) by {
                    lemma_chars_by_id_take(rhymes@, lists, id, rid as int);
                    if rid < n && rhymes@[rid as int].id == id {
                    } else {
                        assert(chars_by_id(rhymes@, lists.take(rid as int), id) + Seq::<
                            char,
                        >::empty() =~= chars_by_id(rhymes@, lists.take(rid as int), id));
                    }
                }
            }
            let mut j: usize = 0;
            proof {
                assert(chars@.take(0) =~= Seq::<char>::empty());
                assert forall|c: char| #[trigger]
                    indices_in(by_char@, c) == record_indices_of(lists.take(rid as int), c)
                        + hits_in(chars@.take(0), c, rid) by {
                    assert(record_indices_of(lists.take(rid as int), c) + Seq::<usize>::empty()
                        =~= record_indices_of(lists.take(rid as int), c));
                }
            }
            while j < chars.len()
                invariant
                    j <= chars.len(),
                    rid < total,
                    chars@ == lists[rid as int],
                    forall|c: char| #[trigger]
                        indices_in(by_char@, c) == record_indices_of(lists.take(rid as int), c)
                            + hits_in(chars@.take(j as int), c, rid),
                decreases chars.len() - j,
            {
                let ch = chars[j];
                let key = ch as u32;
                let ghost before = by_char@;
                let mut list = match by_char.remove(&key) {
                    Some(v) => v,
                    None => Vec::new(),
                };
                assert(list@ == indices_in(before, ch));
                list.push(rid);
                by_char.insert(key, list);
                proof {
                    assert forall|c: char| #[trigger]
                        indices_in(by_char@, c) == record_indices_of(lists.take(rid as int), c)
                            + hits_in(chars@.take(j + 1), c, rid) by {
                        lemma_hits_take(chars@, c, rid, j as int);
                        let base = record_indices_of(lists.take(rid as int), c);
                        let hits = hits_in(chars@.take(j as int), c, rid);
                        assert(indices_in(before, c) == base + hits);
                        if c == ch {
                            assert(indices_in(by_char@, c) =~= (base + hits).push(rid));
                            assert((base + hits).push(rid) =~= base + (hits + seq![rid]));
                        } else {
                            vstd::utf8::char_u32_cast(c, c as u32);
                            vstd::utf8::char_u32_cast(ch, key);
                            assert(c as u32 != key);
                            assert(indices_in(by_char@, c) == indices_in(before, c));
                            assert(base + (hits + Seq::<usize>::empty()) =~= base + hits);
                        }
                    }
                }
                j += 1;
            }
            proof {
                assert(chars@.take(chars@.len() as int) =~= chars@);
                assert forall|c: char| #[trigger]
                    indices_in(by_char@, c) == record_indices_of(lists.take(rid + 1), c) by {
                    lemma_record_indices_take(lists, c, rid as int);
                }
            }
            rid += 1;
        }
        proof {
            assert(lists.take(total as int) =~= lists);
        }
        Ok(RhymeDict { rhymes, by_char, by_id, lists: Ghost(lists) })
    }

    /// The characters that belong to the records with identifier `id`.
    pub fn get_chars_by_rhyme(&self, id: &RhymeId) -> (r: &[char])
        ensures
            r@ == self.chars_of(*id),
    {
        proof {
            use_type_invariant(self);
        }
        let slot = slot_of(*id);
        self.by_id[slot].as_slice()
    }

    /// The positions, among the records, of those that `c` belongs to.
    pub fn record_indices(&self, c: char) -> (r: Option<&Vec<usize>>)
        ensures
            match r {
                Some(v) => v@ == self.indices_of(c),
                None => self.indices_of(c).len() == 0,
            },
            forall|k: int|
                0 <= k < self.indices_of(c).len() ==> (#[trigger] self.indices_of(c)[k])
                    < self.rhymes().len(),
    {
        proof {
            use_type_invariant(self);
            assert(indices_in(self.by_char@, c) == record_indices_of(self.lists@, c));
            assert forall|k: int| 0 <= k < self.indices_of(c).len() implies (
            #[trigger] self.indices_of(c)[k]) < self.rhymes().len() by {
                lemma_record_indices(self.lists@, c);
                let i = self.indices_of(c)[k];
                if i >= self.rhymes@.len() {
                    assert(self.lists@[i as int].contains(c));
                    assert(self.lists@[i as int].len() > 0);
                }
            }
        }
        let key = c as u32;
        self.by_char.get(&key)
    }

    /// The first record of identifier `id`, where there is one.
    pub fn get_rhyme_by_id(&self, id: &RhymeId) -> (r: Option<&Rhyme>)
        ensures
            r is Some <==> first_of_id(self.rhymes(), *id) < self.rhymes().len(),
            r is Some ==> *r->0 == self.rhymes()[first_of_id(self.rhymes(), *id)] && r->0.id
                == *id,
    {
        let n = self.rhymes.len();
        let mut i: usize = 0;
        assert(self.rhymes@.subrange(0, n as int) =~= self.rhymes@);
        while i < n
            invariant
                i <= n,
                n == self.rhymes@.len(),
                first_of_id(self.rhymes@, *id) == i + first_of_id(
                    self.rhymes@.subrange(i as int, n as int),
                    *id,
                ),
            decreases n - i,
        {
            let ghost rest = self.rhymes@.subrange(i as int, n as int);
            assert(rest[0] == self.rhymes@[i as int]);
            if self.rhymes[i].id == *id {
                return Some(&self.rhymes[i]);
            }
            assert(rest.drop_first() =~= self.rhymes@.subrange(i + 1, n as int));
            i += 1;
        }
        None
    }

    /// How many records the dictionary holds.
    pub fn rhyme_count(&self) -> (r: usize)
        ensures
            r == self.rhymes().len(),
    {
        self.rhymes.len()
    }

    /// The record at position `i`.
    pub fn rhyme_at(&self, i: usize) -> (r: &Rhyme)
        requires
            i < self.rhymes().len(),
        ensures
            *r == self.rhymes()[i as int],
    {
        &self.rhymes[i]
    }

    /// The rhyme records that `c` belongs to, in load order.
    pub fn get_rhymes_by_char(&self, c: &char) -> (r: Vec<&Rhyme>)
        ensures
            r@.len() == self.rhymes_of(*c).len(),
            forall|k: int| 0 <= k < r@.len() ==> *(#[trigger] r@[k]) == self.rhymes_of(*c)[k],
    {
        let mut out: Vec<&Rhyme> = Vec::new();
        match self.record_indices(*c) {
            None => {},
            Some(idx) => {
                let mut k: usize = 0;
                while k < idx.len()
                    invariant
                        k <= idx.len(),
                        idx@ == self.indices_of(*c),
                        out@.len() == k,
                        forall|j: int| 0 <= j < idx@.len() ==> (#[trigger] idx@[j]) < self.rhymes().len(),
                        forall|j: int|
                            0 <= j < k ==> *(#[trigger] out@[j]) == self.rhymes_of(*c)[j],
                    decreases idx.len() - k,
                {
                    assert(idx@[k as int] < self.rhymes().len());
                    out.push(self.rhyme_at(idx[k]));
                    k += 1;
                }
            },
        }
        out
    }
}

} // verus!
