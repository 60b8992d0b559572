use crate::tone::BasicTone;
use vstd::prelude::*;

verus! {

/// The identifier of a rhythm record.
pub type RhythmId = i8;

/// A rhythm record. Two records are the same record when their
/// identifiers are equal.
#[derive(Debug)]
pub struct Rhythm {
    pub id: RhythmId,
    pub name: String,
    pub tone: BasicTone,
}

impl PartialEq for Rhythm {
    fn eq(&self, other: &Self) -> (r: bool) {
        self.id == other.id
    }
}

impl vstd::std_specs::cmp::PartialEqSpecImpl for Rhythm {
    open spec fn obeys_eq_spec() -> bool {
        true
    }

    open spec fn eq_spec(&self, other: &Self) -> bool {
        self.id == other.id
    }
}

/// Where the first record of identifier `id` stands, or the length.
pub open spec fn first_with_id(rhythms: Seq<Rhythm>, id: RhythmId) -> int
    decreases rhythms.len(),
{
    if rhythms.len() == 0 {
        0
    } else if rhythms[0].id == id {
        0
    } else {
        1 + first_with_id(rhythms.drop_first(), id)
    }
}

/// The positions among the first `n` character lists of those that
/// hold `c`.
pub open spec fn lists_holding(chars: Seq<Seq<char>>, c: char, n: int) -> Seq<int>
    decreases n,
{
    if n <= 0 {
        Seq::empty()
    } else {
        lists_holding(chars, c, n - 1) + (if chars[n - 1].contains(c) {
            seq![n - 1]
        } else {
            Seq::empty()
        })
    }
}

/// A dictionary of rhythms over borrowed records: `chars[i]` are the
/// characters of `rhythms[i]`.
pub struct RhythmDict<'a> {
    rhythms: &'a Vec<Rhythm>,
    chars: &'a Vec<Vec<char>>,
    nothing: Vec<char>,
}

impl<'a> RhythmDict<'a> {
    #[verifier::type_invariant]
    spec fn wf(&self) -> bool {
        self.rhythms@.len() == self.chars@.len() && self.nothing@.len() == 0
    }

    /// The records.
    pub closed spec fn rhythms(&self) -> Seq<Rhythm> {
        self.rhythms@
    }

    /// The character lists, one for each record.
    pub closed spec fn rhythm_chars(&self) -> Seq<Seq<char>> {
        Seq::new(self.chars@.len(), |i: int| self.chars@[i]@)
    }

    /// A dictionary of the records and, position by position, their
    /// characters; `None` where the two differ in length.
    pub fn new(rhythms: &'a Vec<Rhythm>, chars: &'a Vec<Vec<char>>) -> (r: Option<RhythmDict<'a>>)
        ensures
            r is Some <==> rhythms@.len() == chars@.len(),
            r is Some ==> r->0.rhythms() == rhythms@ && r->0.rhythm_chars() == Seq::new(
                chars@.len(),
                |i: int| chars@[i]@,
            ),
    {
        if rhythms.len() == chars.len() {
            Some(RhythmDict { rhythms, chars, nothing: Vec::new() })
        } else {
            None
        }
    }

    fn find(&self, id: RhythmId) -> (r: usize)
        ensures
            r == first_with_id(self.rhythms(), id),
            r <= self.rhythms().len(),
            r < self.rhythms().len() ==> self.rhythms()[r as int].id == id,
            self.rhythms().len() == self.rhythm_chars().len(),
    {
        proof {
            use_type_invariant(self);
        }
        let n = self.rhythms.len();
        let mut i: usize = 0;
        assert(self.rhythms@.subrange(0, n as int) =~= self.rhythms@);
        while i < n
            invariant
                i <= n,
                n == self.rhythms@.len(),
                self.rhythms().len() == self.rhythm_chars().len(),
                first_with_id(self.rhythms@, id) == i + first_with_id(
                    self.rhythms@.subrange(i as int, n as int),
                    id,
                ),
            decreases n - i,
        {
            let ghost rest = self.rhythms@.subrange(i as int, n as int);
            assert(rest[0] == self.rhythms@[i as int]);
            if self.rhythms[i].id == id {
                return i;
            }
            assert(rest.drop_first() =~= self.rhythms@.subrange(i + 1, n as int));
            i += 1;
        }
        i
    }

    /// The characters of the first record of identifier `id`; none for
    /// an unknown identifier.
    pub fn get_chars_by_rhythm(&self, id: &RhythmId) -> (r: &[char])
        ensures
            r@ == (if first_with_id(self.rhythms(), *id) < self.rhythms().len() {
                self.rhythm_chars()[first_with_id(self.rhythms(), *id)]
            } else {
                Seq::empty()
            }),
    {
        proof {
            use_type_invariant(self);
        }
        let at = self.find(*id);
        if at < self.rhythms.len() {
            self.chars[at].as_slice()
        } else {
            self.nothing.as_slice()
        }
    }

    /// The first record of identifier `id`.
    pub fn get_rhythm_by_id(&self, id: &RhythmId) -> (r: Option<&Rhythm>)
        ensures
            r is Some <==> first_with_id(self.rhythms(), *id) < self.rhythms().len(),
            r is Some ==> *r->0 == self.rhythms()[first_with_id(self.rhythms(), *id)],
    {
        let at = self.find(*id);
        if at < self.rhythms.len() {
            Some(&self.rhythms[at])
        } else {
            None
        }
    }

    /// The records whose characters hold `c`, in the order of the
    /// records.
    pub fn get_rhythms_by_char(&self, c: &char) -> (r: Vec<&Rhythm>)
        ensures
            r@.len() == lists_holding(
                self.rhythm_chars(),
                *c,
                self.rhythms().len() as int,
            ).len(),
            forall|k: int|
                0 <= k < r@.len() ==> *(#[trigger] r@[k]) == self.rhythms()[lists_holding(
                    self.rhythm_chars(),
                    *c,
                    self.rhythms().len() as int,
                )[k]],
    {
        proof {
            use_type_invariant(self);
        }
        let ghost lists = self.rhythm_chars();
        let n = self.rhythms.len();
        let mut out: Vec<&Rhythm> = Vec::new();
        let mut i: usize = 0;
        while i < n
            invariant
                i <= n,
                n == self.rhythms@.len(),
                n == self.chars@.len(),
                lists == self.rhythm_chars(),
                out@.len() == lists_holding(lists, *c, i as int).len(),
                forall|k: int|
                    0 <= k < out@.len() ==> *(#[trigger] out@[k]) == self.rhythms@[lists_holding(
                        lists,
                        *c,
                        i as int,
                    )[k]],
            decreases n - i,
        {
            let list = &self.chars[i];
            assert(lists[i as int] == list@);
            let mut found = false;
            let mut j: usize = 0;
            while j < list.len() && !found
                invariant
                    j <= list.len(),
                    found ==> list@.contains(*c),
                    !found ==> forall|t: int| 0 <= t < j ==> list@[t] != *c,
                decreases list.len() - j + (if found { 0int } else { 1int }),
            {
                if list[j] == *c {
                    found = true;
                } else {
                    j += 1;
                }
            }
            if found {
                out.push(&self.rhythms[i]);
            }
            i += 1;
        }
        out
    }
}

} // verus!
