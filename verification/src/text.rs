use vstd::prelude::*;
use vstd::std_specs::iter::IteratorSpec;
use vstd::string::StringExecFns;

verus! {

broadcast use vstd::string::group_string_axioms;

/// Whether `c` carries the Unicode property White_Space.
pub uninterp spec fn is_white_space(c: char) -> bool;

/// `char::is_whitespace` of std. Believed: the answer is the White_Space
/// property of the character and depends on nothing else.
#[verifier::external_body]
pub(crate) fn char_is_whitespace(c: char) -> (b: bool)
    ensures
        b == is_white_space(c),
{
    c.is_whitespace()
}

/// The characters of a string.
pub fn str_chars(s: &str) -> (cs: Vec<char>)
    ensures
        cs@ == s@,
{
    let mut rest = s.chars();
    let mut out: Vec<char> = Vec::new();
    assert(out@ + rest.remaining() =~= s@);
    loop
        invariant
            rest.obeys_prophetic_iter_laws(),
            rest.decrease() is Some,
            out@ + rest.remaining() == s@,
        ensures
            rest.remaining().len() == 0,
        decreases rest.decrease()->0,
    {
        let ghost before = out@;
        let ghost left = rest.remaining();
        match rest.next() {
            Some(c) => {
                out.push(c);
                assert(out@ + rest.remaining() =~= before + left);
            },
            None => {
                break ;
            },
        }
    }
    assert(out@ + Seq::<char>::empty() =~= out@);
    out
}

/// `String::from_iter` of std over the characters of a vector. Believed:
/// the string holds exactly those characters in that order.
#[verifier::external_body]
pub(crate) fn string_of_chars(cs: &Vec<char>) -> (s: String)
    ensures
        s@ == cs@,
{
    cs.iter().collect()
}

/// The characters that end a sentence of input text.
pub open spec fn is_sentence_delimiter(c: char) -> bool {
    c == '.' || c == '\u{3002}' || c == ',' || c == '\u{FF0C}' || c == '\u{3001}' || c == '?'
        || c == '\u{FF1F}' || c == '!' || c == '\u{FF01}' || c == '\n'
}

/// How many White_Space characters `s` starts with.
pub open spec fn leading_blank(s: Seq<char>) -> nat
    decreases s.len(),
{
    if s.len() > 0 && is_white_space(s[0]) {
        1 + leading_blank(s.drop_first())
    } else {
        0
    }
}

/// How many White_Space characters `s` ends with.
pub open spec fn trailing_blank(s: Seq<char>) -> nat
    decreases s.len(),
{
    if s.len() > 0 && is_white_space(s.last()) {
        1 + trailing_blank(s.drop_last())
    } else {
        0
    }
}

/// `s` without its leading and trailing White_Space.
pub open spec fn trimmed(s: Seq<char>) -> Seq<char> {
    let rest = s.subrange(leading_blank(s) as int, s.len() as int);
    rest.subrange(0, rest.len() - trailing_blank(rest))
}

/// Where the first sentence delimiter of `s` stands, or `s.len()`.
pub open spec fn first_delimiter(s: Seq<char>) -> nat
    decreases s.len(),
{
    if s.len() > 0 && !is_sentence_delimiter(s[0]) {
        1 + first_delimiter(s.drop_first())
    } else {
        0
    }
}

/// The sentences of `s`: the pieces between delimiters, each trimmed,
/// the empty ones left out.
pub open spec fn sentences_of(s: Seq<char>) -> Seq<Seq<char>>
    decreases s.len(),
{
    let k = first_delimiter(s) as int;
    let piece = trimmed(s.subrange(0, k));
    let rest = if k < s.len() {
        sentences_of(s.subrange(k + 1, s.len() as int))
    } else {
        Seq::empty()
    };
    if piece.len() > 0 {
        seq![piece] + rest
    } else {
        rest
    }
}

/// The views of a vector of sentences.
pub open spec fn chars_views(v: Seq<Vec<char>>) -> Seq<Seq<char>> {
    Seq::new(v.len(), |i: int| v[i]@)
}

/// The views of a vector of strings.
pub open spec fn string_views(v: Seq<String>) -> Seq<Seq<char>> {
    Seq::new(v.len(), |i: int| v[i]@)
}

/// A prefix of White_Space followed by something else fixes `leading_blank`.
proof fn lemma_leading_blank_is(s: Seq<char>, n: nat)
    requires
        n <= s.len(),
        forall|i: int| 0 <= i < n ==> is_white_space(#[trigger] s[i]),
        n < s.len() ==> !is_white_space(s[n as int]),
    ensures
        leading_blank(s) == n,
    decreases s.len(),
{
    if n > 0 {
        let t = s.drop_first();
        assert(is_white_space(s[0]));
        assert forall|i: int| 0 <= i < n - 1 implies is_white_space(#[trigger] t[i]) by {
            assert(t[i] == s[i + 1]);
        }
        lemma_leading_blank_is(t, (n - 1) as nat);
    }
}

/// A suffix of White_Space preceded by something else fixes `trailing_blank`.
proof fn lemma_trailing_blank_is(s: Seq<char>, n: nat)
    requires
        n <= s.len(),
        forall|i: int| s.len() - n <= i < s.len() ==> is_white_space(#[trigger] s[i]),
        n < s.len() ==> !is_white_space(s[s.len() - n - 1]),
    ensures
        trailing_blank(s) == n,
    decreases s.len(),
{
    if n > 0 {
        let t = s.drop_last();
        assert(is_white_space(s[s.len() - 1]));
        assert forall|i: int| t.len() - (n - 1) <= i < t.len() implies is_white_space(
            #[trigger] t[i],
        ) by {
            assert(t[i] == s[i]);
        }
        lemma_trailing_blank_is(t, (n - 1) as nat);
    }
}

/// A run without delimiters that ends at a delimiter or at the end fixes
/// `first_delimiter`.
proof fn lemma_first_delimiter_is(s: Seq<char>, n: nat)
    requires
        n <= s.len(),
        forall|i: int| 0 <= i < n ==> !is_sentence_delimiter(#[trigger] s[i]),
        n < s.len() ==> is_sentence_delimiter(s[n as int]),
    ensures
        first_delimiter(s) == n,
    decreases s.len(),
{
    if n > 0 {
        let t = s.drop_first();
        assert(!is_sentence_delimiter(s[0]));
        assert forall|i: int| 0 <= i < n - 1 implies !is_sentence_delimiter(#[trigger] t[i]) by {
            assert(t[i] == s[i + 1]);
        }
        lemma_first_delimiter_is(t, (n - 1) as nat);
    }
}

/// Whether `c` ends a sentence.
pub fn sentence_delimiter(c: char) -> (b: bool)
    ensures
        b == is_sentence_delimiter(c),
{
    c == '.' || c == '\u{3002}' || c == ',' || c == '\u{FF0C}' || c == '\u{3001}' || c == '?'
        || c == '\u{FF1F}' || c == '!' || c == '\u{FF01}' || c == '\n'
}

/// The characters of `cs` from `from` up to `to`, trimmed of White_Space
/// at both ends.
pub fn trim_range(cs: &Vec<char>, from: usize, to: usize) -> (r: Vec<char>)
    requires
        from <= to <= cs.len(),
    ensures
        r@ == trimmed(cs@.subrange(from as int, to as int)),
{
    let ghost s = cs@.subrange(from as int, to as int);
    let mut a: usize = from;
    while a < to && char_is_whitespace(cs[a])
        invariant
            from <= a <= to <= cs.len(),
            s == cs@.subrange(from as int, to as int),
            forall|i: int| 0 <= i < a - from ==> is_white_space(#[trigger] s[i]),
        decreases to - a,
    {
        a += 1;
    }
    proof {
        lemma_leading_blank_is(s, (a - from) as nat);
    }
    let ghost rest = s.subrange((a - from) as int, s.len() as int);
    let mut b: usize = to;
    while b > a && char_is_whitespace(cs[b - 1])
        invariant
            from <= a <= b <= to <= cs.len(),
            s == cs@.subrange(from as int, to as int),
            rest == s.subrange((a - from) as int, s.len() as int),
            forall|i: int| b - a <= i < rest.len() ==> is_white_space(#[trigger] rest[i]),
        decreases b - a,
    {
        b -= 1;
    }
    proof {
        lemma_trailing_blank_is(rest, (to - b) as nat);
    }
    let mut out: Vec<char> = Vec::new();
    let mut i: usize = a;
    while i < b
        invariant
            a <= i <= b <= cs.len(),
            out@ == cs@.subrange(a as int, i as int),
        decreases b - i,
    {
        out.push(cs[i]);
        i += 1;
        assert(out@ =~= cs@.subrange(a as int, i as int));
    }
    assert(out@ =~= rest.subrange(0, rest.len() - trailing_blank(rest)));
    out
}

/// Splits a text into its sentences.
pub fn split_sentences(cs: &Vec<char>) -> (r: Vec<Vec<char>>)
    ensures
        chars_views(r@) == sentences_of(cs@),
{
    let n = cs.len();
    let mut out: Vec<Vec<char>> = Vec::new();
    let mut start: usize = 0;
    let mut done = false;
    assert(cs@.subrange(0, n as int) =~= cs@);
    assert(chars_views(out@) =~= Seq::<Seq<char>>::empty());
    while !done
        invariant
            n == cs.len(),
            start <= n,
            !done ==> chars_views(out@) + sentences_of(cs@.subrange(start as int, n as int))
                == sentences_of(cs@),
            done ==> chars_views(out@) == sentences_of(cs@),
        decreases (if done { 0int } else { 1int }) + n - start,
    {
        let ghost s = cs@.subrange(start as int, n as int);
        let mut k: usize = start;
        while k < n && !sentence_delimiter(cs[k])
            invariant
                start <= k <= n,
                n == cs.len(),
                s == cs@.subrange(start as int, n as int),
                forall|i: int| 0 <= i < k - start ==> !is_sentence_delimiter(#[trigger] s[i]),
            decreases n - k,
        {
            k += 1;
        }
        proof {
            lemma_first_delimiter_is(s, (k - start) as nat);
            assert(s.subrange(0, (k - start) as int) =~= cs@.subrange(start as int, k as int));
        }
        let piece = trim_range(cs, start, k);
        let ghost before = chars_views(out@);
        let ghost piece_view = piece@;
        if piece.len() > 0 {
            out.push(piece);
            assert(chars_views(out@) =~= before + seq![piece_view]);
        }
        if k < n {
            proof {
                assert(s.subrange(k - start + 1, s.len() as int) =~= cs@.subrange(
                    k + 1,
                    n as int,
                ));
                let rest = sentences_of(cs@.subrange(k + 1, n as int));
                if piece_view.len() > 0 {
                    assert(before + (seq![piece_view] + rest) =~= (before + seq![piece_view])
                        + rest);
                }
            }
            start = k + 1;
        } else {
            proof {
                if piece_view.len() > 0 {
                    assert(before + (seq![piece_view] + Seq::<Seq<char>>::empty()) =~= before
                        + seq![piece_view]);
                } else {
                    assert(before + Seq::<Seq<char>>::empty() =~= before);
                }
            }
            done = true;
        }
    }
    out
}

/// Splits raw input text into trimmed, non-empty sentences. The
/// delimiters are dropped.
pub fn parse_input_text(text: &str) -> (r: Vec<String>)
    ensures
        string_views(r@) == sentences_of(text@),
{
    let cs = str_chars(text);
    let parts = split_sentences(&cs);
    let mut out: Vec<String> = Vec::new();
    let mut i: usize = 0;
    while i < parts.len()
        invariant
            i <= parts.len(),
            out.len() == i,
            forall|j: int| 0 <= j < i ==> (#[trigger] out@[j])@ == parts@[j]@,
        decreases parts.len() - i,
    {
        out.push(string_of_chars(&parts[i]));
        i += 1;
    }
    assert(string_views(out@) =~= chars_views(parts@));
    out
}

/// Whether `s` reads as `lit`.
pub(crate) fn text_is(s: &String, lit: &str) -> (b: bool)
    ensures
        b == (s@ == lit@),
{
    let other = String::from_str(lit);
    *s == other
}

/// The character of a string of one character.
pub fn single_char(s: &str) -> (r: Option<char>)
    ensures
        r == (if s@.len() == 1 {
            Some(s@[0])
        } else {
            None
        }),
{
    let cs = str_chars(s);
    if cs.len() == 1 {
        Some(cs[0])
    } else {
        None
    }
}

} // verus!
