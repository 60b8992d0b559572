use crate::text::{char_is_whitespace, is_white_space, str_chars};
use crate::tone::{meter_view, MeterTone, MeterToneType};
use vstd::prelude::*;

verus! {

/// Why the text of a template's meter was refused.
#[derive(Clone, Copy, PartialEq, Eq, Structural, Debug)]
pub enum MeterParseError {
    /// A character that is neither a tone glyph nor a rhyme marker in
    /// its place.
    UnexpectedGlyph(char),
}

/// The tone that a glyph stands for.
pub open spec fn glyph_tone(c: char) -> Option<MeterToneType> {
    if c == '\u{FF0D}' {
        Some(MeterToneType::Ping)
    } else if c == '\u{2502}' || c == '\u{53BB}' {
        Some(MeterToneType::Ze)
    } else if c == '\u{FF0B}' {
        Some(MeterToneType::Zhong)
    } else {
        None
    }
}

/// The rhyme-group number that marker `m` gives to a slot of tone `tone`.
pub open spec fn marker_rhyme(tone: MeterToneType, m: char) -> Option<i32> {
    if 'a' <= m && m <= 'z' && tone != MeterToneType::Zhong {
        Some((m as u32 - 'a' as u32 + 1) as i32)
    } else {
        match tone {
            MeterToneType::Ping => if m == '\u{FF05}' {
                Some(0i32)
            } else if m == '\u{FF06}' {
                Some(1i32)
            } else {
                None
            },
            MeterToneType::Ze => if m == '\u{FF0A}' {
                Some(0i32)
            } else if m == '\u{2606}' {
                Some(1i32)
            } else if m == '\u{2605}' {
                Some(2i32)
            } else {
                None
            },
            MeterToneType::Zhong => None,
        }
    }
}

/// The slots that the glyphs of one line spell, or the first character
/// that fits nowhere.
pub open spec fn meter_line_of(s: Seq<char>) -> Result<Seq<MeterTone>, char>
    decreases s.len(),
{
    if s.len() == 0 {
        Ok(Seq::empty())
    } else {
        match glyph_tone(s[0]) {
            None => Err(s[0]),
            Some(tone) => {
                let rhyme_num = if s.len() > 1 {
                    marker_rhyme(tone, s[1])
                } else {
                    None
                };
                let used: int = if rhyme_num is Some {
                    2
                } else {
                    1
                };
                match meter_line_of(s.subrange(used, s.len() as int)) {
                    Err(c) => Err(c),
                    Ok(rest) => Ok(seq![MeterTone { tone, rhyme_num }] + rest),
                }
            },
        }
    }
}

fn tone_of_glyph(c: char) -> (r: Option<MeterToneType>)
    ensures
        r == glyph_tone(c),
{
    if c == '\u{FF0D}' {
        Some(MeterToneType::Ping)
    } else if c == '\u{2502}' || c == '\u{53BB}' {
        Some(MeterToneType::Ze)
    } else if c == '\u{FF0B}' {
        Some(MeterToneType::Zhong)
    } else {
        None
    }
}

fn rhyme_of_marker(tone: MeterToneType, m: char) -> (r: Option<i32>)
    ensures
        r == marker_rhyme(tone, m),
{
    match tone {
        MeterToneType::Zhong => None,
        MeterToneType::Ping => {
            if 'a' <= m && m <= 'z' {
                Some((m as u32 - 'a' as u32 + 1) as i32)
            } else if m == '\u{FF05}' {
                Some(0)
            } else if m == '\u{FF06}' {
                Some(1)
            } else {
                None
            }
        },
        MeterToneType::Ze => {
            if 'a' <= m && m <= 'z' {
                Some((m as u32 - 'a' as u32 + 1) as i32)
            } else if m == '\u{FF0A}' {
                Some(0)
            } else if m == '\u{2606}' {
                Some(1)
            } else if m == '\u{2605}' {
                Some(2)
            } else {
                None
            }
        },
    }
}

/// Reads one line of glyphs from `cs[from..to]`.
pub(crate) fn parse_meter_chars(cs: &Vec<char>, from: usize, to: usize) -> (r: Result<
    Vec<MeterTone>,
    MeterParseError,
>)
    requires
        from <= to <= cs.len(),
    ensures
        match meter_line_of(cs@.subrange(from as int, to as int)) {
            Ok(line) => r is Ok && r->Ok_0@ == line,
            Err(c) => r == Err::<Vec<MeterTone>, MeterParseError>(
                MeterParseError::UnexpectedGlyph(c),
            ),
        },
{
    let ghost whole = cs@.subrange(from as int, to as int);
    let mut out: Vec<MeterTone> = Vec::new();
    let mut i: usize = from;
    assert(cs@.subrange(from as int, to as int) =~= whole);
    while i < to
        invariant
            from <= i <= to <= cs.len(),
            whole == cs@.subrange(from as int, to as int),
            match meter_line_of(cs@.subrange(i as int, to as int)) {
                Ok(rest) => meter_line_of(whole) == Ok::<Seq<MeterTone>, char>(out@ + rest),
                Err(c) => meter_line_of(whole) == Err::<Seq<MeterTone>, char>(c),
            },
        decreases to - i,
    {
        let ghost s = cs@.subrange(i as int, to as int);
        let ghost before = out@;
        assert(s[0] == cs@[i as int]);
        match tone_of_glyph(cs[i]) {
            None => {
                return Err(MeterParseError::UnexpectedGlyph(cs[i]));
            },
            Some(tone) => {
                let mut rhyme_num: Option<i32> = None;
                if i + 1 < to {
                    assert(s[1] == cs@[i + 1]);
                    rhyme_num = rhyme_of_marker(tone, cs[i + 1]);
                }
                let used: usize = if rhyme_num.is_some() {
                    2
                } else {
                    1
                };
                out.push(MeterTone { tone, rhyme_num });
                proof {
                    assert(s.subrange(used as int, s.len() as int) =~= cs@.subrange(
                        i + used,
                        to as int,
                    ));
                    match meter_line_of(cs@.subrange(i + used, to as int)) {
                        Ok(rest) => {
                            assert(before + (seq![MeterTone { tone, rhyme_num }] + rest)
                                =~= out@ + rest);
                        },
                        Err(c) => {},
                    }
                }
                i += used;
            },
        }
    }
    proof {
        assert(out@ + Seq::<MeterTone>::empty() =~= out@);
    }
    Ok(out)
}

/// Reads one line of a template: tone glyphs, each optionally followed
/// by a rhyme marker. Any other character is refused.
pub fn parse_meter_line(line: &str) -> (r: Result<Vec<MeterTone>, MeterParseError>)
    ensures
        match meter_line_of(line@) {
            Ok(slots) => r is Ok && r->Ok_0@ == slots,
            Err(c) => r == Err::<Vec<MeterTone>, MeterParseError>(
                MeterParseError::UnexpectedGlyph(c),
            ),
        },
{
    let cs = str_chars(line);
    assert(cs@.subrange(0, cs.len() as int) =~= line@);
    parse_meter_chars(&cs, 0, cs.len())
}

/// The marks of structure that a meter's text may hold and that say
/// nothing of tones: brackets of several kinds and a few signs.
pub open spec fn is_annotation(c: char) -> bool {
    c == '{' || c == '\u{FF5B}' || c == '}' || c == '\u{FF5D}' || c == '\u{02C7}' || c
        == '\u{FF5E}' || c == '\u{FF01}' || c == '[' || c == '\u{FF3B}' || c == ']' || c
        == '\u{FF3D}' || c == '\u{FF08}' || c == '\u{FF09}' || c == '\u{FF03}'
}

/// What is taken out of a meter's text before it is read: the marks of
/// structure, and White_Space other than the newline.
pub open spec fn is_stripped(c: char) -> bool {
    is_annotation(c) || (is_white_space(c) && c != '\n')
}

/// `s` without the characters that are taken out.
pub open spec fn stripped(s: Seq<char>) -> Seq<char>
    decreases s.len(),
{
    if s.len() == 0 {
        Seq::empty()
    } else {
        stripped(s.drop_last()) + (if is_stripped(s.last()) {
            Seq::empty()
        } else {
            seq![s.last()]
        })
    }
}

/// The characters that end a line of a meter.
pub open spec fn is_line_delimiter(c: char) -> bool {
    c == '\u{3002}' || c == '\u{FF0C}' || c == '\u{3001}' || c == '\n'
}

/// `s` with each newline that directly follows `d` taken out, read from
/// the left: of `d`, newline, newline the second newline stays.
pub open spec fn drop_newline_after(s: Seq<char>, d: char) -> Seq<char>
    decreases s.len(),
{
    if s.len() < 2 {
        s
    } else if s[0] == d && s[1] == '\n' {
        seq![d] + drop_newline_after(s.subrange(2, s.len() as int), d)
    } else {
        seq![s[0]] + drop_newline_after(s.subrange(1, s.len() as int), d)
    }
}

/// `s` with the newlines taken out that follow a line delimiter, one
/// delimiter after the other.
pub open spec fn merged(s: Seq<char>) -> Seq<char> {
    drop_newline_after(
        drop_newline_after(
            drop_newline_after(drop_newline_after(s, '\u{3002}'), '\u{FF0C}'),
            '\u{3001}',
        ),
        '\n',
    )
}

/// Where the first line delimiter of `s` stands, or `s.len()`.
pub open spec fn first_line_end(s: Seq<char>) -> nat
    decreases s.len(),
{
    if s.len() > 0 && !is_line_delimiter(s[0]) {
        1 + first_line_end(s.drop_first())
    } else {
        0
    }
}

/// The lines that `s` spells, one for each piece between delimiters, or
/// the first character that fits nowhere.
pub open spec fn meter_lines_of(s: Seq<char>) -> Result<Seq<Seq<MeterTone>>, char>
    decreases s.len(),
{
    let k = first_line_end(s) as int;
    match meter_line_of(s.subrange(0, k)) {
        Err(c) => Err(c),
        Ok(line) => if k < s.len() {
            match meter_lines_of(s.subrange(k + 1, s.len() as int)) {
                Err(c) => Err(c),
                Ok(rest) => Ok(seq![line] + rest),
            }
        } else {
            Ok(seq![line])
        },
    }
}

/// `lines` without the empty lines at its end.
pub open spec fn without_trailing_empty(lines: Seq<Seq<MeterTone>>) -> Seq<Seq<MeterTone>>
    decreases lines.len(),
{
    if lines.len() > 0 && lines.last().len() == 0 {
        without_trailing_empty(lines.drop_last())
    } else {
        lines
    }
}

/// The meter that a template's text spells.
pub open spec fn meter_of(s: Seq<char>) -> Result<Seq<Seq<MeterTone>>, char> {
    bare_meter_of(stripped(s))
}

fn annotation(c: char) -> (b: bool)
    ensures
        b == is_annotation(c),
{
    c == '{' || c == '\u{FF5B}' || c == '}' || c == '\u{FF5D}' || c == '\u{02C7}' || c
        == '\u{FF5E}' || c == '\u{FF01}' || c == '[' || c == '\u{FF3B}' || c == ']' || c
        == '\u{FF3D}' || c == '\u{FF08}' || c == '\u{FF09}' || c == '\u{FF03}'
}

fn line_delimiter(c: char) -> (b: bool)
    ensures
        b == is_line_delimiter(c),
{
    c == '\u{3002}' || c == '\u{FF0C}' || c == '\u{3001}' || c == '\n'
}

fn strip_chars(cs: &Vec<char>) -> (r: Vec<char>)
    ensures
        r@ == stripped(cs@),
{
    let mut out: Vec<char> = Vec::new();
    let mut i: usize = 0;
    assert(cs@.take(0) =~= Seq::<char>::empty());
    while i < cs.len()
        invariant
            i <= cs.len(),
            out@ == stripped(cs@.take(i as int)),
        decreases cs.len() - i,
    {
        let c = cs[i];
        assert(cs@.take(i + 1).drop_last() =~= cs@.take(i as int));
        let ghost before = out@;
        if !(annotation(c) || (c != '\n' && char_is_whitespace(c))) {
            out.push(c);
            assert(out@ =~= before + seq![c]);
        } else {
            assert(before + Seq::<char>::empty() =~= before);
        }
        i += 1;
    }
    assert(cs@.take(cs.len() as int) =~= cs@);
    out
}

fn newline_dropped_after(cs: &Vec<char>, d: char) -> (r: Vec<char>)
    ensures
        r@ == drop_newline_after(cs@, d),
{
    let n = cs.len();
    let mut out: Vec<char> = Vec::new();
    let mut i: usize = 0;
    assert(cs@.subrange(0, n as int) =~= cs@);
    assert(out@ + drop_newline_after(cs@, d) =~= drop_newline_after(cs@, d));
    while i < n
        invariant
            i <= n,
            n == cs.len(),
            out@ + drop_newline_after(cs@.subrange(i as int, n as int), d) == drop_newline_after(
                cs@,
                d,
            ),
        decreases n - i,
    {
        let ghost s = cs@.subrange(i as int, n as int);
        let ghost before = out@;
        assert(s[0] == cs@[i as int]);
        if i + 1 < n {
            assert(s[1] == cs@[i + 1]);
            if cs[i] == d && cs[i + 1] == '\n' {
                assert(s.subrange(2, s.len() as int) =~= cs@.subrange(i + 2, n as int));
                out.push(d);
                assert(out@ + drop_newline_after(cs@.subrange(i + 2, n as int), d) =~= before + (
                seq![d] + drop_newline_after(cs@.subrange(i + 2, n as int), d)));
                i += 2;
            } else {
                assert(s.subrange(1, s.len() as int) =~= cs@.subrange(i + 1, n as int));
                out.push(cs[i]);
                assert(out@ + drop_newline_after(cs@.subrange(i + 1, n as int), d) =~= before + (
                seq![s[0]] + drop_newline_after(cs@.subrange(i + 1, n as int), d)));
                i += 1;
            }
        } else {
            assert(cs@.subrange(i + 1, n as int) =~= Seq::<char>::empty());
            out.push(cs[i]);
            assert(out@ + drop_newline_after(cs@.subrange(i + 1, n as int), d) =~= before + s);
            i += 1;
        }
    }
    assert(out@ + Seq::<char>::empty() =~= out@);
    out
}

proof fn lemma_first_line_end_is(s: Seq<char>, n: nat)
    requires
        n <= s.len(),
        forall|i: int| 0 <= i < n ==> !is_line_delimiter(#[trigger] s[i]),
        n < s.len() ==> is_line_delimiter(s[n as int]),
    ensures
        first_line_end(s) == n,
    decreases s.len(),
{
    if n > 0 {
        let t = s.drop_first();
        assert(!is_line_delimiter(s[0]));
        assert forall|i: int| 0 <= i < n - 1 implies !is_line_delimiter(#[trigger] t[i]) by {
            assert(t[i] == s[i + 1]);
        }
        lemma_first_line_end_is(t, (n - 1) as nat);
    }
}

fn parse_lines(cs: &Vec<char>) -> (r: Result<Vec<Vec<MeterTone>>, MeterParseError>)
    ensures
        match meter_lines_of(cs@) {
            Ok(lines) => r is Ok && meter_view(r->Ok_0@) == lines,
            Err(c) => r == Err::<Vec<Vec<MeterTone>>, MeterParseError>(
                MeterParseError::UnexpectedGlyph(c),
            ),
        },
{
    let n = cs.len();
    let mut out: Vec<Vec<MeterTone>> = Vec::new();
    let mut start: usize = 0;
    let mut done = false;
    assert(cs@.subrange(0, n as int) =~= cs@);
    proof {
        match meter_lines_of(cs@) {
            Ok(rest) => {
                assert(meter_view(out@) + rest =~= rest);
            },
            Err(c) => {},
        }
    }
    while !done
        invariant
            n == cs.len(),
            start <= n,
            !done ==> match meter_lines_of(cs@.subrange(start as int, n as int)) {
                Ok(rest) => meter_lines_of(cs@) == Ok::<Seq<Seq<MeterTone>>, char>(
                    meter_view(out@) + rest,
                ),
                Err(c) => meter_lines_of(cs@) == Err::<Seq<Seq<MeterTone>>, char>(c),
            },
            done ==> meter_lines_of(cs@) == Ok::<Seq<Seq<MeterTone>>, char>(meter_view(out@)),
        decreases (if done { 0int } else { 1int }) + n - start,
    {
        let ghost s = cs@.subrange(start as int, n as int);
        let mut k: usize = start;
        while k < n && !line_delimiter(cs[k])
            invariant
                start <= k <= n,
                n == cs.len(),
                s == cs@.subrange(start as int, n as int),
                forall|i: int| 0 <= i < k - start ==> !is_line_delimiter(#[trigger] s[i]),
            decreases n - k,
        {
            k += 1;
        }
        proof {
            lemma_first_line_end_is(s, (k - start) as nat);
            assert(s.subrange(0, (k - start) as int) =~= cs@.subrange(start as int, k as int));
        }
        let ghost before = meter_view(out@);
        match parse_meter_chars(cs, start, k) {
            Err(e) => {
                return Err(e);
            },
            Ok(line) => {
                let ghost line_view = line@;
                out.push(line);
                assert(meter_view(out@) =~= before + seq![line_view]);
                if k < n {
                    proof {
                        assert(s.subrange(k - start + 1, s.len() as int) =~= cs@.subrange(
                            k + 1,
                            n as int,
                        ));
                        match meter_lines_of(cs@.subrange(k + 1, n as int)) {
                            Ok(rest) => {
                                assert(before + (seq![line_view] + rest) =~= (before
                                    + seq![line_view]) + rest);
                            },
                            Err(c) => {},
                        }
                    }
                    start = k + 1;
                } else {
                    done = true;
                }
            },
        }
    }
    Ok(out)
}

/// The meter that a text spells from which the marks of structure and
/// the blanks have been taken out.
pub open spec fn bare_meter_of(s: Seq<char>) -> Result<Seq<Seq<MeterTone>>, char> {
    match meter_lines_of(merged(s)) {
        Err(c) => Err(c),
        Ok(lines) => Ok(without_trailing_empty(lines)),
    }
}

/// Reads a meter from text that holds tone glyphs, rhyme markers and
/// line delimiters only: a newline that follows a delimiter ends no
/// line of its own, each piece between delimiters is read as one line,
/// and the empty lines at the end are dropped. The first character that
/// fits nowhere is refused.
pub fn parse_bare_meter(cs: &Vec<char>) -> (r: Result<Vec<Vec<MeterTone>>, MeterParseError>)
    ensures
        match bare_meter_of(cs@) {
            Ok(lines) => r is Ok && meter_view(r->Ok_0@) == lines,
            Err(c) => r == Err::<Vec<Vec<MeterTone>>, MeterParseError>(
                MeterParseError::UnexpectedGlyph(c),
            ),
        },
{
    let one = newline_dropped_after(cs, '\u{3002}');
    let two = newline_dropped_after(&one, '\u{FF0C}');
    let three = newline_dropped_after(&two, '\u{3001}');
    let four = newline_dropped_after(&three, '\n');
    match parse_lines(&four) {
        Err(e) => Err(e),
        Ok(lines) => {
            let mut lines = lines;
            let ghost all = meter_view(lines@);
            while lines.len() > 0 && lines[lines.len() - 1].len() == 0
                invariant
                    without_trailing_empty(meter_view(lines@)) == without_trailing_empty(all),
                decreases lines.len(),
            {
                let ghost before = meter_view(lines@);
                lines.pop();
                assert(meter_view(lines@) =~= before.drop_last());
            }
            Ok(lines)
        },
    }
}

/// Reads the text of a template's meter: the marks of structure and
/// the blanks other than newlines are taken out, and the rest is read
/// as `parse_bare_meter` reads it.
pub fn parse_meter(meter: &str) -> (r: Result<Vec<Vec<MeterTone>>, MeterParseError>)
    ensures
        match meter_of(meter@) {
            Ok(lines) => r is Ok && meter_view(r->Ok_0@) == lines,
            Err(c) => r == Err::<Vec<Vec<MeterTone>>, MeterParseError>(
                MeterParseError::UnexpectedGlyph(c),
            ),
        },
{
    let raw = str_chars(meter);
    let bare = strip_chars(&raw);
    parse_bare_meter(&bare)
}

} // verus!
