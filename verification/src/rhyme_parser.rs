use crate::rhyme::{has_unnamed_chars, Rhyme, RhymeDict};
use crate::text::{chars_views, str_chars, text_is};
use crate::tone::BasicTone;
use vstd::prelude::*;

verus! {

/// One rhyme as a source gives it: a key and the characters, each as a
/// string of its own.
pub struct RhymeSource {
    pub name: String,
    pub chars: Vec<String>,
}

/// One top-level entry of a source: its key and its rhymes in order.
pub struct RhymeSection {
    pub name: String,
    pub rhymes: Vec<RhymeSource>,
}

/// The two layouts of a rhyme source. In the Pingshui layout the key of
/// a section names the tone and the key of a rhyme its name; in the
/// Cilin layout the key of a section names the group and the key of a
/// rhyme the tone.
#[derive(Clone, Copy, PartialEq, Eq, Structural, Debug)]
pub enum RhymeLayout {
    Pingshui,
    Cilin,
}

/// Why a rhyme source was refused.
#[derive(Clone, Copy, PartialEq, Eq, Structural, Debug)]
pub enum RhymeParseError {
    /// The key of this section names no tone (Pingshui layout).
    UnknownSection(usize),
    /// The key of this rhyme of this section names no tone (Cilin
    /// layout).
    UnknownTone(usize, usize),
    /// This character of this rhyme of this section is not a string of
    /// one character.
    NotSingleChar(usize, usize, usize),
    /// There are more rhymes than identifiers.
    TooManyRhymes,
}

/// The tone that the key of a Pingshui section names.
pub open spec fn pingshui_tone(name: Seq<char>) -> Option<BasicTone> {
    if name == "上平声部"@ || name == "下平声部"@ {
        Some(BasicTone::Ping)
    } else if name == "上声部"@ || name == "去声部"@ || name == "入声部"@ {
        Some(BasicTone::Ze)
    } else {
        None
    }
}

/// The tone that the key of a Cilin rhyme names.
pub open spec fn cilin_tone(label: Seq<char>) -> Option<BasicTone> {
    if label == "平声"@ {
        Some(BasicTone::Ping)
    } else if label == "仄声"@ || label == "入声"@ {
        Some(BasicTone::Ze)
    } else {
        None
    }
}

/// Where the first string that is not one character stands, or the
/// length.
pub open spec fn first_not_single(strs: Seq<String>) -> int
    decreases strs.len(),
{
    if strs.len() == 0 {
        0
    } else if strs[0]@.len() != 1 {
        0
    } else {
        1 + first_not_single(strs.drop_first())
    }
}

/// The characters of strings of one character each.
pub open spec fn single_chars(strs: Seq<String>) -> Seq<char> {
    Seq::new(strs.len(), |i: int| strs[i]@[0])
}

/// What has been read of a source: the records, and for each its
/// characters.
pub struct Parsed {
    pub rhymes: Seq<Rhyme>,
    pub chars: Seq<Seq<char>>,
}

/// The tone of rhyme `src` of `section`.
pub open spec fn source_tone(layout: RhymeLayout, section: RhymeSection, src: RhymeSource) -> Option<
    BasicTone,
> {
    match layout {
        RhymeLayout::Pingshui => pingshui_tone(section.name@),
        RhymeLayout::Cilin => cilin_tone(src.name@),
    }
}

/// The record of rhyme `src` of `section`, with identifier `id`.
pub open spec fn source_rhyme(
    layout: RhymeLayout,
    section: RhymeSection,
    src: RhymeSource,
    id: i8,
    tone: BasicTone,
) -> Rhyme {
    match layout {
        RhymeLayout::Pingshui => Rhyme { id, name: src.name, group: None, tone },
        RhymeLayout::Cilin => Rhyme { id, name: section.name, group: Some(section.name), tone },
    }
}

/// What has been read after rhyme `ri` of section `si` is added to `p`.
pub open spec fn add_rhyme(
    layout: RhymeLayout,
    section: RhymeSection,
    si: usize,
    ri: usize,
    p: Parsed,
) -> Result<Parsed, RhymeParseError> {
    let src = section.rhymes@[ri as int];
    match source_tone(layout, section, src) {
        None => Err(RhymeParseError::UnknownTone(si, ri)),
        Some(tone) => if p.rhymes.len() > 127 {
            Err(RhymeParseError::TooManyRhymes)
        } else if first_not_single(src.chars@) < src.chars@.len() {
            Err(RhymeParseError::NotSingleChar(si, ri, first_not_single(src.chars@) as usize))
        } else {
            Ok(
                Parsed {
                    rhymes: p.rhymes.push(
                        source_rhyme(layout, section, src, p.rhymes.len() as i8, tone),
                    ),
                    chars: p.chars.push(single_chars(src.chars@)),
                },
            )
        },
    }
}

/// What has been read after the first `upto` rhymes of section `si`
/// are added to `p`.
pub open spec fn add_rhymes(
    layout: RhymeLayout,
    section: RhymeSection,
    si: usize,
    p: Parsed,
    upto: int,
) -> Result<Parsed, RhymeParseError>
    decreases upto,
{
    if upto <= 0 {
        Ok(p)
    } else {
        match add_rhymes(layout, section, si, p, upto - 1) {
            Err(e) => Err(e),
            Ok(q) => add_rhyme(layout, section, si, (upto - 1) as usize, q),
        }
    }
}

/// What has been read after the first `upto` sections: the rhymes are
/// numbered in the order in which they stand.
pub open spec fn parsed_upto(layout: RhymeLayout, sections: Seq<RhymeSection>, upto: int) -> Result<
    Parsed,
    RhymeParseError,
>
    decreases upto,
{
    if upto <= 0 {
        Ok(Parsed { rhymes: Seq::empty(), chars: Seq::empty() })
    } else {
        match parsed_upto(layout, sections, upto - 1) {
            Err(e) => Err(e),
            Ok(p) => {
                let section = sections[upto - 1];
                if layout == RhymeLayout::Pingshui && pingshui_tone(section.name@) is None {
                    Err(RhymeParseError::UnknownSection((upto - 1) as usize))
                } else {
                    add_rhymes(
                        layout,
                        section,
                        (upto - 1) as usize,
                        p,
                        section.rhymes@.len() as int,
                    )
                }
            },
        }
    }
}

/// What a whole source reads as.
pub open spec fn parsed_source(layout: RhymeLayout, sections: Seq<RhymeSection>) -> Result<
    Parsed,
    RhymeParseError,
> {
    parsed_upto(layout, sections, sections.len() as int)
}

/// A fault among the first rhymes of a section is the fault of the
/// section.
pub proof fn lemma_rhymes_error_stays(
    layout: RhymeLayout,
    section: RhymeSection,
    si: usize,
    p: Parsed,
    a: int,
    b: int,
)
    requires
        a <= b,
        add_rhymes(layout, section, si, p, a) is Err,
    ensures
        add_rhymes(layout, section, si, p, b) == add_rhymes(layout, section, si, p, a),
    decreases b - a,
{
    if a < b {
        lemma_rhymes_error_stays(layout, section, si, p, a, b - 1);
    }
}

/// A fault among the first sections is the fault of the source.
pub proof fn lemma_sections_error_stays(
    layout: RhymeLayout,
    sections: Seq<RhymeSection>,
    a: int,
    b: int,
)
    requires
        a <= b,
        parsed_upto(layout, sections, a) is Err,
    ensures
        parsed_upto(layout, sections, b) == parsed_upto(layout, sections, a),
    decreases b - a,
{
    if a < b {
        lemma_sections_error_stays(layout, sections, a, b - 1);
    }
}

fn tone_of_pingshui(name: &String) -> (r: Option<BasicTone>)
    ensures
        r == pingshui_tone(name@),
{
    if text_is(name, "上平声部") || text_is(name, "下平声部") {
        Some(BasicTone::Ping)
    } else if text_is(name, "上声部") || text_is(name, "去声部") || text_is(name, "入声部") {
        Some(BasicTone::Ze)
    } else {
        None
    }
}

fn tone_of_cilin(label: &String) -> (r: Option<BasicTone>)
    ensures
        r == cilin_tone(label@),
{
    if text_is(label, "平声") {
        Some(BasicTone::Ping)
    } else if text_is(label, "仄声") || text_is(label, "入声") {
        Some(BasicTone::Ze)
    } else {
        None
    }
}

/// The characters of `strs`, or the place of the first that is not a
/// string of one character.
pub fn chars_of_strings(strs: &Vec<String>) -> (r: Result<Vec<char>, usize>)
    ensures
        match r {
            Ok(cs) => first_not_single(strs@) == strs@.len() && cs@ == single_chars(strs@),
            Err(k) => k == first_not_single(strs@) && k < strs@.len(),
        },
{
    let n = strs.len();
    let mut out: Vec<char> = Vec::new();
    let mut i: usize = 0;
    assert(strs@.subrange(0, n as int) =~= strs@);
    while i < n
        invariant
            i <= n,
            n == strs@.len(),
            out@.len() == i,
            forall|j: int| 0 <= j < i ==> #[trigger] out@[j] == strs@[j]@[0],
            first_not_single(strs@) == i + first_not_single(strs@.subrange(i as int, n as int)),
        decreases n - i,
    {
        let ghost rest = strs@.subrange(i as int, n as int);
        assert(rest[0] == strs@[i as int]);
        let cs = str_chars(strs[i].as_str());
        if cs.len() != 1 {
            return Err(i);
        }
        out.push(cs[0]);
        assert(rest.drop_first() =~= strs@.subrange(i + 1, n as int));
        i += 1;
    }
    assert(out@ =~= single_chars(strs@));
    Ok(out)
}

/// Reads a rhyme source in one of the two layouts and builds the
/// dictionary: the rhymes are numbered from 0 in the order in which
/// they stand. The first fault in that order is reported.
pub fn parse_rhymes(layout: RhymeLayout, sections: &Vec<RhymeSection>) -> (r: Result<
    RhymeDict,
    RhymeParseError,
>)
    ensures
        match parsed_source(layout, sections@) {
            Ok(p) => r is Ok && r->Ok_0.rhymes() == p.rhymes && r->Ok_0.rhyme_chars() == p.chars,
            Err(e) => r == Err::<RhymeDict, RhymeParseError>(e),
        },
{
    let mut rhymes: Vec<Rhyme> = Vec::new();
    let mut chars: Vec<Vec<char>> = Vec::new();
    let mut si: usize = 0;
    assert(chars_views(chars@) =~= Seq::<Seq<char>>::empty());
    while si < sections.len()
        invariant
            si <= sections.len(),
            rhymes@.len() == chars@.len(),
            parsed_upto(layout, sections@, si as int) == Ok::<Parsed, RhymeParseError>(
                Parsed { rhymes: rhymes@, chars: chars_views(chars@) },
            ),
        decreases sections.len() - si,
    {
        let section = &sections[si];
        let section_tone = match layout {
            RhymeLayout::Pingshui => {
                let t = tone_of_pingshui(&section.name);
                if t.is_none() {
                    proof {
                        assert(parsed_upto(layout, sections@, si + 1) == Err::<
                            Parsed,
                            RhymeParseError,
                        >(RhymeParseError::UnknownSection(si)));
                        lemma_sections_error_stays(
                            layout,
                            sections@,
                            si + 1,
                            sections@.len() as int,
                        );
                    }
                    return Err(RhymeParseError::UnknownSection(si));
                }
                t
            },
            RhymeLayout::Cilin => None,
        };
        let ghost start = Parsed { rhymes: rhymes@, chars: chars_views(chars@) };
        let mut ri: usize = 0;
        while ri < section.rhymes.len()
            invariant
                ri <= section.rhymes.len(),
                si < sections.len(),
                *section == sections@[si as int],
                rhymes@.len() == chars@.len(),
                layout == RhymeLayout::Pingshui ==> section_tone == pingshui_tone(section.name@)
                    && section_tone is Some,
                parsed_upto(layout, sections@, si as int) == Ok::<Parsed, RhymeParseError>(start),
                add_rhymes(layout, *section, si, start, ri as int) == Ok::<
                    Parsed,
                    RhymeParseError,
                >(Parsed { rhymes: rhymes@, chars: chars_views(chars@) }),
            decreases section.rhymes.len() - ri,
        {
            let src = &section.rhymes[ri];
            let tone = match layout {
                RhymeLayout::Pingshui => section_tone,
                RhymeLayout::Cilin => tone_of_cilin(&src.name),
            };
            assert(tone == source_tone(layout, *section, *src));
            let ghost here = Parsed { rhymes: rhymes@, chars: chars_views(chars@) };
            let ghost next = add_rhyme(layout, *section, si, ri, here);
            proof {
                assert(add_rhymes(layout, *section, si, start, ri + 1) == next);
                if next is Err {
                    lemma_rhymes_error_stays(
                        layout,
                        *section,
                        si,
                        start,
                        ri + 1,
                        section.rhymes@.len() as int,
                    );
                    assert(parsed_upto(layout, sections@, si + 1) == next);
                    lemma_sections_error_stays(layout, sections@, si + 1, sections@.len() as int);
                }
            }
            let tone = match tone {
                None => {
                    return Err(RhymeParseError::UnknownTone(si, ri));
                },
                Some(t) => t,
            };
            if rhymes.len() > 127 {
                return Err(RhymeParseError::TooManyRhymes);
            }
            let id = rhymes.len() as i8;
            let list = match chars_of_strings(&src.chars) {
                Err(k) => {
                    return Err(RhymeParseError::NotSingleChar(si, ri, k));
                },
                Ok(list) => list,
            };
            let rhyme = match layout {
                RhymeLayout::Pingshui => Rhyme { id, name: src.name.clone(), group: None, tone },
                RhymeLayout::Cilin => Rhyme {
                    id,
                    name: section.name.clone(),
                    group: Some(section.name.clone()),
                    tone,
                },
            };
            assert(rhyme == source_rhyme(layout, *section, *src, id, tone));
            let ghost before = chars_views(chars@);
            let ghost list_view = list@;
            rhymes.push(rhyme);
            chars.push(list);
            assert(chars_views(chars@) =~= before.push(list_view));
            ri += 1;
        }
        si += 1;
    }
    proof {
        let lists = chars_views(chars@);
        assert(!has_unnamed_chars(lists, rhymes@.len())) by {
            if has_unnamed_chars(lists, rhymes@.len()) {
                let i = choose|i: int|
                    rhymes@.len() <= i < lists.len() && (#[trigger] lists[i]).len() > 0;
                assert(false);
            }
        }
    }
    match RhymeDict::new(chars, rhymes) {
        Ok(dict) => Ok(dict),
        Err(_) => Err(RhymeParseError::TooManyRhymes),
    }
}

/// Reads a source in the Pingshui layout.
pub fn parse_pingshui(sections: &Vec<RhymeSection>) -> (r: Result<RhymeDict, RhymeParseError>)
    ensures
        match parsed_source(RhymeLayout::Pingshui, sections@) {
            Ok(p) => r is Ok && r->Ok_0.rhymes() == p.rhymes && r->Ok_0.rhyme_chars() == p.chars,
            Err(e) => r == Err::<RhymeDict, RhymeParseError>(e),
        },
{
    parse_rhymes(RhymeLayout::Pingshui, sections)
}

/// Reads a source in the Cilin layout.
pub fn parse_cilin(sections: &Vec<RhymeSection>) -> (r: Result<RhymeDict, RhymeParseError>)
    ensures
        match parsed_source(RhymeLayout::Cilin, sections@) {
            Ok(p) => r is Ok && r->Ok_0.rhymes() == p.rhymes && r->Ok_0.rhyme_chars() == p.chars,
            Err(e) => r == Err::<RhymeDict, RhymeParseError>(e),
        },
{
    parse_rhymes(RhymeLayout::Cilin, sections)
}

} // verus!
