use rhyme_checker::cipai_parser::{cipais_from_nodes, parse_cipai, XmlNode};
use rhyme_checker::meter_parser::{parse_bare_meter, parse_meter, parse_meter_line, MeterParseError};
use rhyme_checker::rhyme_parser::{
    chars_of_strings, parse_cilin, parse_pingshui, RhymeParseError, RhymeSection, RhymeSource,
};
use rhyme_checker::text::{parse_input_text, split_sentences, trim_range};
use rhyme_checker::tone::{BasicTone, MeterTone, MeterToneType};

fn ping(n: Option<i32>) -> MeterTone {
    MeterTone { tone: MeterToneType::Ping, rhyme_num: n }
}

fn ze(n: Option<i32>) -> MeterTone {
    MeterTone { tone: MeterToneType::Ze, rhyme_num: n }
}

fn zhong() -> MeterTone {
    MeterTone { tone: MeterToneType::Zhong, rhyme_num: None }
}

fn section(name: &str, rhymes: &[(&str, &[&str])]) -> RhymeSection {
    RhymeSection {
        name: name.to_string(),
        rhymes: rhymes
            .iter()
            .map(|(n, cs)| RhymeSource {
                name: n.to_string(),
                chars: cs.iter().map(|c| c.to_string()).collect(),
            })
            .collect(),
    }
}

#[test]
fn text_is_split_at_every_delimiter() {
    let parts = parse_input_text("甲.乙。丙,丁，戊、己?庚？辛!壬！癸\n子");
    let expected: Vec<String> =
        ["甲", "乙", "丙", "丁", "戊", "己", "庚", "辛", "壬", "癸", "子"].iter().map(|s| s.to_string()).collect();
    assert_eq!(parts, expected);
}

#[test]
fn sentences_are_trimmed_and_empty_ones_dropped() {
    let parts = parse_input_text("  东 风 \t。。 \u{3000}\n,夜放花千树 ");
    assert_eq!(parts, vec!["东 风".to_string(), "夜放花千树".to_string()]);
    assert!(parse_input_text("").is_empty());
    assert!(parse_input_text(" \n，").is_empty());
}

#[test]
fn sentences_of_characters() {
    let chars: Vec<char> = "东风，夜放".chars().collect();
    assert_eq!(split_sentences(&chars), vec![vec!['东', '风'], vec!['夜', '放']]);
    let padded: Vec<char> = " 东 风 ".chars().collect();
    assert_eq!(trim_range(&padded, 0, padded.len()), vec!['东', ' ', '风']);
    assert_eq!(trim_range(&padded, 1, 2), vec!['东']);
    assert!(trim_range(&padded, 2, 3).is_empty());
}

#[test]
fn every_glyph_of_a_line() {
    assert_eq!(parse_meter_line("－│去＋"), Ok(vec![ping(None), ze(None), ze(None), zhong()]));
    assert_eq!(parse_meter_line("－％－＆"), Ok(vec![ping(Some(0)), ping(Some(1))]));
    assert_eq!(parse_meter_line("│＊│☆去★"), Ok(vec![ze(Some(0)), ze(Some(1)), ze(Some(2))]));
    assert_eq!(parse_meter_line("－a│b去z"), Ok(vec![ping(Some(1)), ze(Some(2)), ze(Some(26))]));
    assert_eq!(parse_meter_line(""), Ok(vec![]));
}

#[test]
fn markers_belong_to_their_tone() {
    // A Ze marker after a Ping glyph marks nothing and fits nowhere.
    assert_eq!(parse_meter_line("－＊"), Err(MeterParseError::UnexpectedGlyph('＊')));
    assert_eq!(parse_meter_line("│％"), Err(MeterParseError::UnexpectedGlyph('％')));
    assert_eq!(parse_meter_line("＋a"), Err(MeterParseError::UnexpectedGlyph('a')));
    assert_eq!(parse_meter_line("－★"), Err(MeterParseError::UnexpectedGlyph('★')));
}

#[test]
fn first_unexpected_glyph_is_reported() {
    assert_eq!(parse_meter_line("－甲│乙"), Err(MeterParseError::UnexpectedGlyph('甲')));
    assert_eq!(parse_meter_line("％"), Err(MeterParseError::UnexpectedGlyph('％')));
    assert_eq!(parse_meter_line("－A"), Err(MeterParseError::UnexpectedGlyph('A')));
}

#[test]
fn meter_is_read_line_by_line() {
    assert_eq!(
        parse_meter("－－│＊，\n＋│－％。\n"),
        Ok(vec![vec![ping(None), ping(None), ze(Some(0))], vec![zhong(), ze(None), ping(Some(0))]])
    );
    assert_eq!(parse_meter("－－。││"), Ok(vec![vec![ping(None), ping(None)], vec![ze(None), ze(None)]]));
}

#[test]
fn ping_marker_on_ze_glyph_is_refused_in_a_meter() {
    assert_eq!(parse_meter("－－│％，"), Err(MeterParseError::UnexpectedGlyph('％')));
}

#[test]
fn annotations_and_blanks_are_taken_out() {
    let meter = parse_meter("  {－－}｛││｝ˇ～！[－]［│］（－）＃ \t－\r\n").unwrap();
    assert_eq!(
        meter,
        vec![vec![
            ping(None),
            ping(None),
            ze(None),
            ze(None),
            ping(None),
            ze(None),
            ping(None),
            ping(None)
        ]]
    );
}

#[test]
fn newline_after_a_delimiter_ends_no_line() {
    assert_eq!(
        parse_meter("－。\n│，\n－、\n│\n－"),
        Ok(vec![vec![ping(None)], vec![ze(None)], vec![ping(None)], vec![ze(None)], vec![ping(None)]])
    );
    // Of two newlines after a delimiter the second ends an empty line.
    assert_eq!(parse_meter("－。\n\n│"), Ok(vec![vec![ping(None)], vec![], vec![ze(None)]]));
    // Newlines fall away in pairs, from the left.
    assert_eq!(parse_meter("－\n\n\n│"), Ok(vec![vec![ping(None)], vec![], vec![ze(None)]]));
    assert_eq!(parse_meter("－。。│"), Ok(vec![vec![ping(None)], vec![], vec![ze(None)]]));
}

#[test]
fn empty_lines_at_the_end_are_dropped() {
    assert_eq!(parse_meter("－。\n\n\n"), Ok(vec![vec![ping(None)]]));
    assert_eq!(parse_meter(""), Ok(vec![]));
    assert_eq!(parse_meter("。，、"), Ok(vec![]));
    assert_eq!(parse_meter("。－"), Ok(vec![vec![], vec![ping(None)]]));
}

#[test]
fn bare_meter_keeps_what_it_is_given() {
    let chars: Vec<char> = "－ │".chars().collect();
    assert_eq!(parse_bare_meter(&chars), Err(MeterParseError::UnexpectedGlyph(' ')));
    let chars: Vec<char> = "－，\n│".chars().collect();
    assert_eq!(parse_bare_meter(&chars), Ok(vec![vec![ping(None)], vec![ze(None)]]));
}

#[test]
fn first_faulty_line_is_reported() {
    assert_eq!(parse_meter("－。甲。乙"), Err(MeterParseError::UnexpectedGlyph('甲')));
}

#[test]
fn pingshui_sections_name_the_tone() {
    let source = vec![
        section("上平声部", &[("一东", &["东", "同"]), ("二冬", &["冬"])]),
        section("下平声部", &[("一先", &["先"])]),
        section("上声部", &[("一董", &["董"])]),
        section("去声部", &[("一送", &["送"])]),
        section("入声部", &[("一屋", &["屋"])]),
    ];
    let dict = parse_pingshui(&source).unwrap();
    let found = dict.get_rhymes_by_char(&'东');
    assert_eq!(found.len(), 1);
    assert_eq!(found[0].id, 0);
    assert_eq!(found[0].name, "一东");
    assert_eq!(found[0].group, None);
    assert_eq!(found[0].tone, BasicTone::Ping);
    assert_eq!(dict.get_rhymes_by_char(&'冬')[0].name, "二冬");
    assert_eq!(dict.get_rhymes_by_char(&'冬')[0].id, 1);
    assert_eq!(dict.get_rhymes_by_char(&'先')[0].tone, BasicTone::Ping);
    assert_eq!(dict.get_rhymes_by_char(&'董')[0].tone, BasicTone::Ze);
    assert_eq!(dict.get_rhymes_by_char(&'送')[0].tone, BasicTone::Ze);
    assert_eq!(dict.get_rhymes_by_char(&'屋')[0].tone, BasicTone::Ze);
    assert_eq!(dict.get_rhymes_by_char(&'屋')[0].id, 5);
    assert_eq!(dict.get_chars_by_rhyme(&0), &['东', '同']);
}

#[test]
fn cilin_groups_hold_a_rhyme_for_each_tone() {
    let source = vec![
        section("第一部", &[("平声", &["东", "同"]), ("仄声", &["董"])]),
        section("第二部", &[("平声", &["江"]), ("入声", &["屋"])]),
    ];
    let dict = parse_cilin(&source).unwrap();
    let found = dict.get_rhymes_by_char(&'东');
    assert_eq!(found[0].id, 0);
    assert_eq!(found[0].name, "第一部");
    assert_eq!(found[0].group, Some("第一部".to_string()));
    assert_eq!(found[0].tone, BasicTone::Ping);
    let found = dict.get_rhymes_by_char(&'董');
    assert_eq!(found[0].id, 1);
    assert_eq!(found[0].group, Some("第一部".to_string()));
    assert_eq!(found[0].tone, BasicTone::Ze);
    let found = dict.get_rhymes_by_char(&'屋');
    assert_eq!(found[0].id, 3);
    assert_eq!(found[0].name, "第二部");
    assert_eq!(found[0].tone, BasicTone::Ze);
    assert_eq!(dict.get_chars_by_rhyme(&0), &['东', '同']);
}

#[test]
fn unknown_pingshui_section_is_refused() {
    let source = vec![section("上平声部", &[("一东", &["东"])]), section("平声", &[])];
    assert_eq!(parse_pingshui(&source).err(), Some(RhymeParseError::UnknownSection(1)));
}

#[test]
fn unknown_cilin_tone_is_refused() {
    let source = vec![section("第一部", &[("平声", &["东"]), ("上声", &["董"])])];
    assert_eq!(parse_cilin(&source).err(), Some(RhymeParseError::UnknownTone(0, 1)));
}

#[test]
fn strings_of_several_characters_are_refused() {
    let source = vec![section("上平声部", &[("一东", &["东"]), ("二冬", &["冬", "冬冬", ""])])];
    assert_eq!(parse_pingshui(&source).err(), Some(RhymeParseError::NotSingleChar(0, 1, 1)));
    let source = vec![section("第一部", &[("平声", &[""])])];
    assert_eq!(parse_cilin(&source).err(), Some(RhymeParseError::NotSingleChar(0, 0, 0)));
    assert_eq!(chars_of_strings(&vec!["东".to_string(), "冬".to_string()]), Ok(vec!['东', '冬']));
    assert_eq!(chars_of_strings(&vec!["东".to_string(), "ab".to_string()]), Err(1));
}

#[test]
fn earlier_fault_wins() {
    let source = vec![
        section("上平声部", &[("一东", &["东东"])]),
        section("别的", &[]),
    ];
    assert_eq!(parse_pingshui(&source).err(), Some(RhymeParseError::NotSingleChar(0, 0, 0)));
}

#[test]
fn more_rhymes_than_identifiers_are_refused() {
    let names: Vec<String> = (0..129).map(|i| format!("r{}", i)).collect();
    let rhymes: Vec<RhymeSource> =
        names.iter().map(|n| RhymeSource { name: n.clone(), chars: vec!["东".to_string()] }).collect();
    let full = vec![RhymeSection { name: "上平声部".to_string(), rhymes }];
    assert_eq!(parse_pingshui(&full).err(), Some(RhymeParseError::TooManyRhymes));
    let rhymes: Vec<RhymeSource> =
        names.iter().take(128).map(|n| RhymeSource { name: n.clone(), chars: vec!["东".to_string()] }).collect();
    let fits = vec![RhymeSection { name: "上平声部".to_string(), rhymes }];
    let dict = parse_pingshui(&fits).unwrap();
    assert_eq!(dict.get_rhymes_by_char(&'东').len(), 128);
    assert_eq!(dict.get_rhymes_by_char(&'东')[127].id, 127);
}

const TEMPLATES: &str = "<?xml version=\"1.0\"?>
<词谱>
  <词牌>
    <名称>忆江南</名称>
    <名称>望江南</名称>
    <说明> 单调 <b>二十七</b>字 </说明>
    <格律 说明=\"定格\">－│，
│－－％。</格律>
    <格律>＋│－－％</格律>
  </词牌>
  <词牌>
    <名称>坏的</名称>
    <格律 说明=\"格一\">－－</格律>
    <格律 说明=\"格二\">－甲</格律>
  </词牌>
  <词牌>
    <名称/>
    <格律 说明=\"无\"></格律>
  </词牌>
  <词牌>
    <格律 说明=\"定格\">│＊</格律>
  </词牌>
</词谱>";

#[test]
fn templates_are_read_from_xml() {
    let found = parse_cipai(TEMPLATES).ok().unwrap();
    assert_eq!(found.len(), 3);
    assert_eq!(found[0].names, vec!["忆江南".to_string(), "望江南".to_string()]);
    assert_eq!(found[0].variant, Some("定格".to_string()));
    assert_eq!(found[0].description, Some("单调 二十七字".to_string()));
    assert_eq!(
        found[0].meter,
        vec![vec![ping(None), ze(None)], vec![ze(None), ping(None), ping(Some(0))]]
    );
    assert_eq!(found[1].names, found[0].names);
    assert_eq!(found[1].variant, None);
    assert_eq!(found[1].description, found[0].description);
    assert_eq!(found[1].meter, vec![vec![zhong(), ze(None), ping(None), ping(Some(0))]]);
    // A template with a faulty variant, and one whose meter has no
    // text, give nothing.
    assert_eq!(found[2].names, Vec::<String>::new());
    assert_eq!(found[2].variant, Some("定格".to_string()));
    assert_eq!(found[2].description, None);
    assert_eq!(found[2].meter, vec![vec![ze(Some(0))]]);
}

#[test]
fn broken_xml_is_refused() {
    assert!(parse_cipai("<词牌><名称>").is_err());
    assert!(parse_cipai("").is_err());
}

#[test]
fn xml_without_templates_gives_none() {
    assert_eq!(parse_cipai("<a><格律>－</格律></a>").ok().unwrap().len(), 0);
}

fn node(element: bool, name: &str, text: Option<&str>, attribute: Option<&str>, size: usize) -> XmlNode {
    XmlNode {
        element,
        text_node: !element,
        name: name.to_string(),
        text: text.map(|t| t.to_string()),
        attribute: attribute.map(|t| t.to_string()),
        size,
    }
}

#[test]
fn templates_from_nodes() {
    let nodes = vec![
        node(true, "词牌", None, None, 5),
        node(true, "名称", Some("甲"), None, 2),
        node(false, "", Some("甲"), None, 1),
        node(true, "格律", Some("－"), Some("定格"), 2),
        node(false, "", Some("－"), None, 1),
        node(true, "格律", Some("│"), None, 2),
        node(false, "", Some("│"), None, 1),
    ];
    let found = cipais_from_nodes(&nodes);
    // The second meter element lies beyond the template element.
    assert_eq!(found.len(), 1);
    assert_eq!(found[0].names, vec!["甲".to_string()]);
    assert_eq!(found[0].variant, Some("定格".to_string()));
    assert_eq!(found[0].meter, vec![vec![ping(None)]]);
    // A size that runs beyond the document ends with the document.
    let nodes = vec![node(true, "词牌", None, None, 50), node(true, "格律", Some("│"), None, 1)];
    assert_eq!(cipais_from_nodes(&nodes).len(), 1);
    // A text node named like a template is none.
    let nodes = vec![node(false, "词牌", None, None, 2), node(true, "格律", Some("│"), None, 1)];
    assert_eq!(cipais_from_nodes(&nodes).len(), 0);
}
