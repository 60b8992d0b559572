use rhyme_checker::rhyme::RhymeDict;
use rhyme_checker::rhyme_parser::{parse_cilin, parse_pingshui, RhymeParseError, RhymeSection, RhymeSource};
use rhyme_checker::tone::BasicTone;

fn section(name: &str, rhymes: &[(&str, &str)]) -> RhymeSection {
    RhymeSection {
        name: name.to_string(),
        rhymes: rhymes
            .iter()
            .map(|(n, cs)| RhymeSource { name: n.to_string(), chars: cs.chars().map(|c| c.to_string()).collect() })
            .collect(),
    }
}

/// The beginning of each part of the Pingshui rhyme book.
fn pingshui_rhyme() -> Vec<RhymeSection> {
    vec![
        section(
            "上平声部",
            &[("一东", "东同铜桐筒童僮瞳中衷忠虫终"), ("二冬", "冬农宗钟龙舂松冲容蓉庸"), ("三江", "江杠矼釭扛厖尨窗邦缸降")],
        ),
        section("下平声部", &[("一先", "先前千阡笺天坚肩贤弦烟"), ("二萧", "萧箫挑貂刁凋雕迢条髫")]),
        section("上声部", &[("一董", "董动孔总笼汞桶空"), ("二肿", "肿种踵宠陇垄拥")]),
        section("去声部", &[("一送", "送梦凤洞弄贡冻痛栋")]),
        section("入声部", &[("一屋", "屋木竹目服福禄熟谷肉")]),
    ]
}

/// The beginning of the first two parts of the Cilin rhyme book.
fn cilin_rhyme() -> Vec<RhymeSection> {
    vec![
        section("第一部", &[("平声", "东同铜桐筒童僮瞳中衷忠冬农宗钟龙"), ("仄声", "董动孔总笼汞桶送梦凤洞弄贡")]),
        section("第二部", &[("平声", "江杠矼釭扛窗邦缸降阳杨扬香乡光"), ("仄声", "讲港棒蚌项养痒鞅怏泱")]),
        section("第十五部", &[("入声", "屋木竹目服福禄熟谷肉")]),
    ]
}

fn expect(result: Result<RhymeDict, RhymeParseError>, message: &str) -> RhymeDict {
    match result {
        Ok(dict) => dict,
        Err(fault) => panic!("{}: {:?}", message, fault),
    }
}

#[test]
fn test_parse_pingshui_success() {
    let result = parse_pingshui(&pingshui_rhyme());

    assert!(result.is_ok(), "Failed to parse Pingshui_Rhyme.json: {:?}", result.err());

    let rhyme_dict = result.ok().unwrap();

    let rhymes_for_dong = rhyme_dict.get_rhymes_by_char(&'东');
    assert!(!rhymes_for_dong.is_empty(), "Character '东' should have rhyme mappings");

    let rhyme = &rhymes_for_dong[0];
    assert_eq!(rhyme.tone, BasicTone::Ping, "Character '东' should be in Ping tone");
    assert_eq!(rhyme.name, "一东", "Character '东' should be in '一东' rhyme");
}

#[test]
fn test_parse_pingshui_rhyme_structure() {
    let rhyme_dict = expect(parse_pingshui(&pingshui_rhyme()), "Should parse successfully");

    let ping_char = rhyme_dict.get_rhymes_by_char(&'东');
    assert!(!ping_char.is_empty());
    assert_eq!(ping_char[0].tone, BasicTone::Ping);
}

#[test]
fn test_parse_pingshui_char_lookup() {
    let rhyme_dict = expect(parse_pingshui(&pingshui_rhyme()), "Should parse successfully");

    let rhymes_for_dong = rhyme_dict.get_rhymes_by_char(&'冬');
    assert!(!rhymes_for_dong.is_empty(), "Character '冬' should have rhyme mappings");
    assert_eq!(rhymes_for_dong[0].name, "二冬", "Character '冬' should be in '二冬' rhyme");

    let rhymes_for_jiang = rhyme_dict.get_rhymes_by_char(&'江');
    assert!(!rhymes_for_jiang.is_empty(), "Character '江' should have rhyme mappings");
    assert_eq!(rhymes_for_jiang[0].name, "三江", "Character '江' should be in '三江' rhyme");
}

#[test]
fn test_parse_pingshui_rhyme_id_lookup() {
    let rhyme_dict = expect(parse_pingshui(&pingshui_rhyme()), "Should parse successfully");

    let rhyme_0 = rhyme_dict.get_rhyme_by_id(&0);
    assert!(rhyme_0.is_some(), "Rhyme ID 0 should exist");

    let rhyme = rhyme_0.unwrap();
    assert_eq!(rhyme.name, "一东", "First rhyme should be '一东'");
    assert_eq!(rhyme.id, 0);

    let chars = rhyme_dict.get_chars_by_rhyme(&0);
    assert!(!chars.is_empty(), "Rhyme '一东' should have characters");
    assert!(chars.contains(&'东'), "Rhyme '一东' should contain character '东'");
}

#[test]
fn test_parse_pingshui_tone_detection() {
    let rhyme_dict = expect(parse_pingshui(&pingshui_rhyme()), "Should parse successfully");

    let rhyme_0 = rhyme_dict.get_rhyme_by_id(&0).expect("Rhyme 0 should exist");
    assert_eq!(rhyme_0.tone, BasicTone::Ping);
    assert_eq!(rhyme_0.group, None, "平水韵 should have no group");
}

#[test]
fn test_parse_cilin_success() {
    let result = parse_cilin(&cilin_rhyme());

    assert!(result.is_ok(), "Failed to parse Cilin_Rhyme.json: {:?}", result.err());

    let rhyme_dict = result.ok().unwrap();

    let rhymes_for_dong = rhyme_dict.get_rhymes_by_char(&'东');
    assert!(!rhymes_for_dong.is_empty(), "Character '东' should have rhyme mappings");

    let rhyme = &rhymes_for_dong[0];
    assert_eq!(rhyme.tone, BasicTone::Ping, "Character '东' should be in Ping tone");
    assert_eq!(rhyme.name, "第一部", "Character '东' should be in '第一部' rhyme");
    assert_eq!(rhyme.group, Some("第一部".to_string()), "词林正韵 should have group");
}

#[test]
fn test_parse_cilin_rhyme_structure() {
    let rhyme_dict = expect(parse_cilin(&cilin_rhyme()), "Should parse successfully");

    let ping_char = rhyme_dict.get_rhymes_by_char(&'东');
    assert!(!ping_char.is_empty());
    assert_eq!(ping_char[0].tone, BasicTone::Ping);
    assert_eq!(ping_char[0].group, Some("第一部".to_string()));

    assert!(ping_char[0].group.is_some(), "Cilin rhymes should have group field set");
}

#[test]
fn test_parse_cilin_char_lookup() {
    let rhyme_dict = expect(parse_cilin(&cilin_rhyme()), "Should parse successfully");

    let rhymes_for_dong = rhyme_dict.get_rhymes_by_char(&'东');
    assert!(!rhymes_for_dong.is_empty(), "Character '东' should have rhyme mappings");
    assert_eq!(rhymes_for_dong[0].name, "第一部", "Character '东' should be in '第一部' rhyme");
    assert_eq!(rhymes_for_dong[0].tone, BasicTone::Ping);

    let all_rhymes_have_group = rhymes_for_dong.iter().all(|r| r.group.is_some());
    assert!(all_rhymes_have_group, "All Cilin rhymes should have a group");
}

#[test]
fn test_parse_cilin_rhyme_id_lookup() {
    let rhyme_dict = expect(parse_cilin(&cilin_rhyme()), "Should parse successfully");

    let rhyme_0 = rhyme_dict.get_rhyme_by_id(&0);
    assert!(rhyme_0.is_some(), "Rhyme ID 0 should exist");

    let rhyme = rhyme_0.unwrap();
    assert_eq!(rhyme.name, "第一部", "First rhyme should be '第一部'");
    assert_eq!(rhyme.id, 0);
    assert_eq!(rhyme.group, Some("第一部".to_string()), "Should have group set");

    let chars = rhyme_dict.get_chars_by_rhyme(&0);
    assert!(!chars.is_empty(), "Rhyme '第一部' should have characters");
    assert!(chars.contains(&'东'), "Rhyme '第一部' (平声) should contain character '东'");
}

#[test]
fn test_parse_cilin_tone_detection() {
    let rhyme_dict = expect(parse_cilin(&cilin_rhyme()), "Should parse successfully");

    let rhyme_0 = rhyme_dict.get_rhyme_by_id(&0).expect("Rhyme 0 should exist");

    assert_eq!(rhyme_0.tone, BasicTone::Ping, "First rhyme should be Ping tone");
    assert_eq!(rhyme_0.group, Some("第一部".to_string()), "First rhyme should be in '第一部' group");
}

#[test]
fn test_parse_cilin_group_consistency() {
    let rhyme_dict = expect(parse_cilin(&cilin_rhyme()), "Should parse successfully");

    let rhyme_0 = rhyme_dict.get_rhyme_by_id(&0).expect("Rhyme 0 should exist");

    let chars = rhyme_dict.get_chars_by_rhyme(&0);
    for ch in chars {
        let rhymes = rhyme_dict.get_rhymes_by_char(ch);
        assert!(!rhymes.is_empty(), "Character '{}' should have rhyme mappings", ch);

        let has_matching_group = rhymes.iter().any(|r| r.group == rhyme_0.group);
        assert!(has_matching_group, "Character '{}' should have a rhyme in group '{:?}'", ch, rhyme_0.group);
    }
}

#[test]
fn rhyme_by_identifier() {
    let rhyme_dict = expect(parse_cilin(&cilin_rhyme()), "Should parse successfully");
    assert_eq!(rhyme_dict.rhyme_count(), 5);
    assert_eq!(rhyme_dict.get_rhyme_by_id(&4).map(|r| r.tone.clone()), Some(BasicTone::Ze));
    assert_eq!(rhyme_dict.get_rhyme_by_id(&4).map(|r| r.name.clone()), Some("第十五部".to_string()));
    assert!(rhyme_dict.get_rhyme_by_id(&5).is_none());
    assert!(rhyme_dict.get_rhyme_by_id(&-1).is_none());
    assert_eq!(rhyme_dict.rhyme_at(1).id, 1);
}
