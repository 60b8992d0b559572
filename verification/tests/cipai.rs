use rhyme_checker::cipai::{best_match, CiPai};
use rhyme_checker::meter::{match_meter, SCORE_ONE};
use rhyme_checker::rhyme::{Rhyme, RhymeDict};
use rhyme_checker::tone::{BasicTone, MeterTone, MeterToneType};

fn ping(n: Option<i32>) -> MeterTone {
    MeterTone { tone: MeterToneType::Ping, rhyme_num: n }
}

fn ze(n: Option<i32>) -> MeterTone {
    MeterTone { tone: MeterToneType::Ze, rhyme_num: n }
}

fn cipai(name: &str, meter: Vec<Vec<MeterTone>>) -> CiPai {
    CiPai { names: vec![name.to_string()], variant: None, description: None, meter }
}

fn dict() -> RhymeDict {
    RhymeDict::new(
        vec![vec!['东'], vec!['动']],
        vec![
            Rhyme { id: 0, name: "东".to_string(), group: None, tone: BasicTone::Ping },
            Rhyme { id: 1, name: "董".to_string(), group: None, tone: BasicTone::Ze },
        ],
    )
    .unwrap()
}

#[test]
fn greatest_rhyme_number() {
    assert_eq!(cipai("甲", vec![]).get_max_rhyme_num(), 0);
    assert_eq!(cipai("甲", vec![vec![], vec![ping(None)]]).get_max_rhyme_num(), 0);
    assert_eq!(cipai("甲", vec![vec![ping(Some(0))]]).get_max_rhyme_num(), 0);
    assert_eq!(
        cipai("甲", vec![vec![ping(Some(1)), ze(Some(3))], vec![ze(None), ping(Some(2))]]).get_max_rhyme_num(),
        3
    );
    assert_eq!(cipai("甲", vec![vec![ping(Some(-2))], vec![ze(Some(-5))]]).get_max_rhyme_num(), -2);
}

#[test]
fn templates_are_ranked_by_falling_score() {
    let list = vec![
        cipai("仄", vec![vec![ze(None)]]),
        cipai("平", vec![vec![ping(None)]]),
        cipai("平平", vec![vec![ping(None)], vec![ping(None)]]),
    ];
    let d = dict();
    let ranked = best_match(&list, &d, "东");
    let names: Vec<&str> = ranked.iter().map(|r| r.cipai.names[0].as_str()).collect();
    assert_eq!(names, vec!["平", "平平", "仄"]);
    assert_eq!(ranked[0].match_result.score, SCORE_ONE);
    assert_eq!(ranked[1].match_result.score, SCORE_ONE / 2);
    assert_eq!(ranked[2].match_result.score, SCORE_ONE / 5);
    for pair in ranked.windows(2) {
        assert!(pair[0].match_result.score >= pair[1].match_result.score);
    }
    for r in &ranked {
        assert_eq!(r.match_result.score, match_meter(&d, "东", &r.cipai.meter).score);
    }
}

#[test]
fn equal_scores_keep_their_order() {
    let list = vec![
        cipai("一", vec![vec![ze(None)]]),
        cipai("二", vec![vec![ping(None)]]),
        cipai("三", vec![vec![ze(None)]]),
        cipai("四", vec![vec![ping(None)]]),
        cipai("五", vec![vec![ze(None)]]),
    ];
    let ranked = best_match(&list, &dict(), "东");
    let names: Vec<&str> = ranked.iter().map(|r| r.cipai.names[0].as_str()).collect();
    assert_eq!(names, vec!["二", "四", "一", "三", "五"]);
}

#[test]
fn no_templates_give_no_result() {
    let list: Vec<CiPai> = vec![];
    assert!(best_match(&list, &dict(), "东").is_empty());
}

fn named(names: &[&str], variant: Option<&str>) -> CiPai {
    CiPai {
        names: names.iter().map(|n| n.to_string()).collect(),
        variant: variant.map(|v| v.to_string()),
        description: None,
        meter: vec![],
    }
}

#[test]
fn templates_are_found_by_a_part_of_a_name() {
    let list = vec![
        named(&["忆江南", "望江南"], Some("定格")),
        named(&["忆江南", "望江南"], Some("格一")),
        named(&["江城子"], Some("定格")),
        named(&["菩萨蛮"], None),
    ];
    assert_eq!(rhyme_checker::cipai::find_cipais(&list, "江南", &None), vec![0, 1]);
    assert_eq!(rhyme_checker::cipai::find_cipais(&list, "江", &None), vec![0, 1, 2]);
    assert_eq!(rhyme_checker::cipai::find_cipais(&list, "望江南", &Some("格一".to_string())), vec![1]);
    assert_eq!(rhyme_checker::cipai::find_cipais(&list, "江", &Some("定格".to_string())), vec![0, 2]);
    assert_eq!(rhyme_checker::cipai::find_cipais(&list, "", &None), vec![0, 1, 2, 3]);
    assert!(rhyme_checker::cipai::find_cipais(&list, "菩萨蛮", &Some("定格".to_string())).is_empty());
    assert!(rhyme_checker::cipai::find_cipais(&list, "南江", &None).is_empty());
    assert!(rhyme_checker::cipai::find_cipais(&vec![], "", &None).is_empty());
}

#[test]
fn text_within_text() {
    let hay: Vec<char> = "忆江南".chars().collect();
    let inside = |needle: &str| rhyme_checker::cipai::contains_text(&hay, &needle.chars().collect());
    assert!(inside(""));
    assert!(inside("忆"));
    assert!(inside("江南"));
    assert!(inside("忆江南"));
    assert!(!inside("忆南"));
    assert!(!inside("忆江南春"));
    assert!(rhyme_checker::cipai::contains_text(&vec![], &vec![]));
    assert!(!rhyme_checker::cipai::contains_text(&vec![], &vec!['江']));
}

#[test]
fn one_character_of_a_string() {
    assert_eq!(rhyme_checker::text::single_char("东"), Some('东'));
    assert_eq!(rhyme_checker::text::single_char(""), None);
    assert_eq!(rhyme_checker::text::single_char("东风"), None);
}
