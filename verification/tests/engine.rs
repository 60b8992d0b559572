use rhyme_checker::meter::{match_meter, match_sentence, match_sentences, MatchType, SCORE_ONE, SCORE_UNIT};
use rhyme_checker::rhyme::{Rhyme, RhymeDict};
use rhyme_checker::tone::{BasicTone, MeterTone, MeterToneType};

fn rhyme(id: i8, name: &str, group: Option<&str>, tone: BasicTone) -> Rhyme {
    Rhyme { id, name: name.to_string(), group: group.map(|g| g.to_string()), tone }
}

fn ping(n: Option<i32>) -> MeterTone {
    MeterTone { tone: MeterToneType::Ping, rhyme_num: n }
}

fn ze(n: Option<i32>) -> MeterTone {
    MeterTone { tone: MeterToneType::Ze, rhyme_num: n }
}

fn zhong() -> MeterTone {
    MeterTone { tone: MeterToneType::Zhong, rhyme_num: None }
}

fn dong_dict() -> RhymeDict {
    RhymeDict::new(vec![vec!['东']], vec![rhyme(0, "一东", None, BasicTone::Ping)]).unwrap()
}

fn group_dict() -> RhymeDict {
    RhymeDict::new(
        vec![vec!['东'], vec!['冬']],
        vec![rhyme(0, "A", Some("G"), BasicTone::Ping), rhyme(1, "B", Some("G"), BasicTone::Ping)],
    )
    .unwrap()
}

fn mixed_dict() -> RhymeDict {
    RhymeDict::new(
        vec![vec!['东', '同'], vec!['冬'], vec!['动', '洞']],
        vec![
            rhyme(0, "东", Some("一"), BasicTone::Ping),
            rhyme(1, "冬", Some("二"), BasicTone::Ping),
            rhyme(2, "董", Some("一"), BasicTone::Ze),
        ],
    )
    .unwrap()
}

fn texts(result: &rhyme_checker::meter::MeterMatchResult) -> Vec<String> {
    result.result.iter().filter_map(|s| s.text.clone()).collect()
}

#[test]
fn single_character_perfect_match() {
    let dict = dong_dict();
    let meter = vec![vec![ping(Some(0))]];
    let result = match_meter(&dict, "东", &meter);
    assert_eq!(result.score, SCORE_ONE);
    assert_eq!(result.result.len(), 1);
    assert_eq!(result.result[0].match_result, Some(vec![MatchType::AllMatch]));
    assert_eq!(result.result[0].text, Some("东".to_string()));
    assert_eq!(result.result[0].meter, Some(meter[0].clone()));
}

#[test]
fn two_characters_on_one_rhyme() {
    let dict = dong_dict();
    let meter = vec![vec![ping(Some(0)), ping(Some(0))]];
    let result = match_meter(&dict, "东东", &meter);
    assert_eq!(result.score, SCORE_ONE);
    assert_eq!(result.result.len(), 1);
    assert_eq!(
        result.result[0].match_result,
        Some(vec![MatchType::AllMatch, MatchType::AllMatch])
    );
}

#[test]
fn one_slot_binds_one_rhyme_of_a_group() {
    // Both lines hold the same slot, which binds one record: one of the
    // two characters keeps its rhyme, the other its tone only.
    let dict = group_dict();
    let meter = vec![vec![ping(Some(0))], vec![ping(Some(0))]];
    let result = match_meter(&dict, "东，冬", &meter);
    assert_eq!(result.score, (SCORE_ONE + 4 * SCORE_UNIT) / 2);
    assert_eq!(result.result.len(), 2);
    assert_eq!(result.result[0].match_result, Some(vec![MatchType::AllMatch]));
    assert_eq!(result.result[1].match_result, Some(vec![MatchType::ToneOnly]));
}

#[test]
fn two_numbers_bind_two_rhymes() {
    let dict = group_dict();
    let meter = vec![vec![ping(Some(0))], vec![ping(Some(1))]];
    let result = match_meter(&dict, "东，冬", &meter);
    assert_eq!(result.score, SCORE_ONE);
    assert_eq!(result.result[0].match_result, Some(vec![MatchType::AllMatch]));
    assert_eq!(result.result[1].match_result, Some(vec![MatchType::AllMatch]));
}

#[test]
fn two_numbers_never_share_a_rhyme() {
    let dict = dong_dict();
    let meter = vec![vec![ping(Some(0))], vec![ping(Some(1))]];
    let result = match_meter(&dict, "东，东", &meter);
    // One of the two slots has the rhyme; the other stays unbound.
    assert_eq!(result.score, (SCORE_ONE + 4 * SCORE_UNIT) / 2);
}

#[test]
fn unknown_character_scores_nothing() {
    let dict = dong_dict();
    let meter = vec![vec![ping(Some(0))]];
    let result = match_meter(&dict, "乙", &meter);
    assert_eq!(result.score, 0);
    assert_eq!(texts(&result), vec!["乙".to_string()]);
    for segment in &result.result {
        if let Some(classes) = &segment.match_result {
            assert!(classes.iter().all(|c| *c == MatchType::NoMatch));
        }
    }
    let on_line = match_sentence(&dict, &vec!['乙'], &meter[0], &vec![ping(Some(0))], &vec![Some(0)]);
    assert_eq!(on_line, (0, vec![MatchType::NoMatch]));
}

#[test]
fn surplus_sentence_is_kept_once() {
    let dict = dong_dict();
    let meter = vec![vec![ping(Some(0))], vec![ping(Some(0))]];
    let result = match_meter(&dict, "东。东。东", &meter);
    assert_eq!(texts(&result), vec!["东".to_string(), "东".to_string(), "东".to_string()]);
    let lines = result.result.iter().filter(|s| s.meter.is_some()).count();
    assert_eq!(lines, 2);
    assert!(result.result.iter().all(|s| s.text.is_none() || s.match_result.is_some()));
    // Two sentences on the two lines, the third in a gap: 2.0 over 3.
    assert_eq!(result.score, 2 * SCORE_ONE / 3);
    let in_gap = result.result.iter().filter(|s| s.text.is_some() && s.meter.is_none()).count();
    assert_eq!(in_gap, 1);
}

#[test]
fn ties_keep_the_earliest_position() {
    let dict = dong_dict();
    let meter = vec![vec![ping(Some(0))], vec![ping(Some(0))]];
    let result = match_meter(&dict, "东。东。东", &meter);
    // The last sentence takes the earliest end that gives the best
    // total, and each sentence before it the earliest place: the first
    // sentence stands in the gap before the first line.
    assert_eq!(result.result.len(), 3);
    assert_eq!(result.result[0].meter, None);
    assert_eq!(result.result[0].match_result, Some(vec![]));
    assert_eq!(result.result[1].meter, Some(meter[0].clone()));
    assert_eq!(result.result[2].meter, Some(meter[1].clone()));
}

#[test]
fn empty_text_gives_empty_result() {
    let dict = dong_dict();
    let meter = vec![vec![ping(Some(0))]];
    let result = match_meter(&dict, "", &meter);
    assert_eq!(result.score, 0);
    assert!(result.result.is_empty());
    let result = match_meter(&dict, " ，。\n", &meter);
    assert_eq!(result.score, 0);
    assert!(result.result.is_empty());
}

#[test]
fn empty_template_gives_extra_text_only() {
    let dict = dong_dict();
    let meter: Vec<Vec<MeterTone>> = vec![];
    let result = match_meter(&dict, "东，东", &meter);
    assert_eq!(result.score, 0);
    assert_eq!(result.result.len(), 2);
    for segment in &result.result {
        assert_eq!(segment.text, Some("东".to_string()));
        assert_eq!(segment.meter, None);
        assert_eq!(segment.match_result, Some(vec![]));
    }
}

#[test]
fn template_without_rhyme_slots_has_one_candidate() {
    let dict = dong_dict();
    let meter = vec![vec![ping(None), zhong()]];
    let result = match_meter(&dict, "东东", &meter);
    assert_eq!(result.score, SCORE_ONE);
    assert_eq!(
        result.result[0].match_result,
        Some(vec![MatchType::AllMatch, MatchType::AllMatch])
    );
}

#[test]
fn missing_lines_are_reported_in_order() {
    let dict = mixed_dict();
    let meter = vec![vec![ze(None)], vec![ping(None)], vec![ze(None)]];
    let result = match_meter(&dict, "东", &meter);
    // One sentence against three lines: 1.0 over 3.
    assert_eq!(result.score, SCORE_ONE / 3);
    assert_eq!(result.result.len(), 3);
    assert_eq!(result.result[0].text, None);
    assert_eq!(result.result[0].match_result, None);
    assert_eq!(result.result[0].meter, Some(meter[0].clone()));
    assert_eq!(result.result[1].text, Some("东".to_string()));
    assert_eq!(result.result[1].meter, Some(meter[1].clone()));
    assert_eq!(result.result[2].text, None);
    assert_eq!(result.result[2].meter, Some(meter[2].clone()));
}

#[test]
fn empty_lines_do_not_count_in_the_score() {
    let dict = dong_dict();
    let meter = vec![vec![ping(Some(0))], vec![], vec![]];
    let result = match_meter(&dict, "东", &meter);
    assert_eq!(result.score, SCORE_ONE);
    assert_eq!(result.result.len(), 3);
}

#[test]
fn sentence_score_is_units_over_five_times_the_longer_length() {
    let dict = mixed_dict();
    let slots = vec![ping(Some(0))];
    let bound = vec![Some(0)];
    // 东 at a rhyme slot bound to its rhyme: 5; 动 at a Ping slot: the
    // tone fails, no rhyme is asked: 1; a third slot without a
    // character: 0. Six units over three places.
    let line = vec![ping(Some(0)), ping(None), ze(None)];
    let (score, classes) = match_sentence(&dict, &vec!['东', '动'], &line, &slots, &bound);
    assert_eq!(score, 6 * SCORE_UNIT / 3);
    assert_eq!(classes, vec![MatchType::AllMatch, MatchType::NoMatch, MatchType::NoMatch]);
    // A sentence longer than its line.
    let (score, classes) = match_sentence(&dict, &vec!['东', '动', '洞'], &vec![ping(None)], &slots, &bound);
    assert_eq!(score, 5 * SCORE_UNIT / 3);
    assert_eq!(classes, vec![MatchType::AllMatch, MatchType::NoMatch, MatchType::NoMatch]);
}

#[test]
fn wrong_rhyme_keeps_the_tone_only() {
    let dict = mixed_dict();
    let slots = vec![ping(Some(0))];
    let line = vec![ping(None), ping(Some(0))];
    let right = match_sentence(&dict, &vec!['东', '同'], &line, &slots, &vec![Some(0)]);
    let wrong = match_sentence(&dict, &vec!['东', '冬'], &line, &slots, &vec![Some(0)]);
    assert_eq!(right, (SCORE_ONE, vec![MatchType::AllMatch, MatchType::AllMatch]));
    assert_eq!(wrong.1, vec![MatchType::AllMatch, MatchType::ToneOnly]);
    assert_eq!(right.0 - wrong.0, SCORE_UNIT / 2);
    let unbound = match_sentence(&dict, &vec!['东', '同'], &line, &slots, &vec![None]);
    assert_eq!(unbound.1, vec![MatchType::AllMatch, MatchType::ToneOnly]);
}

#[test]
fn zhong_slot_takes_any_known_character() {
    let dict = mixed_dict();
    let line = vec![zhong(), zhong(), zhong()];
    let (score, classes) = match_sentence(&dict, &vec!['东', '动', '乙'], &line, &vec![], &vec![]);
    assert_eq!(classes, vec![MatchType::AllMatch, MatchType::AllMatch, MatchType::NoMatch]);
    assert_eq!(score, 11 * SCORE_UNIT / 3);
}

#[test]
fn score_stays_within_bounds() {
    let dict = mixed_dict();
    let meter = vec![vec![ping(Some(0)), ze(Some(0))], vec![ze(None), ping(Some(1))]];
    for text in ["东动，洞冬", "东", "乙乙乙乙乙", "东动。洞冬。东。同冬", ""] {
        let result = match_meter(&dict, text, &meter);
        assert!(result.score <= SCORE_ONE);
    }
}

#[test]
fn same_input_gives_same_output() {
    let dict = mixed_dict();
    let meter = vec![vec![ping(Some(0)), ze(Some(0))], vec![ze(None), ping(Some(1))]];
    let a = match_meter(&dict, "东动。洞冬。东", &meter);
    let b = match_meter(&dict, "东动。洞冬。东", &meter);
    assert_eq!(a.score, b.score);
    assert_eq!(a.result.len(), b.result.len());
    for (x, y) in a.result.iter().zip(b.result.iter()) {
        assert_eq!(x.match_result, y.match_result);
        assert_eq!(x.text, y.text);
        assert_eq!(x.meter, y.meter);
    }
}

#[test]
fn extra_sentences_in_gaps_do_not_raise_the_score() {
    let dict = dong_dict();
    let meter = vec![vec![ping(Some(0))]];
    let one = match_meter(&dict, "东", &meter);
    let two = match_meter(&dict, "东。乙", &meter);
    let three = match_meter(&dict, "东。乙。乙", &meter);
    assert_eq!(one.score, SCORE_ONE);
    assert_eq!(two.score, SCORE_ONE / 2);
    assert_eq!(three.score, SCORE_ONE / 3);
}

#[test]
fn sentences_are_matched_as_given() {
    let dict = dong_dict();
    let meter = vec![vec![ping(Some(0))]];
    let result = match_sentences(&dict, &vec![vec!['东']], &meter);
    assert_eq!(result.score, SCORE_ONE);
    assert_eq!(result.result[0].text, Some("东".to_string()));
}

#[test]
fn every_place_of_the_longer_gets_one_of_three_classes() {
    let dict = mixed_dict();
    let meter = vec![vec![ping(Some(0)), ze(Some(0)), zhong()], vec![ze(None)]];
    let result = match_meter(&dict, "东动乙洞，冬。同", &meter);
    for segment in &result.result {
        if let (Some(text), Some(line), Some(classes)) = (&segment.text, &segment.meter, &segment.match_result) {
            assert_eq!(classes.len(), text.chars().count().max(line.len()));
            for class in classes {
                assert!(matches!(class, MatchType::AllMatch | MatchType::ToneOnly | MatchType::NoMatch));
            }
        }
    }
}

#[test]
fn perfect_text_scores_one_with_all_matches() {
    let dict = mixed_dict();
    let meter = vec![
        vec![ze(None), ping(Some(0))],
        vec![],
        vec![ping(None), ze(Some(0))],
        vec![zhong(), ping(Some(0))],
    ];
    let result = match_meter(&dict, "洞东。冬动，动同", &meter);
    assert_eq!(result.score, SCORE_ONE);
    assert_eq!(result.result.len(), 4);
    for (i, segment) in result.result.iter().enumerate() {
        if i == 1 {
            assert_eq!(segment.text, None);
            assert_eq!(segment.meter, Some(vec![]));
        } else {
            assert_eq!(segment.match_result, Some(vec![MatchType::AllMatch, MatchType::AllMatch]));
        }
    }
}

#[test]
fn added_sentence_may_bring_a_rhyme() {
    // The added sentence stands in a gap, and its last character brings
    // the rhyme that the first sentence needs at its first place.
    let dict = RhymeDict::new(
        vec![vec!['东'], vec!['冬']],
        vec![rhyme(0, "A", None, BasicTone::Ping), rhyme(1, "B", None, BasicTone::Ping)],
    )
    .unwrap();
    let meter = vec![vec![ze(None)], vec![ze(None)], vec![ping(Some(0)), ping(None)]];
    let short = match_meter(&dict, "东冬", &meter);
    let long = match_meter(&dict, "东冬，东", &meter);
    assert_eq!(short.score, 9 * SCORE_UNIT / 2 / 3);
    assert_eq!(long.score, SCORE_ONE / 3);
}
