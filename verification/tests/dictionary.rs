use rhyme_checker::rhyme::{Rhyme, RhymeDict, RhymeDictError};
use rhyme_checker::rhythm::{Rhythm, RhythmDict};
use rhyme_checker::tone::{get_basic_tone, tone_match, BasicTone, MeterTone, MeterToneType, ToneError};

fn rhyme(id: i8, name: &str, tone: BasicTone) -> Rhyme {
    Rhyme { id, name: name.to_string(), group: None, tone }
}

fn sample() -> RhymeDict {
    RhymeDict::new(
        vec![vec!['东', '同', '中'], vec!['冬', '中'], vec!['动']],
        vec![
            rhyme(0, "一东", BasicTone::Ping),
            rhyme(1, "二冬", BasicTone::Ping),
            rhyme(2, "一董", BasicTone::Ze),
        ],
    )
    .unwrap()
}

#[test]
fn rhymes_of_a_character_come_in_load_order() {
    let dict = sample();
    let found = dict.get_rhymes_by_char(&'中');
    assert_eq!(found.len(), 2);
    assert_eq!(found[0].id, 0);
    assert_eq!(found[0].name, "一东");
    assert_eq!(found[1].id, 1);
    assert_eq!(found[1].name, "二冬");
    let found = dict.get_rhymes_by_char(&'动');
    assert_eq!(found.len(), 1);
    assert_eq!(found[0].tone, BasicTone::Ze);
}

#[test]
fn unknown_character_has_no_rhymes() {
    let dict = sample();
    assert!(dict.get_rhymes_by_char(&'乙').is_empty());
    assert!(dict.record_indices('乙').is_none());
}

#[test]
fn characters_of_a_rhyme_keep_their_order() {
    let dict = sample();
    assert_eq!(dict.get_chars_by_rhyme(&0), &['东', '同', '中']);
    assert_eq!(dict.get_chars_by_rhyme(&1), &['冬', '中']);
    assert_eq!(dict.get_chars_by_rhyme(&2), &['动']);
}

#[test]
fn unknown_rhyme_has_no_characters() {
    let dict = sample();
    assert!(dict.get_chars_by_rhyme(&3).is_empty());
    assert!(dict.get_chars_by_rhyme(&-1).is_empty());
    assert!(dict.get_chars_by_rhyme(&i8::MIN).is_empty());
    assert!(dict.get_chars_by_rhyme(&i8::MAX).is_empty());
}

#[test]
fn both_directions_agree() {
    let dict = sample();
    let lists = vec![vec!['东', '同', '中'], vec!['冬', '中'], vec!['动']];
    for (i, list) in lists.iter().enumerate() {
        for c in list {
            let id = i as i8;
            assert!(dict.get_rhymes_by_char(c).iter().any(|r| r.id == id));
            assert!(dict.get_chars_by_rhyme(&id).contains(c));
        }
    }
}

#[test]
fn characters_are_found_by_the_identifier_of_their_record() {
    let dict = RhymeDict::new(
        vec![vec!['东'], vec!['冬']],
        vec![rhyme(7, "甲", BasicTone::Ping), rhyme(-3, "乙", BasicTone::Ze)],
    )
    .unwrap();
    assert_eq!(dict.get_chars_by_rhyme(&7), &['东']);
    assert_eq!(dict.get_chars_by_rhyme(&-3), &['冬']);
    assert!(dict.get_chars_by_rhyme(&0).is_empty());
    assert_eq!(dict.get_rhymes_by_char(&'冬')[0].id, -3);
}

#[test]
fn records_of_one_identifier_share_their_characters() {
    let dict = RhymeDict::new(
        vec![vec!['东'], vec!['冬']],
        vec![rhyme(1, "甲", BasicTone::Ping), rhyme(1, "乙", BasicTone::Ping)],
    )
    .unwrap();
    assert_eq!(dict.get_chars_by_rhyme(&1), &['东', '冬']);
}

#[test]
fn repeated_character_is_listed_each_time() {
    let dict = RhymeDict::new(vec![vec!['东', '东']], vec![rhyme(0, "一东", BasicTone::Ping)]).unwrap();
    assert_eq!(dict.get_rhymes_by_char(&'东').len(), 2);
    assert_eq!(dict.get_chars_by_rhyme(&0), &['东', '东']);
}

#[test]
fn characters_without_a_record_are_refused() {
    let result = RhymeDict::new(vec![vec!['东'], vec![], vec!['冬'], vec!['江']], vec![rhyme(0, "一东", BasicTone::Ping)]);
    assert!(matches!(result, Err(RhymeDictError::MissingRhyme(2))));
}

#[test]
fn empty_lists_need_no_record() {
    let dict = RhymeDict::new(vec![vec!['东'], vec![]], vec![rhyme(0, "一东", BasicTone::Ping)]).unwrap();
    assert_eq!(dict.get_chars_by_rhyme(&0), &['东']);
    let dict = RhymeDict::new(vec![], vec![rhyme(0, "一东", BasicTone::Ping)]).unwrap();
    assert!(dict.get_chars_by_rhyme(&0).is_empty());
}

#[test]
fn rhymes_are_equal_by_identifier() {
    let a = rhyme(1, "甲", BasicTone::Ping);
    let b = rhyme(1, "乙", BasicTone::Ze);
    let c = rhyme(2, "甲", BasicTone::Ping);
    assert!(a == b);
    assert!(a != c);
}

#[test]
fn basic_tone_of_a_slot() {
    let slot = |tone| MeterTone { tone, rhyme_num: None };
    assert_eq!(get_basic_tone(&slot(MeterToneType::Ping)), Ok(BasicTone::Ping));
    assert_eq!(get_basic_tone(&slot(MeterToneType::Ze)), Ok(BasicTone::Ze));
    assert_eq!(get_basic_tone(&slot(MeterToneType::Zhong)), Err(ToneError::Ambiguous));
}

#[test]
fn tone_matching() {
    let slot = |tone| MeterTone { tone, rhyme_num: Some(1) };
    assert!(tone_match(&BasicTone::Ping, &slot(MeterToneType::Ping)));
    assert!(!tone_match(&BasicTone::Ze, &slot(MeterToneType::Ping)));
    assert!(tone_match(&BasicTone::Ze, &slot(MeterToneType::Ze)));
    assert!(!tone_match(&BasicTone::Ping, &slot(MeterToneType::Ze)));
    assert!(tone_match(&BasicTone::Ping, &slot(MeterToneType::Zhong)));
    assert!(tone_match(&BasicTone::Ze, &slot(MeterToneType::Zhong)));
}

#[test]
fn rhythm_lookups() {
    let rhythms = vec![
        Rhythm { id: 4, name: "甲".to_string(), tone: BasicTone::Ping },
        Rhythm { id: 9, name: "乙".to_string(), tone: BasicTone::Ze },
        Rhythm { id: 4, name: "丙".to_string(), tone: BasicTone::Ze },
    ];
    let chars = vec![vec!['东', '中'], vec!['动', '中'], vec!['洞']];
    let dict = RhythmDict::new(&rhythms, &chars).unwrap();
    assert_eq!(dict.get_chars_by_rhythm(&9), &['动', '中']);
    assert_eq!(dict.get_chars_by_rhythm(&4), &['东', '中']);
    assert!(dict.get_chars_by_rhythm(&5).is_empty());
    assert_eq!(dict.get_rhythm_by_id(&9).unwrap().name, "乙");
    assert_eq!(dict.get_rhythm_by_id(&4).unwrap().name, "甲");
    assert!(dict.get_rhythm_by_id(&0).is_none());
    let found = dict.get_rhythms_by_char(&'中');
    assert_eq!(found.len(), 2);
    assert_eq!(found[0].name, "甲");
    assert_eq!(found[1].name, "乙");
    assert!(dict.get_rhythms_by_char(&'乙').is_empty());
    assert!(rhythms[0] == rhythms[2]);
    assert!(rhythms[0] != rhythms[1]);
}

#[test]
fn rhythm_lists_must_match_the_records() {
    let rhythms = vec![Rhythm { id: 4, name: "甲".to_string(), tone: BasicTone::Ping }];
    let chars: Vec<Vec<char>> = vec![];
    assert!(RhythmDict::new(&rhythms, &chars).is_none());
}
