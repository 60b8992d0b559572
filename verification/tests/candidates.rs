use rhyme_checker::candidates::{collect_rhyme_pool, collect_rhyme_slots, get_possible_rhymes};
use rhyme_checker::rhyme::{Rhyme, RhymeDict};
use rhyme_checker::tone::{BasicTone, MeterTone, MeterToneType};

fn rhyme(id: i8, group: Option<&str>, tone: BasicTone) -> Rhyme {
    Rhyme { id, name: format!("r{}", id), group: group.map(|g| g.to_string()), tone }
}

fn ping(n: Option<i32>) -> MeterTone {
    MeterTone { tone: MeterToneType::Ping, rhyme_num: n }
}

fn ze(n: Option<i32>) -> MeterTone {
    MeterTone { tone: MeterToneType::Ze, rhyme_num: n }
}

fn dict() -> RhymeDict {
    RhymeDict::new(
        vec![vec!['东'], vec!['冬'], vec!['动'], vec!['洞']],
        vec![
            rhyme(0, Some("G"), BasicTone::Ping),
            rhyme(1, Some("H"), BasicTone::Ping),
            rhyme(2, Some("G"), BasicTone::Ze),
            rhyme(3, Some("H"), BasicTone::Ze),
        ],
    )
    .unwrap()
}

fn sentences(text: &[&str]) -> Vec<Vec<char>> {
    text.iter().map(|s| s.chars().collect()).collect()
}

#[test]
fn no_rhyme_slots_give_one_empty_binding() {
    let found = get_possible_rhymes(&dict(), &sentences(&["东"]), &vec![vec![ping(None)]]);
    assert!(found.slots.is_empty());
    assert_eq!(found.bindings, vec![Vec::<Option<i8>>::new()]);
    let found = get_possible_rhymes(&dict(), &sentences(&[]), &vec![]);
    assert_eq!(found.bindings, vec![Vec::<Option<i8>>::new()]);
}

#[test]
fn slots_are_listed_once_in_reading_order() {
    let meter = vec![
        vec![ping(None), ze(Some(1)), ping(Some(0))],
        vec![ze(Some(1)), ze(Some(0)), ping(Some(0))],
    ];
    assert_eq!(collect_rhyme_slots(&meter), vec![ze(Some(1)), ping(Some(0)), ze(Some(0))]);
}

#[test]
fn pool_holds_the_rhymes_of_the_last_characters() {
    let d = dict();
    let pool = collect_rhyme_pool(&d, &sentences(&["东动", "冬东", "乙", "洞动"]));
    // 动 (record 2), 东 (record 0), nothing for 乙, and 动 again.
    assert_eq!(pool, vec![2, 0]);
}

#[test]
fn unbound_comes_first_then_the_pool_in_order() {
    let found = get_possible_rhymes(&dict(), &sentences(&["东", "冬"]), &vec![vec![ping(Some(0))]]);
    assert_eq!(found.slots, vec![ping(Some(0))]);
    assert_eq!(found.bindings, vec![vec![None], vec![Some(0)], vec![Some(1)]]);
}

#[test]
fn a_slot_takes_rhymes_of_its_own_tone() {
    let found = get_possible_rhymes(&dict(), &sentences(&["东", "动"]), &vec![vec![ze(Some(0))]]);
    assert_eq!(found.bindings, vec![vec![None], vec![Some(2)]]);
}

#[test]
fn zhong_slot_with_a_number_stays_unbound() {
    let slot = MeterTone { tone: MeterToneType::Zhong, rhyme_num: Some(0) };
    let found = get_possible_rhymes(&dict(), &sentences(&["东", "动"]), &vec![vec![slot]]);
    assert_eq!(found.bindings, vec![vec![None]]);
}

#[test]
fn different_numbers_take_different_rhymes() {
    let meter = vec![vec![ping(Some(0))], vec![ping(Some(1))]];
    let found = get_possible_rhymes(&dict(), &sentences(&["东", "冬"]), &meter);
    assert_eq!(
        found.bindings,
        vec![
            vec![None, None],
            vec![None, Some(0)],
            vec![None, Some(1)],
            vec![Some(0), None],
            vec![Some(0), Some(1)],
            vec![Some(1), None],
            vec![Some(1), Some(0)],
        ]
    );
}

#[test]
fn one_number_takes_rhymes_of_one_group() {
    let meter = vec![vec![ping(Some(0))], vec![ze(Some(0))]];
    let found = get_possible_rhymes(&dict(), &sentences(&["东", "冬", "动", "洞"]), &meter);
    assert_eq!(
        found.bindings,
        vec![
            vec![None, None],
            vec![None, Some(2)],
            vec![None, Some(3)],
            vec![Some(0), None],
            vec![Some(0), Some(2)],
            vec![Some(1), None],
            vec![Some(1), Some(3)],
        ]
    );
}

#[test]
fn rhymes_without_group_agree_with_each_other_only() {
    let d = RhymeDict::new(
        vec![vec!['东'], vec!['动'], vec!['洞']],
        vec![rhyme(0, None, BasicTone::Ping), rhyme(1, None, BasicTone::Ze), rhyme(2, Some("G"), BasicTone::Ze)],
    )
    .unwrap();
    let meter = vec![vec![ping(Some(0))], vec![ze(Some(0))]];
    let found = get_possible_rhymes(&d, &sentences(&["东", "动", "洞"]), &meter);
    assert!(found.bindings.contains(&vec![Some(0), Some(1)]));
    assert!(!found.bindings.contains(&vec![Some(0), Some(2)]));
    assert_eq!(found.bindings.len(), 5);
}
