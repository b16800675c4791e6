use aima_rust::agents::envs::weather::{Weather, Window};
use aima_rust::agents::growth::required_entries;
use aima_rust::agents::table::Table;

#[test]
fn two_percepts_three_steps_need_fourteen_entries() {
    assert_eq!(required_entries(2, 3), Some(2 + 4 + 8));
    assert_eq!(required_entries(2, 3), Some(14));
}

#[test]
fn required_entries_is_the_sum_of_powers() {
    assert_eq!(required_entries(3, 1), Some(3));
    assert_eq!(required_entries(3, 2), Some(3 + 9));
    assert_eq!(required_entries(3, 4), Some(3 + 9 + 27 + 81));
    assert_eq!(required_entries(10, 5), Some(111_110));
    assert_eq!(required_entries(7, 3), Some(7 + 49 + 343));
}

#[test]
fn no_lifetime_needs_no_entries() {
    assert_eq!(required_entries(0, 0), Some(0));
    assert_eq!(required_entries(1, 0), Some(0));
    assert_eq!(required_entries(2, 0), Some(0));
    assert_eq!(required_entries(u64::MAX, 0), Some(0));
}

#[test]
fn no_percepts_need_no_entries() {
    assert_eq!(required_entries(0, 1), Some(0));
    assert_eq!(required_entries(0, 1_000_000), Some(0));
    assert_eq!(required_entries(0, u64::MAX), Some(0));
}

#[test]
fn one_percept_needs_one_entry_per_step() {
    assert_eq!(required_entries(1, 1), Some(1));
    assert_eq!(required_entries(1, 7), Some(7));
    assert_eq!(required_entries(1, u64::MAX), Some(u64::MAX));
}

#[test]
fn required_entries_up_to_the_largest_count() {
    assert_eq!(required_entries(2, 62), Some((1u64 << 63) - 2));
    assert_eq!(required_entries(2, 63), Some(u64::MAX - 1));
    assert_eq!(required_entries(u64::MAX, 1), Some(u64::MAX));
}

#[test]
fn required_entries_beyond_the_largest_count() {
    assert_eq!(required_entries(2, 64), None);
    assert_eq!(required_entries(2, u64::MAX), None);
    assert_eq!(required_entries(u64::MAX, 2), None);
    assert_eq!(required_entries(1 << 32, 2), None);
    assert_eq!(required_entries((1 << 32) - 1, 2), Some(((1u64 << 32) - 1) << 32));
}

#[test]
fn required_entries_grow_with_the_lifetime() {
    let mut previous = 0;
    for lifetime in 1..40 {
        let entries = required_entries(3, lifetime).unwrap();
        assert!(entries >= 2 * previous);
        assert!(entries > lifetime);
        previous = entries;
    }
}

#[test]
fn complete_table_has_the_required_entries() {
    let mut table = Table::new();
    let mut longest: Vec<Vec<Weather>> = vec![Vec::new()];
    for lifetime in 1..=6u64 {
        let mut next = Vec::new();
        for stem in &longest {
            for weather in [Weather::Sunny, Weather::Rainy] {
                let mut history = stem.clone();
                history.push(weather);
                table.insert(history.clone(), Window::Close);
                next.push(history);
            }
        }
        longest = next;
        assert_eq!(Some(table.len() as u64), required_entries(2, lifetime));
    }
    assert_eq!(table.len(), 126);
}
