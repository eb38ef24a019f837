use disjoint_words::bits::BitSet;
use disjoint_words::seen::{SeenSet, INVALID_SENTINEL};

fn selection(len: usize, indices: &[usize]) -> BitSet {
    let mut set = BitSet::new(len);
    for &index in indices {
        set.set(index, true);
    }
    set
}

#[test]
fn key_lists_positions_then_sentinels() {
    let key = SeenSet::encode(&selection(12, &[2, 5, 9]));
    assert_eq!(key, [2, 5, 9, INVALID_SENTINEL, INVALID_SENTINEL]);
}

#[test]
fn key_of_empty_selection_is_all_sentinels() {
    let key = SeenSet::encode(&selection(12, &[]));
    assert_eq!(key, [0xffff; 5]);
}

#[test]
fn key_of_full_selection_has_no_sentinel() {
    let key = SeenSet::encode(&selection(6000, &[5976, 0, 17, 300, 4000]));
    assert_eq!(key, [0, 17, 300, 4000, 5976]);
}

#[test]
fn key_holds_the_largest_index() {
    let key = SeenSet::encode(&selection(0xffff, &[0xfffe]));
    assert_eq!(key, [0xfffe, 0xffff, 0xffff, 0xffff, 0xffff]);
}

#[test]
fn same_selection_in_another_order_is_already_present() {
    let mut seen = SeenSet::new();
    let first = selection(12, &[2, 5, 9]);
    let mut second = BitSet::new(12);
    second.set(9, true);
    second.set(5, true);
    second.set(2, true);
    assert_eq!(SeenSet::encode(&first), SeenSet::encode(&second));
    assert!(seen.insert(&first));
    assert!(!seen.insert(&second));
    assert_eq!(seen.len(), 1);
}

#[test]
fn distinct_selections_are_both_new() {
    let mut seen = SeenSet::new();
    assert_eq!(seen.len(), 0);
    assert!(seen.insert(&selection(12, &[2, 5, 9])));
    assert!(seen.insert(&selection(12, &[2, 5])));
    assert!(seen.insert(&selection(12, &[2, 5, 10])));
    assert!(seen.insert(&selection(12, &[])));
    assert!(!seen.insert(&selection(12, &[5, 2])));
    assert_eq!(seen.len(), 4);
}

#[test]
fn keys_differ_in_the_high_entries_only() {
    let mut seen = SeenSet::new();
    assert!(seen.insert(&selection(100, &[1, 2, 3, 4, 5])));
    assert!(seen.insert(&selection(100, &[1, 2, 3, 4, 6])));
    assert!(!seen.insert(&selection(100, &[1, 2, 3, 4, 5])));
}
