use disjoint_words::bits::BitSet;
use disjoint_words::catalog::make_words;
use disjoint_words::search::{search, SearchContext};
use disjoint_words::traversal::Traversal;

fn fresh(lines: &[&str]) -> (SearchContext, BitSet) {
    let words = make_words(lines).unwrap();
    (SearchContext::new(words), BitSet::new(lines.len()))
}

const TWELVE: [&str; 12] = [
    "ab", "cd", "ef", "gh", "ij", "kl", "ac", "bd", "mn", "eg", "op", "aq",
];

#[test]
fn steps_end_where_the_search_ends() {
    let (mut whole, blocklist) = fresh(&TWELVE);
    let expected = search(&mut whole, &blocklist, 0);

    let (context, blocklist) = fresh(&TWELVE);
    let mut traversal = Traversal::begin(context, blocklist, 0);
    let mut steps = 0;
    while traversal.step() {
        steps += 1;
    }
    assert_eq!(steps, 12);
    let (context, count) = traversal.finish();
    assert_eq!(count, expected);
    assert_eq!(context.result, whole.result);
    assert_eq!(context.seen.len(), whole.seen.len());
    assert_eq!(context.progress.len(), whole.progress.len());
    assert_eq!(context.progress[0].processed, 10);
    assert_eq!(context.progress[0].count, whole.progress[0].count);
    assert!(context.current.iter_ones().is_empty());
}

#[test]
fn results_only_grow_between_steps() {
    let (context, blocklist) = fresh(&["abcde", "fghij", "klmno", "pqrst", "uvwxy", "z"]);
    let mut traversal = Traversal::begin(context, blocklist, 0);
    assert!(traversal.context().result.is_empty());
    assert_eq!(traversal.context().seen.len(), 1);
    let mut sizes = Vec::new();
    let mut earlier: Vec<Vec<usize>> = Vec::new();
    while traversal.step() {
        let now = traversal.context().result.clone();
        assert_eq!(&now[..earlier.len()], &earlier[..]);
        sizes.push(now.len());
        earlier = now;
    }
    assert_eq!(sizes, vec![5, 6, 6, 6, 6, 6]);
    let (context, count) = traversal.finish();
    assert_eq!(count, 32);
    assert_eq!(context.result.len(), 6);
}

#[test]
fn finish_does_the_steps_that_are_left() {
    let (context, blocklist) = fresh(&["abcde", "fghij", "klmno", "pqrst", "uvwxy", "z"]);
    let mut traversal = Traversal::begin(context, blocklist, 0);
    assert!(traversal.step());
    let (context, count) = traversal.finish();
    assert_eq!(count, 32);
    assert_eq!(context.result.len(), 6);
    assert_eq!(context.seen.len(), 63);

    let (context, blocklist) = fresh(&["abcde", "fghij", "klmno", "pqrst", "uvwxy", "z"]);
    let (context, count) = Traversal::begin(context, blocklist, 0).finish();
    assert_eq!(count, 32);
    assert_eq!(context.result.len(), 6);
}

#[test]
fn a_step_after_the_last_changes_nothing() {
    let (context, blocklist) = fresh(&["ab", "cd"]);
    let mut traversal = Traversal::begin(context, blocklist, 0);
    assert!(traversal.step());
    assert!(traversal.step());
    assert!(!traversal.step());
    assert!(!traversal.step());
    assert_eq!(traversal.context().seen.len(), 4);
    let (_, count) = traversal.finish();
    assert_eq!(count, 2);
}

#[test]
fn a_node_seen_before_has_no_steps() {
    let (mut context, blocklist) = fresh(&["ab", "cd"]);
    assert_eq!(search(&mut context, &blocklist, 0), 2);
    let mut traversal = Traversal::begin(context, blocklist, 0);
    assert!(!traversal.step());
    let (context, count) = traversal.finish();
    assert_eq!(count, 0);
    assert_eq!(context.seen.len(), 4);
}

#[test]
fn a_dead_end_counts_one() {
    let (context, blocklist) = fresh(&[]);
    let mut traversal = Traversal::begin(context, blocklist, 0);
    assert!(!traversal.step());
    let (context, count) = traversal.finish();
    assert_eq!(count, 1);
    assert_eq!(context.seen.len(), 1);
}

#[test]
fn a_full_selection_is_a_combination_at_once() {
    let words = make_words(&["a", "b", "c", "d", "e", "f"]).unwrap();
    let mut context = SearchContext::new(words);
    let mut blocklist = BitSet::new(6);
    for index in [0usize, 2, 3, 4, 5] {
        context.current.set(index, true);
        blocklist.set(index, true);
    }
    let mut traversal = Traversal::begin(context, blocklist, 5);
    assert_eq!(traversal.context().result, vec![vec![0, 2, 3, 4, 5]]);
    assert!(!traversal.step());
    let (context, count) = traversal.finish();
    assert_eq!(count, 1);
    assert_eq!(context.result.len(), 1);
    assert_eq!(context.current.iter_ones(), vec![0, 2, 3, 4, 5]);
}
