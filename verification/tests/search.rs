use disjoint_words::bits::BitSet;
use disjoint_words::catalog::make_words;
use disjoint_words::exhaustive::search_all;
use disjoint_words::search::{next_blocklist, search, SearchContext};

fn run(lines: &[&str]) -> (usize, SearchContext) {
    let words = make_words(lines).unwrap();
    let mut context = SearchContext::new(words);
    let blocklist = BitSet::new(lines.len());
    let count = search(&mut context, &blocklist, 0);
    (count, context)
}

fn letters_of(context: &SearchContext, index: usize) -> Vec<usize> {
    context.words[index].letters.iter_ones()
}

#[test]
fn five_disjoint_words_make_one_combination() {
    let (count, context) = run(&["abcde", "fghij", "klmno", "pqrst", "uvwxy"]);
    assert_eq!(context.result, vec![vec![0, 1, 2, 3, 4]]);
    let text: Vec<&str> = context.result[0]
        .iter()
        .map(|&index| context.words[index].value.as_str())
        .collect();
    assert_eq!(text.join(" "), "abcde fghij klmno pqrst uvwxy");
    assert_eq!(count, 16);
    assert_eq!(context.seen.len(), 32);
    assert!(context.progress.is_empty());
    assert!(context.current.iter_ones().is_empty());
}

#[test]
fn count_is_one_for_a_dead_end() {
    let (count, context) = run(&["ab"]);
    assert_eq!(count, 1);
    assert!(context.result.is_empty());
    assert_eq!(context.seen.len(), 2);
}

#[test]
fn count_is_one_for_an_empty_catalog() {
    let (count, context) = run(&[]);
    assert_eq!(count, 1);
    assert!(context.result.is_empty());
    assert_eq!(context.seen.len(), 1);
}

#[test]
fn count_adds_dead_ends_and_skips_seen_selections() {
    let (count, context) = run(&["ab", "cd"]);
    assert_eq!(count, 2);
    assert!(context.result.is_empty());
    assert_eq!(context.seen.len(), 4);
    let (count, context) = run(&["abc", "bcd", "cde"]);
    assert_eq!(count, 3);
    assert_eq!(context.seen.len(), 4);
}

#[test]
fn a_clashing_word_adds_no_combination() {
    let (count, context) = run(&["abcde", "fghij", "klmno", "pqrst", "uvwxy", "axxxx"]);
    assert_eq!(context.result, vec![vec![0, 1, 2, 3, 4]]);
    assert_eq!(count, 24);
    assert_eq!(context.seen.len(), 40);
}

#[test]
fn six_disjoint_words_make_six_combinations_in_order() {
    let (count, context) = run(&["abcde", "fghij", "klmno", "pqrst", "uvwxy", "z"]);
    assert_eq!(
        context.result,
        vec![
            vec![0, 1, 2, 3, 4],
            vec![0, 1, 2, 3, 5],
            vec![0, 1, 2, 4, 5],
            vec![0, 1, 3, 4, 5],
            vec![0, 2, 3, 4, 5],
            vec![1, 2, 3, 4, 5],
        ]
    );
    assert_eq!(count, 32);
    assert_eq!(context.seen.len(), 63);
}

#[test]
fn every_combination_has_five_disjoint_words() {
    let lines = [
        "ab", "cd", "ef", "gh", "ij", "kl", "ac", "bd", "mn", "eg", "op", "aq",
    ];
    let (_, context) = run(&lines);
    assert!(!context.result.is_empty());
    for combination in &context.result {
        assert_eq!(combination.len(), 5);
        for i in 0..5 {
            assert!(combination[i] < lines.len());
            for j in i + 1..5 {
                assert!(combination[i] < combination[j]);
                let left = letters_of(&context, combination[i]);
                let right = letters_of(&context, combination[j]);
                assert!(left.iter().all(|letter| !right.contains(letter)));
            }
        }
    }
}

#[test]
fn every_valid_combination_is_found_once() {
    let lines = [
        "ab", "cd", "ef", "gh", "ij", "kl", "ac", "bd", "mn", "eg", "op", "aq",
    ];
    let (_, context) = run(&lines);
    let n = lines.len();
    let clash = |a: usize, b: usize| lines[a].chars().any(|c| lines[b].contains(c));
    let mut expected = Vec::new();
    for a in 0..n {
        for b in a + 1..n {
            for c in b + 1..n {
                for d in c + 1..n {
                    for e in d + 1..n {
                        let picked = [a, b, c, d, e];
                        let ok = (0..5).all(|i| (i + 1..5).all(|j| !clash(picked[i], picked[j])));
                        if ok {
                            expected.push(picked.to_vec());
                        }
                    }
                }
            }
        }
    }
    let mut found = context.result.clone();
    found.sort();
    expected.sort();
    assert_eq!(found, expected);
}

#[test]
fn progress_follows_every_tenth_candidate() {
    let lines = ["a", "b", "c", "d", "e", "f", "g", "h", "i", "j", "k", "l"];
    let (count, context) = run(&lines);
    assert_eq!(count, 1024);
    assert_eq!(context.result.len(), 792);
    assert_eq!(context.seen.len(), 1586);
    assert_eq!(context.progress.len(), 1);
    let event = context.progress[0];
    assert_eq!(event.processed, 10);
    assert_eq!(event.total, 12);
    assert_eq!(event.count, 1022);
    assert_eq!(event.eta_left, event.elapsed / 10 * 2);
    assert_eq!(event.eta_total, event.elapsed + event.eta_left);
}

#[test]
fn progress_reports_the_running_count() {
    let mut lines = vec!["ab"; 10];
    lines.extend(vec!["cd"; 10]);
    let (count, context) = run(&lines);
    assert_eq!(count, 110);
    assert!(context.result.is_empty());
    assert_eq!(context.seen.len(), 121);
    assert_eq!(context.progress.len(), 2);
    assert_eq!(
        (context.progress[0].processed, context.progress[0].total, context.progress[0].count),
        (10, 20, 100)
    );
    assert_eq!(
        (context.progress[1].processed, context.progress[1].total, context.progress[1].count),
        (20, 20, 110)
    );
    assert_eq!(context.progress[1].eta_left, 0);
    assert_eq!(context.progress[1].eta_total, context.progress[1].elapsed);
    assert!(context.progress[0].elapsed <= context.progress[1].elapsed);
}

#[test]
fn a_second_search_finds_everything_seen() {
    let (_, mut context) = run(&["abcde", "fghij", "klmno", "pqrst", "uvwxy"]);
    let blocklist = BitSet::new(5);
    let count = search(&mut context, &blocklist, 0);
    assert_eq!(count, 0);
    assert_eq!(context.result.len(), 1);
    assert_eq!(context.seen.len(), 32);
}

#[test]
fn a_blocked_word_is_never_selected() {
    let words = make_words(&["abcde", "fghij", "klmno", "pqrst", "uvwxy", "z"]).unwrap();
    let mut context = SearchContext::new(words);
    let mut blocklist = BitSet::new(6);
    blocklist.set(2, true);
    let count = search(&mut context, &blocklist, 0);
    assert_eq!(context.result, vec![vec![0, 1, 3, 4, 5]]);
    assert_eq!(count, 16);
}

#[test]
fn search_below_the_top_extends_the_selection() {
    let words = make_words(&["abcde", "fghij", "klmno", "pqrst", "uvwxy", "z"]).unwrap();
    let mut context = SearchContext::new(words);
    let blocklist = next_blocklist(&context.letters, &BitSet::new(6), &context.words[5]);
    assert_eq!(blocklist.iter_ones(), vec![5]);
    context.current.set(5, true);
    let count = search(&mut context, &blocklist, 1);
    assert_eq!(
        context.result,
        vec![
            vec![0, 1, 2, 3, 5],
            vec![0, 1, 2, 4, 5],
            vec![0, 1, 3, 4, 5],
            vec![0, 2, 3, 4, 5],
            vec![1, 2, 3, 4, 5],
        ]
    );
    assert_eq!(count, 16);
    assert_eq!(context.current.iter_ones(), vec![5]);
    assert!(context.progress.is_empty());
}

#[test]
fn next_blocklist_adds_every_word_that_shares_a_letter() {
    let words = make_words(&["abc", "cde", "efg", "xyz", "gab", "q"]).unwrap();
    let context = SearchContext::new(words);
    let mut blocklist = BitSet::new(6);
    blocklist.set(5, true);
    let next = next_blocklist(&context.letters, &blocklist, &context.words[0]);
    assert_eq!(next.iter_ones(), vec![0, 1, 4, 5]);
    assert_eq!(blocklist.iter_ones(), vec![5]);
    let mut union = blocklist.clone();
    for letter in context.words[0].letters.iter_ones() {
        union.union_with(&context.letters[letter].words);
    }
    assert_eq!(next.iter_ones(), union.iter_ones());
    let after = next_blocklist(&context.letters, &next, &context.words[3]);
    assert_eq!(after.iter_ones(), vec![0, 1, 3, 4, 5]);
}

#[test]
fn a_fresh_context_has_nothing_selected() {
    let words = make_words(&["abc", "cde"]).unwrap();
    let context = SearchContext::new(words);
    assert_eq!(context.words.len(), 2);
    assert_eq!(context.letters.len(), 26);
    assert_eq!(context.current.len(), 2);
    assert!(context.current.iter_ones().is_empty());
    assert_eq!(context.seen.len(), 0);
    assert!(context.result.is_empty());
    assert!(context.progress.is_empty());
}

#[test]
fn search_all_starts_from_a_fresh_context() {
    let words = make_words(&["abcde", "fghij", "klmno", "pqrst", "uvwxy", "z"]).unwrap();
    let (context, count) = search_all(words);
    assert_eq!(count, 32);
    assert_eq!(context.result.len(), 6);
    assert_eq!(context.result[0], vec![0, 1, 2, 3, 4]);
    assert_eq!(context.result[5], vec![1, 2, 3, 4, 5]);
    assert_eq!(context.words.len(), 6);
    assert!(context.current.iter_ones().is_empty());
}

#[test]
fn search_all_agrees_with_search_from_the_root() {
    let lines = ["ab", "cd", "ef", "gh", "ij", "kl", "ac", "bd", "mn", "eg", "op", "aq"];
    let (count, context) = run(&lines);
    let (all, all_count) = search_all(make_words(&lines).unwrap());
    assert_eq!(all_count, count);
    assert_eq!(all.result, context.result);
    assert_eq!(all.seen.len(), context.seen.len());
    assert_eq!(all.progress.len(), 1);
}

#[test]
fn search_all_finds_no_combination_twice() {
    let lines = ["a", "b", "c", "d", "e", "f", "g", "h"];
    let (context, _) = search_all(make_words(&lines).unwrap());
    assert_eq!(context.result.len(), 56);
    let mut found = context.result.clone();
    found.sort();
    found.dedup();
    assert_eq!(found.len(), 56);
}

fn generated_catalog(count: usize, letters: usize, alphabet: u32) -> Vec<String> {
    let mut state: u32 = 12345;
    let mut lines = Vec::new();
    for _ in 0..count {
        let mut line = String::new();
        for _ in 0..letters {
            state = state.wrapping_mul(1_103_515_245).wrapping_add(12345);
            let offset = (state >> 16) % alphabet;
            line.push(char::from_u32('a' as u32 + offset).unwrap());
        }
        lines.push(line);
    }
    lines
}

#[test]
fn a_generated_catalog_is_searched_exhaustively() {
    let owned = generated_catalog(45, 3, 26);
    let lines: Vec<&str> = owned.iter().map(|line| line.as_str()).collect();
    let (context, count) = search_all(make_words(&lines).unwrap());
    let n = lines.len();
    let clash: Vec<Vec<bool>> = (0..n)
        .map(|a| (0..n).map(|b| lines[a].chars().any(|c| lines[b].contains(c))).collect())
        .collect();
    let mut expected = Vec::new();
    for a in 0..n {
        for b in a + 1..n {
            if clash[a][b] {
                continue;
            }
            for c in b + 1..n {
                if clash[a][c] || clash[b][c] {
                    continue;
                }
                for d in c + 1..n {
                    if clash[a][d] || clash[b][d] || clash[c][d] {
                        continue;
                    }
                    for e in d + 1..n {
                        if clash[a][e] || clash[b][e] || clash[c][e] || clash[d][e] {
                            continue;
                        }
                        expected.push(vec![a, b, c, d, e]);
                    }
                }
            }
        }
    }
    assert!(!expected.is_empty());
    let mut found = context.result.clone();
    found.sort();
    assert_eq!(found, expected);
    assert!(count >= found.len());
    assert!(count <= context.seen.len());
    assert_eq!(context.progress.len(), 4);
    for (k, event) in context.progress.iter().enumerate() {
        assert_eq!(event.processed, 10 * (k + 1));
        assert_eq!(event.total, 45);
        assert_eq!(event.eta_left, event.elapsed / event.processed as u128 * (45 - event.processed) as u128);
        assert_eq!(event.eta_total, event.elapsed + event.eta_left);
    }
}

#[test]
fn a_blocklist_that_holds_only_the_selection_is_searched_by_its_own_rule() {
    let lines = ["abc", "ade", "f", "g", "h", "i", "fx"];
    let words = make_words(&lines).unwrap();
    let mut context = SearchContext::new(words);
    let mut blocklist = BitSet::new(lines.len());
    context.current.set(0, true);
    blocklist.set(0, true);
    search(&mut context, &blocklist, 1);
    assert!(context.result.contains(&vec![0, 1, 2, 3, 4]));
    assert!(context.result.contains(&vec![0, 3, 4, 5, 6]));
    assert!(!context.result.is_empty());
    let clash = |a: usize, b: usize| lines[a].chars().any(|c| lines[b].contains(c));
    for combination in &context.result {
        assert_eq!(combination.len(), 5);
        assert!(combination.contains(&0));
        for i in 0..5 {
            for j in i + 1..5 {
                assert!(combination[i] < combination[j]);
                if combination[i] != 0 {
                    assert!(!clash(combination[i], combination[j]));
                }
            }
        }
    }
    assert_eq!(context.current.iter_ones(), vec![0]);
}

#[test]
fn newly_chosen_words_are_outside_the_blocklist() {
    let lines = ["a", "b", "c", "d", "e", "f", "g", "h"];
    let words = make_words(&lines).unwrap();
    let mut context = SearchContext::new(words);
    let mut blocklist = BitSet::new(lines.len());
    for index in [1usize, 4, 6] {
        blocklist.set(index, true);
    }
    context.current.set(4, true);
    search(&mut context, &blocklist, 1);
    assert_eq!(context.result, vec![vec![0, 2, 3, 4, 5], vec![0, 2, 3, 4, 7], vec![0, 2, 4, 5, 7], vec![0, 3, 4, 5, 7], vec![2, 3, 4, 5, 7]]);
    for combination in &context.result {
        for &index in combination {
            assert!(index == 4 || (index != 1 && index != 6));
        }
    }
}
