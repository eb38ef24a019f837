use disjoint_words::catalog::{
    first_empty_word, make_letters, make_words, parse_word, CatalogError, InvalidLetter,
};

#[test]
fn parse_word_sets_one_bit_per_letter() {
    let word = parse_word("abcde").unwrap();
    assert_eq!(word.value, "abcde");
    assert_eq!(word.letters.len(), 26);
    assert_eq!(word.letters.iter_ones(), vec![0, 1, 2, 3, 4]);
}

#[test]
fn parse_word_counts_a_repeated_letter_once() {
    let word = parse_word("zebra").unwrap();
    assert_eq!(word.letters.iter_ones(), vec![0, 1, 4, 17, 25]);
    let word = parse_word("llama").unwrap();
    assert_eq!(word.letters.iter_ones(), vec![0, 11, 12]);
}

#[test]
fn parse_word_accepts_the_empty_line() {
    let word = parse_word("").unwrap();
    assert_eq!(word.value, "");
    assert!(word.letters.iter_ones().is_empty());
}

#[test]
fn parse_word_reports_the_first_bad_character() {
    assert_eq!(
        parse_word("abCdE").unwrap_err(),
        InvalidLetter { position: 2, found: 'C' }
    );
    assert_eq!(
        parse_word("ab de").unwrap_err(),
        InvalidLetter { position: 2, found: ' ' }
    );
    assert_eq!(
        parse_word("{").unwrap_err(),
        InvalidLetter { position: 0, found: '{' }
    );
    assert_eq!(
        parse_word("`").unwrap_err(),
        InvalidLetter { position: 0, found: '`' }
    );
}

#[test]
fn parse_word_counts_positions_in_characters() {
    assert_eq!(
        parse_word("aé").unwrap_err(),
        InvalidLetter { position: 1, found: 'é' }
    );
    assert_eq!(
        parse_word("ab\u{1F600}c!").unwrap_err(),
        InvalidLetter { position: 2, found: '\u{1F600}' }
    );
}

#[test]
fn make_words_keeps_the_order_of_the_lines() {
    let words = make_words(&["fghij", "abcde"]).unwrap();
    assert_eq!(words.len(), 2);
    assert_eq!(words[0].value, "fghij");
    assert_eq!(words[1].value, "abcde");
    assert_eq!(words[0].letters.iter_ones(), vec![5, 6, 7, 8, 9]);
}

#[test]
fn make_words_of_nothing_is_empty() {
    assert!(make_words(&[]).unwrap().is_empty());
}

#[test]
fn make_words_rejects_a_bad_character() {
    assert_eq!(
        make_words(&["abcde", "fgh1j", "kl mn"]).unwrap_err(),
        CatalogError::InvalidLetter { line: 1, position: 3, found: '1' }
    );
}

#[test]
fn make_words_keeps_an_empty_line() {
    let words = make_words(&["abcde", "", "fghij"]).unwrap();
    assert_eq!(words.len(), 3);
    assert_eq!(words[0].value, "abcde");
    assert_eq!(words[1].value, "");
    assert!(words[1].letters.iter_ones().is_empty());
    assert_eq!(words[1].letters.len(), 26);
    assert_eq!(words[2].value, "fghij");
    assert_eq!(words[2].letters.iter_ones(), vec![5, 6, 7, 8, 9]);
}

#[test]
fn make_words_of_empty_lines_only() {
    let words = make_words(&["", ""]).unwrap();
    assert_eq!(words.len(), 2);
    assert_eq!(first_empty_word(&words), Some(0));
}

#[test]
fn make_words_passes_an_empty_line_to_reach_a_bad_one() {
    assert_eq!(
        make_words(&["abcde", "", "fgh1j"]).unwrap_err(),
        CatalogError::InvalidLetter { line: 2, position: 3, found: '1' }
    );
}

#[test]
fn first_empty_word_finds_the_first_of_several() {
    let words = make_words(&["ab", "cd", "", "ef", ""]).unwrap();
    assert_eq!(first_empty_word(&words), Some(2));
}

#[test]
fn first_empty_word_finds_none_where_every_word_has_a_letter() {
    let words = make_words(&["ab", "c", "zzz"]).unwrap();
    assert_eq!(first_empty_word(&words), None);
    assert_eq!(first_empty_word(&[]), None);
}

#[test]
fn word_text_is_the_line() {
    let words = make_words(&["abcde", ""]).unwrap();
    assert_eq!(words[0].text(), "abcde");
    assert_eq!(words[1].text(), "");
    assert_eq!(parse_word("zebra").unwrap().text(), "zebra");
}

#[test]
fn make_words_rejects_the_first_bad_line() {
    assert_eq!(
        make_words(&["abcde", "x-y", ""]).unwrap_err(),
        CatalogError::InvalidLetter { line: 1, position: 1, found: '-' }
    );
}

#[test]
fn make_words_rejects_too_many_lines() {
    let lines = vec!["ab"; 0x1_0000];
    assert_eq!(
        make_words(&lines).unwrap_err(),
        CatalogError::TooManyWords { count: 0x1_0000 }
    );
    let lines = vec!["ab"; 0xffff];
    assert_eq!(make_words(&lines).unwrap().len(), 0xffff);
}

#[test]
fn make_words_checks_the_size_first() {
    let mut lines = vec!["ab"; 0x1_0000];
    lines[0] = "A";
    assert_eq!(
        make_words(&lines).unwrap_err(),
        CatalogError::TooManyWords { count: 0x1_0000 }
    );
}

#[test]
fn make_letters_inverts_the_catalog() {
    let words = make_words(&["abc", "cab", "xyz", "zoo", "a"]).unwrap();
    let letters = make_letters(&words);
    assert_eq!(letters.len(), 26);
    for letter in &letters {
        assert_eq!(letter.words.len(), 5);
    }
    assert_eq!(letters[0].words.iter_ones(), vec![0, 1, 4]);
    assert_eq!(letters[1].words.iter_ones(), vec![0, 1]);
    assert_eq!(letters[2].words.iter_ones(), vec![0, 1]);
    assert_eq!(letters[14].words.iter_ones(), vec![3]);
    assert_eq!(letters[25].words.iter_ones(), vec![2, 3]);
    assert!(letters[3].words.iter_ones().is_empty());
}

#[test]
fn make_letters_of_an_empty_catalog_has_every_letter() {
    let letters = make_letters(&[]);
    assert_eq!(letters.len(), 26);
    assert_eq!(letters[25].words.len(), 0);
}

#[test]
fn make_letters_lists_a_word_without_letters_nowhere() {
    let words = make_words(&["ab", "", "b"]).unwrap();
    let letters = make_letters(&words);
    assert_eq!(letters.len(), 26);
    assert_eq!(letters[0].words.iter_ones(), vec![0]);
    assert_eq!(letters[1].words.iter_ones(), vec![0, 2]);
    for letter in &letters {
        assert_eq!(letter.words.len(), 3);
        assert!(!letter.words.iter_ones().contains(&1));
    }
}
