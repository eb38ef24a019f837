//! The word catalog: each word with the set of letters it contains, and the
//! inverse index from each letter to the words that contain it.

use crate::bits::{BitSet, MAX_BITS};
use crate::{LETTER_COUNT, LETTER_OFFSET_BASE, MAX_WORDS};
use vstd::prelude::*;
use vstd::std_specs::iter::IteratorSpec;
use vstd::string::StrSliceExecFns;

verus! {

/// A catalog entry: the text of a word and the set of letters it contains,
/// one bit per letter of the alphabet.
#[derive(Debug)]
pub struct Word {
    pub value: String,
    pub letters: BitSet,
}

/// An entry of the letter index: the catalog positions of the words that
/// contain one letter.
#[derive(Debug)]
pub struct Letter {
    pub words: BitSet,
}

/// A character outside the alphabet, and where in its line it stands.
#[derive(Debug, Clone, Copy, PartialEq, Eq, Structural)]
pub struct InvalidLetter {
    pub position: usize,
    pub found: char,
}

/// Why a list of lines gives no list of words.
#[derive(Debug, Clone, Copy, PartialEq, Eq, Structural)]
pub enum CatalogError {
    /// There are more lines than a catalog can index.
    TooManyWords { count: usize },
    /// A line holds a character outside the alphabet.
    InvalidLetter { line: usize, position: usize, found: char },
}

/// `c` is one of the letters `'a'` to `'z'`.
pub open spec fn is_letter(c: char) -> bool {
    LETTER_OFFSET_BASE <= (c as u32) < LETTER_OFFSET_BASE + LETTER_COUNT
}

/// The alphabet offset of a letter: 0 for `'a'`, 25 for `'z'`.
pub open spec fn letter_offset(c: char) -> int {
    (c as u32) - LETTER_OFFSET_BASE
}

/// Every character of `text` is a letter.
pub open spec fn all_letters(text: Seq<char>) -> bool {
    forall|i: int| 0 <= i < text.len() ==> is_letter(#[trigger] text[i])
}

/// `letter` occurs in the first `upto` characters of `text`.
pub open spec fn occurs_before(text: Seq<char>, letter: int, upto: int) -> bool {
    exists|i: int| 0 <= i < upto && letter_offset(#[trigger] text[i]) == letter
}

/// The letter set of `text`: bit `l` is set when the letter with offset `l`
/// occurs in it.
pub open spec fn letter_set(text: Seq<char>) -> Seq<bool> {
    Seq::new(LETTER_COUNT as nat, |l: int| occurs_before(text, l, text.len() as int))
}

impl Word {
    /// The letter set has one bit per letter of the alphabet.
    pub open spec fn wf(&self) -> bool {
        self.letters@.len() == LETTER_COUNT
    }

    /// The word as text.
    pub fn text(&self) -> (text: String)
        ensures
            text@ == self.value@,
    {
        self.value.clone()
    }
}

/// Parses one catalog line into a [`Word`].
///
/// Succeeds exactly when every character is a lowercase letter; otherwise
/// reports the first character that is not.
pub fn parse_word(data: &str) -> (parsed: Result<Word, InvalidLetter>)
    ensures
        match parsed {
            Ok(word) => {
                &&& all_letters(data@)
                &&& word.value@ == data@
                &&& word.letters@ == letter_set(data@)
            },
            Err(error) => {
                &&& error.position < data@.len()
                &&& error.found == data@[error.position as int]
                &&& !is_letter(error.found)
                &&& all_letters(data@.take(error.position as int))
            },
        },
{
    // Counting the characters first bounds `position` in the loop below.
    let length = data.unicode_len();
    let mut letters = BitSet::new(LETTER_COUNT);
    let mut position: usize = 0;
    for c in it: data.chars()
        invariant
            it.seq() == data@,
            position == it.index(),
            length == data@.len(),
            letters@.len() == LETTER_COUNT,
            forall|j: int| 0 <= j < position ==> is_letter(#[trigger] data@[j]),
            forall|l: int|
                0 <= l < LETTER_COUNT ==> (#[trigger] letters@[l]) == occurs_before(
                    data@,
                    l,
                    position as int,
                ),
    {
        let code = c as u32;
        if code < LETTER_OFFSET_BASE || code >= LETTER_OFFSET_BASE + LETTER_COUNT as u32 {
            return Err(InvalidLetter { position, found: c });
        }
        let ghost before = letters@;
        letters.set((code - LETTER_OFFSET_BASE) as usize, true);
        proof {
            assert forall|l: int| 0 <= l < LETTER_COUNT implies (#[trigger] letters@[l])
                == occurs_before(data@, l, position + 1) by {
                if l == letter_offset(c) {
                    assert(letter_offset(data@[position as int]) == l);
                } else if before[l] {
                    let i = choose|i: int| 0 <= i < position && letter_offset(data@[i]) == l;
                    assert(letter_offset(data@[i]) == l);
                } else if occurs_before(data@, l, position + 1) {
                    let i = choose|i: int| 0 <= i < position + 1 && letter_offset(data@[i]) == l;
                    assert(i < position);
                }
            }
        }
        position += 1;
    }
    assert(letters@ =~= letter_set(data@));
    Ok(Word { value: data.to_owned(), letters })
}

/// The letter sets of a list of words, in catalog order.
pub open spec fn letter_sets(words: Seq<Word>) -> Seq<Seq<bool>> {
    Seq::new(words.len(), |i: int| words[i].letters@)
}

/// At least one bit of `set` is set.
pub open spec fn has_member(set: Seq<bool>) -> bool {
    exists|l: int| 0 <= l < set.len() && set[l]
}

/// `sets` are the letter sets of a list of words: the list is small enough
/// to index, and every letter set spans the alphabet.
pub open spec fn is_word_list(sets: Seq<Seq<bool>>) -> bool {
    &&& sets.len() <= MAX_WORDS
    &&& forall|i: int| 0 <= i < sets.len() ==> (#[trigger] sets[i]).len() == LETTER_COUNT
}

/// `sets` can serve as the catalog of a search: it is a word list in which
/// no letter set is empty. A word without a letter would block no word, not
/// even itself, and could be selected twice on one path.
pub open spec fn is_catalog(sets: Seq<Seq<bool>>) -> bool {
    &&& is_word_list(sets)
    &&& forall|i: int| 0 <= i < sets.len() ==> has_member(#[trigger] sets[i])
}

/// The letter set of a text of letters has a member exactly when the text
/// has a character.
pub proof fn lemma_letter_set_member(text: Seq<char>)
    requires
        all_letters(text),
    ensures
        has_member(letter_set(text)) <==> text.len() > 0,
{
    let set = letter_set(text);
    if text.len() > 0 {
        assert(is_letter(text[0]));
        let l = letter_offset(text[0]);
        assert(occurs_before(text, l, text.len() as int));
        assert(0 <= l < set.len() && set[l]);
    }
    if has_member(set) {
        let l = choose|l: int| 0 <= l < set.len() && set[l];
        assert(occurs_before(text, l, text.len() as int));
    }
}

/// `letters` is the inverse of `sets`: entry `l` marks exactly the words
/// whose letter set holds `l`.
pub open spec fn is_letter_index(letters: Seq<Letter>, sets: Seq<Seq<bool>>) -> bool {
    &&& letters.len() == LETTER_COUNT
    &&& forall|l: int|
        0 <= l < LETTER_COUNT ==> (#[trigger] letters[l]).words@.len() == sets.len()
    &&& forall|l: int, i: int|
        0 <= l < LETTER_COUNT && 0 <= i < sets.len() ==> (#[trigger] letters[l].words@[i])
            == sets[i][l]
}

/// Builds the list of words from its lines, one word per line, in line
/// order. A line without characters gives a word without letters.
///
/// Fails when there are more than [`MAX_WORDS`] lines; otherwise on the
/// first line that holds a character outside the alphabet.
pub fn make_words(lines: &[&str]) -> (made: Result<Vec<Word>, CatalogError>)
    ensures
        match made {
            Ok(words) => {
                &&& lines@.len() <= MAX_WORDS
                &&& words@.len() == lines@.len()
                &&& forall|i: int| 0 <= i < lines@.len() ==> all_letters((#[trigger] lines@[i])@)
                &&& forall|i: int|
                    0 <= i < lines@.len() ==> (#[trigger] words@[i]).value@ == lines@[i]@
                        && words@[i].letters@ == letter_set(lines@[i]@)
                &&& is_word_list(letter_sets(words@))
            },
            Err(CatalogError::TooManyWords { count }) => {
                &&& lines@.len() > MAX_WORDS
                &&& count == lines@.len()
            },
            Err(CatalogError::InvalidLetter { line, position, found }) => {
                &&& lines@.len() <= MAX_WORDS
                &&& line < lines@.len()
                &&& forall|i: int| 0 <= i < line ==> all_letters((#[trigger] lines@[i])@)
                &&& position < lines@[line as int]@.len()
                &&& found == lines@[line as int]@[position as int]
                &&& !is_letter(found)
                &&& all_letters(lines@[line as int]@.take(position as int))
            },
        },
{
    if lines.len() > MAX_WORDS {
        return Err(CatalogError::TooManyWords { count: lines.len() });
    }
    let mut words: Vec<Word> = Vec::new();
    let mut line: usize = 0;
    while line < lines.len()
        invariant
            line <= lines@.len() <= MAX_WORDS,
            words@.len() == line,
            forall|i: int| 0 <= i < line ==> all_letters((#[trigger] lines@[i])@),
            forall|i: int|
                0 <= i < line ==> (#[trigger] words@[i]).value@ == lines@[i]@
                    && words@[i].letters@ == letter_set(lines@[i]@),
        decreases lines@.len() - line,
    {
        match parse_word(lines[line]) {
            Ok(word) => {
                words.push(word);
            },
            Err(error) => {
                return Err(
                    CatalogError::InvalidLetter {
                        line,
                        position: error.position,
                        found: error.found,
                    },
                );
            },
        }
        line += 1;
    }
    proof {
        let sets = letter_sets(words@);
        assert forall|i: int| 0 <= i < sets.len() implies (#[trigger] sets[i]).len()
            == LETTER_COUNT by {
            assert(words@[i].letters@ == letter_set(lines@[i]@));
        }
    }
    Ok(words)
}

/// The position of the first word without a letter, if there is one. A
/// list of words in which there is none can serve as a catalog.
pub fn first_empty_word(words: &[Word]) -> (found: Option<usize>)
    ensures
        match found {
            Some(i) => {
                &&& i < words@.len()
                &&& !has_member(words@[i as int].letters@)
                &&& forall|j: int| 0 <= j < i ==> has_member(#[trigger] words@[j].letters@)
            },
            None => forall|j: int| 0 <= j < words@.len() ==> has_member(#[trigger] words@[j].letters@),
        },
        found is None && is_word_list(letter_sets(words@)) ==> is_catalog(letter_sets(words@)),
{
    let mut at: usize = 0;
    while at < words.len()
        invariant
            at <= words@.len(),
            forall|j: int| 0 <= j < at ==> has_member(#[trigger] words@[j].letters@),
        decreases words@.len() - at,
    {
        let ones = words[at].letters.iter_ones();
        let ghost set = words@[at as int].letters@;
        if ones.len() == 0 {
            proof {
                if has_member(set) {
                    let l = choose|l: int| 0 <= l < set.len() && set[l];
                    assert(set[l] == true);
                }
            }
            return Some(at);
        }
        proof {
            let l = ones@[0] as int;
            assert(0 <= l < set.len() && set[l]);
        }
        at += 1;
    }
    proof {
        let sets = letter_sets(words@);
        assert forall|i: int| 0 <= i < sets.len() implies has_member(#[trigger] sets[i]) by {
            assert(has_member(words@[i].letters@));
        }
    }
    None
}

/// Builds the letter index of a catalog: for each letter, the set of
/// catalog positions whose word contains it.
pub fn make_letters(words: &[Word]) -> (letters: Vec<Letter>)
    requires
        words@.len() <= MAX_BITS,
        forall|i: int| 0 <= i < words@.len() ==> (#[trigger] words@[i]).wf(),
    ensures
        is_letter_index(letters@, letter_sets(words@)),
{
    let count = words.len();
    let mut result: Vec<Letter> = Vec::new();
    while result.len() < LETTER_COUNT
        invariant
            result@.len() <= LETTER_COUNT,
            count == words@.len(),
            count <= MAX_BITS,
            forall|l: int|
                0 <= l < result@.len() ==> (#[trigger] result@[l]).words@ == Seq::new(
                    count as nat,
                    |i: int| false,
                ),
        decreases LETTER_COUNT - result@.len(),
    {
        result.push(Letter { words: BitSet::new(count) });
    }
    let mut index: usize = 0;
    while index < count
        invariant
            index <= count,
            count == words@.len(),
            result@.len() == LETTER_COUNT,
            forall|i: int| 0 <= i < words@.len() ==> (#[trigger] words@[i]).wf(),
            forall|l: int| 0 <= l < LETTER_COUNT ==> (#[trigger] result@[l]).words@.len() == count,
            forall|l: int, i: int|
                0 <= l < LETTER_COUNT && 0 <= i < count ==> (#[trigger] result@[l].words@[i]) == (i
                    < index && words@[i].letters@[l]),
        decreases count - index,
    {
        let ones = words[index].letters.iter_ones();
        let mut at: usize = 0;
        while at < ones.len()
            invariant
                at <= ones@.len(),
                index < count,
                count == words@.len(),
                result@.len() == LETTER_COUNT,
                words@[index as int].wf(),
                ones@ == words@[index as int].letters.ones(),
                crate::bits::lists_positions(ones@, words@[index as int].letters@, true),
                forall|l: int|
                    0 <= l < LETTER_COUNT ==> (#[trigger] result@[l]).words@.len() == count,
                forall|l: int, i: int|
                    0 <= l < LETTER_COUNT && 0 <= i < count ==> (
                    #[trigger] result@[l].words@[i]) == if i == index {
                        exists|k: int| 0 <= k < at && ones@[k] == l
                    } else {
                        i < index && words@[i].letters@[l]
                    },
            decreases ones@.len() - at,
        {
            let letter = ones[at];
            let ghost before = result@;
            result[letter].words.set(index, true);
            proof {
                assert forall|l: int, i: int|
                    0 <= l < LETTER_COUNT && 0 <= i < count implies (
                #[trigger] result@[l].words@[i]) == if i == index {
                    exists|k: int| 0 <= k < at + 1 && ones@[k] == l
                } else {
                    i < index && words@[i].letters@[l]
                } by {
                    if i == index {
                        if l == letter {
                            assert(ones@[at as int] == l);
                        } else {
                            assert(result@[l].words@[i] == before[l].words@[i]);
                            if before[l].words@[i] {
                                let k = choose|k: int| 0 <= k < at && ones@[k] == l;
                                assert(0 <= k < at + 1 && ones@[k] == l);
                            }
                        }
                    } else {
                        assert(result@[l].words@[i] == before[l].words@[i]);
                    }
                }
            }
            at += 1;
        }
        proof {
            assert forall|l: int, i: int|
                0 <= l < LETTER_COUNT && 0 <= i < count implies (#[trigger] result@[l].words@[i])
                == (i < index + 1 && words@[i].letters@[l]) by {
                if i == index {
                    let bits = words@[index as int].letters@;
                    if bits[l] {
                        let k = choose|k: int| 0 <= k < ones@.len() && ones@[k] == l;
                        assert(0 <= k < at && ones@[k] == l);
                    }
                    if result@[l].words@[i] {
                        let k = choose|k: int| 0 <= k < at && ones@[k] == l;
                        assert(bits[ones@[k] as int]);
                    }
                }
            }
        }
        index += 1;
    }
    result
}

} // verus!
