//! The backtracking search and its mathematical model.
//!
//! [`explore`] says, for a catalog and a starting state, which selections the
//! search records as seen, which combinations it finds and in what order,
//! which progress ticks it emits and what it counts. [`search`] is proved to
//! compute exactly that.

use crate::bits::{lists_positions, positions, BitSet};
use crate::catalog::{has_member, is_catalog, is_letter_index, letter_sets, Letter, Word};
use crate::progress::{
    clock_elapsed, clock_start, lemma_projection_fits, nanos_of, ProgressEvent, Tick,
};
use crate::seen::{canonical_key, SeenSet};
use crate::{FEEDBACK_THRESHOLD, LETTER_COUNT, SEARCH_MAX_DEPTH};
use std::time::Instant;
use vstd::prelude::*;

verus! {

/// Two letter sets have a letter in common.
pub open spec fn shares_letter(a: Seq<bool>, b: Seq<bool>) -> bool {
    exists|l: int| 0 <= l < a.len() && l < b.len() && a[l] && b[l]
}

/// The letter `l` is in `chosen`, and the word at `i` is listed under it.
pub open spec fn listed_under(letters: Seq<Letter>, chosen: Seq<bool>, i: int, l: int) -> bool {
    &&& 0 <= l < chosen.len()
    &&& chosen[l]
    &&& l < letters.len()
    &&& i < letters[l].words@.len()
    &&& letters[l].words@[i]
}

/// The blocklist after a word with letter set `chosen` is selected: what was
/// blocked, and every word listed under one of the chosen letters.
pub open spec fn blocked_after(letters: Seq<Letter>, blocked: Seq<bool>, chosen: Seq<bool>) -> Seq<
    bool,
> {
    Seq::new(
        blocked.len(),
        |i: int| blocked[i] || exists|l: int| listed_under(letters, chosen, i, l),
    )
}

/// The blocklist after the word at `chosen` is selected, over the letter
/// sets alone: what was blocked, and every word that shares a letter with it.
pub open spec fn block(sets: Seq<Seq<bool>>, blocked: Seq<bool>, chosen: int) -> Seq<bool> {
    Seq::new(blocked.len(), |i: int| blocked[i] || shares_letter(sets[i], sets[chosen]))
}

/// With the letter index of a catalog, [`blocked_after`] blocks exactly the
/// words that share a letter with the chosen one.
pub proof fn lemma_blocked_after_is_block(
    letters: Seq<Letter>,
    sets: Seq<Seq<bool>>,
    blocked: Seq<bool>,
    chosen: int,
)
    requires
        is_catalog(sets),
        is_letter_index(letters, sets),
        blocked.len() == sets.len(),
        0 <= chosen < sets.len(),
    ensures
        blocked_after(letters, blocked, sets[chosen]) == block(sets, blocked, chosen),
{
    let left = blocked_after(letters, blocked, sets[chosen]);
    let right = block(sets, blocked, chosen);
    assert forall|i: int| 0 <= i < blocked.len() implies left[i] == right[i] by {
        assert(sets[i].len() == LETTER_COUNT);
        assert(sets[chosen].len() == LETTER_COUNT);
        if exists|l: int| listed_under(letters, sets[chosen], i, l) {
            let l = choose|l: int| listed_under(letters, sets[chosen], i, l);
            assert(letters[l].words@[i] == sets[i][l]);
            assert(0 <= l < sets[i].len() && l < sets[chosen].len() && sets[i][l]
                && sets[chosen][l]);
        }
        if shares_letter(sets[i], sets[chosen]) {
            let l = choose|l: int|
                0 <= l < sets[i].len() && l < sets[chosen].len() && sets[i][l] && sets[chosen][l];
            assert(letters[l].words@[i] == sets[i][l]);
            assert(listed_under(letters, sets[chosen], i, l));
        }
    }
    assert(left =~= right);
}

/// A blocklist only grows: what is blocked stays blocked when a word is
/// selected.
pub proof fn lemma_blocklist_grows(
    letters: Seq<Letter>,
    blocked: Seq<bool>,
    chosen: Seq<bool>,
    index: int,
)
    requires
        0 <= index < blocked.len(),
        blocked[index],
    ensures
        blocked_after(letters, blocked, chosen).len() == blocked.len(),
        blocked_after(letters, blocked, chosen)[index],
{
}

/// Once a word is selected, every word that shares a letter with it is
/// blocked, itself included.
pub proof fn lemma_sharers_are_blocked(
    letters: Seq<Letter>,
    sets: Seq<Seq<bool>>,
    blocked: Seq<bool>,
    chosen: int,
    other: int,
)
    requires
        is_catalog(sets),
        is_letter_index(letters, sets),
        blocked.len() == sets.len(),
        0 <= chosen < sets.len(),
        0 <= other < sets.len(),
        shares_letter(sets[other], sets[chosen]),
    ensures
        blocked_after(letters, blocked, sets[chosen])[other],
        blocked_after(letters, blocked, sets[chosen])[chosen],
{
    lemma_blocked_after_is_block(letters, sets, blocked, chosen);
    lemma_shares_with_itself(sets[chosen]);
}

/// The blocklist for the level below, once `word` is selected: `blocklist`
/// united with the index entry of every letter of `word`.
pub fn next_blocklist(letters: &[Letter], blocklist: &BitSet, word: &Word) -> (next: BitSet)
    requires
        word.letters@.len() <= letters@.len(),
    ensures
        next@ == blocked_after(letters@, blocklist@, word.letters@),
{
    let mut next = blocklist.clone();
    let ones = word.letters.iter_ones();
    let mut at: usize = 0;
    while at < ones.len()
        invariant
            at <= ones@.len(),
            word.letters@.len() <= letters@.len(),
            lists_positions(ones@, word.letters@, true),
            next@.len() == blocklist@.len(),
            forall|i: int|
                0 <= i < blocklist@.len() ==> (#[trigger] next@[i]) == (blocklist@[i] || exists|
                    k: int,
                |
                    0 <= k < at && listed_under(letters@, word.letters@, i, ones@[k] as int)),
        decreases ones@.len() - at,
    {
        let letter = ones[at];
        let ghost before = next@;
        next.union_with(&letters[letter].words);
        proof {
            assert forall|i: int| 0 <= i < blocklist@.len() implies (#[trigger] next@[i]) == (
            blocklist@[i] || exists|k: int|
                0 <= k < at + 1 && listed_under(letters@, word.letters@, i, ones@[k] as int)) by {
                let now = listed_under(letters@, word.letters@, i, letter as int);
                assert(next@[i] == (before[i] || now));
                if now {
                    assert(listed_under(letters@, word.letters@, i, ones@[at as int] as int));
                }
                if exists|k: int|
                    0 <= k < at && listed_under(letters@, word.letters@, i, ones@[k] as int) {
                    let k = choose|k: int|
                        0 <= k < at && listed_under(letters@, word.letters@, i, ones@[k] as int);
                    assert(0 <= k < at + 1 && listed_under(
                        letters@,
                        word.letters@,
                        i,
                        ones@[k] as int,
                    ));
                }
                if exists|k: int|
                    0 <= k < at + 1 && listed_under(letters@, word.letters@, i, ones@[k] as int) {
                    let k = choose|k: int|
                        0 <= k < at + 1 && listed_under(
                            letters@,
                            word.letters@,
                            i,
                            ones@[k] as int,
                        );
                    if k < at {
                        assert(0 <= k < at && listed_under(
                            letters@,
                            word.letters@,
                            i,
                            ones@[k] as int,
                        ));
                    }
                }
            }
        }
        at += 1;
    }
    proof {
        let goal = blocked_after(letters@, blocklist@, word.letters@);
        assert forall|i: int| 0 <= i < blocklist@.len() implies next@[i] == goal[i] by {
            if exists|k: int|
                0 <= k < at && listed_under(letters@, word.letters@, i, ones@[k] as int) {
                let k = choose|k: int|
                    0 <= k < at && listed_under(letters@, word.letters@, i, ones@[k] as int);
                assert(listed_under(letters@, word.letters@, i, ones@[k] as int));
            }
            if exists|l: int| listed_under(letters@, word.letters@, i, l) {
                let l = choose|l: int| listed_under(letters@, word.letters@, i, l);
                assert(word.letters@[l] == true);
                let k = choose|k: int| 0 <= k < ones@.len() && ones@[k] == l;
                assert(listed_under(letters@, word.letters@, i, ones@[k] as int));
            }
        }
        assert(next@ =~= goal);
    }
    next
}

/// What a search leaves behind: the keys of the selections seen, the
/// combinations found and the progress ticks emitted, each in order.
#[verifier::ext_equal]
pub struct Trace {
    pub seen: Set<Seq<u16>>,
    pub found: Seq<Seq<usize>>,
    pub ticks: Seq<Tick>,
}

/// Entering a node: the trace that it leaves, and the count of the node
/// where that is settled at once.
///
/// A selection seen before counts 0 and changes nothing. A new selection is
/// recorded; at full depth it is a combination, is found and counts 1.
/// Above that, the count depends on the candidates of the node.
pub open spec fn enter(start: Trace, selection: Seq<bool>, depth: nat) -> (Trace, Option<nat>) {
    let key = canonical_key(positions(selection, true));
    if start.seen.contains(key) {
        (start, Some(0))
    } else if depth >= SEARCH_MAX_DEPTH {
        (
            Trace {
                seen: start.seen.insert(key),
                found: start.found.push(positions(selection, true)),
                ticks: start.ticks,
            },
            Some(1),
        )
    } else {
        (Trace { seen: start.seen.insert(key), found: start.found, ticks: start.ticks }, None)
    }
}

/// The search from one node: the trace it leaves and the count it returns.
///
/// The node is entered. Where that does not settle its count, its
/// candidates are searched in ascending order and their counts added up,
/// with 1 in place of a sum of 0.
pub open spec fn explore(
    sets: Seq<Seq<bool>>,
    start: Trace,
    selection: Seq<bool>,
    blocked: Seq<bool>,
    depth: nat,
) -> (Trace, nat)
    decreases SEARCH_MAX_DEPTH - depth, sets.len() + 1, 0nat,
{
    let (entered, settled) = enter(start, selection, depth);
    match settled {
        Some(count) => (entered, count),
        None => {
            let (end, sum) = explore_from(sets, entered, selection, blocked, depth, 0, 0);
            (end, node_count(sum))
        },
    }
}

/// The count that a node returns when its candidates counted `sum`: the
/// sum, but 1 in place of 0.
pub open spec fn node_count(sum: nat) -> nat {
    if sum == 0 {
        1
    } else {
        sum
    }
}

/// The candidate loop of a node, from catalog position `next` on, with
/// `count` counted so far. Every position that is not blocked is a
/// candidate, and the candidates are searched in ascending order.
pub open spec fn explore_from(
    sets: Seq<Seq<bool>>,
    start: Trace,
    selection: Seq<bool>,
    blocked: Seq<bool>,
    depth: nat,
    next: nat,
    count: nat,
) -> (Trace, nat)
    decreases SEARCH_MAX_DEPTH - depth, sets.len() - next, 1nat,
{
    if depth >= SEARCH_MAX_DEPTH || next >= sets.len() {
        (start, count)
    } else if blocked[next as int] {
        explore_from(sets, start, selection, blocked, depth, next + 1, count)
    } else {
        let (after, total) = after_candidate(sets, start, selection, blocked, depth, next, count);
        explore_from(sets, after, selection, blocked, depth, next + 1, total)
    }
}

/// The search below one candidate of a node: the word at `next` is
/// selected, the node one level down is searched with the blocklist that
/// follows, and its count is added to `count`. At depth 0, a tick follows
/// if `next` plus one is a multiple of [`FEEDBACK_THRESHOLD`].
pub open spec fn after_candidate(
    sets: Seq<Seq<bool>>,
    start: Trace,
    selection: Seq<bool>,
    blocked: Seq<bool>,
    depth: nat,
    next: nat,
    count: nat,
) -> (Trace, nat)
    decreases SEARCH_MAX_DEPTH - depth, sets.len() - next, 0nat,
{
    if depth >= SEARCH_MAX_DEPTH || next >= sets.len() {
        (start, count)
    } else {
        let (below, found) = explore(
            sets,
            start,
            selection.update(next as int, true),
            block(sets, blocked, next as int),
            depth + 1,
        );
        let total = count + found;
        if depth == 0 && (next + 1) % (FEEDBACK_THRESHOLD as nat) == 0 {
            (
                Trace {
                    seen: below.seen,
                    found: below.found,
                    ticks: below.ticks.push(
                        Tick { processed: next + 1, total: sets.len(), count: total },
                    ),
                },
                total,
            )
        } else {
            (below, total)
        }
    }
}

/// A state from which a search can start at `depth`: `depth` words are
/// selected, and each of them is blocked, so that no candidate is a word
/// already selected.
pub open spec fn searchable(
    sets: Seq<Seq<bool>>,
    selection: Seq<bool>,
    blocked: Seq<bool>,
    depth: nat,
) -> bool {
    &&& selection.len() == sets.len()
    &&& blocked.len() == sets.len()
    &&& depth <= SEARCH_MAX_DEPTH
    &&& positions(selection, true).len() == depth
    &&& forall|i: int| 0 <= i < sets.len() && #[trigger] selection[i] ==> blocked[i]
}

/// No two selected words share a letter, and every word that shares a
/// letter with a selected one is blocked.
pub open spec fn coherent(sets: Seq<Seq<bool>>, selection: Seq<bool>, blocked: Seq<bool>) -> bool {
    &&& forall|i: int, j: int|
        #![trigger selection[i], blocked[j]]
        0 <= i < sets.len() && 0 <= j < sets.len() && selection[i] && shares_letter(
            sets[i],
            sets[j],
        ) ==> blocked[j]
    &&& forall|i: int, j: int|
        #![trigger selection[i], selection[j]]
        0 <= i < sets.len() && 0 <= j < sets.len() && i != j && selection[i] && selection[j]
            ==> !shares_letter(sets[i], sets[j])
}

/// A state that a search from the root passes through at `depth`: it is
/// searchable and coherent.
pub open spec fn admissible(
    sets: Seq<Seq<bool>>,
    selection: Seq<bool>,
    blocked: Seq<bool>,
    depth: nat,
) -> bool {
    &&& searchable(sets, selection, blocked, depth)
    &&& coherent(sets, selection, blocked)
}

/// Setting a cleared bit adds one to the number of set bits.
pub proof fn lemma_count_after_set(bits: Seq<bool>, index: int)
    requires
        0 <= index < bits.len(),
        !bits[index],
    ensures
        positions(bits.update(index, true), true).len() == positions(bits, true).len() + 1,
    decreases bits.len(),
{
    let updated = bits.update(index, true);
    if index == bits.len() - 1 {
        assert(updated.drop_last() =~= bits.drop_last());
    } else {
        assert(updated.drop_last() =~= bits.drop_last().update(index, true));
        lemma_count_after_set(bits.drop_last(), index);
    }
}

/// A letter set with a member shares a letter with itself.
proof fn lemma_shares_with_itself(set: Seq<bool>)
    requires
        has_member(set),
    ensures
        shares_letter(set, set),
{
    let l = choose|l: int| 0 <= l < set.len() && set[l];
    assert(0 <= l < set.len() && l < set.len() && set[l] && set[l]);
}

proof fn lemma_shares_symmetric(a: Seq<bool>, b: Seq<bool>)
    requires
        shares_letter(a, b),
    ensures
        shares_letter(b, a),
{
    let l = choose|l: int| 0 <= l < a.len() && l < b.len() && a[l] && b[l];
    assert(0 <= l < b.len() && l < a.len() && b[l] && a[l]);
}

/// Selecting a candidate of a searchable state gives a searchable state one
/// level down: the candidate was not selected before, and it is blocked
/// afterwards.
pub proof fn lemma_searchable_step(
    sets: Seq<Seq<bool>>,
    selection: Seq<bool>,
    blocked: Seq<bool>,
    depth: nat,
    chosen: int,
)
    requires
        is_catalog(sets),
        searchable(sets, selection, blocked, depth),
        depth < SEARCH_MAX_DEPTH,
        0 <= chosen < sets.len(),
        !blocked[chosen],
    ensures
        !selection[chosen],
        searchable(
            sets,
            selection.update(chosen, true),
            block(sets, blocked, chosen),
            depth + 1,
        ),
{
    lemma_count_after_set(selection, chosen);
    lemma_shares_with_itself(sets[chosen]);
    let wider = selection.update(chosen, true);
    let closed = block(sets, blocked, chosen);
    assert forall|i: int| 0 <= i < sets.len() && #[trigger] wider[i] implies closed[i] by {
        if i != chosen {
            assert(selection[i]);
        }
    }
}

/// Selecting a candidate of an admissible state gives an admissible state
/// one level down.
pub proof fn lemma_admissible_step(
    sets: Seq<Seq<bool>>,
    selection: Seq<bool>,
    blocked: Seq<bool>,
    depth: nat,
    chosen: int,
)
    requires
        is_catalog(sets),
        admissible(sets, selection, blocked, depth),
        depth < SEARCH_MAX_DEPTH,
        0 <= chosen < sets.len(),
        !blocked[chosen],
    ensures
        !selection[chosen],
        admissible(
            sets,
            selection.update(chosen, true),
            block(sets, blocked, chosen),
            depth + 1,
        ),
{
    lemma_searchable_step(sets, selection, blocked, depth, chosen);
    let wider = selection.update(chosen, true);
    let closed = block(sets, blocked, chosen);
    assert forall|i: int, j: int|
        #![trigger wider[i], closed[j]]
        0 <= i < sets.len() && 0 <= j < sets.len() && wider[i] && shares_letter(
            sets[i],
            sets[j],
        ) implies closed[j] by {
        if i == chosen {
            lemma_shares_symmetric(sets[i], sets[j]);
        } else {
            assert(selection[i] && shares_letter(sets[i], sets[j]) ==> blocked[j]);
        }
    }
    assert forall|i: int, j: int|
        #![trigger wider[i], wider[j]]
        0 <= i < sets.len() && 0 <= j < sets.len() && i != j && wider[i] && wider[j]
            implies !shares_letter(sets[i], sets[j]) by {
        if shares_letter(sets[i], sets[j]) {
            if i == chosen {
                lemma_shares_symmetric(sets[i], sets[j]);
                assert(selection[j] && shares_letter(sets[j], sets[i]) ==> blocked[i]);
            } else if j == chosen {
                assert(selection[i] && shares_letter(sets[i], sets[j]) ==> blocked[j]);
            } else {
                assert(selection[i] && selection[j]);
            }
        }
    }
}

/// The candidate loop passes over blocked positions.
pub proof fn lemma_skip_blocked(
    sets: Seq<Seq<bool>>,
    start: Trace,
    selection: Seq<bool>,
    blocked: Seq<bool>,
    depth: nat,
    from: nat,
    to: nat,
    count: nat,
)
    requires
        from <= to <= sets.len(),
        forall|k: int| from <= k < to ==> blocked[k],
    ensures
        explore_from(sets, start, selection, blocked, depth, from, count) == explore_from(
            sets,
            start,
            selection,
            blocked,
            depth,
            to,
            count,
        ),
    decreases to - from,
{
    if from < to && depth < SEARCH_MAX_DEPTH {
        assert(blocked[from as int]);
        lemma_skip_blocked(sets, start, selection, blocked, depth, from + 1, to, count);
    }
}

/// The state of a search: the catalog with its letter index, the selections
/// seen, the selection on the current path, and what the search has emitted.
pub struct SearchContext {
    /// The catalog.
    pub words: Vec<Word>,
    /// The letter index of the catalog.
    pub letters: Vec<Letter>,
    /// The selections visited so far.
    pub seen: SeenSet,
    /// The words selected on the current path.
    pub current: BitSet,
    /// The combinations found, each as its catalog positions in ascending
    /// order, in the order in which they were found.
    pub result: Vec<Vec<usize>>,
    /// The progress events of the top level, in order.
    pub progress: Vec<ProgressEvent>,
}

impl SearchContext {
    /// The letter sets of the catalog.
    pub open spec fn sets(&self) -> Seq<Seq<bool>> {
        letter_sets(self.words@)
    }

    /// The catalog is valid, the letter index is its inverse, and the
    /// selection spans it.
    pub open spec fn wf(&self) -> bool {
        &&& is_catalog(self.sets())
        &&& is_letter_index(self.letters@, self.sets())
        &&& self.seen.wf()
        &&& self.current@.len() == self.words@.len()
    }

    /// What the search has left behind so far.
    pub open spec fn trace(&self) -> Trace {
        Trace {
            seen: self.seen@,
            found: Seq::new(self.result@.len(), |k: int| self.result@[k]@),
            ticks: Seq::new(self.progress@.len(), |k: int| self.progress@[k].tick()),
        }
    }

    /// A context for a fresh search over `words`: nothing seen, nothing
    /// selected, nothing emitted.
    pub fn new(words: Vec<Word>) -> (context: SearchContext)
        requires
            is_catalog(letter_sets(words@)),
        ensures
            context.wf(),
            context.words@ == words@,
            context.seen@ == Set::<Seq<u16>>::empty(),
            context.current@ == Seq::new(words@.len(), |i: int| false),
            context.result@.len() == 0,
            context.progress@.len() == 0,
    {
        proof {
            let sets = letter_sets(words@);
            assert forall|i: int| 0 <= i < words@.len() implies (#[trigger] words@[i]).wf() by {
                assert(sets[i].len() == LETTER_COUNT);
            }
        }
        let letters = crate::catalog::make_letters(words.as_slice());
        let current = BitSet::new(words.len());
        assert(current@ =~= Seq::new(words@.len(), |i: int| false));
        SearchContext {
            words,
            letters,
            seen: SeenSet::new(),
            current,
            result: Vec::new(),
            progress: Vec::new(),
        }
    }
}

/// `combination` names [`SEARCH_MAX_DEPTH`] words of the catalog, in
/// ascending order, no two of which share a letter.
pub open spec fn is_combination(sets: Seq<Seq<bool>>, combination: Seq<usize>) -> bool {
    &&& combination.len() == SEARCH_MAX_DEPTH
    &&& forall|i: int, j: int|
        0 <= i < j < combination.len() ==> combination[i] < combination[j]
    &&& forall|i: int| 0 <= i < combination.len() ==> (#[trigger] combination[i]) < sets.len()
    &&& forall|i: int, j: int|
        0 <= i < j < combination.len() ==> !shares_letter(
            sets[combination[i] as int],
            sets[combination[j] as int],
        )
}

/// `combination` names [`SEARCH_MAX_DEPTH`] words of the catalog, in
/// ascending order, of which those not in `selection` were chosen by the
/// rule of the blocklist: none of them is in `blocked`, and no two of them
/// share a letter.
pub open spec fn is_extension(
    sets: Seq<Seq<bool>>,
    selection: Seq<bool>,
    blocked: Seq<bool>,
    combination: Seq<usize>,
) -> bool {
    &&& combination.len() == SEARCH_MAX_DEPTH
    &&& forall|i: int, j: int|
        0 <= i < j < combination.len() ==> combination[i] < combination[j]
    &&& forall|i: int| 0 <= i < combination.len() ==> (#[trigger] combination[i]) < sets.len()
    &&& forall|i: int|
        0 <= i < combination.len() && !selection[(#[trigger] combination[i]) as int]
            ==> !blocked[combination[i] as int]
    &&& forall|i: int, j: int|
        0 <= i < j < combination.len() && !selection[combination[i] as int]
            && !selection[combination[j] as int] ==> !shares_letter(
            sets[combination[i] as int],
            sets[combination[j] as int],
        )
}

/// What extends the selection with a candidate added, under the blocklist
/// that follows from the candidate, extends the selection under the
/// blocklist as it was.
pub proof fn lemma_extension_step(
    sets: Seq<Seq<bool>>,
    selection: Seq<bool>,
    blocked: Seq<bool>,
    chosen: int,
    combination: Seq<usize>,
)
    requires
        selection.len() == sets.len(),
        blocked.len() == sets.len(),
        0 <= chosen < sets.len(),
        !blocked[chosen],
        is_extension(
            sets,
            selection.update(chosen, true),
            block(sets, blocked, chosen),
            combination,
        ),
    ensures
        is_extension(sets, selection, blocked, combination),
{
    let wider = selection.update(chosen, true);
    let closed = block(sets, blocked, chosen);
    assert forall|i: int|
        0 <= i < combination.len() && !selection[(#[trigger] combination[i]) as int]
            implies !blocked[combination[i] as int] by {
        let word = combination[i] as int;
        if word != chosen {
            assert(!wider[word]);
            assert(!closed[word]);
        }
    }
    assert forall|i: int, j: int|
        0 <= i < j < combination.len() && !selection[combination[i] as int]
            && !selection[combination[j] as int] implies !shares_letter(
        sets[combination[i] as int],
        sets[combination[j] as int],
    ) by {
        let first = combination[i] as int;
        let second = combination[j] as int;
        assert(combination[i] < combination[j]);
        if first == chosen {
            assert(!wider[second]);
            assert(!closed[combination[j] as int]);
            if shares_letter(sets[first], sets[second]) {
                lemma_shares_symmetric(sets[first], sets[second]);
            }
        } else if second == chosen {
            assert(!wider[first]);
            assert(!closed[combination[i] as int]);
        } else {
            assert(!wider[first] && !wider[second]);
        }
    }
}

/// What extends a coherent selection is a combination.
pub proof fn lemma_extension_is_combination(
    sets: Seq<Seq<bool>>,
    selection: Seq<bool>,
    blocked: Seq<bool>,
    combination: Seq<usize>,
)
    requires
        selection.len() == sets.len(),
        blocked.len() == sets.len(),
        coherent(sets, selection, blocked),
        is_extension(sets, selection, blocked, combination),
    ensures
        is_combination(sets, combination),
{
    assert forall|i: int, j: int| 0 <= i < j < combination.len() implies !shares_letter(
        sets[combination[i] as int],
        sets[combination[j] as int],
    ) by {
        let first = combination[i] as int;
        let second = combination[j] as int;
        assert(combination[i] < combination[j]);
        assert(combination[i] < sets.len() && combination[j] < sets.len());
        if shares_letter(sets[first], sets[second]) {
            lemma_shares_symmetric(sets[first], sets[second]);
            if selection[first] && selection[second] {
            } else if selection[first] {
                assert(!blocked[combination[j] as int]);
                assert(selection[first] && shares_letter(sets[first], sets[second])
                    ==> blocked[second]);
            } else if selection[second] {
                assert(!blocked[combination[i] as int]);
                assert(selection[second] && shares_letter(sets[second], sets[first])
                    ==> blocked[first]);
            }
        }
    }
}

/// `longer` begins with `shorter`.
pub open spec fn extends<T>(shorter: Seq<T>, longer: Seq<T>) -> bool {
    &&& shorter.len() <= longer.len()
    &&& forall|k: int| 0 <= k < shorter.len() ==> shorter[k] == longer[k]
}

impl SearchContext {
    /// `self` is where a search that started from `before` under the
    /// blocklist `blocked` can be: the catalog and the selection are the
    /// same, what was seen and emitted is still there, whatever was found
    /// beyond it extends the selection by the rule of the blocklist, and
    /// whatever was reported beyond it carries sound estimates.
    pub open spec fn follows(&self, before: SearchContext, blocked: Seq<bool>) -> bool {
        &&& self.wf()
        &&& self.words@ == before.words@
        &&& self.letters@ == before.letters@
        &&& self.current@ == before.current@
        &&& before.seen@.subset_of(self.seen@)
        &&& extends(before.result@, self.result@)
        &&& extends(before.progress@, self.progress@)
        &&& forall|k: int|
            before.result@.len() <= k < self.result@.len() ==> is_extension(
                before.sets(),
                before.current@,
                blocked,
                (#[trigger] self.result@[k])@,
            )
        &&& forall|k: int|
            before.progress@.len() <= k < self.progress@.len() ==> (#[trigger] self.progress@[k]).wf()
    }
}

/// Where the search started from a coherent state, what it found is
/// combinations.
pub proof fn lemma_found_are_combinations(
    before: SearchContext,
    after: SearchContext,
    blocked: Seq<bool>,
)
    requires
        before.current@.len() == before.sets().len(),
        blocked.len() == before.sets().len(),
        after.follows(before, blocked),
    ensures
        coherent(before.sets(), before.current@, blocked) ==> forall|k: int|
            before.result@.len() <= k < after.result@.len() ==> is_combination(
                before.sets(),
                (#[trigger] after.result@[k])@,
            ),
{
    if coherent(before.sets(), before.current@, blocked) {
        assert forall|k: int| before.result@.len() <= k < after.result@.len() implies is_combination(
            before.sets(),
            (#[trigger] after.result@[k])@,
        ) by {
            lemma_extension_is_combination(
                before.sets(),
                before.current@,
                blocked,
                after.result@[k]@,
            );
        }
    }
}

/// What follows what follows `first` follows `first`.
pub proof fn lemma_follows_on(
    first: SearchContext,
    second: SearchContext,
    third: SearchContext,
    blocked: Seq<bool>,
)
    requires
        second.follows(first, blocked),
        third.follows(second, blocked),
    ensures
        third.follows(first, blocked),
{
    assert forall|k: int| first.result@.len() <= k < third.result@.len() implies is_extension(
        first.sets(),
        first.current@,
        blocked,
        (#[trigger] third.result@[k])@,
    ) by {
        if k < second.result@.len() {
            assert(is_extension(first.sets(), first.current@, blocked, second.result@[k]@));
            assert(third.result@[k] == second.result@[k]);
        }
    }
    assert forall|k: int| first.progress@.len() <= k < third.progress@.len() implies (
    #[trigger] third.progress@[k]).wf() by {
        if k < second.progress@.len() {
            assert(second.progress@[k].wf());
            assert(third.progress@[k] == second.progress@[k]);
        }
    }
}

/// Searches from the current selection of `context`, `depth` levels down,
/// with the words in `blocklist` barred from selection. The blocklist may
/// be any that holds the words selected so far.
///
/// The selection is recorded as seen; if it was seen before, nothing else
/// happens and 0 is returned. At [`SEARCH_MAX_DEPTH`] the selection is
/// appended to the results and 1 is returned. Otherwise every word outside
/// the blocklist is selected in turn, in ascending order, and searched one
/// level down; the counts are added up, and 1 is returned in place of 0. At
/// depth 0 a progress event is appended after every candidate whose
/// position plus one is a multiple of [`FEEDBACK_THRESHOLD`].
pub fn search(context: &mut SearchContext, blocklist: &BitSet, depth: usize) -> (count: usize)
    requires
        old(context).wf(),
        searchable(old(context).sets(), old(context).current@, blocklist@, depth as nat),
    ensures
        final(context).wf(),
        final(context).words@ == old(context).words@,
        final(context).letters@ == old(context).letters@,
        final(context).current@ == old(context).current@,
        (final(context).trace(), count as nat) == explore(
            old(context).sets(),
            old(context).trace(),
            old(context).current@,
            blocklist@,
            depth as nat,
        ),
        old(context).seen@.subset_of(final(context).seen@),
        extends(old(context).result@, final(context).result@),
        extends(old(context).progress@, final(context).progress@),
        forall|k: int|
            old(context).result@.len() <= k < final(context).result@.len() ==> is_extension(
                old(context).sets(),
                old(context).current@,
                blocklist@,
                (#[trigger] final(context).result@[k])@,
            ),
        coherent(old(context).sets(), old(context).current@, blocklist@) ==> forall|k: int|
            old(context).result@.len() <= k < final(context).result@.len() ==> is_combination(
                old(context).sets(),
                (#[trigger] final(context).result@[k])@,
            ),
        forall|k: int|
            old(context).progress@.len() <= k < final(context).progress@.len() ==> (
            #[trigger] final(context).progress@[k]).wf(),
        old(context).seen@.len() + count <= final(context).seen@.len(),
    decreases SEARCH_MAX_DEPTH - depth, 1nat,
{
    let ghost before = *context;
    let ghost sets = context.sets();
    let ghost selection = context.current@;
    let ghost blocked = blocklist@;
    if let Some(count) = enter_node(context, blocklist, depth) {
        proof {
            lemma_found_are_combinations(before, *context, blocked);
        }
        return count;
    }
    let ghost target = explore_from(sets, context.trace(), selection, blocked, depth as nat, 0, 0);

    let start = clock_start();
    let candidates = blocklist.iter_zeros();
    let mut count: usize = 0;
    let mut at: usize = 0;
    while at < candidates.len()
        invariant
            at <= candidates@.len(),
            depth < SEARCH_MAX_DEPTH,
            sets == before.sets(),
            blocked == blocklist@,
            selection == before.current@,
            lists_positions(candidates@, blocked, false),
            context.follows(before, blocked),
            searchable(sets, selection, blocked, depth as nat),
            explore_from(
                sets,
                context.trace(),
                selection,
                blocked,
                depth as nat,
                frontier(candidates@, at as int),
                count as nat,
            ) == target,
            before.seen@.len() + 1 + count <= context.seen@.len(),
        decreases candidates@.len() - at,
    {
        proof {
            lemma_gap_is_blocked(candidates@, blocked, at as int);
            lemma_skip_blocked(
                sets,
                context.trace(),
                selection,
                blocked,
                depth as nat,
                frontier(candidates@, at as int),
                candidates@[at as int] as nat,
                count as nat,
            );
        }
        let ghost earlier = *context;
        count = search_candidate(context, blocklist, depth, &start, candidates[at], count);
        proof {
            lemma_follows_on(before, earlier, *context, blocked);
        }
        at += 1;
    }
    proof {
        lemma_gap_is_blocked(candidates@, blocked, at as int);
        lemma_skip_blocked(
            sets,
            context.trace(),
            selection,
            blocked,
            depth as nat,
            frontier(candidates@, at as int),
            sets.len(),
            count as nat,
        );
        lemma_found_are_combinations(before, *context, blocked);
    }
    if count == 0 {
        return 1;
    }
    count
}

/// A count, if there is one, as a number of the model.
pub open spec fn count_of(settled: Option<usize>) -> Option<nat> {
    match settled {
        Some(count) => Some(count as nat),
        None => None,
    }
}

/// Enters a node: records the current selection as seen and, at
/// [`SEARCH_MAX_DEPTH`], appends it to the results. Returns the count of the
/// node where that settles it: 0 if the selection was seen before, 1 if it
/// is a combination. Returns nothing where the candidates of the node are
/// still to be searched.
pub(crate) fn enter_node(context: &mut SearchContext, blocklist: &BitSet, depth: usize) -> (settled:
    Option<usize>)
    requires
        old(context).wf(),
        searchable(old(context).sets(), old(context).current@, blocklist@, depth as nat),
    ensures
        final(context).follows(*old(context), blocklist@),
        (final(context).trace(), count_of(settled)) == enter(
            old(context).trace(),
            old(context).current@,
            depth as nat,
        ),
        old(context).seen@.len() + (if settled == Some(0usize) {
            0nat
        } else {
            1nat
        }) <= final(context).seen@.len(),
{
    let ghost sets = context.sets();
    let ghost selection = context.current@;
    let ghost entry = context.trace();
    let ghost key = canonical_key(positions(selection, true));
    proof {
        context.seen.lemma_finite();
    }
    if !context.seen.insert(&context.current) {
        assert(context.trace() =~= entry);
        return Some(0);
    }
    if depth == SEARCH_MAX_DEPTH {
        let combination = context.current.iter_ones();
        proof {
            assert forall|i: int| 0 <= i < combination@.len() implies selection[(
            #[trigger] combination@[i]) as int] by {
                assert(selection[combination@[i] as int] == true);
            }
        }
        context.result.push(combination);
        assert(context.trace() =~= enter(entry, selection, depth as nat).0);
        return Some(1);
    }
    assert(context.trace() =~= Trace {
        seen: entry.seen.insert(key),
        found: entry.found,
        ticks: entry.ticks,
    });
    None
}

/// The catalog position from which the candidates not yet searched lie:
/// one past the last candidate searched, when `at` of them have been.
pub open spec fn frontier(candidates: Seq<usize>, at: int) -> nat {
    if at <= 0 {
        0
    } else {
        (candidates[at - 1] + 1) as nat
    }
}

/// Between the candidates searched and the next one, every word is blocked.
pub proof fn lemma_gap_is_blocked(candidates: Seq<usize>, blocked: Seq<bool>, at: int)
    requires
        lists_positions(candidates, blocked, false),
        0 <= at <= candidates.len(),
    ensures
        frontier(candidates, at) <= blocked.len(),
        at < candidates.len() ==> frontier(candidates, at) <= candidates[at] < blocked.len(),
        at < candidates.len() ==> !blocked[candidates[at] as int],
        forall|k: int|
            frontier(candidates, at) <= k < (if at < candidates.len() {
                candidates[at] as int
            } else {
                blocked.len() as int
            }) ==> blocked[k],
{
    if at > 0 {
        assert(candidates[at - 1] < blocked.len());
        if at < candidates.len() {
            assert(candidates[at - 1] < candidates[at]);
        }
    }
    let limit = if at < candidates.len() {
        candidates[at] as int
    } else {
        blocked.len() as int
    };
    assert forall|k: int| frontier(candidates, at) <= k < limit implies blocked[k] by {
        if !blocked[k] {
            let i = choose|i: int| 0 <= i < candidates.len() && candidates[i] == k;
            if i < at {
                if i < at - 1 {
                    assert(candidates[i] < candidates[at - 1]);
                }
            } else if i > at {
                assert(candidates[at] < candidates[i]);
            }
        }
    }
}

/// Searches below one candidate of a node: selects the word at
/// `next_index`, searches one level down with the blocklist that follows
/// from it, and takes the word out again. Returns `count` plus what the
/// search below counted. At depth 0, appends a progress event if
/// `next_index` plus one is a multiple of [`FEEDBACK_THRESHOLD`].
pub(crate) fn search_candidate(
    context: &mut SearchContext,
    blocklist: &BitSet,
    depth: usize,
    start: &Instant,
    next_index: usize,
    count: usize,
) -> (total: usize)
    requires
        old(context).wf(),
        searchable(old(context).sets(), old(context).current@, blocklist@, depth as nat),
        depth < SEARCH_MAX_DEPTH,
        next_index < old(context).words@.len(),
        !blocklist@[next_index as int],
        count <= old(context).seen@.len(),
    ensures
        final(context).follows(*old(context), blocklist@),
        (final(context).trace(), total as nat) == after_candidate(
            old(context).sets(),
            old(context).trace(),
            old(context).current@,
            blocklist@,
            depth as nat,
            next_index as nat,
            count as nat,
        ),
        count <= total,
        old(context).seen@.len() + (total - count) <= final(context).seen@.len(),
    decreases SEARCH_MAX_DEPTH - depth, 0nat,
{
    let ghost sets = context.sets();
    let ghost selection = context.current@;
    let ghost blocked = blocklist@;
    let total_words = context.words.len();
    proof {
        lemma_searchable_step(sets, selection, blocked, depth as nat, next_index as int);
        lemma_blocked_after_is_block(context.letters@, sets, blocked, next_index as int);
        assert(sets[next_index as int].len() == LETTER_COUNT);
    }
    let next = next_blocklist(context.letters.as_slice(), blocklist, &context.words[next_index]);
    context.current.set(next_index, true);
    let ghost results_before = context.result@.len();
    let found = search(context, &next, depth + 1);
    context.current.set(next_index, false);
    proof {
        assert(context.current@ =~= selection);
        context.seen.lemma_finite();
        assert forall|k: int| results_before <= k < context.result@.len() implies is_extension(
            sets,
            selection,
            blocked,
            (#[trigger] context.result@[k])@,
        ) by {
            lemma_extension_step(
                sets,
                selection,
                blocked,
                next_index as int,
                context.result@[k]@,
            );
        }
    }
    let total = count + found;
    let ghost below = context.trace();
    if depth == 0 && (next_index + 1) % FEEDBACK_THRESHOLD == 0 {
        let (seconds, subsec_nanos) = clock_elapsed(start);
        proof {
            lemma_projection_fits(
                seconds,
                subsec_nanos,
                (next_index + 1) as nat,
                total_words as nat,
            );
        }
        let event = ProgressEvent::new(
            nanos_of(seconds, subsec_nanos),
            next_index + 1,
            total_words,
            total,
        );
        context.progress.push(event);
        assert(context.trace() =~= Trace {
            seen: below.seen,
            found: below.found,
            ticks: below.ticks.push(
                Tick {
                    processed: (next_index + 1) as nat,
                    total: sets.len(),
                    count: total as nat,
                },
            ),
        });
    }
    total
}

} // verus!
