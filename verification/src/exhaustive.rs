//! The search from the root is exhaustive: it finds every combination of
//! the catalog, and each of them once.
//!
//! The argument follows the traversal. A seen selection is *complete* once
//! every combination that includes it has been found. While the search
//! works at some depth, every seen selection of at least that many words is
//! complete: the only seen selections still open are those on the path to
//! the current node, and they are smaller.

use crate::bits::{
    lemma_positions_lists, lemma_positions_unique, lists_positions, positions, BitSet,
};
use crate::catalog::{is_catalog, letter_sets, Word};
use crate::search::{
    admissible, after_candidate, block, explore, explore_from, extends, is_combination,
    lemma_admissible_step, search, shares_letter, SearchContext, Trace,
};
use crate::seen::{canonical_key, lemma_canonical_key_injective};
use crate::SEARCH_MAX_DEPTH;
use vstd::prelude::*;

verus! {

/// The canonical key of a selection.
pub open spec fn key_of(selection: Seq<bool>) -> Seq<u16> {
    canonical_key(positions(selection, true))
}

/// The number of words in a selection.
pub open spec fn size_of(selection: Seq<bool>) -> nat {
    positions(selection, true).len()
}

/// A selection of at most [`SEARCH_MAX_DEPTH`] words of the catalog, no two
/// of which share a letter.
pub open spec fn is_selection(sets: Seq<Seq<bool>>, selection: Seq<bool>) -> bool {
    &&& selection.len() == sets.len()
    &&& size_of(selection) <= SEARCH_MAX_DEPTH
    &&& forall|i: int, j: int|
        #![trigger selection[i], selection[j]]
        0 <= i < sets.len() && 0 <= j < sets.len() && i != j && selection[i] && selection[j]
            ==> !shares_letter(sets[i], sets[j])
}

/// Every word of `inner` is in `outer`.
pub open spec fn includes(outer: Seq<bool>, inner: Seq<bool>) -> bool {
    &&& outer.len() == inner.len()
    &&& forall|i: int| 0 <= i < inner.len() && #[trigger] inner[i] ==> outer[i]
}

/// The key of `selection` is recorded in `trace`.
pub open spec fn seen_in(trace: Trace, selection: Seq<bool>) -> bool {
    trace.seen.contains(key_of(selection))
}

/// Every combination that includes `selection` has been found.
pub open spec fn complete(sets: Seq<Seq<bool>>, trace: Trace, selection: Seq<bool>) -> bool {
    forall|full: Seq<bool>|
        #[trigger] includes(full, selection) && is_selection(sets, full) && size_of(full)
            == SEARCH_MAX_DEPTH ==> trace.found.contains(positions(full, true))
}

/// Every seen selection of at least `depth` words is complete.
pub open spec fn settled(sets: Seq<Seq<bool>>, trace: Trace, depth: nat) -> bool {
    forall|selection: Seq<bool>|
        is_selection(sets, selection) && depth <= size_of(selection) && #[trigger] seen_in(
            trace,
            selection,
        ) ==> complete(sets, trace, selection)
}

/// The word at `index` shares a letter with a selected word.
pub open spec fn conflicts(sets: Seq<Seq<bool>>, selection: Seq<bool>, index: int) -> bool {
    exists|i: int|
        0 <= i < sets.len() && #[trigger] selection[i] && shares_letter(sets[i], sets[index])
}

/// The blocklist holds the words that share a letter with a selected word,
/// and no others.
pub open spec fn exact(sets: Seq<Seq<bool>>, selection: Seq<bool>, blocked: Seq<bool>) -> bool {
    &&& blocked.len() == sets.len()
    &&& forall|j: int| 0 <= j < sets.len() ==> (#[trigger] blocked[j]) == conflicts(sets, selection, j)
}

/// `later` keeps what `earlier` holds.
pub open spec fn grows(earlier: Trace, later: Trace) -> bool {
    &&& earlier.seen.subset_of(later.seen)
    &&& extends(earlier.found, later.found)
    &&& extends(earlier.ticks, later.ticks)
}

/// No combination was found twice, and each one found is recorded as seen.
pub open spec fn distinct(trace: Trace) -> bool {
    &&& forall|i: int, j: int| 0 <= i < j < trace.found.len() ==> trace.found[i] != trace.found[j]
    &&& forall|i: int|
        0 <= i < trace.found.len() ==> trace.seen.contains(canonical_key(#[trigger] trace.found[i]))
}

/// What `later` found beyond `earlier` are combinations.
pub open spec fn sound(sets: Seq<Seq<bool>>, earlier: Trace, later: Trace) -> bool {
    forall|k: int|
        earlier.found.len() <= k < later.found.len() ==> is_combination(
            sets,
            #[trigger] later.found[k],
        )
}

/// The selections that `later` has seen beyond `earlier` are `root` or have
/// more than `depth` words.
pub open spec fn fresh_from(
    sets: Seq<Seq<bool>>,
    earlier: Trace,
    later: Trace,
    root: Seq<bool>,
    depth: nat,
) -> bool {
    forall|selection: Seq<bool>|
        is_selection(sets, selection) && #[trigger] seen_in(later, selection) && !seen_in(
            earlier,
            selection,
        ) ==> selection == root || size_of(selection) > depth
}

/// A selection included in another has at most as many words, and as many
/// only if the two are the same.
pub proof fn lemma_includes_size(outer: Seq<bool>, inner: Seq<bool>)
    requires
        includes(outer, inner),
    ensures
        size_of(inner) <= size_of(outer),
        size_of(inner) == size_of(outer) ==> inner == outer,
    decreases inner.len(),
{
    if inner.len() > 0 {
        let outer_front = outer.drop_last();
        let inner_front = inner.drop_last();
        assert forall|i: int| 0 <= i < inner_front.len() && #[trigger] inner_front[i]
            implies outer_front[i] by {
            assert(inner[i]);
        }
        lemma_includes_size(outer_front, inner_front);
        if inner.last() {
            assert(inner[inner.len() - 1]);
        }
        if size_of(inner) == size_of(outer) {
            assert(inner_front == outer_front);
            assert(inner.last() == outer.last());
            assert(inner =~= inner_front.push(inner.last()));
            assert(outer =~= outer_front.push(outer.last()));
        }
    } else {
        assert(inner =~= outer);
    }
}

/// A selection with no word has size 0.
pub proof fn lemma_size_of_none(len: nat)
    ensures
        size_of(Seq::new(len, |i: int| false)) == 0,
    decreases len,
{
    let none = Seq::new(len, |i: int| false);
    if len > 0 {
        assert(none.drop_last() =~= Seq::new((len - 1) as nat, |i: int| false));
        lemma_size_of_none((len - 1) as nat);
    }
}

/// What is complete stays complete.
proof fn lemma_complete_grows(
    sets: Seq<Seq<bool>>,
    earlier: Trace,
    later: Trace,
    selection: Seq<bool>,
)
    requires
        grows(earlier, later),
        complete(sets, earlier, selection),
    ensures
        complete(sets, later, selection),
{
    assert forall|full: Seq<bool>|
        #[trigger] includes(full, selection) && is_selection(sets, full) && size_of(full)
            == SEARCH_MAX_DEPTH implies later.found.contains(positions(full, true)) by {
        let list = positions(full, true);
        assert(earlier.found.contains(list));
        let k = choose|k: int| 0 <= k < earlier.found.len() && earlier.found[k] == list;
        assert(later.found[k] == list);
    }
}

/// Selections of one catalog with the same key are the same.
proof fn lemma_same_key(sets: Seq<Seq<bool>>, a: Seq<bool>, b: Seq<bool>)
    requires
        is_catalog(sets),
        is_selection(sets, a),
        is_selection(sets, b),
        key_of(a) == key_of(b),
    ensures
        a == b,
{
    lemma_canonical_key_injective(a, b);
}

/// The selection of an admissible state is a selection of `depth` words.
proof fn lemma_admissible_selection(
    sets: Seq<Seq<bool>>,
    selection: Seq<bool>,
    blocked: Seq<bool>,
    depth: nat,
)
    requires
        admissible(sets, selection, blocked, depth),
    ensures
        is_selection(sets, selection),
        size_of(selection) == depth,
{
}

/// Selecting a candidate keeps the blocklist exact.
proof fn lemma_exact_step(
    sets: Seq<Seq<bool>>,
    selection: Seq<bool>,
    blocked: Seq<bool>,
    chosen: int,
)
    requires
        selection.len() == sets.len(),
        exact(sets, selection, blocked),
        0 <= chosen < sets.len(),
    ensures
        exact(sets, selection.update(chosen, true), block(sets, blocked, chosen)),
{
    let wider = selection.update(chosen, true);
    let closed = block(sets, blocked, chosen);
    assert forall|j: int| 0 <= j < sets.len() implies (#[trigger] closed[j]) == conflicts(
        sets,
        wider,
        j,
    ) by {
        assert(blocked[j] == conflicts(sets, selection, j));
        if blocked[j] {
            let i = choose|i: int|
                0 <= i < sets.len() && #[trigger] selection[i] && shares_letter(sets[i], sets[j]);
            assert(wider[i] && shares_letter(sets[i], sets[j]));
        }
        if shares_letter(sets[j], sets[chosen]) {
            let l = choose|l: int|
                0 <= l < sets[j].len() && l < sets[chosen].len() && sets[j][l] && sets[chosen][l];
            assert(0 <= l < sets[chosen].len() && l < sets[j].len() && sets[chosen][l]
                && sets[j][l]);
            assert(wider[chosen] && shares_letter(sets[chosen], sets[j]));
        }
        if conflicts(sets, wider, j) {
            let i = choose|i: int|
                0 <= i < sets.len() && #[trigger] wider[i] && shares_letter(sets[i], sets[j]);
            if i == chosen {
                let l = choose|l: int|
                    0 <= l < sets[i].len() && l < sets[j].len() && sets[i][l] && sets[j][l];
                assert(0 <= l < sets[j].len() && l < sets[chosen].len() && sets[j][l]
                    && sets[chosen][l]);
            } else {
                assert(selection[i] && shares_letter(sets[i], sets[j]));
            }
        }
    }
}

/// Once every candidate of a node is seen and the level below is settled,
/// the node is complete.
proof fn lemma_node_complete(
    sets: Seq<Seq<bool>>,
    trace: Trace,
    selection: Seq<bool>,
    blocked: Seq<bool>,
    depth: nat,
)
    requires
        is_catalog(sets),
        admissible(sets, selection, blocked, depth),
        exact(sets, selection, blocked),
        depth < SEARCH_MAX_DEPTH,
        settled(sets, trace, depth + 1),
        forall|c: int|
            0 <= c < sets.len() && !blocked[c] ==> #[trigger] seen_in(
                trace,
                selection.update(c, true),
            ),
    ensures
        complete(sets, trace, selection),
{
    assert forall|full: Seq<bool>|
        #[trigger] includes(full, selection) && is_selection(sets, full) && size_of(full)
            == SEARCH_MAX_DEPTH implies trace.found.contains(positions(full, true)) by {
        if forall|x: int| 0 <= x < sets.len() && #[trigger] full[x] ==> selection[x] {
            assert forall|x: int| 0 <= x < sets.len() implies full[x] == selection[x] by {
                if selection[x] {
                    assert(full[x]);
                }
            }
            assert(full =~= selection);
        }
        let x = choose|x: int| 0 <= x < sets.len() && #[trigger] full[x] && !selection[x];
        if blocked[x] {
            assert(conflicts(sets, selection, x));
            let i = choose|i: int|
                0 <= i < sets.len() && #[trigger] selection[i] && shares_letter(sets[i], sets[x]);
            assert(full[i] && full[x]);
        }
        let wider = selection.update(x, true);
        lemma_admissible_step(sets, selection, blocked, depth, x);
        assert(seen_in(trace, wider));
        assert forall|i: int| 0 <= i < wider.len() && #[trigger] wider[i] implies full[i] by {
            if i != x {
                assert(selection[i]);
            }
        }
        assert(includes(full, wider));
        assert(complete(sets, trace, wider));
    }
}

/// The search from a node, entered with every seen selection of at least
/// `depth` words complete, leaves with the same and with the node seen.
pub proof fn lemma_explore_settles(
    sets: Seq<Seq<bool>>,
    start: Trace,
    selection: Seq<bool>,
    blocked: Seq<bool>,
    depth: nat,
)
    requires
        is_catalog(sets),
        admissible(sets, selection, blocked, depth),
        exact(sets, selection, blocked),
        settled(sets, start, depth),
        distinct(start),
    ensures
        ({
            let end = explore(sets, start, selection, blocked, depth).0;
            &&& grows(start, end)
            &&& sound(sets, start, end)
            &&& distinct(end)
            &&& settled(sets, end, depth)
            &&& seen_in(end, selection)
            &&& fresh_from(sets, start, end, selection, depth)
        }),
    decreases SEARCH_MAX_DEPTH - depth, sets.len() + 1,
{
    let key = key_of(selection);
    let list = positions(selection, true);
    let end = explore(sets, start, selection, blocked, depth).0;
    if start.seen.contains(key) {
    } else if depth >= SEARCH_MAX_DEPTH {
        assert(end.seen == start.seen.insert(key));
        assert(end.found == start.found.push(list));
        assert(end.found[start.found.len() as int] == list);
        assert(is_combination(sets, list)) by {
            lemma_positions_lists(selection, true);
            assert forall|i: int, j: int| 0 <= i < j < list.len() implies !shares_letter(
                sets[list[i] as int],
                sets[list[j] as int],
            ) by {
                assert(list[i] < list[j]);
                assert(selection[list[i] as int] && selection[list[j] as int]);
            }
        }
        assert(distinct(end)) by {
            assert forall|i: int, j: int| 0 <= i < j < end.found.len() implies end.found[i]
                != end.found[j] by {
                if j == start.found.len() {
                    assert(start.seen.contains(canonical_key(start.found[i])));
                }
            }
            assert forall|i: int| 0 <= i < end.found.len() implies end.seen.contains(
                canonical_key(#[trigger] end.found[i]),
            ) by {
                if i < start.found.len() {
                    assert(start.seen.contains(canonical_key(start.found[i])));
                }
            }
        }
        assert forall|other: Seq<bool>|
            is_selection(sets, other) && #[trigger] seen_in(end, other) && !seen_in(
                start,
                other,
            ) implies other == selection by {
            lemma_same_key(sets, other, selection);
        }
        assert forall|other: Seq<bool>|
            is_selection(sets, other) && depth <= size_of(other) && #[trigger] seen_in(
                end,
                other,
            ) implies complete(sets, end, other) by {
            if seen_in(start, other) {
                lemma_complete_grows(sets, start, end, other);
            } else {
                assert(other == selection);
                assert forall|full: Seq<bool>|
                    #[trigger] includes(full, selection) && is_selection(sets, full) && size_of(
                        full,
                    ) == SEARCH_MAX_DEPTH implies end.found.contains(positions(full, true)) by {
                    lemma_includes_size(full, selection);
                }
            }
        }
    } else {
        let entered = Trace { seen: start.seen.insert(key), found: start.found, ticks: start.ticks };
        assert forall|other: Seq<bool>|
            is_selection(sets, other) && #[trigger] seen_in(entered, other) && !seen_in(
                start,
                other,
            ) implies other == selection by {
            lemma_same_key(sets, other, selection);
        }
        assert forall|other: Seq<bool>|
            is_selection(sets, other) && depth + 1 <= size_of(other) && #[trigger] seen_in(
                entered,
                other,
            ) implies complete(sets, entered, other) by {
            if seen_in(start, other) {
                lemma_complete_grows(sets, start, entered, other);
            }
        }
        assert(distinct(entered)) by {
            assert forall|i: int| 0 <= i < entered.found.len() implies entered.seen.contains(
                canonical_key(#[trigger] entered.found[i]),
            ) by {
                assert(start.seen.contains(canonical_key(start.found[i])));
            }
        }
        lemma_explore_from_settles(sets, entered, selection, blocked, depth, 0, 0);
        assert(end == explore_from(sets, entered, selection, blocked, depth, 0, 0).0);
        lemma_node_complete(sets, end, selection, blocked, depth);
        assert forall|other: Seq<bool>|
            is_selection(sets, other) && #[trigger] seen_in(end, other) && !seen_in(
                start,
                other,
            ) implies other == selection || size_of(other) > depth by {
            if seen_in(entered, other) {
                assert(other == selection);
            }
        }
        assert forall|other: Seq<bool>|
            is_selection(sets, other) && depth <= size_of(other) && #[trigger] seen_in(
                end,
                other,
            ) implies complete(sets, end, other) by {
            if size_of(other) == depth {
                if seen_in(start, other) {
                    lemma_complete_grows(sets, start, end, other);
                } else {
                    assert(other == selection);
                }
            }
        }
    }
}

/// The candidate loop of a node, entered with the level below settled and
/// the candidates before `next` seen, leaves with the level below settled
/// and every candidate seen.
pub proof fn lemma_explore_from_settles(
    sets: Seq<Seq<bool>>,
    start: Trace,
    selection: Seq<bool>,
    blocked: Seq<bool>,
    depth: nat,
    next: nat,
    count: nat,
)
    requires
        is_catalog(sets),
        admissible(sets, selection, blocked, depth),
        exact(sets, selection, blocked),
        depth < SEARCH_MAX_DEPTH,
        next <= sets.len(),
        settled(sets, start, depth + 1),
        distinct(start),
        forall|c: int|
            0 <= c < next && !blocked[c] ==> #[trigger] seen_in(start, selection.update(c, true)),
    ensures
        ({
            let end = explore_from(sets, start, selection, blocked, depth, next, count).0;
            &&& grows(start, end)
            &&& sound(sets, start, end)
            &&& distinct(end)
            &&& settled(sets, end, depth + 1)
            &&& fresh_from(sets, start, end, selection, depth)
            &&& forall|c: int|
                0 <= c < sets.len() && !blocked[c] ==> #[trigger] seen_in(
                    end,
                    selection.update(c, true),
                )
        }),
    decreases SEARCH_MAX_DEPTH - depth, sets.len() - next,
{
    let end = explore_from(sets, start, selection, blocked, depth, next, count).0;
    if next >= sets.len() {
    } else if blocked[next as int] {
        lemma_explore_from_settles(sets, start, selection, blocked, depth, next + 1, count);
    } else {
        let wider = selection.update(next as int, true);
        let closed = block(sets, blocked, next as int);
        lemma_admissible_step(sets, selection, blocked, depth, next as int);
        lemma_exact_step(sets, selection, blocked, next as int);
        lemma_explore_settles(sets, start, wider, closed, depth + 1);
        let below = explore(sets, start, wider, closed, depth + 1).0;
        let (after, total) = after_candidate(sets, start, selection, blocked, depth, next, count);
        assert(end == explore_from(sets, after, selection, blocked, depth, next + 1, total).0);
        assert(grows(below, after));
        assert(settled(sets, after, depth + 1)) by {
            assert forall|other: Seq<bool>|
                is_selection(sets, other) && depth + 1 <= size_of(other) && #[trigger] seen_in(
                    after,
                    other,
                ) implies complete(sets, after, other) by {
                assert(seen_in(below, other));
                lemma_complete_grows(sets, below, after, other);
            }
        }
        assert(distinct(after));
        assert forall|c: int| 0 <= c < next + 1 && !blocked[c] implies #[trigger] seen_in(
            after,
            selection.update(c, true),
        ) by {
            if c < next {
                assert(seen_in(start, selection.update(c, true)));
            } else {
                assert(seen_in(below, wider));
            }
        }
        lemma_explore_from_settles(sets, after, selection, blocked, depth, next + 1, total);
        assert(sound(sets, start, end)) by {
            assert forall|k: int| start.found.len() <= k < end.found.len() implies is_combination(
                sets,
                #[trigger] end.found[k],
            ) by {
                if k < after.found.len() {
                    assert(is_combination(sets, below.found[k]));
                    assert(end.found[k] == after.found[k]);
                }
            }
        }
        assert forall|other: Seq<bool>|
            is_selection(sets, other) && #[trigger] seen_in(end, other) && !seen_in(
                start,
                other,
            ) implies other == selection || size_of(other) > depth by {
            if seen_in(after, other) {
                assert(seen_in(below, other));
                lemma_admissible_selection(sets, wider, closed, depth + 1);
            }
        }
    }
}

/// From the root of a fresh search, what is found is exactly the
/// combinations of the catalog, each of them once.
pub proof fn theorem_search_is_exhaustive(sets: Seq<Seq<bool>>)
    requires
        is_catalog(sets),
    ensures
        ({
            let fresh = Trace { seen: Set::empty(), found: Seq::empty(), ticks: Seq::empty() };
            let none = Seq::new(sets.len(), |i: int| false);
            let end = explore(sets, fresh, none, none, 0).0;
            &&& forall|combination: Seq<usize>|
                is_combination(sets, combination) <==> #[trigger] end.found.contains(combination)
            &&& end.found.no_duplicates()
        }),
{
    let fresh = Trace { seen: Set::empty(), found: Seq::empty(), ticks: Seq::empty() };
    let none = Seq::new(sets.len(), |i: int| false);
    let end = explore(sets, fresh, none, none, 0).0;
    lemma_size_of_none(sets.len());
    assert(admissible(sets, none, none, 0));
    assert(exact(sets, none, none));
    lemma_explore_settles(sets, fresh, none, none, 0);
    assert(complete(sets, end, none));
    assert forall|combination: Seq<usize>| is_combination(sets, combination) implies end.found.contains(
        combination,
    ) by {
        let full = Seq::new(
            sets.len(),
            |i: int| exists|k: int| 0 <= k < combination.len() && combination[k] == i,
        );
        assert(lists_positions(combination, full, true)) by {
            assert forall|k: int| 0 <= k < combination.len() implies (#[trigger] combination[k])
                < full.len() && full[combination[k] as int] == true by {
                assert(0 <= k < combination.len() && combination[k] == combination[k] as int);
            }
        }
        lemma_positions_unique(combination, full, true);
        assert forall|i: int, j: int|
            #![trigger full[i], full[j]]
            0 <= i < sets.len() && 0 <= j < sets.len() && i != j && full[i] && full[j]
                implies !shares_letter(sets[i], sets[j]) by {
            let a = choose|k: int| 0 <= k < combination.len() && combination[k] == i;
            let b = choose|k: int| 0 <= k < combination.len() && combination[k] == j;
            if a < b {
                assert(!shares_letter(sets[combination[a] as int], sets[combination[b] as int]));
            } else {
                assert(!shares_letter(sets[combination[b] as int], sets[combination[a] as int]));
                if shares_letter(sets[i], sets[j]) {
                    let l = choose|l: int|
                        0 <= l < sets[i].len() && l < sets[j].len() && sets[i][l] && sets[j][l];
                    assert(0 <= l < sets[j].len() && l < sets[i].len() && sets[j][l]
                        && sets[i][l]);
                }
            }
        }
        assert(includes(full, none));
    }
    assert forall|combination: Seq<usize>| #[trigger]
        end.found.contains(combination) implies is_combination(sets, combination) by {
        let k = choose|k: int| 0 <= k < end.found.len() && end.found[k] == combination;
        assert(is_combination(sets, end.found[k]));
    }
}

/// Searches a whole catalog from the root.
///
/// The results of the context returned are the combinations of the
/// catalog: every selection of [`SEARCH_MAX_DEPTH`] words of which no two
/// share a letter is among them, once, as its catalog positions in
/// ascending order, and nothing else is.
pub fn search_all(words: Vec<Word>) -> (done: (SearchContext, usize))
    requires
        is_catalog(letter_sets(words@)),
    ensures
        done.0.wf(),
        done.0.words@ == words@,
        (done.0.trace(), done.1 as nat) == explore(
            letter_sets(words@),
            Trace { seen: Set::empty(), found: Seq::empty(), ticks: Seq::empty() },
            Seq::new(words@.len(), |i: int| false),
            Seq::new(words@.len(), |i: int| false),
            0,
        ),
        forall|combination: Seq<usize>|
            is_combination(letter_sets(words@), combination) <==> exists|k: int|
                0 <= k < done.0.result@.len() && (#[trigger] done.0.result@[k])@ == combination,
        forall|i: int, j: int|
            0 <= i < j < done.0.result@.len() ==> done.0.result@[i]@ != done.0.result@[j]@,
        forall|k: int| 0 <= k < done.0.progress@.len() ==> (#[trigger] done.0.progress@[k]).wf(),
        forall|i: int| 0 <= i < words@.len() ==> !(#[trigger] done.0.current@[i]),
{
    let ghost sets = letter_sets(words@);
    let ghost fresh = Trace { seen: Set::empty(), found: Seq::empty(), ticks: Seq::empty() };
    let ghost none = Seq::new(words@.len(), |i: int| false);
    let mut context = SearchContext::new(words);
    let blocklist = BitSet::new(context.words.len());
    proof {
        assert(blocklist@ =~= none);
        assert(context.trace() =~= fresh);
        lemma_size_of_none(sets.len());
        theorem_search_is_exhaustive(sets);
    }
    let count = search(&mut context, &blocklist, 0);
    proof {
        let end = context.trace();
        assert forall|combination: Seq<usize>| is_combination(sets, combination) implies exists|
            k: int,
        |
            0 <= k < context.result@.len() && (#[trigger] context.result@[k])@ == combination by {
            assert(end.found.contains(combination));
            let k = choose|k: int| 0 <= k < end.found.len() && end.found[k] == combination;
            assert(context.result@[k]@ == combination);
        }
        assert forall|k: int| 0 <= k < context.result@.len() implies is_combination(
            sets,
            (#[trigger] context.result@[k])@,
        ) by {
            assert(end.found[k] == context.result@[k]@);
            assert(end.found.contains(context.result@[k]@));
        }
        assert forall|i: int, j: int| 0 <= i < j < context.result@.len() implies context.result@[i]@
            != context.result@[j]@ by {
            assert(end.found[i] != end.found[j]);
        }
    }
    (context, count)
}

} // verus!
