//! A search taken one candidate at a time.
//!
//! [`search`](crate::search::search) returns only when a node is exhausted.
//! A [`Traversal`] does the same work on one node in steps, one candidate of
//! the node per step, so that a caller can look at what has been found and
//! reported in between. Its [`goal`](Traversal::goal), what the remaining
//! steps will leave behind and count, is what the search from the node
//! leaves behind and counts, and no step changes it.

use crate::bits::{lists_positions, BitSet};
use crate::progress::clock_start;
use crate::search::{
    after_candidate, count_of, enter, enter_node, explore, explore_from, frontier,
    lemma_follows_on, lemma_gap_is_blocked, lemma_skip_blocked, node_count, search_candidate,
    searchable, SearchContext, Trace,
};
use crate::SEARCH_MAX_DEPTH;
use std::time::Instant;
use vstd::prelude::*;

verus! {

/// The search of one node, in progress.
pub struct Traversal {
    context: SearchContext,
    blocklist: BitSet,
    depth: usize,
    candidates: Vec<usize>,
    at: usize,
    count: usize,
    start: Instant,
    settled: Option<usize>,
}

/// The first catalog position from `from` on that is not blocked.
pub open spec fn next_candidate(blocked: Seq<bool>, from: nat) -> Option<nat>
    decreases blocked.len() - from,
{
    if from >= blocked.len() {
        None
    } else if !blocked[from as int] {
        Some(from)
    } else {
        next_candidate(blocked, from + 1)
    }
}

/// Past a run of blocked positions, the next candidate is the same.
pub proof fn lemma_next_candidate_skips(blocked: Seq<bool>, from: nat, to: nat)
    requires
        from <= to <= blocked.len(),
        forall|k: int| from <= k < to ==> blocked[k],
    ensures
        next_candidate(blocked, from) == next_candidate(blocked, to),
    decreases to - from,
{
    if from < to {
        assert(blocked[from as int]);
        lemma_next_candidate_skips(blocked, from + 1, to);
    }
}

impl Traversal {
    /// The state of the search as it stands.
    pub closed spec fn inner(&self) -> SearchContext {
        self.context
    }

    /// The words barred from selection at the node.
    pub closed spec fn blocked(&self) -> Seq<bool> {
        self.blocklist@
    }

    /// The depth of the node.
    pub closed spec fn depth(&self) -> nat {
        self.depth as nat
    }

    /// The catalog position from which candidates are still to be searched.
    pub closed spec fn position(&self) -> nat {
        frontier(self.candidates@, self.at as int)
    }

    /// What the candidates searched so far have counted.
    pub closed spec fn count(&self) -> nat {
        self.count as nat
    }

    /// The count of the node, where entering it settled that.
    pub closed spec fn settled(&self) -> Option<nat> {
        count_of(self.settled)
    }

    /// The candidate that the next step searches, if one is left.
    pub open spec fn next(&self) -> Option<nat> {
        if self.settled() is Some {
            None
        } else {
            next_candidate(self.blocked(), self.position())
        }
    }

    /// No candidate is left.
    pub open spec fn done(&self) -> bool {
        self.next() is None
    }

    /// The catalog positions that the steps to come may still visit.
    pub open spec fn remaining(&self) -> nat {
        (self.blocked().len() - self.position()) as nat
    }

    /// The trace and the count that the search of the node ends with, once
    /// every candidate that is left has been searched.
    pub open spec fn goal(&self) -> (Trace, nat) {
        match self.settled() {
            Some(count) => (self.inner().trace(), count),
            None => {
                let (end, sum) = explore_from(
                    self.inner().sets(),
                    self.inner().trace(),
                    self.inner().current@,
                    self.blocked(),
                    self.depth(),
                    self.position(),
                    self.count(),
                );
                (end, node_count(sum))
            },
        }
    }

    /// The state is one that entering a node and searching some of its
    /// candidates leaves.
    pub closed spec fn wf(&self) -> bool {
        &&& self.context.wf()
        &&& self.settled is Some ==> self.at == 0
        &&& self.settled is None ==> {
            &&& self.depth < SEARCH_MAX_DEPTH
            &&& searchable(
                self.context.sets(),
                self.context.current@,
                self.blocklist@,
                self.depth as nat,
            )
            &&& lists_positions(self.candidates@, self.blocklist@, false)
            &&& self.at <= self.candidates@.len()
            &&& self.count <= self.context.seen@.len()
        }
    }

    proof fn lemma_next(&self)
        requires
            self.wf(),
            self.settled is None,
        ensures
            self.position() <= self.blocked().len(),
            self.next() == if self.at < self.candidates@.len() {
                Some(self.candidates@[self.at as int] as nat)
            } else {
                None
            },
    {
        lemma_gap_is_blocked(self.candidates@, self.blocklist@, self.at as int);
        let limit: nat = if self.at < self.candidates@.len() {
            self.candidates@[self.at as int] as nat
        } else {
            self.blocklist@.len()
        };
        lemma_next_candidate_skips(self.blocklist@, self.position(), limit);
    }

    /// Enters the node at the current selection of `context`, `depth`
    /// levels down, with the words in `blocklist` barred from selection.
    ///
    /// The selection is recorded as seen, and appended to the results if it
    /// is a combination. No candidate is searched yet.
    pub fn begin(context: SearchContext, blocklist: BitSet, depth: usize) -> (traversal: Traversal)
        requires
            context.wf(),
            searchable(context.sets(), context.current@, blocklist@, depth as nat),
        ensures
            traversal.wf(),
            traversal.inner().follows(context, blocklist@),
            (traversal.inner().trace(), traversal.settled()) == enter(
                context.trace(),
                context.current@,
                depth as nat,
            ),
            traversal.blocked() == blocklist@,
            traversal.depth() == depth,
            traversal.position() == 0,
            traversal.count() == 0,
            traversal.goal() == explore(
                context.sets(),
                context.trace(),
                context.current@,
                blocklist@,
                depth as nat,
            ),
    {
        let mut context = context;
        let settled = enter_node(&mut context, &blocklist, depth);
        let start = clock_start();
        let candidates = if settled.is_none() {
            blocklist.iter_zeros()
        } else {
            Vec::new()
        };
        Traversal { context, blocklist, depth, candidates, at: 0, count: 0, start, settled }
    }

    /// The state of the search as it stands: what has been found and
    /// reported so far can be read from it.
    pub fn context(&self) -> (context: &SearchContext)
        ensures
            *context == self.inner(),
    {
        &self.context
    }

    /// Searches below the next candidate of the node, if one is left, and
    /// tells whether one was.
    pub fn step(&mut self) -> (more: bool)
        requires
            old(self).wf(),
        ensures
            final(self).wf(),
            final(self).inner().follows(old(self).inner(), old(self).blocked()),
            final(self).blocked() == old(self).blocked(),
            final(self).depth() == old(self).depth(),
            final(self).settled() == old(self).settled(),
            final(self).position() <= final(self).blocked().len(),
            more ==> old(self).position() < final(self).position(),
            match old(self).next() {
                Some(next) => {
                    &&& more
                    &&& final(self).position() == next + 1
                    &&& (final(self).inner().trace(), final(self).count()) == after_candidate(
                        old(self).inner().sets(),
                        old(self).inner().trace(),
                        old(self).inner().current@,
                        old(self).blocked(),
                        old(self).depth(),
                        next,
                        old(self).count(),
                    )
                },
                None => !more && *final(self) == *old(self),
            },
            final(self).goal() == old(self).goal(),
    {
        if self.settled.is_some() {
            return false;
        }
        proof {
            self.lemma_next();
        }
        if self.at >= self.candidates.len() {
            return false;
        }
        proof {
            lemma_gap_is_blocked(self.candidates@, self.blocklist@, self.at as int);
            lemma_skip_blocked(
                self.context.sets(),
                self.context.trace(),
                self.context.current@,
                self.blocklist@,
                self.depth as nat,
                frontier(self.candidates@, self.at as int),
                self.candidates@[self.at as int] as nat,
                self.count as nat,
            );
        }
        let total = search_candidate(
            &mut self.context,
            &self.blocklist,
            self.depth,
            &self.start,
            self.candidates[self.at],
            self.count,
        );
        self.count = total;
        self.at = self.at + 1;
        proof {
            self.lemma_next();
        }
        true
    }

    /// Searches below every candidate that is left, and returns the state
    /// and the count that the search of the node ends with.
    pub fn finish(self) -> (end: (SearchContext, usize))
        requires
            self.wf(),
        ensures
            (end.0.trace(), end.1 as nat) == self.goal(),
            end.0.follows(self.inner(), self.blocked()),
    {
        let ghost before = self.context;
        let mut traversal = self;
        loop
            invariant
                traversal.wf(),
                traversal.goal() == self.goal(),
                traversal.inner().follows(before, self.blocked()),
                traversal.blocked() == self.blocked(),
            ensures
                traversal.wf(),
                traversal.done(),
                traversal.goal() == self.goal(),
                traversal.inner().follows(before, self.blocked()),
                traversal.blocked() == self.blocked(),
            decreases traversal.remaining(),
        {
            let ghost earlier = traversal.context;
            let more = traversal.step();
            proof {
                lemma_follows_on(before, earlier, traversal.context, self.blocked());
            }
            if !more {
                break ;
            }
        }
        proof {
            if traversal.settled is None {
                traversal.lemma_next();
                lemma_gap_is_blocked(
                    traversal.candidates@,
                    traversal.blocklist@,
                    traversal.at as int,
                );
                lemma_skip_blocked(
                    traversal.context.sets(),
                    traversal.context.trace(),
                    traversal.context.current@,
                    traversal.blocklist@,
                    traversal.depth as nat,
                    frontier(traversal.candidates@, traversal.at as int),
                    traversal.context.sets().len(),
                    traversal.count as nat,
                );
            }
        }
        let count = match traversal.settled {
            Some(count) => count,
            None => if traversal.count == 0 {
                1
            } else {
                traversal.count
            },
        };
        (traversal.context, count)
    }
}

} // verus!
