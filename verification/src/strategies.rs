//! Concrete search policies over a minimal problem handle.
//!
//! These strategies exercise every branch of the engine: the speedup-only
//! descent, the candidate iteration, and both policy tests.  Their problem
//! handle is a pair of counters, so every engine contract can be checked on
//! closed values.

use vstd::prelude::*;
use crate::auto::{Auto, SearchProblem, Sequence, SequenceModel, Step};

verus! {

/// A minimal problem handle: how many labels it currently has and how many
/// speedup rounds produced it.  Its own value is its model.
#[derive(Clone, Copy, PartialEq, Eq, Structural, Debug)]
pub struct CounterProblem {
    /// The label count the engine compares against its threshold.
    pub labels: usize,
    /// How many speedup rounds led to this problem.
    pub rounds: usize,
}

impl SearchProblem for CounterProblem {
    type Model = CounterProblem;

    open spec fn model(&self) -> CounterProblem {
        *self
    }

    open spec fn num_labels_spec(m: CounterProblem) -> usize {
        m.labels
    }

    open spec fn speedup_spec(m: CounterProblem) -> CounterProblem {
        CounterProblem {
            labels: m.labels,
            rounds: if m.rounds < usize::MAX {
                (m.rounds + 1) as usize
            } else {
                m.rounds
            },
        }
    }

    open spec fn canonical_spec(m: CounterProblem) -> CounterProblem {
        m
    }

    open spec fn printable_spec(m: CounterProblem) -> CounterProblem {
        m
    }

    fn num_labels(&self) -> (n: usize) {
        self.labels
    }

    fn speedup(&self) -> (r: Self) {
        CounterProblem {
            labels: self.labels,
            rounds: if self.rounds < usize::MAX {
                self.rounds + 1
            } else {
                self.rounds
            },
        }
    }

    fn assign_chars(&mut self) {
    }

    fn as_result(&mut self) {
    }

    fn duplicate(&self) -> (r: Self) {
        *self
    }
}

/// A policy that only ever speeds up: it offers no simplifications, reports
/// the path holding exactly two speedup rounds, and explores while the
/// speedup counter is below the budget.
pub struct SpeedupSearch;

impl Auto for SpeedupSearch {
    type P = CounterProblem;

    type Simplification = usize;

    open spec fn simplifications_spec(
        path: SequenceModel<usize, CounterProblem>,
        maxlabels: usize,
    ) -> Seq<usize> {
        Seq::empty()
    }

    open spec fn should_yield_spec(
        path: SequenceModel<usize, CounterProblem>,
        best: SequenceModel<usize, CounterProblem>,
        maxiter: usize,
    ) -> bool {
        path.speedups == 2
    }

    open spec fn should_continue_spec(
        path: SequenceModel<usize, CounterProblem>,
        best: SequenceModel<usize, CounterProblem>,
        maxiter: usize,
    ) -> bool {
        path.speedups < maxiter
    }

    open spec fn simplify_spec(m: CounterProblem, s: usize) -> CounterProblem {
        m
    }

    fn simplifications(path: &Sequence<usize, CounterProblem>, maxlabels: usize) -> (r: Vec<
        usize,
    >) {
        let r: Vec<usize> = Vec::new();
        proof {
            assert(r@ =~= Seq::<usize>::empty());
        }
        r
    }

    fn should_yield(
        path: &Sequence<usize, CounterProblem>,
        best: &Sequence<usize, CounterProblem>,
        maxiter: usize,
    ) -> (r: bool) {
        path.speedups == 2
    }

    fn should_continue(
        path: &Sequence<usize, CounterProblem>,
        best: &Sequence<usize, CounterProblem>,
        maxiter: usize,
    ) -> (r: bool) {
        path.speedups < maxiter
    }

    fn simplify(p: &CounterProblem, s: usize) -> (r: CounterProblem) {
        *p
    }
}

/// A policy that branches: at every node it offers the two candidates `0`
/// and `1`, reports every path that ends in a simplification step, and only
/// extends the root, so each candidate subtree is a single leaf.
pub struct BranchSearch;

impl Auto for BranchSearch {
    type P = CounterProblem;

    type Simplification = usize;

    open spec fn simplifications_spec(
        path: SequenceModel<usize, CounterProblem>,
        maxlabels: usize,
    ) -> Seq<usize> {
        seq![0usize, 1usize]
    }

    open spec fn should_yield_spec(
        path: SequenceModel<usize, CounterProblem>,
        best: SequenceModel<usize, CounterProblem>,
        maxiter: usize,
    ) -> bool {
        path.steps.len() > 0 && path.steps.last() is Simplify
    }

    open spec fn should_continue_spec(
        path: SequenceModel<usize, CounterProblem>,
        best: SequenceModel<usize, CounterProblem>,
        maxiter: usize,
    ) -> bool {
        path.steps.len() < 2
    }

    open spec fn simplify_spec(m: CounterProblem, s: usize) -> CounterProblem {
        CounterProblem {
            labels: if m.labels > 0 {
                (m.labels - 1) as usize
            } else {
                0
            },
            rounds: m.rounds,
        }
    }

    fn simplifications(path: &Sequence<usize, CounterProblem>, maxlabels: usize) -> (r: Vec<
        usize,
    >) {
        let mut r: Vec<usize> = Vec::new();
        r.push(0);
        r.push(1);
        proof {
            assert(r@ =~= seq![0usize, 1usize]);
        }
        r
    }

    fn should_yield(
        path: &Sequence<usize, CounterProblem>,
        best: &Sequence<usize, CounterProblem>,
        maxiter: usize,
    ) -> (r: bool) {
        if path.steps.len() == 0 {
            return false;
        }
        let is_simplify = match &path.steps[path.steps.len() - 1] {
            Step::Simplify(_, _) => true,
            _ => false,
        };
        proof {
            assert(path@.steps.last() == path@.steps[path@.steps.len() - 1]);
        }
        is_simplify
    }

    fn should_continue(
        path: &Sequence<usize, CounterProblem>,
        best: &Sequence<usize, CounterProblem>,
        maxiter: usize,
    ) -> (r: bool) {
        path.steps.len() < 2
    }

    fn simplify(p: &CounterProblem, s: usize) -> (r: CounterProblem) {
        CounterProblem {
            labels: if p.labels > 0 {
                p.labels - 1
            } else {
                0
            },
            rounds: p.rounds,
        }
    }
}

} // verus!
