//! A backtracking search over chains of problem transformations.
//!
//! A path starts from an initial problem; every further entry is either one
//! round of speedup or one policy-chosen simplification.  A pluggable
//! strategy decides which simplifications are available, when a path is an
//! improvement worth reporting, and when a subtree is still worth exploring.
//! The exploration is available in two forms: a draining search that collects
//! every improvement found within an explicit transition budget, and a
//! resumable iterator that hands them out one at a time.  Both are specified
//! against the same abstract step machine, so their outputs provably agree.

use vstd::prelude::*;

verus! {

/// One entry of a search path, tagged by how its problem was obtained.
///
/// The same shape serves as the executable step (over a problem value) and as
/// its mathematical model (over the problem's model type).
pub enum Step<S, P> {
    /// The root of a path; index 0 of every path, and nowhere else.
    Initial(P),
    /// Result of applying the given simplification to the previous problem.
    Simplify(S, P),
    /// Result of one speedup round applied to the previous problem.
    Speedup(P),
}

/// The problem carried by a step.
pub open spec fn step_problem<S, P>(s: Step<S, P>) -> P {
    match s {
        Step::Initial(p) => p,
        Step::Simplify(_, p) => p,
        Step::Speedup(p) => p,
    }
}

/// What the search engine needs from the combinatorial object it transforms.
///
/// The object is opaque to the engine: it can be copied, counted (how many
/// labels it currently has), sped up by one round, canonicalized after a
/// speedup, and finalized into a caller-presentable form.  Every operation is
/// specified against an implementor-chosen mathematical model, so the engine's
/// own contracts never depend on the concrete representation.
pub trait SearchProblem: Sized {
    /// Mathematical model of a problem value; the engine's contracts speak
    /// only of models.
    type Model;

    /// The model of this problem value.
    spec fn model(&self) -> Self::Model;

    /// Model-level label count.
    spec fn num_labels_spec(m: Self::Model) -> usize;

    /// Model-level speedup transform.
    spec fn speedup_spec(m: Self::Model) -> Self::Model;

    /// Model-level label canonicalization, applied right after a speedup.
    spec fn canonical_spec(m: Self::Model) -> Self::Model;

    /// Model-level finalization into the caller-presentable form.
    spec fn printable_spec(m: Self::Model) -> Self::Model;

    /// Number of labels of the current problem.
    fn num_labels(&self) -> (n: usize)
        ensures
            n == Self::num_labels_spec(self.model()),
    ;

    /// One round of the speedup transform; the input is not changed.
    fn speedup(&self) -> (r: Self)
        ensures
            r.model() == Self::speedup_spec(self.model()),
    ;

    /// Canonicalize the labels, as required after a speedup.
    fn assign_chars(&mut self)
        ensures
            final(self).model() == Self::canonical_spec(old(self).model()),
    ;

    /// Finalize into a caller-presentable form.
    fn as_result(&mut self)
        ensures
            final(self).model() == Self::printable_spec(old(self).model()),
    ;

    /// A value copy with the same model.
    fn duplicate(&self) -> (r: Self)
        ensures
            r.model() == self.model(),
    ;
}

/// Model of a whole path: the modelled steps plus the speedup counter.
#[verifier::ext_equal]
pub ghost struct SequenceModel<S, M> {
    pub steps: Seq<Step<S, M>>,
    pub speedups: nat,
}

/// Number of speedup steps in a modelled path.
pub open spec fn count_speedups<S, M>(steps: Seq<Step<S, M>>) -> nat
    decreases steps.len(),
{
    if steps.len() == 0 {
        0
    } else {
        count_speedups(steps.drop_last()) + (if steps.last() is Speedup {
            1nat
        } else {
            0nat
        })
    }
}

/// Finalization of one modelled step: the tag and any simplification value
/// stay, the problem model is finalized.
pub open spec fn step_printable<S, P: SearchProblem>(s: Step<S, P::Model>) -> Step<S, P::Model> {
    match s {
        Step::Initial(p) => Step::Initial(P::printable_spec(p)),
        Step::Simplify(x, p) => Step::Simplify(x, P::printable_spec(p)),
        Step::Speedup(p) => Step::Speedup(P::printable_spec(p)),
    }
}

/// Finalization of a whole modelled path.
pub open spec fn seq_printable<S, P: SearchProblem>(
    m: SequenceModel<S, P::Model>,
) -> SequenceModel<S, P::Model> {
    SequenceModel {
        steps: m.steps.map(|i: int, s: Step<S, P::Model>| step_printable::<S, P>(s)),
        speedups: m.speedups,
    }
}

impl<S, M> SequenceModel<S, M> {
    /// A well-formed path: non-empty, rooted in an `Initial` step, with a
    /// speedup counter that equals the number of `Speedup` steps.
    pub open spec fn wf(self) -> bool {
        &&& self.steps.len() >= 1
        &&& self.steps[0] is Initial
        &&& self.speedups == count_speedups(self.steps)
    }

    /// The problem model of the last step.
    pub open spec fn current(self) -> M {
        step_problem(self.steps.last())
    }

    /// The path extended by one step.
    pub open spec fn push_step(self, s: Step<S, M>) -> Self {
        SequenceModel {
            steps: self.steps.push(s),
            speedups: self.speedups + (if s is Speedup {
                1nat
            } else {
                0nat
            }),
        }
    }

    /// The path with its last step undone.
    pub open spec fn pop_step(self) -> Self {
        SequenceModel {
            steps: self.steps.drop_last(),
            speedups: (self.speedups - (if self.steps.last() is Speedup {
                1nat
            } else {
                0nat
            })) as nat,
        }
    }
}

/// Model of one executable step.
pub open spec fn step_model<S, P: SearchProblem>(s: Step<S, P>) -> Step<S, P::Model> {
    match s {
        Step::Initial(p) => Step::Initial(p.model()),
        Step::Simplify(x, p) => Step::Simplify(x, p.model()),
        Step::Speedup(p) => Step::Speedup(p.model()),
    }
}

/// A chain of transformations: the working stack of the search and also its
/// result value.  Steps are appended and removed only at the tail.
pub struct Sequence<S, P> {
    pub steps: Vec<Step<S, P>>,
    pub speedups: usize,
}

impl<S, P: SearchProblem> View for Sequence<S, P> {
    type V = SequenceModel<S, P::Model>;

    open spec fn view(&self) -> SequenceModel<S, P::Model> {
        SequenceModel {
            steps: self.steps@.map(|i: int, s: Step<S, P>| step_model::<S, P>(s)),
            speedups: self.speedups as nat,
        }
    }
}

impl<S: Copy, P: SearchProblem> Sequence<S, P> {
    /// A fresh path holding only the initial problem.
    pub fn new(p: P) -> (r: Self)
        ensures
            r@.steps =~= seq![Step::Initial(p.model())],
            r@.speedups == 0,
            r@.wf(),
    {
        let mut steps: Vec<Step<S, P>> = Vec::new();
        steps.push(Step::Initial(p));
        let r = Sequence { steps, speedups: 0 };
        proof {
            assert(r@.steps =~= seq![Step::Initial(p.model())]);
            reveal_with_fuel(count_speedups, 3);
        }
        r
    }

    /// The problem of the last step: the only problem the engine or a
    /// strategy is allowed to read or transform next.
    pub fn current(&self) -> (r: &P)
        requires
            self@.steps.len() >= 1,
        ensures
            r.model() == self@.current(),
    {
        match &self.steps[self.steps.len() - 1] {
            Step::Initial(p) => p,
            Step::Simplify(_, p) => p,
            Step::Speedup(p) => p,
        }
    }

    /// Mutable access to the problem of the last step.
    pub fn current_mut(&mut self) -> (r: &mut P)
        requires
            old(self)@.steps.len() >= 1,
        ensures
            r.model() == old(self)@.current(),
            final(self)@.speedups == old(self)@.speedups,
            final(self)@.steps =~= old(self)@.steps.update(
                old(self)@.steps.len() - 1,
                match old(self)@.steps.last() {
                    Step::Initial(_) => Step::Initial(final(r).model()),
                    Step::Simplify(x, _) => Step::Simplify(x, final(r).model()),
                    Step::Speedup(_) => Step::Speedup(final(r).model()),
                },
            ),
    {
        let n = self.steps.len() - 1;
        match &mut self.steps[n] {
            Step::Initial(p) => p,
            Step::Simplify(_, p) => p,
            Step::Speedup(p) => p,
        }
    }

    /// A value copy of the whole path with the same model.
    pub fn duplicate(&self) -> (r: Self)
        ensures
            r@ =~= self@,
    {
        let mut steps: Vec<Step<S, P>> = Vec::new();
        let mut i: usize = 0;
        while i < self.steps.len()
            invariant
                i <= self.steps@.len(),
                steps@.len() == i,
                forall|j: int|
                    0 <= j < i ==> step_model::<S, P>(steps@[j]) == step_model::<S, P>(
                        self.steps@[j],
                    ),
            decreases self.steps@.len() - i,
        {
            let s: Step<S, P> = match &self.steps[i] {
                Step::Initial(p) => Step::Initial(p.duplicate()),
                Step::Simplify(x, p) => Step::Simplify(*x, p.duplicate()),
                Step::Speedup(p) => Step::Speedup(p.duplicate()),
            };
            steps.push(s);
            i = i + 1;
        }
        let r = Sequence { steps, speedups: self.speedups };
        proof {
            assert(r@.steps =~= self@.steps);
        }
        r
    }

    /// Finalize every step of the path for external consumption.
    pub fn make_printable(&mut self)
        ensures
            final(self)@ =~= seq_printable::<S, P>(old(self)@),
    {
        let mut steps: Vec<Step<S, P>> = Vec::new();
        let mut i: usize = 0;
        while i < self.steps.len()
            invariant
                i <= self.steps@.len(),
                steps@.len() == i,
                self.steps@ == old(self).steps@,
                self.speedups == old(self).speedups,
                forall|j: int|
                    0 <= j < i ==> step_model::<S, P>(steps@[j]) == step_printable::<S, P>(
                        step_model::<S, P>(self.steps@[j]),
                    ),
            decreases self.steps@.len() - i,
        {
            let s: Step<S, P> = match &self.steps[i] {
                Step::Initial(p) => {
                    let mut q = p.duplicate();
                    q.as_result();
                    Step::Initial(q)
                },
                Step::Simplify(x, p) => {
                    let mut q = p.duplicate();
                    q.as_result();
                    Step::Simplify(*x, q)
                },
                Step::Speedup(p) => {
                    let mut q = p.duplicate();
                    q.as_result();
                    Step::Speedup(q)
                },
            };
            steps.push(s);
            i = i + 1;
        }
        self.steps = steps;
        proof {
            assert(self@.steps =~= seq_printable::<S, P>(old(self)@).steps);
        }
    }

    /// Append one step.
    fn push(&mut self, step: Step<S, P>)
        ensures
            final(self)@.steps =~= old(self)@.steps.push(step_model::<S, P>(step)),
            final(self)@.speedups == old(self)@.speedups,
    {
        self.steps.push(step);
    }

    /// Remove the last step.
    fn pop(&mut self)
        requires
            old(self)@.steps.len() >= 1,
        ensures
            final(self)@.steps =~= old(self)@.steps.drop_last(),
            final(self)@.speedups == old(self)@.speedups,
    {
        let _ = self.steps.pop();
        proof {
            assert(self@.steps =~= old(self)@.steps.drop_last());
        }
    }

    /// Undo one speedup step: remove it and decrement the counter.
    fn pop_speedup(&mut self)
        requires
            old(self)@.steps.len() >= 1,
            old(self)@.speedups >= 1,
            old(self)@.steps.last() is Speedup,
        ensures
            final(self)@ =~= old(self)@.pop_step(),
    {
        self.speedups = self.speedups - 1;
        self.pop();
    }

    /// Take one speedup step: apply the transform to the current problem,
    /// canonicalize it, append it, and increment the counter.
    fn push_speedup(&mut self)
        requires
            old(self)@.steps.len() >= 1,
            old(self)@.speedups < usize::MAX,
        ensures
            final(self)@ =~= old(self)@.push_step(
                Step::Speedup(P::canonical_spec(P::speedup_spec(old(self)@.current()))),
            ),
    {
        self.speedups = self.speedups + 1;
        let last = self.current();
        let mut new = last.speedup();
        new.assign_chars();
        self.push(Step::Speedup(new));
    }

    /// Append one already-computed simplification step.
    fn push_simplification(&mut self, simpl: S, new: P)
        ensures
            final(self)@ =~= old(self)@.push_step(Step::Simplify(simpl, new.model())),
    {
        self.push(Step::Simplify(simpl, new));
    }

    /// Undo one simplification step.
    fn pop_simplification(&mut self)
        requires
            old(self)@.steps.len() >= 1,
            old(self)@.steps.last() is Simplify,
        ensures
            final(self)@ =~= old(self)@.pop_step(),
    {
        self.pop();
    }
}

/// A pluggable search policy.
///
/// A strategy supplies the candidate simplifications available from the
/// current path, the improvement test that decides when a path is reported,
/// the continuation test that prunes subtrees, and the application of one
/// simplification to a problem.  Each operation is specified against a
/// strategy-chosen specification function, so the engine's contracts hold for
/// every conforming implementation.
pub trait Auto: Sized {
    /// The problem type this strategy searches over.
    type P: SearchProblem;

    /// The value identifying one candidate simplification.
    type Simplification: Copy;

    /// Specification of the candidate list offered at a path.
    spec fn simplifications_spec(
        path: SequenceModel<Self::Simplification, <Self::P as SearchProblem>::Model>,
        maxlabels: usize,
    ) -> Seq<Self::Simplification>;

    /// Specification of the improvement test.
    spec fn should_yield_spec(
        path: SequenceModel<Self::Simplification, <Self::P as SearchProblem>::Model>,
        best: SequenceModel<Self::Simplification, <Self::P as SearchProblem>::Model>,
        maxiter: usize,
    ) -> bool;

    /// Specification of the continuation test.
    spec fn should_continue_spec(
        path: SequenceModel<Self::Simplification, <Self::P as SearchProblem>::Model>,
        best: SequenceModel<Self::Simplification, <Self::P as SearchProblem>::Model>,
        maxiter: usize,
    ) -> bool;

    /// Specification of applying one simplification to a problem model.
    spec fn simplify_spec(
        m: <Self::P as SearchProblem>::Model,
        s: Self::Simplification,
    ) -> <Self::P as SearchProblem>::Model;

    /// The candidate simplifications available at the current path, in the
    /// order the engine must try them.
    fn simplifications(
        path: &Sequence<Self::Simplification, Self::P>,
        maxlabels: usize,
    ) -> (r: Vec<Self::Simplification>)
        ensures
            r@ == Self::simplifications_spec(path@, maxlabels),
    ;

    /// Whether the current path is an improvement over the stored best.
    fn should_yield(
        path: &Sequence<Self::Simplification, Self::P>,
        best: &Sequence<Self::Simplification, Self::P>,
        maxiter: usize,
    ) -> (r: bool)
        ensures
            r == Self::should_yield_spec(path@, best@, maxiter),
    ;

    /// Whether descendants of the current path are still worth exploring.
    fn should_continue(
        path: &Sequence<Self::Simplification, Self::P>,
        best: &Sequence<Self::Simplification, Self::P>,
        maxiter: usize,
    ) -> (r: bool)
        ensures
            r == Self::should_continue_spec(path@, best@, maxiter),
    ;

    /// Apply one simplification, producing a new problem; the input is not
    /// changed.
    fn simplify(p: &Self::P, s: Self::Simplification) -> (r: Self::P)
        ensures
            r.model() == Self::simplify_spec(p.model(), s),
    ;
}

/// A marker on the explicit continuation stack: each value corresponds to one
/// point of the recursive exploration, so the tree walk can be suspended and
/// resumed between pulls.
///
/// The payload of `SimplifySimplify` is generic so the same shape serves as
/// the executable frame (a candidate vector plus a cursor) and as its model
/// (the sequence of candidates still to try).
pub enum Frame<R> {
    /// Entering the improvement check of a node.
    Problem,
    /// Past the improvement check; the continuation check is next.
    ProblemAfterCheckYield,
    /// Entering the expansion of a node.
    Simplify,
    /// Returning from the speedup child: undo the speedup step.
    SimplifyAfterProblemCall,
    /// Iterating over the candidate simplifications of a node.
    SimplifySimplify(R),
    /// Returning from a simplification child: undo the simplification step.
    SimplifyAfterSimplifyCall,
}

/// An executable frame of a strategy.
pub type FrameE<T> = Frame<(Vec<<T as Auto>::Simplification>, usize)>;

/// A modelled frame of a strategy.
pub type FrameM<T> = Frame<Seq<<T as Auto>::Simplification>>;

/// A modelled path of a strategy.
pub type SeqM<T> = SequenceModel<
    <T as Auto>::Simplification,
    <<T as Auto>::P as SearchProblem>::Model,
>;

/// The model of one executable frame: the candidates not yet tried.
pub open spec fn frame_model<T: Auto>(f: FrameE<T>) -> FrameM<T> {
    match f {
        Frame::Problem => Frame::Problem,
        Frame::ProblemAfterCheckYield => Frame::ProblemAfterCheckYield,
        Frame::Simplify => Frame::Simplify,
        Frame::SimplifyAfterProblemCall => Frame::SimplifyAfterProblemCall,
        Frame::SimplifySimplify((v, i)) => Frame::SimplifySimplify(
            if i <= v@.len() {
                v@.skip(i as int)
            } else {
                Seq::empty()
            },
        ),
        Frame::SimplifyAfterSimplifyCall => Frame::SimplifyAfterSimplifyCall,
    }
}

/// Whether a frame undoes a pushed step when it is processed.
pub open spec fn is_undo_frame<R>(f: Frame<R>) -> bool {
    ||| f is SimplifyAfterProblemCall
    ||| f is SimplifyAfterSimplifyCall
}

/// Number of undo frames on a stack: exactly the number of steps the live
/// path holds beyond its base.
pub open spec fn undo_count<R>(stack: Seq<Frame<R>>) -> nat
    decreases stack.len(),
{
    if stack.len() == 0 {
        0
    } else {
        undo_count(stack.drop_last()) + (if is_undo_frame(stack.last()) {
            1nat
        } else {
            0nat
        })
    }
}

/// One complete configuration of the abstract search machine.
#[verifier::ext_equal]
pub ghost struct Config<T: Auto> {
    /// The live path being extended and undone.
    pub sol: SeqM<T>,
    /// The most recently captured improvement.
    pub best: SeqM<T>,
    /// Bound on speedup steps, interpreted by the strategy.
    pub maxiter: usize,
    /// Label-count threshold deciding between speedup and simplification;
    /// zero always prefers speedup.
    pub maxlabels: usize,
    /// The continuation stack, bottom first.
    pub stack: Seq<FrameM<T>>,
    /// Length of the live path when the machine was started.
    pub base: nat,
    /// The problem model at the root of the live path.
    pub orig: <<T as Auto>::P as SearchProblem>::Model,
}

impl<T: Auto> Config<T> {
    /// The same configuration with another stack.
    pub open spec fn with_stack(self, stack: Seq<FrameM<T>>) -> Self {
        Config { stack, ..self }
    }

    /// The same configuration with another live path and stack.
    pub open spec fn with_sol_stack(self, sol: SeqM<T>, stack: Seq<FrameM<T>>) -> Self {
        Config { sol, stack, ..self }
    }

    /// The same configuration with another best path and stack.
    pub open spec fn with_best_stack(self, best: SeqM<T>, stack: Seq<FrameM<T>>) -> Self {
        Config { best, stack, ..self }
    }
}

/// The condition one frame imposes on the live path.
///
/// A frame at position `i` was created when the live path held exactly
/// `base + u` steps, where `u` counts the undo frames at or below `i`; the
/// path entry it speaks about never changes while the frame is on the stack.
pub open spec fn frame_ok<T: Auto>(c: Config<T>, i: int) -> bool {
    let u = undo_count(c.stack.take(i + 1));
    let idx = c.base - 1 + u;
    match c.stack[i] {
        Frame::SimplifyAfterProblemCall => c.sol.steps[idx] is Speedup,
        Frame::SimplifyAfterSimplifyCall => c.sol.steps[idx] is Simplify,
        Frame::SimplifySimplify(_) => <<T as Auto>::P as SearchProblem>::num_labels_spec(
            step_problem(c.sol.steps[idx]),
        ) > c.maxlabels,
        _ => true,
    }
}

/// The machine invariant: the live path is well formed, rooted in the
/// original problem, exactly as long as the undo frames demand, and every
/// frame's condition holds.
pub open spec fn machine_inv<T: Auto>(c: Config<T>) -> bool {
    &&& c.sol.wf()
    &&& c.base >= 1
    &&& c.sol.steps[0] == Step::<T::Simplification, <<T as Auto>::P as SearchProblem>::Model>::Initial(c.orig)
    &&& c.sol.steps.len() == c.base + undo_count(c.stack)
    &&& forall|i: int| 0 <= i < c.stack.len() ==> #[trigger] frame_ok(c, i)
}

/// What the machine emits in the coming transition: the finalized live path,
/// exactly when the top frame is the improvement check and the strategy
/// reports an improvement.
pub open spec fn step_out<T: Auto>(c: Config<T>) -> Option<SeqM<T>> {
    if c.stack.len() > 0 && c.stack.last() is Problem && T::should_yield_spec(
        c.sol,
        c.best,
        c.maxiter,
    ) {
        Some(seq_printable::<T::Simplification, T::P>(c.sol))
    } else {
        None
    }
}

/// One transition of the abstract machine; the identity on an empty stack.
///
/// Every marker is processed exactly as the recursive exploration would: the
/// improvement check replaces the best path and emits it, the continuation
/// check decides whether to expand, expansion takes a speedup step when the
/// label threshold is zero — which always prefers speedup — or the label
/// count is within it, and otherwise iterates over the strategy's
/// candidates; the two undo markers restore the live path.
pub open spec fn spec_step<T: Auto>(c: Config<T>) -> Config<T> {
    if c.stack.len() == 0 {
        c
    } else {
        let rest = c.stack.drop_last();
        match c.stack.last() {
            Frame::Problem => {
                let st = rest.push(Frame::ProblemAfterCheckYield);
                if T::should_yield_spec(c.sol, c.best, c.maxiter) {
                    c.with_best_stack(seq_printable::<T::Simplification, T::P>(c.sol), st)
                } else {
                    c.with_stack(st)
                }
            },
            Frame::ProblemAfterCheckYield => {
                if T::should_continue_spec(c.sol, c.best, c.maxiter) {
                    c.with_stack(rest.push(Frame::Simplify))
                } else {
                    c.with_stack(rest)
                }
            },
            Frame::Simplify => {
                if c.maxlabels == 0 || <<T as Auto>::P as SearchProblem>::num_labels_spec(
                    c.sol.current(),
                ) <= c.maxlabels {
                    let np = <<T as Auto>::P as SearchProblem>::canonical_spec(
                        <<T as Auto>::P as SearchProblem>::speedup_spec(c.sol.current()),
                    );
                    c.with_sol_stack(
                        c.sol.push_step(Step::Speedup(np)),
                        rest.push(Frame::SimplifyAfterProblemCall).push(Frame::Problem),
                    )
                } else {
                    c.with_stack(
                        rest.push(
                            Frame::SimplifySimplify(T::simplifications_spec(c.sol, c.maxlabels)),
                        ),
                    )
                }
            },
            Frame::SimplifyAfterProblemCall => c.with_sol_stack(c.sol.pop_step(), rest),
            Frame::SimplifySimplify(rem) => {
                if rem.len() > 0 {
                    let s0 = rem[0];
                    c.with_sol_stack(
                        c.sol.push_step(
                            Step::Simplify(s0, T::simplify_spec(c.sol.current(), s0)),
                        ),
                        rest.push(Frame::SimplifySimplify(rem.drop_first())).push(
                            Frame::SimplifyAfterSimplifyCall,
                        ).push(Frame::Problem),
                    )
                } else {
                    c.with_stack(rest)
                }
            },
            Frame::SimplifyAfterSimplifyCall => c.with_sol_stack(c.sol.pop_step(), rest),
        }
    }
}

/// The machine after `n` transitions.
pub open spec fn iterate<T: Auto>(c: Config<T>, n: nat) -> Config<T>
    decreases n,
{
    if n == 0 {
        c
    } else {
        spec_step(iterate(c, (n - 1) as nat))
    }
}

/// Everything the machine emits in its first `n` transitions, in order.
pub open spec fn run_emitted<T: Auto>(c: Config<T>, n: nat) -> Seq<SeqM<T>>
    decreases n,
{
    if n == 0 {
        Seq::empty()
    } else {
        run_emitted(c, (n - 1) as nat) + (match step_out(iterate(c, (n - 1) as nat)) {
            Some(x) => seq![x],
            None => Seq::empty(),
        })
    }
}

/// Appending a frame adds its own undo contribution and nothing else.
pub proof fn lemma_undo_count_push<R>(stack: Seq<Frame<R>>, f: Frame<R>)
    ensures
        undo_count(stack.push(f)) == undo_count(stack) + (if is_undo_frame(f) {
            1nat
        } else {
            0nat
        }),
{
    assert(stack.push(f).drop_last() =~= stack);
    assert(stack.push(f).last() == f);
}

/// A prefix never holds more undo frames than the whole stack.
pub proof fn lemma_undo_count_take_le<R>(stack: Seq<Frame<R>>, j: int)
    requires
        0 <= j <= stack.len(),
    ensures
        undo_count(stack.take(j)) <= undo_count(stack),
    decreases stack.len(),
{
    if j == stack.len() {
        assert(stack.take(j) =~= stack);
    } else {
        assert(stack.drop_last().take(j) =~= stack.take(j));
        lemma_undo_count_take_le(stack.drop_last(), j);
    }
}

/// Appending a step adds its own speedup contribution and nothing else.
pub proof fn lemma_count_speedups_push<S, M>(steps: Seq<Step<S, M>>, s: Step<S, M>)
    ensures
        count_speedups(steps.push(s)) == count_speedups(steps) + (if s is Speedup {
            1nat
        } else {
            0nat
        }),
{
    assert(steps.push(s).drop_last() =~= steps);
    assert(steps.push(s).last() == s);
}

/// A path rooted in an `Initial` step has fewer speedup steps than entries.
pub proof fn lemma_count_speedups_bound<S, M>(steps: Seq<Step<S, M>>)
    requires
        steps.len() >= 1,
        steps[0] is Initial,
    ensures
        count_speedups(steps) < steps.len(),
    decreases steps.len(),
{
    if steps.len() == 1 {
        assert(steps.last() == steps[0]);
        assert(count_speedups(steps.drop_last()) == 0) by {
            reveal_with_fuel(count_speedups, 2);
        }
    } else {
        assert(steps.drop_last()[0] == steps[0]);
        lemma_count_speedups_bound(steps.drop_last());
    }
}

/// Once the stack is empty the machine stays put and emits nothing more.
pub proof fn lemma_empty_stable<T: Auto>(c: Config<T>, n: nat, k: nat)
    requires
        iterate(c, n).stack.len() == 0,
    ensures
        iterate(c, n + k) == iterate(c, n),
        run_emitted(c, n + k) == run_emitted(c, n),
    decreases k,
{
    if k > 0 {
        lemma_empty_stable(c, n, (k - 1) as nat);
        assert(n + k == (n + (k - 1) as nat) + 1);
        assert(iterate(c, n + k) == spec_step(iterate(c, n + (k - 1) as nat)));
        assert(step_out(iterate(c, n + (k - 1) as nat)) is None);
        assert(run_emitted(c, n + k) =~= run_emitted(c, n + (k - 1) as nat));
    }
}

/// Equivalence of the two exploration forms: however many transitions two
/// complete runs of the machine take from the same start, they emit exactly
/// the same paths in the same order.  The draining search and the resumable
/// iterator are both specified as complete runs, so their outputs agree
/// element for element.
pub proof fn lemma_machine_deterministic<T: Auto>(c: Config<T>, n1: nat, n2: nat)
    requires
        iterate(c, n1).stack.len() == 0,
        iterate(c, n2).stack.len() == 0,
    ensures
        run_emitted(c, n1) == run_emitted(c, n2),
        iterate(c, n1) == iterate(c, n2),
{
    if n1 <= n2 {
        lemma_empty_stable(c, n1, (n2 - n1) as nat);
    } else {
        lemma_empty_stable(c, n2, (n1 - n2) as nat);
    }
}

/// Transitions compose: running `n1` transitions and then `n2` more is the
/// same as running `n1 + n2` from the start.
pub proof fn lemma_iterate_additive<T: Auto>(c: Config<T>, n1: nat, n2: nat)
    ensures
        iterate(c, n1 + n2) == iterate(iterate(c, n1), n2),
        run_emitted(c, n1 + n2) == run_emitted(c, n1) + run_emitted(iterate(c, n1), n2),
    decreases n2,
{
    if n2 == 0 {
        assert(run_emitted(c, n1) + run_emitted(iterate(c, n1), 0) =~= run_emitted(c, n1));
    } else {
        lemma_iterate_additive(c, n1, (n2 - 1) as nat);
        assert(n1 + n2 == (n1 + (n2 - 1) as nat) + 1);
        assert(run_emitted(c, n1 + n2) =~= run_emitted(c, n1) + run_emitted(
            iterate(c, n1),
            n2,
        ));
    }
}


/// Facts available when the top frame is an undo marker: the live path still
/// holds the step that the marker must undo.
pub proof fn lemma_inv_top_undo<T: Auto>(c: Config<T>)
    requires
        machine_inv(c),
        c.stack.len() > 0,
        is_undo_frame(c.stack.last()),
    ensures
        c.sol.steps.len() >= 2,
        undo_count(c.stack) >= 1,
        c.stack.last() is SimplifyAfterProblemCall ==> c.sol.steps.last() is Speedup
            && c.sol.speedups >= 1,
        c.stack.last() is SimplifyAfterSimplifyCall ==> c.sol.steps.last() is Simplify,
{
    let n = c.stack.len() as int;
    assert(c.stack.take(n) =~= c.stack);
    assert(frame_ok(c, n - 1));
    assert(undo_count(c.stack) == undo_count(c.stack.drop_last()) + 1);
    assert(c.sol.steps.last() == c.sol.steps[c.sol.steps.len() - 1]);
    if c.stack.last() is SimplifyAfterProblemCall {
        assert(count_speedups(c.sol.steps) >= 1);
    }
}

/// One transition preserves the machine invariant.
pub proof fn lemma_step_preserves_inv<T: Auto>(c: Config<T>)
    requires
        machine_inv(c),
    ensures
        machine_inv(spec_step(c)),
{
    if c.stack.len() == 0 {
        return;
    }
    let n = c.stack.len() as int;
    let rest = c.stack.drop_last();
    let c1 = spec_step(c);
    assert(c.stack.take(n) =~= c.stack);
    assert(frame_ok(c, n - 1));
    lemma_undo_count_take_le(c.stack, n - 1);
    // Prefix frames keep their undo counts and their step entries.
    assert(forall|i: int|
        0 <= i <= rest.len() ==> rest.take(i) =~= c.stack.take(i));
    match c.stack.last() {
        Frame::Problem => {
            let st = rest.push(Frame::ProblemAfterCheckYield);
            lemma_undo_count_push(rest, Frame::ProblemAfterCheckYield);
            assert(undo_count(c.stack) == undo_count(rest));
            assert(c1.stack == st);
            assert forall|i: int| 0 <= i < c1.stack.len() implies #[trigger] frame_ok(c1, i) by {
                if i < rest.len() {
                    assert(frame_ok(c, i));
                    assert(st.take(i + 1) =~= c.stack.take(i + 1));
                    assert(st[i] == c.stack[i]);
                }
            }
        },
        Frame::ProblemAfterCheckYield => {
            assert(undo_count(c.stack) == undo_count(rest));
            if T::should_continue_spec(c.sol, c.best, c.maxiter) {
                let st = rest.push(Frame::Simplify);
                lemma_undo_count_push(rest, Frame::Simplify);
                assert forall|i: int| 0 <= i < c1.stack.len() implies #[trigger] frame_ok(c1, i)
                    by {
                    if i < rest.len() {
                        assert(frame_ok(c, i));
                        assert(st.take(i + 1) =~= c.stack.take(i + 1));
                        assert(st[i] == c.stack[i]);
                    }
                }
            } else {
                assert forall|i: int| 0 <= i < c1.stack.len() implies #[trigger] frame_ok(c1, i)
                    by {
                    assert(frame_ok(c, i));
                    assert(rest.take(i + 1) =~= c.stack.take(i + 1));
                    assert(rest[i] == c.stack[i]);
                }
            }
        },
        Frame::Simplify => {
            assert(undo_count(c.stack) == undo_count(rest));
            let len = c.sol.steps.len() as int;
            assert(c.sol.steps.last() == c.sol.steps[len - 1]);
            if c.maxlabels == 0 || <<T as Auto>::P as SearchProblem>::num_labels_spec(
                c.sol.current(),
            ) <= c.maxlabels {
                let np = <<T as Auto>::P as SearchProblem>::canonical_spec(
                    <<T as Auto>::P as SearchProblem>::speedup_spec(c.sol.current()),
                );
                let step = Step::<T::Simplification, <<T as Auto>::P as SearchProblem>::Model>::Speedup(np);
                let st = rest.push(Frame::SimplifyAfterProblemCall).push(Frame::Problem);
                lemma_undo_count_push(rest, Frame::SimplifyAfterProblemCall);
                lemma_undo_count_push(
                    rest.push(Frame::SimplifyAfterProblemCall),
                    Frame::Problem,
                );
                lemma_count_speedups_push(c.sol.steps, step);
                assert(c1.sol.steps == c.sol.steps.push(step));
                assert(c1.sol.steps[0] == c.sol.steps[0]);
                assert(c1.sol.wf());
                assert(c1.sol.steps.len() == c.base + undo_count(st));
                assert forall|i: int| 0 <= i < c1.stack.len() implies #[trigger] frame_ok(c1, i)
                    by {
                    if i < rest.len() {
                        assert(frame_ok(c, i));
                        assert(st.take(i + 1) =~= c.stack.take(i + 1));
                        assert(st[i] == c.stack[i]);
                        lemma_undo_count_take_le(c.stack, i + 1);
                        assert(c1.sol.steps[c.base - 1 + undo_count(c.stack.take(i + 1))]
                            == c.sol.steps[c.base - 1 + undo_count(c.stack.take(i + 1))]);
                    } else if i == rest.len() {
                        assert(st.take(i + 1) =~= rest.push(Frame::SimplifyAfterProblemCall));
                        assert(undo_count(st.take(i + 1)) == undo_count(rest) + 1);
                        assert(c1.sol.steps[len] is Speedup);
                    }
                }
            } else {
                let cands = T::simplifications_spec(c.sol, c.maxlabels);
                let st = rest.push(Frame::SimplifySimplify(cands));
                lemma_undo_count_push(rest, Frame::SimplifySimplify(cands));
                assert forall|i: int| 0 <= i < c1.stack.len() implies #[trigger] frame_ok(c1, i)
                    by {
                    if i < rest.len() {
                        assert(frame_ok(c, i));
                        assert(st.take(i + 1) =~= c.stack.take(i + 1));
                        assert(st[i] == c.stack[i]);
                    } else {
                        assert(st.take(i + 1) =~= st);
                        assert(undo_count(st) == undo_count(c.stack));
                        assert(c.sol.current() == step_problem(c.sol.steps[len - 1]));
                    }
                }
            }
        },
        Frame::SimplifyAfterProblemCall => {
            lemma_inv_top_undo(c);
            let len = c.sol.steps.len() as int;
            assert(undo_count(c.stack) == undo_count(rest) + 1);
            assert(c1.sol.steps == c.sol.steps.drop_last());
            assert(c1.sol.steps[0] == c.sol.steps[0]);
            assert(count_speedups(c.sol.steps) == count_speedups(c.sol.steps.drop_last()) + 1);
            assert(c1.sol.wf());
            assert forall|i: int| 0 <= i < c1.stack.len() implies #[trigger] frame_ok(c1, i) by {
                assert(frame_ok(c, i));
                assert(rest.take(i + 1) =~= c.stack.take(i + 1));
                assert(rest[i] == c.stack[i]);
                lemma_undo_count_take_le(rest, i + 1);
                assert(c.base - 1 + undo_count(rest.take(i + 1)) < len - 1);
                assert(c1.sol.steps[c.base - 1 + undo_count(c.stack.take(i + 1))]
                    == c.sol.steps[c.base - 1 + undo_count(c.stack.take(i + 1))]);
            }
        },
        Frame::SimplifySimplify(rem) => {
            assert(undo_count(c.stack) == undo_count(rest));
            let len = c.sol.steps.len() as int;
            assert(c.sol.steps.last() == c.sol.steps[len - 1]);
            if rem.len() > 0 {
                let s0 = rem[0];
                let step = Step::<T::Simplification, <<T as Auto>::P as SearchProblem>::Model>::Simplify(
                    s0,
                    T::simplify_spec(c.sol.current(), s0),
                );
                let st1 = rest.push(Frame::SimplifySimplify(rem.drop_first()));
                let st2 = st1.push(Frame::SimplifyAfterSimplifyCall);
                let st = st2.push(Frame::Problem);
                lemma_undo_count_push(rest, Frame::SimplifySimplify(rem.drop_first()));
                lemma_undo_count_push(st1, Frame::SimplifyAfterSimplifyCall);
                lemma_undo_count_push(st2, Frame::Problem);
                lemma_count_speedups_push(c.sol.steps, step);
                assert(c1.sol.steps == c.sol.steps.push(step));
                assert(c1.sol.steps[0] == c.sol.steps[0]);
                assert(c1.sol.wf());
                assert(c1.sol.steps.len() == c.base + undo_count(st));
                assert forall|i: int| 0 <= i < c1.stack.len() implies #[trigger] frame_ok(c1, i)
                    by {
                    if i < rest.len() {
                        assert(frame_ok(c, i));
                        assert(st.take(i + 1) =~= c.stack.take(i + 1));
                        assert(st[i] == c.stack[i]);
                        lemma_undo_count_take_le(c.stack, i + 1);
                        assert(c1.sol.steps[c.base - 1 + undo_count(c.stack.take(i + 1))]
                            == c.sol.steps[c.base - 1 + undo_count(c.stack.take(i + 1))]);
                    } else if i == rest.len() {
                        assert(st.take(i + 1) =~= st1);
                        assert(undo_count(st1) == undo_count(c.stack));
                        assert(c1.sol.steps[c.base - 1 + undo_count(st1)] == c.sol.steps[len - 1]);
                        assert(frame_ok(c, n - 1));
                    } else if i == rest.len() + 1 {
                        assert(st.take(i + 1) =~= st2);
                        assert(undo_count(st2) == undo_count(c.stack) + 1);
                        assert(c1.sol.steps[len] is Simplify);
                    }
                }
            } else {
                assert forall|i: int| 0 <= i < c1.stack.len() implies #[trigger] frame_ok(c1, i)
                    by {
                    assert(frame_ok(c, i));
                    assert(rest.take(i + 1) =~= c.stack.take(i + 1));
                    assert(rest[i] == c.stack[i]);
                }
            }
        },
        Frame::SimplifyAfterSimplifyCall => {
            lemma_inv_top_undo(c);
            let len = c.sol.steps.len() as int;
            assert(undo_count(c.stack) == undo_count(rest) + 1);
            assert(c1.sol.steps == c.sol.steps.drop_last());
            assert(c1.sol.steps[0] == c.sol.steps[0]);
            assert(count_speedups(c.sol.steps) == count_speedups(c.sol.steps.drop_last()));
            assert(c1.sol.wf());
            assert forall|i: int| 0 <= i < c1.stack.len() implies #[trigger] frame_ok(c1, i) by {
                assert(frame_ok(c, i));
                assert(rest.take(i + 1) =~= c.stack.take(i + 1));
                assert(rest[i] == c.stack[i]);
                lemma_undo_count_take_le(rest, i + 1);
                assert(c.base - 1 + undo_count(rest.take(i + 1)) < len - 1);
                assert(c1.sol.steps[c.base - 1 + undo_count(c.stack.take(i + 1))]
                    == c.sol.steps[c.base - 1 + undo_count(c.stack.take(i + 1))]);
            }
        },
    }
}


/// The search state: the live path, the captured best, and the two budgets.
pub struct AutomaticSimplifications<T: Auto> {
    /// The live path being extended and undone.
    pub sol: Sequence<T::Simplification, T::P>,
    /// The most recently captured improvement.
    pub best: Sequence<T::Simplification, T::P>,
    /// Bound on speedup steps, interpreted by the strategy.
    pub maxiter: usize,
    /// Label-count threshold deciding between speedup and simplification;
    /// zero always prefers speedup.
    pub maxlabels: usize,
}

/// The machine configuration formed by a search state, an executable frame
/// stack, and the ghost start data.
pub open spec fn cfg<T: Auto>(
    a: AutomaticSimplifications<T>,
    st: Seq<FrameE<T>>,
    base: nat,
    orig: <<T as Auto>::P as SearchProblem>::Model,
) -> Config<T> {
    Config {
        sol: a.sol@,
        best: a.best@,
        maxiter: a.maxiter,
        maxlabels: a.maxlabels,
        stack: st.map(|i: int, f: FrameE<T>| frame_model::<T>(f)),
        base,
        orig,
    }
}

/// Process the top marker: exactly one transition of the abstract machine.
fn machine_step<T: Auto>(
    auto: &mut AutomaticSimplifications<T>,
    stack: &mut Vec<FrameE<T>>,
    Ghost(base): Ghost<nat>,
    Ghost(orig): Ghost<<<T as Auto>::P as SearchProblem>::Model>,
) -> (emit: Option<Sequence<T::Simplification, T::P>>)
    requires
        old(stack)@.len() > 0,
        machine_inv(cfg(*old(auto), old(stack)@, base, orig)),
    ensures
        cfg(*final(auto), final(stack)@, base, orig) == spec_step(
            cfg(*old(auto), old(stack)@, base, orig),
        ),
        machine_inv(cfg(*final(auto), final(stack)@, base, orig)),
        match emit {
            Some(s) => step_out(cfg(*old(auto), old(stack)@, base, orig)) == Some(s@),
            None => step_out(cfg(*old(auto), old(stack)@, base, orig)) is None,
        },
{
    let ghost c0 = cfg(*old(auto), old(stack)@, base, orig);
    let ghost sfull = old(stack)@;
    proof {
        lemma_step_preserves_inv(c0);
        assert(c0.stack.len() > 0);
    }
    let top = stack.pop().unwrap();
    proof {
        assert(stack@ =~= sfull.drop_last());
        assert(c0.stack.last() == frame_model::<T>(sfull.last()));
        assert(stack@.map(|i: int, f: FrameE<T>| frame_model::<T>(f)) =~= c0.stack.drop_last());
    }
    match top {
        Frame::Problem => {
            stack.push(Frame::ProblemAfterCheckYield);
            proof {
                assert(stack@.map(|i: int, f: FrameE<T>| frame_model::<T>(f)) =~= c0
                    .stack
                    .drop_last()
                    .push(Frame::ProblemAfterCheckYield));
            }
            let y = T::should_yield(&auto.sol, &auto.best, auto.maxiter);
            if y {
                let mut nb = auto.sol.duplicate();
                nb.make_printable();
                let out = nb.duplicate();
                auto.best = nb;
                proof {
                    assert(cfg(*auto, stack@, base, orig) =~~= spec_step(c0));
                }
                Some(out)
            } else {
                proof {
                    assert(cfg(*auto, stack@, base, orig) =~~= spec_step(c0));
                }
                None
            }
        },
        Frame::ProblemAfterCheckYield => {
            let ct = T::should_continue(&auto.sol, &auto.best, auto.maxiter);
            if ct {
                stack.push(Frame::Simplify);
                proof {
                    assert(stack@.map(|i: int, f: FrameE<T>| frame_model::<T>(f)) =~= c0
                        .stack
                        .drop_last()
                        .push(Frame::Simplify));
                    assert(cfg(*auto, stack@, base, orig) =~~= spec_step(c0));
                }
            } else {
                proof {
                    assert(cfg(*auto, stack@, base, orig) =~~= spec_step(c0));
                }
            }
            None
        },
        Frame::Simplify => {
            let nl = auto.sol.current().num_labels();
            if auto.maxlabels == 0 || nl <= auto.maxlabels {
                proof {
                    assert(auto.sol@.steps.len() == auto.sol.steps@.len());
                    lemma_count_speedups_bound(auto.sol@.steps);
                }
                let _path_len = auto.sol.steps.len();
                auto.sol.push_speedup();
                stack.push(Frame::SimplifyAfterProblemCall);
                stack.push(Frame::Problem);
                proof {
                    assert(stack@.map(|i: int, f: FrameE<T>| frame_model::<T>(f)) =~= c0
                        .stack
                        .drop_last()
                        .push(Frame::SimplifyAfterProblemCall)
                        .push(Frame::Problem));
                    assert(cfg(*auto, stack@, base, orig) =~~= spec_step(c0));
                }
            } else {
                let cands = T::simplifications(&auto.sol, auto.maxlabels);
                stack.push(Frame::SimplifySimplify((cands, 0)));
                proof {
                    assert(stack@.last() == Frame::<(Vec<T::Simplification>, usize)>::SimplifySimplify((cands, 0)));
                    assert(cands@.skip(0) =~= cands@);
                    assert(stack@.map(|i: int, f: FrameE<T>| frame_model::<T>(f)) =~= c0
                        .stack
                        .drop_last()
                        .push(Frame::SimplifySimplify(T::simplifications_spec(c0.sol, c0.maxlabels))));
                    assert(cfg(*auto, stack@, base, orig) =~~= spec_step(c0));
                }
            }
            None
        },
        Frame::SimplifyAfterProblemCall => {
            proof {
                lemma_inv_top_undo(c0);
            }
            auto.sol.pop_speedup();
            proof {
                assert(cfg(*auto, stack@, base, orig) =~~= spec_step(c0));
            }
            None
        },
        Frame::SimplifySimplify((cands, idx)) => {
            let ghost rem = match c0.stack.last() {
                Frame::SimplifySimplify(r) => r,
                _ => Seq::empty(),
            };
            if idx < cands.len() {
                let s = cands[idx];
                proof {
                    assert(rem == cands@.skip(idx as int));
                    assert(rem[0] == cands@[idx as int]);
                    assert(rem.drop_first() =~= cands@.skip(idx as int + 1));
                }
                let np = T::simplify(auto.sol.current(), s);
                auto.sol.push_simplification(s, np);
                stack.push(Frame::SimplifySimplify((cands, idx + 1)));
                stack.push(Frame::SimplifyAfterSimplifyCall);
                stack.push(Frame::Problem);
                proof {
                    assert(stack@.map(|i: int, f: FrameE<T>| frame_model::<T>(f)) =~= c0
                        .stack
                        .drop_last()
                        .push(Frame::SimplifySimplify(rem.drop_first()))
                        .push(Frame::SimplifyAfterSimplifyCall)
                        .push(Frame::Problem));
                    assert(cfg(*auto, stack@, base, orig) =~~= spec_step(c0));
                }
            } else {
                proof {
                    assert(rem.len() == 0);
                    assert(cfg(*auto, stack@, base, orig) =~~= spec_step(c0));
                }
            }
            None
        },
        Frame::SimplifyAfterSimplifyCall => {
            proof {
                lemma_inv_top_undo(c0);
            }
            auto.sol.pop_simplification();
            proof {
                assert(cfg(*auto, stack@, base, orig) =~~= spec_step(c0));
            }
            None
        },
    }
}


/// Shorthand for the problem model type of a strategy.
pub type ModelOf<T> = <<T as Auto>::P as SearchProblem>::Model;

/// The invariant survives any number of transitions.
pub proof fn lemma_iterate_inv<T: Auto>(c: Config<T>, n: nat)
    requires
        machine_inv(c),
    ensures
        machine_inv(iterate(c, n)),
    decreases n,
{
    if n > 0 {
        lemma_iterate_inv(c, (n - 1) as nat);
        lemma_step_preserves_inv(iterate(c, (n - 1) as nat));
    }
}

/// A transition never changes the budgets, the base length, or the root.
pub proof fn lemma_step_constants<T: Auto>(c: Config<T>)
    ensures
        spec_step(c).maxiter == c.maxiter,
        spec_step(c).maxlabels == c.maxlabels,
        spec_step(c).base == c.base,
        spec_step(c).orig == c.orig,
{
}

/// No transition ever touches the part of the live path that was present
/// when the machine started.
pub proof fn lemma_step_prefix<T: Auto>(c: Config<T>)
    requires
        machine_inv(c),
    ensures
        spec_step(c).sol.steps.take(c.base as int) =~= c.sol.steps.take(c.base as int),
{
    if c.stack.len() > 0 && is_undo_frame(c.stack.last()) {
        lemma_inv_top_undo(c);
        assert(undo_count(c.stack) >= 1);
    }
}

/// The prefix stability of `lemma_step_prefix`, over any number of
/// transitions.
pub proof fn lemma_iterate_prefix<T: Auto>(c: Config<T>, n: nat)
    requires
        machine_inv(c),
    ensures
        iterate(c, n).sol.steps.take(c.base as int) =~= c.sol.steps.take(c.base as int),
    decreases n,
{
    if n > 0 {
        lemma_iterate_prefix(c, (n - 1) as nat);
        lemma_iterate_inv(c, (n - 1) as nat);
        lemma_step_prefix(iterate(c, (n - 1) as nat));
        lemma_step_constants(iterate(c, (n - 1) as nat));
        assert(iterate(c, (n - 1) as nat).base == c.base) by {
            lemma_iterate_constants(c, (n - 1) as nat);
        }
    }
}

/// Budgets, base, and root survive any number of transitions.
pub proof fn lemma_iterate_constants<T: Auto>(c: Config<T>, n: nat)
    ensures
        iterate(c, n).maxiter == c.maxiter,
        iterate(c, n).maxlabels == c.maxlabels,
        iterate(c, n).base == c.base,
        iterate(c, n).orig == c.orig,
    decreases n,
{
    if n > 0 {
        lemma_iterate_constants(c, (n - 1) as nat);
        lemma_step_constants(iterate(c, (n - 1) as nat));
    }
}

/// Root invariant: everything the machine ever emits is a non-empty path
/// whose first step is `Initial` and carries the original problem, finalized
/// for presentation and otherwise unchanged.
pub proof fn lemma_emitted_root<T: Auto>(c: Config<T>, n: nat)
    requires
        machine_inv(c),
    ensures
        forall|k: int|
            0 <= k < run_emitted(c, n).len() ==> (#[trigger] run_emitted(c, n)[k]).steps.len()
                >= 1 && run_emitted(c, n)[k].steps[0]
                == Step::<T::Simplification, ModelOf<T>>::Initial(
                <<T as Auto>::P as SearchProblem>::printable_spec(c.orig),
            ),
    decreases n,
{
    if n > 0 {
        lemma_emitted_root(c, (n - 1) as nat);
        lemma_iterate_inv(c, (n - 1) as nat);
        lemma_iterate_constants(c, (n - 1) as nat);
        let cp = iterate(c, (n - 1) as nat);
        match step_out(cp) {
            Some(e) => {
                assert(e.steps[0] == step_printable::<T::Simplification, T::P>(
                    cp.sol.steps[0],
                ));
                assert(run_emitted(c, n) == run_emitted(c, (n - 1) as nat).push(e));
            },
            None => {
                assert(run_emitted(c, n) =~= run_emitted(c, (n - 1) as nat));
            },
        }
    }
}

/// Stack symmetry, one subtree at a time: processing an undo marker returns
/// the live path and its speedup counter exactly to their content from
/// before the step it undoes was pushed — the untouched prefix of the
/// current path.
pub proof fn lemma_stack_symmetry<T: Auto>(c: Config<T>)
    requires
        machine_inv(c),
        c.stack.len() > 0,
        is_undo_frame(c.stack.last()),
    ensures
        spec_step(c).sol == c.sol.pop_step(),
        spec_step(c).sol.steps =~= c.sol.steps.take(c.sol.steps.len() - 1),
        spec_step(c).sol.wf(),
        spec_step(c).stack == c.stack.drop_last(),
{
    lemma_inv_top_undo(c);
    lemma_step_preserves_inv(c);
    assert(c.sol.steps.take(c.sol.steps.len() - 1) =~= c.sol.steps.drop_last());
}

/// The machine's only production point: a transition emits exactly when its
/// top marker is the improvement check and the strategy reports an
/// improvement, and what it emits is the finalized live path.
pub proof fn lemma_emission_characterization<T: Auto>(c: Config<T>, n: nat)
    ensures
        run_emitted(c, n + 1).len() <= run_emitted(c, n).len() + 1,
        step_out(iterate(c, n)) is Some <==> (iterate(c, n).stack.len() > 0 && iterate(
            c,
            n,
        ).stack.last() is Problem && T::should_yield_spec(
            iterate(c, n).sol,
            iterate(c, n).best,
            iterate(c, n).maxiter,
        )),
        step_out(iterate(c, n)) is Some ==> run_emitted(c, n + 1) == run_emitted(c, n).push(
            seq_printable::<T::Simplification, T::P>(iterate(c, n).sol),
        ),
        step_out(iterate(c, n)) is None ==> run_emitted(c, n + 1) == run_emitted(c, n),
{
    match step_out(iterate(c, n)) {
        Some(e) => {
            assert(run_emitted(c, n + 1) =~= run_emitted(c, n).push(e));
        },
        None => {
            assert(run_emitted(c, n + 1) =~= run_emitted(c, n));
        },
    }
}

/// Whether a modelled path consists of the initial step followed by speedup
/// steps only.
pub open spec fn speedup_only_steps<S, M>(steps: Seq<Step<S, M>>) -> bool {
    forall|i: int| 1 <= i < steps.len() ==> steps[i] is Speedup
}

/// Whether a stack holds no candidate-iteration frames and no
/// simplification-undo frames.
pub open spec fn no_candidate_frames<R>(stack: Seq<Frame<R>>) -> bool {
    forall|i: int|
        0 <= i < stack.len() ==> !((#[trigger] stack[i]) is SimplifySimplify)
            && !(stack[i] is SimplifyAfterSimplifyCall)
}

/// Budget respected, label side: with a zero label threshold — which always
/// prefers speedup — or when every problem's label count lies within the
/// threshold, the machine never takes a simplification step, so the live
/// path and every emitted path hold only the initial step and speedup
/// steps.
pub proof fn lemma_speedup_only<T: Auto>(c: Config<T>, n: nat)
    requires
        machine_inv(c),
        c.maxlabels == 0 || forall|m: ModelOf<T>|
            #[trigger] <<T as Auto>::P as SearchProblem>::num_labels_spec(m) <= c.maxlabels,
        speedup_only_steps(c.sol.steps),
        no_candidate_frames(c.stack),
    ensures
        speedup_only_steps(iterate(c, n).sol.steps),
        no_candidate_frames(iterate(c, n).stack),
        forall|k: int|
            0 <= k < run_emitted(c, n).len() ==> speedup_only_steps(
                (#[trigger] run_emitted(c, n)[k]).steps,
            ),
    decreases n,
{
    if n > 0 {
        lemma_speedup_only(c, (n - 1) as nat);
        lemma_iterate_inv(c, (n - 1) as nat);
        lemma_iterate_constants(c, (n - 1) as nat);
        let cp = iterate(c, (n - 1) as nat);
        let c1 = iterate(c, n);
        assert(c1 == spec_step(cp));
        if cp.stack.len() > 0 {
            let rest = cp.stack.drop_last();
            assert(forall|i: int| 0 <= i < rest.len() ==> rest[i] == cp.stack[i]);
            match cp.stack.last() {
                Frame::Problem => {
                    assert(cp.stack.last() == cp.stack[cp.stack.len() - 1]);
                    match step_out(cp) {
                        Some(e) => {
                            assert(run_emitted(c, n) == run_emitted(c, (n - 1) as nat).push(e));
                            assert(speedup_only_steps(e.steps)) by {
                                assert(forall|i: int|
                                    1 <= i < e.steps.len() ==> e.steps[i]
                                        == step_printable::<T::Simplification, T::P>(
                                        cp.sol.steps[i],
                                    ));
                            }
                        },
                        None => {
                            assert(run_emitted(c, n) =~= run_emitted(c, (n - 1) as nat));
                        },
                    }
                },
                Frame::Simplify => {
                    assert(cp.maxlabels == 0 || <<T as Auto>::P as SearchProblem>::num_labels_spec(
                        cp.sol.current(),
                    ) <= cp.maxlabels);
                    assert(run_emitted(c, n) =~= run_emitted(c, (n - 1) as nat));
                },
                _ => {
                    assert(run_emitted(c, n) =~= run_emitted(c, (n - 1) as nat));
                },
            }
        } else {
            assert(run_emitted(c, n) =~= run_emitted(c, (n - 1) as nat));
        }
    }
}


/// The machine configuration at the start of an exploration: one entering
/// marker, the live path as base, its root as the original problem.
pub open spec fn start_config<T: Auto>(a: AutomaticSimplifications<T>) -> Config<T> {
    Config {
        sol: a.sol@,
        best: a.best@,
        maxiter: a.maxiter,
        maxlabels: a.maxlabels,
        stack: seq![Frame::Problem],
        base: a.sol@.steps.len(),
        orig: step_problem(a.sol@.steps[0]),
    }
}

/// A well-formed live path makes the start configuration satisfy the machine
/// invariant.
pub proof fn lemma_start_inv<T: Auto>(a: AutomaticSimplifications<T>)
    requires
        a.sol@.wf(),
    ensures
        machine_inv(start_config(a)),
{
    let c = start_config::<T>(a);
    assert(undo_count(c.stack) == 0) by {
        reveal_with_fuel(undo_count, 3);
        assert(c.stack.drop_last() =~= Seq::<FrameM<T>>::empty());
    }
    assert forall|i: int| 0 <= i < c.stack.len() implies #[trigger] frame_ok(c, i) by {
        assert(c.stack[i] == Frame::<Seq<T::Simplification>>::Problem);
    }
}

/// What a finished or suspended draining run guarantees: after `n`
/// transitions the search state matches the machine and the collected output
/// is everything emitted so far.
pub open spec fn run_outcome<T: Auto>(
    c0: Config<T>,
    n: nat,
    a: AutomaticSimplifications<T>,
    out: Seq<SeqM<T>>,
    done: bool,
) -> bool {
    &&& iterate(c0, n).sol == a.sol@
    &&& iterate(c0, n).best == a.best@
    &&& run_emitted(c0, n) == out
    &&& (done <==> iterate(c0, n).stack.len() == 0)
}

impl<T: Auto> AutomaticSimplifications<T> {
    /// A fresh search: the live path and the best path both hold only the
    /// initial problem.
    pub fn new(p: T::P, maxiter: usize, maxlabels: usize) -> (r: Self)
        ensures
            r.sol@.steps =~= seq![
                Step::<T::Simplification, ModelOf<T>>::Initial(p.model()),
            ],
            r.sol@.speedups == 0,
            r.sol@.wf(),
            r.best@ == r.sol@,
            r.maxiter == maxiter,
            r.maxlabels == maxlabels,
    {
        let sol = Sequence::new(p);
        let best = sol.duplicate();
        AutomaticSimplifications { sol, best, maxiter, maxlabels }
    }

    /// Drive the whole exploration, collecting every improvement in the
    /// order the tree walk discovers them.
    ///
    /// `fuel` bounds the number of machine transitions; the returned flag
    /// says whether the tree was fully explored within that bound.  On a
    /// complete run the live path is restored to exactly its starting
    /// content, and the collected output is the unique complete emission of
    /// the machine, the same one the resumable iterator produces.
    pub fn run(&mut self, fuel: usize) -> (r: (Vec<Sequence<T::Simplification, T::P>>, bool))
        requires
            old(self).sol@.wf(),
        ensures
            final(self).maxiter == old(self).maxiter,
            final(self).maxlabels == old(self).maxlabels,
            exists|n: nat|
                #![trigger iterate(start_config(*old(self)), n)]
                n <= fuel && (r.1 || n == fuel) && run_outcome(
                    start_config(*old(self)),
                    n,
                    *final(self),
                    r.0@.map(|k: int, s: Sequence<T::Simplification, T::P>| s@),
                    r.1,
                ),
            r.1 ==> final(self).sol@ == old(self).sol@,
            r.0@.len() > 0 ==> final(self).best@ == r.0@[r.0@.len() - 1]@,
            r.0@.len() == 0 ==> final(self).best@ == old(self).best@,
            forall|k: int|
                0 <= k < r.0@.len() ==> (#[trigger] r.0@[k])@.steps.len() >= 1
                    && r.0@[k]@.steps[0] == Step::<T::Simplification, ModelOf<T>>::Initial(
                    <<T as Auto>::P as SearchProblem>::printable_spec(
                        step_problem(old(self).sol@.steps[0]),
                    ),
                ),
    {
        let ghost c0 = start_config(*self);
        let ghost base = c0.base;
        let ghost orig = c0.orig;
        proof {
            lemma_start_inv(*self);
        }
        let mut stack: Vec<FrameE<T>> = Vec::new();
        stack.push(Frame::Problem);
        let mut out: Vec<Sequence<T::Simplification, T::P>> = Vec::new();
        let mut i: usize = 0;
        proof {
            assert(stack@.map(|k: int, f: FrameE<T>| frame_model::<T>(f)) =~= c0.stack);
            assert(cfg(*self, stack@, base, orig) =~~= c0);
            assert(run_emitted(c0, 0) =~= out@.map(
                |k: int, s: Sequence<T::Simplification, T::P>| s@,
            ));
        }
        while i < fuel && stack.len() != 0
            invariant
                i <= fuel,
                machine_inv(c0),
                c0 == start_config(*old(self)),
                c0.base == base,
                c0.orig == orig,
                iterate(c0, i as nat) == cfg(*self, stack@, base, orig),
                run_emitted(c0, i as nat) == out@.map(
                    |k: int, s: Sequence<T::Simplification, T::P>| s@,
                ),
            decreases fuel - i,
        {
            proof {
                lemma_iterate_inv(c0, i as nat);
            }
            let ghost prev = cfg(*self, stack@, base, orig);
            let e = machine_step(self, &mut stack, Ghost(base), Ghost(orig));
            proof {
                assert(iterate(c0, i as nat + 1) == spec_step(prev));
            }
            match e {
                Some(s) => {
                    out.push(s);
                    proof {
                        assert(run_emitted(c0, i as nat + 1) =~= out@.map(
                            |k: int, s2: Sequence<T::Simplification, T::P>| s2@,
                        ));
                    }
                },
                None => {
                    proof {
                        assert(run_emitted(c0, i as nat + 1) =~= out@.map(
                            |k: int, s2: Sequence<T::Simplification, T::P>| s2@,
                        ));
                    }
                },
            }
            i = i + 1;
        }
        let done = stack.len() == 0;
        proof {
            let n = i as nat;
            lemma_iterate_constants(c0, n);
            assert(self.maxiter == c0.maxiter);
            assert(self.maxlabels == c0.maxlabels);
            assert(run_outcome(
                c0,
                n,
                *self,
                out@.map(|k: int, s: Sequence<T::Simplification, T::P>| s@),
                done,
            ));
            if done {
                lemma_iterate_prefix(c0, n);
                lemma_iterate_inv(c0, n);
                assert(c0.sol.steps.take(base as int) =~= c0.sol.steps);
                assert(iterate(c0, n).sol.steps =~= iterate(c0, n).sol.steps.take(base as int))
                    by {
                    assert(iterate(c0, n).sol.steps.len() == base + undo_count(
                        iterate(c0, n).stack,
                    ));
                }
                assert(self.sol@ =~= c0.sol);
            }
            lemma_emitted_root(c0, n);
            assert(forall|k: int|
                0 <= k < out@.len() ==> run_emitted(c0, n)[k] == (#[trigger] out@[k])@);
            lemma_best_tracks_emission(c0, n);
            let em = run_emitted(c0, n);
            if out@.len() > 0 {
                assert(em.len() == out@.len());
                assert(em.last() == out@[out@.len() - 1]@);
                assert(self.best@ == iterate(c0, n).best);
            } else {
                assert(em.len() == 0);
                assert(self.best@ == c0.best);
            }
        }
        (out, done)
    }

    /// Hand the search over to a resumable iterator that produces the same
    /// improvements one at a time.
    pub fn into_iter(self) -> (it: AutomaticSimplificationsIntoIterator<T>)
        requires
            self.sol@.wf(),
        ensures
            it.inv(),
            it.start_cfg() == start_config(self),
            machine_inv(it.start_cfg()),
            it.icfg() == it.start_cfg(),
            it.produced() == Seq::<SeqM<T>>::empty(),
            it.machine_tied(),
    {
        let ghost c0 = start_config(self);
        proof {
            lemma_start_inv(self);
        }
        let mut stack: Vec<FrameE<T>> = Vec::new();
        stack.push(Frame::Problem);
        let it = AutomaticSimplificationsIntoIterator {
            auto: self,
            stack,
            start: Ghost(c0),
            emitted: Ghost(Seq::empty()),
            taken: Ghost(0),
        };
        proof {
            assert(it.stack@.map(|k: int, f: FrameE<T>| frame_model::<T>(f)) =~= c0.stack);
            assert(it.icfg() =~~= c0);
            assert(it.icfg() == iterate(it.start_cfg(), 0));
            assert(it.produced() =~= run_emitted(it.start_cfg(), 0));
        }
        it
    }
}

/// The resumable form of the exploration: the search state plus the explicit
/// continuation stack, suspended between pulls.
pub struct AutomaticSimplificationsIntoIterator<T: Auto> {
    auto: AutomaticSimplifications<T>,
    stack: Vec<FrameE<T>>,
    start: Ghost<Config<T>>,
    emitted: Ghost<Seq<SeqM<T>>>,
    taken: Ghost<nat>,
}

impl<T: Auto> AutomaticSimplificationsIntoIterator<T> {
    /// The machine configuration this iterator started from.
    pub closed spec fn start_cfg(self) -> Config<T> {
        self.start@
    }

    /// The machine configuration this iterator currently holds.
    pub closed spec fn icfg(self) -> Config<T> {
        cfg(self.auto, self.stack@, self.start@.base, self.start@.orig)
    }

    /// Everything this iterator has handed out so far.
    pub closed spec fn produced(self) -> Seq<SeqM<T>> {
        self.emitted@
    }

    /// The iterator invariant: the current state is reachable from the start
    /// configuration, and the ghost log holds exactly what was emitted on
    /// the way.
    pub closed spec fn inv(self) -> bool {
        &&& machine_inv(self.start@)
        &&& self.start@.sol.steps.len() == self.start@.base
        &&& iterate(self.start@, self.taken@) == self.icfg()
        &&& run_emitted(self.start@, self.taken@) == self.emitted@
    }

    /// The public tie to the abstract machine: the iterator's state is some
    /// number of transitions from its start configuration, and what it has
    /// produced is exactly what the machine emitted on the way.  Together
    /// with `lemma_machine_deterministic`, a drained iterator therefore
    /// produced the same paths, in the same order, as a completed draining
    /// run from the same start.
    pub open spec fn machine_tied(self) -> bool {
        exists|k: nat|
            #![trigger iterate(self.start_cfg(), k)]
            self.icfg() == iterate(self.start_cfg(), k) && self.produced() == run_emitted(
                self.start_cfg(),
                k,
            )
    }

    /// Whether the exploration is exhausted: no marker is left, so no
    /// further pull can produce a value.
    pub fn is_done(&self) -> (r: bool)
        ensures
            r <==> self.icfg().stack.len() == 0,
    {
        self.stack.len() == 0
    }

    /// Process exactly one marker.  Returns the new best path when this
    /// transition is the production point, and nothing otherwise; on an
    /// exhausted iterator it is a no-op.
    pub fn step(&mut self) -> (r: Option<Sequence<T::Simplification, T::P>>)
        requires
            old(self).inv(),
        ensures
            final(self).inv(),
            final(self).start_cfg() == old(self).start_cfg(),
            final(self).icfg() == spec_step(old(self).icfg()),
            final(self).machine_tied(),
            match r {
                Some(s) => {
                    &&& final(self).produced() == old(self).produced().push(s@)
                    &&& step_out(old(self).icfg()) == Some(s@)
                    &&& s@.steps.len() >= 1
                    &&& s@.steps[0] == Step::<T::Simplification, ModelOf<T>>::Initial(
                        <<T as Auto>::P as SearchProblem>::printable_spec(
                            old(self).start_cfg().orig,
                        ),
                    )
                },
                None => {
                    &&& final(self).produced() == old(self).produced()
                    &&& step_out(old(self).icfg()) is None
                },
            },
            old(self).icfg().stack.len() == 0 ==> r is None && final(self).icfg() == old(
                self,
            ).icfg(),
    {
        proof {
            lemma_iterate_inv(self.start@, self.taken@);
            lemma_iterate_constants(self.start@, self.taken@);
        }
        if self.stack.len() == 0 {
            proof {
                self.taken@ = self.taken@ + 1;
                assert(self.icfg().stack.len() == 0);
                assert(iterate(self.start@, self.taken@) == spec_step(
                    iterate(self.start@, (self.taken@ - 1) as nat),
                ));
                assert(run_emitted(self.start@, self.taken@) =~= run_emitted(
                    self.start@,
                    (self.taken@ - 1) as nat,
                ));
            }
            proof {
                assert(self.machine_tied()) by {
                    assert(iterate(self.start_cfg(), self.taken@) == self.icfg());
                }
            }
            None
        } else {
            let ghost prev = self.icfg();
            let ghost c0 = self.start@;
            let e = machine_step(
                &mut self.auto,
                &mut self.stack,
                Ghost(self.start@.base),
                Ghost(self.start@.orig),
            );
            proof {
                self.taken@ = self.taken@ + 1;
                assert(iterate(c0, self.taken@) == spec_step(prev));
                match &e {
                    Some(s) => {
                        self.emitted@ = self.emitted@.push(s@);
                        assert(run_emitted(c0, self.taken@) =~= self.emitted@);
                        assert(s@ == seq_printable::<T::Simplification, T::P>(prev.sol));
                        assert(s@.steps[0] == step_printable::<T::Simplification, T::P>(
                            prev.sol.steps[0],
                        ));
                    },
                    None => {
                        assert(run_emitted(c0, self.taken@) =~= self.emitted@);
                    },
                }
                assert(self.machine_tied()) by {
                    assert(iterate(self.start_cfg(), self.taken@) == self.icfg());
                }
            }
            e
        }
    }

    /// Pull the next improvement, processing at most `fuel` markers.
    ///
    /// Returns nothing when the exploration is exhausted — or when the fuel
    /// ran out first, which `is_done` distinguishes.  On exhaustion the live
    /// path has been unwound back to exactly the starting path.
    pub fn next(&mut self, fuel: usize) -> (r: Option<Sequence<T::Simplification, T::P>>)
        requires
            old(self).inv(),
        ensures
            final(self).inv(),
            final(self).start_cfg() == old(self).start_cfg(),
            final(self).machine_tied(),
            exists|steps_used: nat|
                #![trigger iterate(old(self).icfg(), steps_used)]
                steps_used <= fuel && final(self).icfg() == iterate(
                    old(self).icfg(),
                    steps_used,
                ) && final(self).produced() == old(self).produced() + run_emitted(
                    old(self).icfg(),
                    steps_used,
                ) && (r is None ==> steps_used == fuel
                    || final(self).icfg().stack.len() == 0),
            match r {
                Some(s) => {
                    &&& final(self).produced() == old(self).produced().push(s@)
                    &&& s@.steps.len() >= 1
                    &&& s@.steps[0] == Step::<T::Simplification, ModelOf<T>>::Initial(
                        <<T as Auto>::P as SearchProblem>::printable_spec(
                            old(self).start_cfg().orig,
                        ),
                    )
                },
                None => final(self).produced() == old(self).produced(),
            },
            old(self).icfg().stack.len() == 0 ==> r is None && final(self).icfg() == old(
                self,
            ).icfg(),
            final(self).icfg().stack.len() == 0 ==> final(self).icfg().sol == old(
                self,
            ).start_cfg().sol,
    {
        let mut j: usize = 0;
        let mut r: Option<Sequence<T::Simplification, T::P>> = None;
        while j < fuel && r.is_none()
            invariant
                self.inv(),
                self.start_cfg() == old(self).start_cfg(),
                j <= fuel,
                self.icfg() == iterate(old(self).icfg(), j as nat),
                self.produced() == old(self).produced() + run_emitted(
                    old(self).icfg(),
                    j as nat,
                ),
                old(self).icfg().stack.len() == 0 ==> r is None && self.icfg() == old(
                    self,
                ).icfg(),
                match r {
                    Some(s) => self.produced() == old(self).produced().push(s@)
                        && s@.steps.len() >= 1 && s@.steps[0] == Step::<
                        T::Simplification,
                        ModelOf<T>,
                    >::Initial(
                        <<T as Auto>::P as SearchProblem>::printable_spec(
                            self.start_cfg().orig,
                        ),
                    ),
                    None => self.produced() == old(self).produced(),
                },
            decreases fuel - j,
        {
            let ghost at = self.icfg();
            let ghost was = self.produced();
            r = self.step();
            j = j + 1;
            proof {
                assert(self.icfg() == iterate(old(self).icfg(), j as nat)) by {
                    assert(self.icfg() == spec_step(at));
                    assert(at == iterate(old(self).icfg(), (j - 1) as nat));
                }
                assert(self.produced() == old(self).produced() + run_emitted(
                    old(self).icfg(),
                    j as nat,
                )) by {
                    match &r {
                        Some(s) => {
                            assert(step_out(at) == Some(s@));
                            assert(run_emitted(old(self).icfg(), j as nat) =~= run_emitted(
                                old(self).icfg(),
                                (j - 1) as nat,
                            ).push(s@));
                            assert(self.produced() =~= old(self).produced() + run_emitted(
                                old(self).icfg(),
                                j as nat,
                            ));
                        },
                        None => {
                            assert(step_out(at) is None);
                            assert(run_emitted(old(self).icfg(), j as nat) =~= run_emitted(
                                old(self).icfg(),
                                (j - 1) as nat,
                            ));
                        },
                    }
                }
                if old(self).icfg().stack.len() == 0 {
                    assert(at.stack.len() == 0);
                    assert(r is None && self.icfg() == at);
                }
            }
        }
        proof {
            assert(iterate(old(self).icfg(), 0) == old(self).icfg());
            assert(run_emitted(old(self).icfg(), 0) =~= Seq::<SeqM<T>>::empty());
            assert(self.produced() == old(self).produced() + run_emitted(
                old(self).icfg(),
                0,
            ) ==> self.produced() =~= old(self).produced());
            assert(self.machine_tied()) by {
                assert(iterate(self.start_cfg(), self.taken@) == self.icfg());
            }
        }
        proof {
            if self.icfg().stack.len() == 0 {
                let n = self.taken@;
                let c0 = self.start@;
                lemma_iterate_prefix(c0, n);
                lemma_iterate_inv(c0, n);
                assert(c0.sol.steps.take(c0.base as int) =~= c0.sol.steps);
                assert(iterate(c0, n).sol.steps =~= iterate(c0, n).sol.steps.take(
                    c0.base as int,
                )) by {
                    assert(iterate(c0, n).sol.steps.len() == c0.base + undo_count(
                        iterate(c0, n).stack,
                    ));
                }
                assert(self.auto.sol@ =~= c0.sol);
                assert(self.icfg().sol =~= c0.sol);
            }
        }
        r
    }
}


/// Whether a stack's expansion markers sit only on top: an expansion marker
/// is processed by the very next transition after it is pushed.
pub open spec fn expand_frames_on_top<R>(stack: Seq<Frame<R>>) -> bool {
    forall|i: int|
        0 <= i < stack.len() ==> ((#[trigger] stack[i]) is Simplify ==> i == stack.len() - 1)
}

/// Budget respected, speedup side: when the strategy's continuation test
/// enforces the speedup budget — it never continues a path whose speedup
/// counter has reached `maxiter` — the live path and everything the machine
/// emits stay within that budget.
pub proof fn lemma_speedup_budget<T: Auto>(c: Config<T>, n: nat)
    requires
        machine_inv(c),
        forall|path: SeqM<T>, best: SeqM<T>|
            #[trigger] T::should_continue_spec(path, best, c.maxiter) ==> path.speedups
                < c.maxiter,
        c.sol.speedups <= c.maxiter,
        expand_frames_on_top(c.stack),
        c.stack.len() > 0 && c.stack.last() is Simplify ==> c.sol.speedups < c.maxiter,
    ensures
        iterate(c, n).sol.speedups <= c.maxiter,
        expand_frames_on_top(iterate(c, n).stack),
        iterate(c, n).stack.len() > 0 && iterate(c, n).stack.last() is Simplify ==> iterate(
            c,
            n,
        ).sol.speedups < c.maxiter,
        forall|k: int|
            0 <= k < run_emitted(c, n).len() ==> (#[trigger] run_emitted(c, n)[k]).speedups
                <= c.maxiter,
    decreases n,
{
    if n > 0 {
        lemma_speedup_budget(c, (n - 1) as nat);
        lemma_iterate_inv(c, (n - 1) as nat);
        lemma_iterate_constants(c, (n - 1) as nat);
        let cp = iterate(c, (n - 1) as nat);
        let c1 = iterate(c, n);
        assert(c1 == spec_step(cp));
        if cp.stack.len() > 0 {
            let rest = cp.stack.drop_last();
            assert(forall|i: int| 0 <= i < rest.len() ==> rest[i] == cp.stack[i]);
            match cp.stack.last() {
                Frame::Problem => {
                    assert(expand_frames_on_top(c1.stack));
                    match step_out(cp) {
                        Some(e) => {
                            assert(run_emitted(c, n) == run_emitted(c, (n - 1) as nat).push(e));
                            assert(e.speedups == cp.sol.speedups);
                        },
                        None => {
                            assert(run_emitted(c, n) =~= run_emitted(c, (n - 1) as nat));
                        },
                    }
                },
                Frame::ProblemAfterCheckYield => {
                    assert(run_emitted(c, n) =~= run_emitted(c, (n - 1) as nat));
                    if T::should_continue_spec(cp.sol, cp.best, cp.maxiter) {
                        assert(cp.sol.speedups < c.maxiter);
                        assert(c1.stack.last() is Simplify);
                        assert(expand_frames_on_top(c1.stack));
                    } else {
                        assert(expand_frames_on_top(c1.stack));
                    }
                },
                Frame::Simplify => {
                    assert(run_emitted(c, n) =~= run_emitted(c, (n - 1) as nat));
                    assert(cp.sol.speedups < c.maxiter);
                    assert(expand_frames_on_top(c1.stack));
                },
                Frame::SimplifyAfterProblemCall => {
                    assert(run_emitted(c, n) =~= run_emitted(c, (n - 1) as nat));
                    assert(expand_frames_on_top(c1.stack));
                },
                Frame::SimplifySimplify(rem) => {
                    assert(run_emitted(c, n) =~= run_emitted(c, (n - 1) as nat));
                    assert(expand_frames_on_top(c1.stack));
                },
                Frame::SimplifyAfterSimplifyCall => {
                    assert(run_emitted(c, n) =~= run_emitted(c, (n - 1) as nat));
                    assert(expand_frames_on_top(c1.stack));
                },
            }
        } else {
            assert(run_emitted(c, n) =~= run_emitted(c, (n - 1) as nat));
        }
    }
}


/// Undo counts of stack prefixes grow with the prefix.
pub proof fn lemma_undo_count_take_mono<R>(stack: Seq<Frame<R>>, a: int, b: int)
    requires
        0 <= a <= b <= stack.len(),
    ensures
        undo_count(stack.take(a)) <= undo_count(stack.take(b)),
{
    assert(stack.take(b).take(a) =~= stack.take(a));
    lemma_undo_count_take_le(stack.take(b), a);
}

/// One transition never touches the frames below the top one, nor the part
/// of the live path they own.
pub proof fn lemma_step_stable_below<T: Auto>(c: Config<T>, lvl: int)
    requires
        machine_inv(c),
        1 <= lvl <= c.stack.len(),
    ensures
        spec_step(c).stack.len() >= c.stack.len() - 1,
        spec_step(c).stack.take(lvl - 1) =~= c.stack.take(lvl - 1),
        spec_step(c).sol.steps.take((c.base + undo_count(c.stack.take(lvl - 1))) as int) =~= c.sol.steps
            .take((c.base + undo_count(c.stack.take(lvl - 1))) as int),
{
    let rest = c.stack.drop_last();
    let p: int = (c.base + undo_count(c.stack.take(lvl - 1))) as int;
    assert(forall|i: int| 0 <= i < rest.len() ==> rest[i] == c.stack[i]);
    assert(spec_step(c).stack.take(lvl - 1) =~= c.stack.take(lvl - 1));
    if c.stack.len() > 0 && is_undo_frame(c.stack.last()) {
        lemma_inv_top_undo(c);
        lemma_undo_count_take_mono(c.stack, lvl - 1, c.stack.len() - 1);
        assert(c.stack.take(c.stack.len() as int) =~= c.stack);
        assert(undo_count(c.stack) == undo_count(c.stack.take(c.stack.len() - 1)) + 1) by {
            assert(c.stack.take(c.stack.len() - 1) =~= c.stack.drop_last());
        }
        assert(p <= c.sol.steps.len() - 1);
        assert(spec_step(c).sol.steps =~= c.sol.steps.drop_last());
        assert(spec_step(c).sol.steps.take(p) =~= c.sol.steps.take(p));
    } else {
        assert(p <= c.sol.steps.len()) by {
            lemma_undo_count_take_mono(c.stack, lvl - 1, c.stack.len() as int);
            assert(c.stack.take(c.stack.len() as int) =~= c.stack);
        }
        assert(spec_step(c).sol.steps.take(p) =~= c.sol.steps.take(p));
    }
}

/// The stability of `lemma_step_stable_below` over a whole stretch of
/// transitions that never pop below the given level.
pub proof fn lemma_stable_below<T: Auto>(c: Config<T>, n: nat, lvl: int)
    requires
        machine_inv(c),
        1 <= lvl,
        forall|j: nat| j < n ==> (#[trigger] iterate(c, j)).stack.len() >= lvl,
        c.stack.len() >= lvl,
    ensures
        iterate(c, n).stack.len() >= lvl - 1,
        iterate(c, n).stack.take(lvl - 1) =~= c.stack.take(lvl - 1),
        iterate(c, n).sol.steps.take((c.base + undo_count(c.stack.take(lvl - 1))) as int) =~= c.sol.steps
            .take((c.base + undo_count(c.stack.take(lvl - 1))) as int),
    decreases n,
{
    if n == 0 {
    } else {
        assert(iterate(c, (n - 1) as nat).stack.len() >= lvl);
        lemma_stable_below(c, (n - 1) as nat, lvl);
        lemma_iterate_inv(c, (n - 1) as nat);
        lemma_iterate_constants(c, (n - 1) as nat);
        let cp = iterate(c, (n - 1) as nat);
        lemma_step_stable_below(cp, lvl);
        assert(iterate(c, n) == spec_step(cp));
        assert(undo_count(cp.stack.take(lvl - 1)) == undo_count(c.stack.take(lvl - 1)));
        assert(iterate(c, n).sol.steps.take((c.base + undo_count(c.stack.take(lvl - 1))) as int)
            =~= c.sol.steps.take((c.base + undo_count(c.stack.take(lvl - 1))) as int));
    }
}

/// Stack symmetry: a subtree is entered at a non-undo marker; at the first
/// transition count where every marker of that subtree has been popped, the
/// live path — its step list and its speedup counter — is bit for bit what
/// it was on entry, and the stack is exactly the entry stack less its top.
pub proof fn lemma_subtree_symmetry<T: Auto>(c: Config<T>, n: nat)
    requires
        machine_inv(c),
        c.stack.len() > 0,
        !is_undo_frame(c.stack.last()),
        forall|j: nat| j < n ==> (#[trigger] iterate(c, j)).stack.len() >= c.stack.len(),
        iterate(c, n).stack.len() == c.stack.len() - 1,
    ensures
        iterate(c, n).sol == c.sol,
        iterate(c, n).stack =~= c.stack.drop_last(),
{
    let lvl = c.stack.len() as int;
    let p: int = (c.base + undo_count(c.stack.take(lvl - 1))) as int;
    assert(n >= 1) by {
        if n == 0 {
            assert(iterate(c, 0).stack.len() == c.stack.len());
        }
    }
    lemma_stable_below(c, (n - 1) as nat, lvl);
    lemma_iterate_inv(c, (n - 1) as nat);
    lemma_iterate_constants(c, (n - 1) as nat);
    let cp = iterate(c, (n - 1) as nat);
    assert(iterate(c, n) == spec_step(cp)) by {
        assert(n == (n - 1) as nat + 1);
    }
    assert(cp.stack.len() >= lvl);
    assert(spec_step(cp).stack.len() >= cp.stack.len() - 1) by {
        lemma_step_stable_below(cp, lvl);
    }
    assert(cp.stack.len() == lvl);
    // The entry measure: the entry path owns exactly the steps below the
    // entered subtree.
    assert(c.sol.steps.len() == p) by {
        assert(c.stack.take(lvl) =~= c.stack);
        assert(undo_count(c.stack.take(lvl)) == undo_count(c.stack.take(lvl - 1))) by {
            assert(c.stack.take(lvl).drop_last() =~= c.stack.take(lvl - 1));
        }
    }
    // The final transition pops the top frame, leaving exactly the owned
    // prefix.
    lemma_step_stable_below(cp, lvl);
    assert(undo_count(cp.stack.take(lvl - 1)) == undo_count(c.stack.take(lvl - 1)));
    assert(iterate(c, n).stack =~= cp.stack.take(lvl - 1));
    assert(iterate(c, n).stack =~= c.stack.drop_last()) by {
        assert(c.stack.take(lvl - 1) =~= c.stack.drop_last());
    }
    let cn = iterate(c, n);
    assert(cn.sol.steps.len() == c.base + undo_count(cn.stack)) by {
        lemma_iterate_inv(c, n);
    }
    assert(undo_count(cn.stack) == undo_count(c.stack.take(lvl - 1)));
    assert(cn.sol.steps.len() == p);
    assert(cn.sol.steps.take(p) =~= c.sol.steps.take(p)) by {
        lemma_stable_below(c, n, lvl);
    }
    assert(cn.sol.steps =~= c.sol.steps) by {
        assert(cn.sol.steps.take(p) =~= cn.sol.steps);
        assert(c.sol.steps.take(p) =~= c.sol.steps);
    }
    assert(cn.sol.speedups == c.sol.speedups) by {
        lemma_iterate_inv(c, n);
        assert(cn.sol.wf());
        assert(c.sol.wf());
    }
    assert(cn.sol =~= c.sol);
}


/// Single improvement: when the strategy reports exactly one path as an
/// improvement — whatever the stored best is — everything the machine ever
/// emits is that path, finalized for presentation.  Together with
/// `lemma_emission_characterization`, an emission happens only at that
/// path's improvement check.
pub proof fn lemma_single_improvement<T: Auto>(c: Config<T>, n: nat, target: SeqM<T>)
    requires
        forall|path: SeqM<T>, best: SeqM<T>|
            #[trigger] T::should_yield_spec(path, best, c.maxiter) <==> path == target,
    ensures
        forall|k: int|
            0 <= k < run_emitted(c, n).len() ==> #[trigger] run_emitted(c, n)[k]
                == seq_printable::<T::Simplification, T::P>(target),
    decreases n,
{
    if n > 0 {
        lemma_single_improvement(c, (n - 1) as nat, target);
        lemma_iterate_constants(c, (n - 1) as nat);
        let cp = iterate(c, (n - 1) as nat);
        match step_out(cp) {
            Some(e) => {
                assert(T::should_yield_spec(cp.sol, cp.best, cp.maxiter));
                assert(cp.sol == target);
                assert(run_emitted(c, n) == run_emitted(c, (n - 1) as nat).push(e));
            },
            None => {
                assert(run_emitted(c, n) =~= run_emitted(c, (n - 1) as nat));
            },
        }
    }
}


/// The candidates a candidate-iteration marker still has to try.
pub open spec fn frame_rem<R>(f: Frame<R>) -> R
    recommends
        f is SimplifySimplify,
{
    match f {
        Frame::SimplifySimplify(r) => r,
        _ => vstd::pervasive::arbitrary(),
    }
}

/// Ordering: while the subtree of the first remaining candidate is open —
/// its undo marker has not been processed — the queue of the remaining
/// candidates rests untouched below it, and every path the machine explores
/// meanwhile branches through the first candidate's step.  Only after that
/// subtree closes does the machine turn to the next candidate, so
/// everything reported under the first candidate comes out strictly before
/// anything reported under a later one.
#[verifier::rlimit(50)]
pub proof fn lemma_candidate_order<T: Auto>(c: Config<T>, n: nat)
    requires
        machine_inv(c),
        c.stack.len() > 0,
        c.stack.last() is SimplifySimplify,
        frame_rem(c.stack.last()).len() > 0,
        forall|j: nat| 1 <= j <= n ==> (#[trigger] iterate(c, j)).stack.len() >= c.stack.len()
            + 2,
    ensures
        forall|j: nat|
            1 <= j <= n ==> {
                let rem = frame_rem(c.stack.last());
                let s0 = rem[0];
                &&& (#[trigger] iterate(c, j)).stack[c.stack.len() - 1]
                    == Frame::<Seq<T::Simplification>>::SimplifySimplify(rem.drop_first())
                &&& iterate(c, j).sol.steps.len() > c.sol.steps.len()
                &&& iterate(c, j).sol.steps[c.sol.steps.len() as int] == Step::<
                    T::Simplification,
                    ModelOf<T>,
                >::Simplify(s0, T::simplify_spec(c.sol.current(), s0))
            },
{
    let ln = c.stack.len() as int;
    let rem = frame_rem(c.stack.last());
    assert(c.stack.last() == Frame::<Seq<T::Simplification>>::SimplifySimplify(rem));
    let s0 = rem[0];
    let branch = Step::<T::Simplification, ModelOf<T>>::Simplify(
        s0,
        T::simplify_spec(c.sol.current(), s0),
    );
    let c1 = iterate(c, 1);
    assert(iterate(c, 0) == c);
    assert(c1 == spec_step(c));
    let p0 = c.sol.steps.len() as int;
    assert(c.sol.steps.len() == c.base + undo_count(c.stack)) by {
        assert(machine_inv(c));
    }
    assert(c1.sol.steps == c.sol.steps.push(branch));
    assert(c1.sol.steps[p0] == branch);
    assert(c1.stack[ln - 1] == Frame::<Seq<T::Simplification>>::SimplifySimplify(
        rem.drop_first(),
    )) by {
        assert(c1.stack == c.stack.drop_last().push(
            Frame::SimplifySimplify(rem.drop_first()),
        ).push(Frame::SimplifyAfterSimplifyCall).push(Frame::Problem));
    }
    assert(c1.stack.len() == ln + 2);
    lemma_step_preserves_inv(c);
    // The stable prefix of the opened subtree covers the queue marker, its
    // undo marker, and the first candidate's step.
    let lvl = ln + 2;
    assert(undo_count(c1.stack.take(lvl - 1)) == undo_count(c.stack) + 1) by {
        assert(c1.stack.take(lvl - 1) =~= c.stack.drop_last().push(
            Frame::SimplifySimplify(rem.drop_first()),
        ).push(Frame::SimplifyAfterSimplifyCall));
        lemma_undo_count_push(
            c.stack.drop_last().push(Frame::SimplifySimplify(rem.drop_first())),
            Frame::SimplifyAfterSimplifyCall,
        );
        lemma_undo_count_push(c.stack.drop_last(), Frame::SimplifySimplify(rem.drop_first()));
        assert(undo_count(c.stack) == undo_count(c.stack.drop_last()));
    }
    assert forall|j: nat| 1 <= j <= n implies {
        &&& (#[trigger] iterate(c, j)).stack[ln - 1] == Frame::<
            Seq<T::Simplification>,
        >::SimplifySimplify(rem.drop_first())
        &&& iterate(c, j).sol.steps.len() > p0
        &&& iterate(c, j).sol.steps[p0] == branch
    } by {
        lemma_iterate_additive(c, 1, (j - 1) as nat);
        assert(iterate(c1, (j - 1) as nat) == iterate(c, j));
        assert(forall|w: nat|
            w < (j - 1) as nat ==> (#[trigger] iterate(c1, w)).stack.len() >= lvl) by {
            assert forall|w: nat|
                w < (j - 1) as nat implies (#[trigger] iterate(c1, w)).stack.len() >= lvl by {
                lemma_iterate_additive(c, 1, w);
                assert(iterate(c1, w) == iterate(c, 1 + w));
                assert(1 <= 1 + w <= n);
            }
        }
        lemma_stable_below(c1, (j - 1) as nat, lvl);
        assert(iterate(c, j).stack.take(lvl - 1) =~= c1.stack.take(lvl - 1));
        assert(iterate(c, j).stack.len() >= lvl);
        assert(iterate(c, j).stack.take(lvl - 1)[ln - 1] == c1.stack.take(lvl - 1)[ln - 1]);
        assert(c1.stack.take(lvl - 1)[ln - 1] == c1.stack[ln - 1]);
        assert(iterate(c, j).stack.take(lvl - 1)[ln - 1] == iterate(c, j).stack[ln - 1]);
        assert(iterate(c, j).stack[ln - 1] == c1.stack[ln - 1]);
        let pfx = c1.base + undo_count(c1.stack.take(lvl - 1));
        assert(pfx == p0 + 1);
        assert(iterate(c, j).sol.steps.take(pfx as int) =~= c1.sol.steps.take(pfx as int));
        assert(c1.sol.steps.take(pfx as int)[p0] == branch);
        assert(iterate(c, j).sol.steps.len() >= pfx) by {
            lemma_iterate_inv(c1, (j - 1) as nat);
            lemma_iterate_constants(c1, (j - 1) as nat);
            assert(iterate(c, j).sol.steps.len() == c1.base + undo_count(iterate(c, j).stack));
            lemma_undo_count_take_mono(iterate(c, j).stack, lvl - 1, iterate(c, j).stack.len() as int);
            assert(iterate(c, j).stack.take(iterate(c, j).stack.len() as int) =~= iterate(c, j).stack);
            assert(undo_count(iterate(c, j).stack.take(lvl - 1)) == undo_count(c1.stack.take(lvl - 1)));
        }
        assert(iterate(c, j).sol.steps[p0] == branch);
    }
}


/// The best path is replaced wholesale at each emission and only there: at
/// any point of a run it equals the last emitted path, or the starting best
/// when nothing was emitted yet.
pub proof fn lemma_best_tracks_emission<T: Auto>(c: Config<T>, n: nat)
    ensures
        run_emitted(c, n).len() > 0 ==> iterate(c, n).best == run_emitted(c, n).last(),
        run_emitted(c, n).len() == 0 ==> iterate(c, n).best == c.best,
    decreases n,
{
    if n > 0 {
        lemma_best_tracks_emission(c, (n - 1) as nat);
        let cp = iterate(c, (n - 1) as nat);
        assert(iterate(c, n) == spec_step(cp));
        match step_out(cp) {
            Some(e) => {
                assert(run_emitted(c, n) == run_emitted(c, (n - 1) as nat).push(e));
                assert(spec_step(cp).best == e);
            },
            None => {
                assert(run_emitted(c, n) =~= run_emitted(c, (n - 1) as nat));
                assert(spec_step(cp).best == cp.best);
            },
        }
    }
}

} // verus!
