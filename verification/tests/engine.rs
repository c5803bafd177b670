use round_eliminator::auto::{AutomaticSimplifications, Sequence, Step};
use round_eliminator::strategies::{BranchSearch, CounterProblem, SpeedupSearch};

const FUEL: usize = 100000;

fn start(labels: usize) -> CounterProblem {
    CounterProblem { labels, rounds: 0 }
}

#[test]
fn speedup_only_scenario_yields_one_path() {
    // A strategy that reports exactly the path with two speedup rounds,
    // within a budget of five, over a problem with no labels: the whole
    // exploration finds exactly one path, initial plus two speedups.
    let mut auto = AutomaticSimplifications::<SpeedupSearch>::new(start(0), 5, 0);
    let (out, done) = auto.run(FUEL);
    assert!(done);
    assert_eq!(out.len(), 1);
    let seq = &out[0];
    assert_eq!(seq.steps.len(), 3);
    assert_eq!(seq.speedups, 2);
    assert!(matches!(seq.steps[0], Step::Initial(p) if p == start(0)));
    assert!(matches!(seq.steps[1], Step::Speedup(_)));
    assert!(matches!(seq.steps[2], Step::Speedup(_)));
}

#[test]
fn iterator_matches_draining_run() {
    // The resumable iterator produces exactly the sequence the draining
    // run collects, element for element.
    let mut auto = AutomaticSimplifications::<BranchSearch>::new(start(5), 3, 1);
    let (out, done) = auto.run(FUEL);
    assert!(done);

    let auto2 = AutomaticSimplifications::<BranchSearch>::new(start(5), 3, 1);
    let mut it = auto2.into_iter();
    let mut collected = Vec::new();
    while let Some(seq) = it.next(FUEL) {
        collected.push(seq);
    }
    assert_eq!(collected.len(), out.len());
    for (a, b) in collected.iter().zip(out.iter()) {
        assert_eq!(a.speedups, b.speedups);
        assert_eq!(a.steps.len(), b.steps.len());
        for (sa, sb) in a.steps.iter().zip(b.steps.iter()) {
            match (sa, sb) {
                (Step::Initial(x), Step::Initial(y)) => assert_eq!(x, y),
                (Step::Speedup(x), Step::Speedup(y)) => assert_eq!(x, y),
                (Step::Simplify(sx, x), Step::Simplify(sy, y)) => {
                    assert_eq!(sx, sy);
                    assert_eq!(x, y);
                }
                _ => panic!("the two forms disagree on a step tag"),
            }
        }
    }
}

#[test]
fn iterator_is_exhausted_after_last_value() {
    let auto = AutomaticSimplifications::<SpeedupSearch>::new(start(0), 5, 0);
    let mut it = auto.into_iter();
    assert!(it.next(FUEL).is_some());
    assert!(it.next(FUEL).is_none());
    assert!(it.is_done());
    assert!(it.next(FUEL).is_none());
    assert!(it.next(FUEL).is_none());
}

#[test]
fn candidates_are_explored_in_order() {
    // The strategy offers candidates 0 and 1 at the root and reports both
    // children: the child under candidate 0 comes out strictly first.
    let mut auto = AutomaticSimplifications::<BranchSearch>::new(start(5), 3, 1);
    let (out, done) = auto.run(FUEL);
    assert!(done);
    assert_eq!(out.len(), 2);
    assert_eq!(out[0].steps.len(), 2);
    assert_eq!(out[1].steps.len(), 2);
    assert!(matches!(out[0].steps[1], Step::Simplify(0, _)));
    assert!(matches!(out[1].steps[1], Step::Simplify(1, _)));
}

#[test]
fn zero_threshold_always_prefers_speedup() {
    // With maxlabels of zero the engine never takes a simplification step,
    // whatever the label count: the branching strategy reports only paths
    // ending in a simplification, so nothing at all is reported, and the
    // lone explored branch is a speedup.
    let mut auto = AutomaticSimplifications::<BranchSearch>::new(start(5), 3, 0);
    let (out, done) = auto.run(FUEL);
    assert!(done);
    assert!(out.is_empty());
}

#[test]
fn speedup_budget_is_respected() {
    // With a label count within the threshold the engine only ever speeds
    // up, and the strategy's continuation test caps the depth: no reported
    // path holds a simplification step or more speedups than the budget.
    let maxiter = 4;
    let mut auto = AutomaticSimplifications::<SpeedupSearch>::new(start(0), maxiter, 0);
    let (out, done) = auto.run(FUEL);
    assert!(done);
    for seq in &out {
        assert!(seq.speedups <= maxiter);
        for step in seq.steps.iter().skip(1) {
            assert!(matches!(step, Step::Speedup(_)));
        }
    }
}

#[test]
fn live_path_is_restored_after_the_search() {
    // Stack symmetry, observed from outside: a complete run leaves the
    // live path exactly as it started.
    let mut auto = AutomaticSimplifications::<BranchSearch>::new(start(5), 3, 1);
    let (_, done) = auto.run(FUEL);
    assert!(done);
    assert_eq!(auto.sol.steps.len(), 1);
    assert_eq!(auto.sol.speedups, 0);
    assert!(matches!(auto.sol.steps[0], Step::Initial(p) if p == start(5)));
}

#[test]
fn every_result_is_rooted_in_the_original_problem() {
    let mut auto = AutomaticSimplifications::<BranchSearch>::new(start(5), 3, 1);
    let (out, _) = auto.run(FUEL);
    assert!(!out.is_empty());
    for seq in &out {
        assert!(matches!(seq.steps[0], Step::Initial(p) if p == start(5)));
    }
}

#[test]
fn partial_consumption_needs_no_cleanup() {
    // Taking only the first improvement and dropping the iterator is fine,
    // and the first improvement equals the first of a full run.
    let auto = AutomaticSimplifications::<BranchSearch>::new(start(5), 3, 1);
    let mut it = auto.into_iter();
    let first = it.next(FUEL).expect("one improvement exists");
    assert!(matches!(first.steps[1], Step::Simplify(0, _)));
    drop(it);
}

#[test]
fn sequence_exposes_its_current_problem() {
    let mut s: Sequence<usize, CounterProblem> = Sequence::new(start(3));
    assert_eq!(*s.current(), start(3));
    s.current_mut().labels = 7;
    assert_eq!(s.current().labels, 7);
    assert_eq!(s.speedups, 0);
    assert_eq!(s.steps.len(), 1);
}

#[test]
fn fuel_exhaustion_is_distinguishable_from_exhaustion() {
    // A pull with no fuel makes no progress and is not the end of the
    // exploration; is_done tells the two kinds of None apart.
    let auto = AutomaticSimplifications::<SpeedupSearch>::new(start(0), 5, 0);
    let mut it = auto.into_iter();
    assert!(it.next(0).is_none());
    assert!(!it.is_done());
    assert!(it.next(FUEL).is_some());

    let mut engine = AutomaticSimplifications::<SpeedupSearch>::new(start(0), 5, 0);
    let (out, done) = engine.run(1);
    assert!(!done);
    assert!(out.is_empty());
}

#[test]
fn best_is_the_last_reported_path() {
    let mut auto = AutomaticSimplifications::<BranchSearch>::new(start(5), 3, 1);
    let (out, done) = auto.run(FUEL);
    assert!(done);
    assert_eq!(out.len(), 2);
    let last = &out[out.len() - 1];
    assert_eq!(auto.best.steps.len(), last.steps.len());
    assert!(matches!(
        (&auto.best.steps[1], &last.steps[1]),
        (Step::Simplify(1, x), Step::Simplify(1, y)) if x == y
    ));
}
