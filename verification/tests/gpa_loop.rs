use procrustes::{GpaLoop, GpaStep};

#[test]
fn zero_budget_never_iterates() {
    let control = GpaLoop::new(0);
    assert_eq!(control.start(), GpaStep::Exhausted);
    assert_eq!(control.iterations(), 0);
}

#[test]
fn converges_on_first_small_drift() {
    let mut control = GpaLoop::new(100);
    assert_eq!(control.start(), GpaStep::Iterate);
    assert_eq!(control.record(true), GpaStep::Converged);
    assert_eq!(control.iterations(), 1);
}

#[test]
fn converges_after_some_iterations() {
    let mut control = GpaLoop::new(10);
    assert_eq!(control.start(), GpaStep::Iterate);
    assert_eq!(control.record(false), GpaStep::Iterate);
    assert_eq!(control.record(false), GpaStep::Iterate);
    assert_eq!(control.record(true), GpaStep::Converged);
    assert_eq!(control.iterations(), 3);
}

#[test]
fn budget_of_one_is_exhausted_after_one_iteration() {
    let mut control = GpaLoop::new(1);
    assert_eq!(control.start(), GpaStep::Iterate);
    assert_eq!(control.record(false), GpaStep::Exhausted);
    assert_eq!(control.iterations(), 1);
}

#[test]
fn exhausted_run_counts_the_whole_budget() {
    let mut control = GpaLoop::new(5);
    let mut step = control.start();
    let mut runs = 0;
    while step == GpaStep::Iterate {
        runs += 1;
        step = control.record(false);
    }
    assert_eq!(step, GpaStep::Exhausted);
    assert_eq!(runs, 5);
    assert_eq!(control.iterations(), 5);
}
