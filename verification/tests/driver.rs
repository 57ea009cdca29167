use jobshop::driver::finished;
use jobshop::driver::improves;

#[test]
fn a_cancelled_search_is_finished() {
    assert!(finished(0, None, true));
    assert!(finished(3, Some(10), true));
}

#[test]
fn a_search_without_cap_goes_on() {
    assert!(!finished(0, None, false));
    assert!(!finished(u64::MAX, None, false));
}

#[test]
fn a_search_ends_at_its_cap() {
    assert!(!finished(9, Some(10), false));
    assert!(finished(10, Some(10), false));
    assert!(finished(11, Some(10), false));
    assert!(finished(0, Some(0), false));
}

#[test]
fn the_first_makespan_is_an_improvement() {
    assert!(improves(None, 7));
    assert!(improves(None, u64::MAX));
}

#[test]
fn only_a_lower_makespan_is_an_improvement() {
    assert!(improves(Some(8), 7));
    assert!(!improves(Some(7), 7));
    assert!(!improves(Some(6), 7));
}
