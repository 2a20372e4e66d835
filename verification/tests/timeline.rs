use mrcpsp::load::ProjectError;
use mrcpsp::timeline::ResourceQueue;

// Quantity 3, prior claims (t=0, q=2, d=2) and (t=0, q=1, d=4): two more
// units for one tick are first free at t=2, where free capacity rises to 2.
#[test]
fn earliest_fit_scans_past_busy_spans() {
    let mut queue = ResourceQueue::new(3);
    queue.commit(0, 2, 2);
    queue.commit(0, 4, 1);
    assert_eq!(queue.earliest_fit(2, 1, 0), Ok(2));
    assert_eq!(queue.earliest_fit(3, 1, 0), Ok(4));
    assert_eq!(queue.earliest_fit(1, 4, 2), Ok(2));
}

#[test]
fn earliest_fit_respects_earliest_allowed() {
    let mut queue = ResourceQueue::new(1);
    queue.commit(3, 2, 1);
    assert_eq!(queue.earliest_fit(1, 3, 0), Ok(0));
    assert_eq!(queue.earliest_fit(1, 4, 0), Ok(5));
    assert_eq!(queue.earliest_fit(1, 1, 4), Ok(5));
}

#[test]
fn zero_quantity_is_answered_with_earliest_allowed() {
    let mut queue = ResourceQueue::new(1);
    queue.commit(0, 10, 1);
    assert_eq!(queue.earliest_fit(0, 5, 3), Ok(3));
}

#[test]
fn overlarge_request_is_rejected() {
    let queue = ResourceQueue::new(2);
    assert_eq!(queue.earliest_fit(3, 1, 0), Err(ProjectError::InfeasibleRequest));
}
