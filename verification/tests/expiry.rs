use bohime::driver::{expiry_decision, Expiry};
use bohime::types::millis;

#[test]
fn a_leader_that_is_still_committing_lets_the_request_wait() {
    let decision = expiry_decision(true, millis(10), millis(1000));
    assert!(
        decision == Expiry::Wait,
        "a committing leader answered {decision:?}, which sends the client back to propose a duplicate",
    );
}

#[test]
fn a_leader_that_has_committed_nothing_still_redirects() {
    let decision = expiry_decision(true, millis(5000), millis(1000));
    assert!(
        decision == Expiry::Redirect,
        "a partitioned leader answered {decision:?}: the client would wait on a node that can \
         never commit its request",
    );
}

#[test]
fn a_follower_redirects_however_recently_it_committed() {
    let decision = expiry_decision(false, millis(10), millis(1000));
    assert!(decision == Expiry::Redirect, "a follower answered {decision:?} to an expired request",);
}
