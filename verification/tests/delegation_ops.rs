use sputnik_median::delegation::delegate;
use sputnik_median::delegation::undelegate;
use sputnik_median::delegation::DelegationError;

#[test]
fn delegate_adds_to_both_amounts() {
    assert_eq!(delegate(10, 100, 5), (10, 15, 105));
    assert_eq!(delegate(0, 0, 7), (0, 7, 7));
}

#[test]
fn undelegate_subtracts_or_rejects() {
    assert_eq!(undelegate(15, 105, 15), Ok((15, 0, 90)));
    assert_eq!(undelegate(15, 105, 5), Ok((15, 10, 100)));
    assert_eq!(
        undelegate(15, 105, 20),
        Err(DelegationError::InsufficientDelegation)
    );
}
