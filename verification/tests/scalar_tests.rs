//! The fixed-point scalar: exact values of its operations.

use fooskill::message::Message;
use fooskill::scalar::Milli;
use fooskill::true_skill::{GameResult, TrueSkill};
use fooskill::Scalar;

#[test]
fn test_milli_arithmetic() {
    assert_eq!(Milli(1500).add(Milli(250)), Milli(1750));
    assert_eq!(Milli(1500).sub(Milli(2500)), Milli(-1000));
    // products and quotients are rescaled to thousandths
    assert_eq!(Milli(2000).mul(Milli(3000)), Milli(6000));
    assert_eq!(Milli(1000).div(Milli(4000)), Milli(250));
    assert_eq!(Milli::ratio(1, 3), Milli(333));
    assert_eq!(Milli::ratio(25, 1), Milli(25000));
    assert_eq!(Milli(-3000).neg(), Milli(3000));
}

#[test]
fn test_milli_saturates() {
    assert_eq!(Milli(i64::MAX).add(Milli(1)), Milli(i64::MAX));
    assert_eq!(Milli(i64::MIN).sub(Milli(1)), Milli(i64::MIN));
    assert_eq!(Milli(i64::MAX).mul(Milli(2000)), Milli(i64::MAX));
    assert_eq!(Milli(i64::MIN).neg(), Milli(i64::MAX));
}

#[test]
fn test_milli_division_by_zero_is_zero() {
    assert_eq!(Milli(5000).div(Milli(0)), Milli(0));
    assert_eq!(Milli::ratio(7, 0), Milli(0));
}

#[test]
fn test_milli_sqrt() {
    // sqrt(4.000) == 2.000 and sqrt(2.000) truncates to 1.414
    assert_eq!(Milli(4000).sqrt(), Milli(2000));
    assert_eq!(Milli(2000).sqrt(), Milli(1414));
    assert_eq!(Milli(0).sqrt(), Milli(0));
    assert_eq!(Milli(-1000).sqrt(), Milli(0));
}

#[test]
fn test_milli_exp_near_one() {
    // exp(0) is exactly one; nearby values stay close to e^x
    assert_eq!(Milli(0).exp(), Milli(1000));
    let e1 = Milli(1000).exp().0;
    assert!((e1 - 2718).abs() < 150);
    let em1 = Milli(-1000).exp().0;
    assert!((em1 - 368).abs() < 30);
}

#[test]
fn test_milli_order() {
    assert!(Milli(-5).le(Milli(0)));
    assert!(Milli(0).le(Milli(0)));
    assert!(!Milli(1).le(Milli(0)));
}

#[test]
fn test_tree_pass_deterministic_on_milli() {
    // the whole pass is a function of its inputs: two runs agree exactly
    let ts = TrueSkill::new(Milli(8333));
    let prior = Message::from_mu_sigma2(Milli(25000), Milli(69444));
    let once = ts.tree_pass(&vec![prior], &vec![prior], GameResult::Won);
    let twice = ts.tree_pass(&vec![prior], &vec![prior], GameResult::Won);
    assert_eq!(once.0[0].pi, twice.0[0].pi);
    assert_eq!(once.0[0].tau, twice.0[0].tau);
    let swapped = ts.tree_pass(&vec![prior], &vec![prior], GameResult::Lost);
    assert_eq!(once.0[0].pi, swapped.1[0].pi);
    assert_eq!(once.0[0].tau, swapped.1[0].tau);
}
