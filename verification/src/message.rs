//! Gaussian beliefs in natural parameters.

use crate::scalar::Scalar;
use vstd::prelude::*;

verus! {

/// Gaussian message: `pi` is the precision `1 / sigma^2`, `tau` the
/// precision-weighted mean `mu / sigma^2`.  Combining independent beliefs
/// is componentwise addition in this form.
#[derive(Clone, Copy, Debug)]
pub struct Message<S> {
    pub pi: S,
    pub tau: S,
}

impl<S: Scalar> Message<S> {
    /// Value built by `from_mu_sigma2`.
    pub open spec fn spec_from_mu_sigma2(mu: S, sigma2: S) -> Message<S> {
        Message { pi: S::ratio_s(1, 1).div_s(sigma2), tau: mu.div_s(sigma2) }
    }

    /// Initializes a Message from the regular Gaussian parameters.
    pub fn from_mu_sigma2(mu: S, sigma2: S) -> (r: Message<S>)
        ensures
            r == Message::<S>::spec_from_mu_sigma2(mu, sigma2),
    {
        Message { pi: S::ratio(1, 1).div(sigma2), tau: mu.div(sigma2) }
    }

    /// Pair returned by `to_mu_sigma2`.
    pub open spec fn spec_to_mu_sigma2(self) -> (S, S) {
        let sigma2 = S::ratio_s(1, 1).div_s(self.pi);
        (self.tau.mul_s(sigma2), sigma2)
    }

    /// Returns the regular Gaussian parameters for a message.
    pub fn to_mu_sigma2(&self) -> (r: (S, S))
        ensures
            r == self.spec_to_mu_sigma2(),
    {
        let sigma2 = S::ratio(1, 1).div(self.pi);
        let mu = self.tau.mul(sigma2);
        (mu, sigma2)
    }

    /// Value built by `combine`.
    pub open spec fn spec_combine(self, rhs: Message<S>) -> Message<S> {
        Message { pi: self.pi.add_s(rhs.pi), tau: self.tau.add_s(rhs.tau) }
    }

    /// Adds the belief of the other message into this one.
    pub fn combine(&self, rhs: &Message<S>) -> (r: Message<S>)
        ensures
            r == self.spec_combine(*rhs),
    {
        Message { pi: self.pi.add(rhs.pi), tau: self.tau.add(rhs.tau) }
    }

    /// Value built by `exclude`.
    pub open spec fn spec_exclude(self, rhs: Message<S>) -> Message<S> {
        Message { pi: self.pi.sub_s(rhs.pi), tau: self.tau.sub_s(rhs.tau) }
    }

    /// Removes the belief of the other message from this one.
    pub fn exclude(&self, rhs: &Message<S>) -> (r: Message<S>)
        ensures
            r == self.spec_exclude(*rhs),
    {
        Message { pi: self.pi.sub(rhs.pi), tau: self.tau.sub(rhs.tau) }
    }
}

} // verus!
