//! A player's skill belief and its drift over time.

use crate::message::Message;
use crate::scalar::sat64;
use crate::scalar::Scalar;
use vstd::prelude::*;

verus! {

/// Seconds in the ninety-day characteristic timescale of the drift.
pub const DRIFT_SCALE_SECONDS: i64 = 7776000;

/// Represents a player: the combined belief of the player's skill, and the
/// moment (milliseconds since the epoch) at which it was estimated.
#[derive(Clone, Copy, Debug)]
pub struct Player<S> {
    skill: Message<S>,
    datetime: i64,
}

impl<S: Scalar> Player<S> {
    /// The stored skill belief, at the specification level.
    pub closed spec fn spec_skill(self) -> Message<S> {
        self.skill
    }

    /// The moment the stored belief was fit, at the specification level.
    pub closed spec fn spec_datetime(self) -> i64 {
        self.datetime
    }

    /// Mean of the prior skill belief.
    pub open spec fn spec_default_mean() -> S {
        S::ratio_s(25, 1)
    }

    pub fn default_mean() -> (r: S)
        ensures
            r == Self::spec_default_mean(),
    {
        S::ratio(25, 1)
    }

    /// Standard deviation of the prior skill belief.
    pub open spec fn spec_default_sigma() -> S {
        Self::spec_default_mean().div_s(S::ratio_s(3, 1))
    }

    pub fn default_sigma() -> (r: S)
        ensures
            r == Self::spec_default_sigma(),
    {
        Self::default_mean().div(S::ratio(3, 1))
    }

    /// The prior skill belief.
    pub open spec fn spec_default_skill() -> Message<S> {
        Message::<S>::spec_from_mu_sigma2(
            Self::spec_default_mean(),
            Self::spec_default_sigma().mul_s(Self::spec_default_sigma()),
        )
    }

    /// Makes a player holding the prior belief, fit at the given moment.
    pub fn default_at(datetime: i64) -> (r: Player<S>)
        ensures
            r.spec_skill() == Self::spec_default_skill(),
            r.spec_datetime() == datetime,
    {
        let sigma = Self::default_sigma();
        Player {
            skill: Message::from_mu_sigma2(Self::default_mean(), sigma.mul(sigma)),
            datetime,
        }
    }

    /// Rebuilds a player from stored parts.
    pub fn from_parts(skill: Message<S>, datetime: i64) -> (r: Player<S>)
        ensures
            r.spec_skill() == skill,
            r.spec_datetime() == datetime,
    {
        Player { skill, datetime }
    }

    /// The stored skill belief.
    pub fn skill(&self) -> (r: Message<S>)
        ensures
            r == self.spec_skill(),
    {
        self.skill
    }

    /// The moment the stored belief was fit.
    pub fn datetime(&self) -> (r: i64)
        ensures
            r == self.spec_datetime(),
    {
        self.datetime
    }

    /// Whole seconds between the stored moment and `query`.
    pub open spec fn spec_age_seconds(self, query: i64) -> int {
        crate::scalar::fdiv(query - self.spec_datetime(), 1000)
    }

    /// Belief drifted from the stored moment to `query`: the mean decays
    /// toward the prior mean and the variance toward the prior variance,
    /// both driven by `exp(-age / L)` with `L` ninety days.
    pub open spec fn spec_skill_at(self, query: i64) -> Message<S>
        recommends
            self.spec_datetime() <= query,
    {
        let decay = S::ratio_s(sat64(-self.spec_age_seconds(query)), DRIFT_SCALE_SECONDS).exp_s();
        let ms = self.spec_skill().spec_to_mu_sigma2();
        let mu0 = Self::spec_default_mean();
        let sigma02 = Self::spec_default_sigma().mul_s(Self::spec_default_sigma());
        let mu_drifted = ms.0.sub_s(mu0).mul_s(decay).add_s(mu0);
        let sigma2_drifted = sigma02.mul_s(S::ratio_s(1, 1).sub_s(decay.mul_s(decay))).add_s(
            decay.mul_s(decay).mul_s(ms.1),
        );
        Message::<S>::spec_from_mu_sigma2(mu_drifted, sigma2_drifted)
    }

    /// The belief drifted forward to `query`, or nothing when `query` lies
    /// before the stored moment: the temporal model only looks ahead.
    pub fn skill_at(&self, query: i64) -> (r: Option<Message<S>>)
        ensures
            r is Some <==> self.spec_datetime() <= query,
            r matches Some(m) ==> m == self.spec_skill_at(query),
    {
        if query < self.datetime {
            return None;
        }
        let delta: i128 = query as i128 - self.datetime as i128;
        let secs: i128 = crate::scalar::div_euclid_128(delta, 1000);
        proof {
            assert(secs == self.spec_age_seconds(query));
            assert(0 <= secs < 0x80000000000000) by {
                assert(crate::scalar::fdiv(delta as int, 1000) == vstd::math::abs(delta as int)
                    / 1000);
            }
            assert(sat64(-secs as int) == -secs as int);
        }
        let neg_secs: i64 = -(secs as i64);
        let decay = S::ratio(neg_secs, DRIFT_SCALE_SECONDS).exp();
        let ms = self.skill.to_mu_sigma2();
        let mu0 = Self::default_mean();
        let sigma0 = Self::default_sigma();
        let sigma02 = sigma0.mul(sigma0);
        let mu_drifted = ms.0.sub(mu0).mul(decay).add(mu0);
        let sigma2_drifted = sigma02.mul(S::ratio(1, 1).sub(decay.mul(decay))).add(
            decay.mul(decay).mul(ms.1),
        );
        Some(Message::from_mu_sigma2(mu_drifted, sigma2_drifted))
    }

    /// Replaces the stored belief and its moment.
    pub fn set_skill(&mut self, skill: Message<S>, datetime: i64)
        ensures
            final(self).spec_skill() == skill,
            final(self).spec_datetime() == datetime,
    {
        self.skill = skill;
        self.datetime = datetime;
    }
}

} // verus!
