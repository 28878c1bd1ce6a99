//! TrueSkill-style factor-graph pass over a two-team game.
//!
//! Every executable function mirrors a specification function over the
//! abstract scalar operations, so the whole pass is a deterministic
//! function of the input messages and the outcome, and the symmetry law
//! between `Won` and `Lost` is provable.

use crate::message::Message;
use crate::scalar::Scalar;
use vstd::prelude::*;

verus! {

/// Outcome of a game from the left team's point of view.
#[derive(Clone, Copy, Debug)]
pub enum GameResult {
    Won,
    Draw,
    Lost,
}

/// Implements the TrueSkill ranking algorithm.
///
/// `beta` is the standard deviation of a single performance around the
/// player's skill; `eps` the draw margin around zero.
#[derive(Clone, Copy, Debug)]
pub struct TrueSkill<S> {
    beta: S,
    eps: S,
}

/// A message with the sign it carries in a weighted pass: every entry
/// weighs in with `+1` or `-1`.
pub struct SignedMessage<S> {
    pub positive: bool,
    pub message: Message<S>,
}

/// Left-to-right sum of `1 / pi` over the entries up to `i`.
pub open spec fn spec_sum_precision<S: Scalar>(ws: Seq<SignedMessage<S>>, i: int) -> S
    decreases i,
{
    if i <= 0 {
        S::ratio_s(0, 1)
    } else {
        spec_sum_precision(ws, i - 1).add_s(S::ratio_s(1, 1).div_s(ws[i - 1].message.pi))
    }
}

/// Left-to-right sum of `weight * tau / pi` over the entries up to `i`.
pub open spec fn spec_sum_mean<S: Scalar>(ws: Seq<SignedMessage<S>>, i: int) -> S
    decreases i,
{
    if i <= 0 {
        S::ratio_s(0, 1)
    } else {
        let t = ws[i - 1].message;
        let term = if ws[i - 1].positive {
            t.tau.div_s(t.pi)
        } else {
            t.tau.neg_s().div_s(t.pi)
        };
        spec_sum_mean(ws, i - 1).add_s(term)
    }
}

/// Weighted pass with unit weights: harmonic combination of precisions
/// and the matching precision-weighted mean.
pub open spec fn spec_pass_weighted<S: Scalar>(ws: Seq<SignedMessage<S>>) -> Message<S> {
    let pi = S::ratio_s(1, 1).div_s(spec_sum_precision(ws, ws.len() as int));
    let tau = pi.mul_s(spec_sum_mean(ws, ws.len() as int));
    Message { pi, tau }
}

fn pass_weighted<S: Scalar>(ws: &Vec<SignedMessage<S>>) -> (r: Message<S>)
    ensures
        r == spec_pass_weighted(ws@),
{
    let mut sum_precision = S::ratio(0, 1);
    let mut sum_mean = S::ratio(0, 1);
    let mut i: usize = 0;
    while i < ws.len()
        invariant
            i <= ws.len(),
            sum_precision == spec_sum_precision(ws@, i as int),
            sum_mean == spec_sum_mean(ws@, i as int),
        decreases ws.len() - i,
    {
        let entry = &ws[i];
        sum_precision = sum_precision.add(S::ratio(1, 1).div(entry.message.pi));
        let term = if entry.positive {
            entry.message.tau.div(entry.message.pi)
        } else {
            entry.message.tau.neg().div(entry.message.pi)
        };
        sum_mean = sum_mean.add(term);
        i = i + 1;
    }
    let pi = S::ratio(1, 1).div(sum_precision);
    let tau = pi.mul(sum_mean);
    Message { pi, tau }
}

/// The sequence of signed entries a team's performances combine through.
pub open spec fn spec_team_entries<S: Scalar>(team: Seq<Message<S>>) -> Seq<SignedMessage<S>> {
    Seq::new(team.len(), |i: int| SignedMessage { positive: true, message: team[i] })
}

/// The signed entries of the per-player back pass: entry `i` carries the
/// team update positively, every other entry its performance negatively.
pub open spec fn spec_perf_entries<S: Scalar>(
    perfs: Seq<Message<S>>,
    update: Message<S>,
    i: int,
) -> Seq<SignedMessage<S>> {
    Seq::new(
        perfs.len(),
        |j: int|
            if j == i {
                SignedMessage { positive: true, message: update }
            } else {
                SignedMessage { positive: false, message: perfs[j] }
            },
    )
}

impl<S: Scalar> TrueSkill<S> {
    /// Performance noise derived from the prior deviation.
    pub open spec fn spec_beta(default_sigma: S) -> S {
        default_sigma.div_s(S::ratio_s(2, 1))
    }

    /// Draw margin derived from the performance noise.
    pub open spec fn spec_eps(default_sigma: S) -> S {
        S::ratio_s(2750, 10000).mul_s(S::ratio_s(2, 1).sqrt_s()).mul_s(Self::spec_beta(
            default_sigma,
        ))
    }

    /// The estimator value `new` builds.
    pub closed spec fn spec_new(default_sigma: S) -> TrueSkill<S> {
        TrueSkill { beta: Self::spec_beta(default_sigma), eps: Self::spec_eps(default_sigma) }
    }

    /// Makes a new TrueSkill estimator from the prior skill deviation:
    /// the performance noise is half of it, and the draw margin is
    /// `0.2750 * sqrt(2)` times the noise.
    pub fn new(default_sigma: S) -> (r: Self)
        ensures
            r == Self::spec_new(default_sigma),
            r.beta_v() == Self::spec_beta(default_sigma),
            r.eps_v() == Self::spec_eps(default_sigma),
    {
        let beta = default_sigma.div(S::ratio(2, 1));
        let eps = S::ratio(2750, 10000).mul(S::ratio(2, 1).sqrt()).mul(beta);
        TrueSkill { beta, eps }
    }

    /// The configured performance noise.
    pub closed spec fn beta_v(self) -> S {
        self.beta
    }

    /// The configured draw margin.
    pub closed spec fn eps_v(self) -> S {
        self.eps
    }

    /// Skill-to-performance factor: widens a belief by the noise.
    pub open spec fn spec_pass_from_skill(self, skill: Message<S>) -> Message<S> {
        let c2 = self.beta_v().mul_s(self.beta_v());
        let a = S::ratio_s(1, 1).div_s(S::ratio_s(1, 1).add_s(c2.mul_s(skill.pi)));
        Message { pi: a.mul_s(skill.pi), tau: a.mul_s(skill.tau) }
    }

    fn pass_from_skill(&self, skill: &Message<S>) -> (r: Message<S>)
        ensures
            r == self.spec_pass_from_skill(*skill),
    {
        let c2 = self.beta.mul(self.beta);
        let a = S::ratio(1, 1).div(S::ratio(1, 1).add(c2.mul(skill.pi)));
        Message { pi: a.mul(skill.pi), tau: a.mul(skill.tau) }
    }

    /// Combination of one team's performances.
    pub open spec fn spec_pass_from_performance(perfs: Seq<Message<S>>) -> Message<S> {
        spec_pass_weighted(spec_team_entries(perfs))
    }

    fn pass_from_performance(perfs: &Vec<Message<S>>) -> (r: Message<S>)
        ensures
            r == Self::spec_pass_from_performance(perfs@),
    {
        let mut entries: Vec<SignedMessage<S>> = Vec::new();
        let mut i: usize = 0;
        while i < perfs.len()
            invariant
                i <= perfs.len(),
                entries@.len() == i as int,
                forall|j: int| #![auto]
                    0 <= j < i as int ==> entries@[j] == (SignedMessage {
                        positive: true,
                        message: perfs@[j],
                    }),
            decreases perfs.len() - i,
        {
            entries.push(SignedMessage { positive: true, message: perfs[i] });
            i = i + 1;
        }
        proof {
            assert(entries@ =~= spec_team_entries(perfs@));
        }
        pass_weighted(&entries)
    }

    /// Message toward the difference node: left minus right.
    pub open spec fn spec_pass_to_difference(left: Message<S>, right: Message<S>) -> Message<S> {
        spec_pass_weighted(
            seq![
                SignedMessage { positive: true, message: left },
                SignedMessage { positive: false, message: right },
            ],
        )
    }

    fn pass_to_difference(left: Message<S>, right: Message<S>) -> (r: Message<S>)
        ensures
            r == Self::spec_pass_to_difference(left, right),
    {
        let mut entries: Vec<SignedMessage<S>> = Vec::new();
        entries.push(SignedMessage { positive: true, message: left });
        entries.push(SignedMessage { positive: false, message: right });
        proof {
            assert(entries@ =~= seq![
                SignedMessage { positive: true, message: left },
                SignedMessage { positive: false, message: right },
            ]);
        }
        pass_weighted(&entries)
    }

    /// Density of the standard normal distribution.
    pub open spec fn spec_norm_pdf(x: S) -> S {
        S::ratio_s(-1i64, 2).mul_s(x.mul_s(x)).exp_s().div_s(
            S::ratio_s(2, 1).mul_s(S::pi_s()).sqrt_s(),
        )
    }

    fn norm_pdf(x: S) -> (r: S)
        ensures
            r == Self::spec_norm_pdf(x),
    {
        S::ratio(-1, 2).mul(x.mul(x)).exp().div(S::ratio(2, 1).mul(S::pi()).sqrt())
    }

    /// Cumulative distribution of the standard normal distribution.
    pub open spec fn spec_norm_cdf(x: S) -> S {
        S::ratio_s(1, 2).mul_s(S::ratio_s(1, 1).add_s(x.div_s(S::ratio_s(2, 1).sqrt_s()).erf_s()))
    }

    fn norm_cdf(x: S) -> (r: S)
        ensures
            r == Self::spec_norm_cdf(x),
    {
        S::ratio(1, 2).mul(S::ratio(1, 1).add(x.div(S::ratio(2, 1).sqrt()).erf()))
    }

    /// Additive correction of a won difference.
    pub open spec fn spec_v_won(t: S, eps: S) -> S {
        Self::spec_norm_pdf(t.sub_s(eps)).div_s(Self::spec_norm_cdf(t.sub_s(eps)))
    }

    /// Multiplicative correction of a won difference.
    pub open spec fn spec_w_won(t: S, eps: S) -> S {
        let v = Self::spec_v_won(t, eps);
        v.mul_s(v.add_s(t).sub_s(eps))
    }

    /// Additive correction of a drawn difference.
    pub open spec fn spec_v_draw(t: S, eps: S) -> S {
        Self::spec_norm_pdf(eps.neg_s().sub_s(t)).sub_s(Self::spec_norm_pdf(eps.sub_s(t))).div_s(
            Self::spec_norm_cdf(eps.sub_s(t)).sub_s(Self::spec_norm_cdf(eps.neg_s().sub_s(t))),
        )
    }

    /// Multiplicative correction of a drawn difference.
    pub open spec fn spec_w_draw(t: S, eps: S) -> S {
        let v = Self::spec_v_draw(t, eps);
        v.mul_s(v).add_s(
            eps.sub_s(t).mul_s(Self::spec_norm_pdf(eps.sub_s(t))).add_s(
                eps.add_s(t).mul_s(Self::spec_norm_pdf(eps.add_s(t))),
            ).div_s(
                Self::spec_norm_cdf(eps.sub_s(t)).sub_s(Self::spec_norm_cdf(eps.neg_s().sub_s(t))),
            ),
        )
    }

    /// Marginal of the difference given the corrections for the outcome.
    pub open spec fn spec_marginal_from(c: S, d: S, v_value: S, w_value: S) -> Message<S> {
        let sqrt_c = c.sqrt_s();
        let w1 = S::ratio_s(1, 1).sub_s(w_value);
        Message { pi: c.div_s(w1), tau: d.add_s(sqrt_c.mul_s(v_value)).div_s(w1) }
    }

    /// Marginal of a won difference.
    pub open spec fn spec_difference_marginal_won(self, message: Message<S>) -> Message<S> {
        let c = message.pi;
        let d = message.tau;
        let sqrt_c = c.sqrt_s();
        let t = d.div_s(sqrt_c);
        let e = self.eps_v().mul_s(sqrt_c);
        Self::spec_marginal_from(c, d, Self::spec_v_won(t, e), Self::spec_w_won(t, e))
    }

    fn difference_marginal_won(&self, message: &Message<S>) -> (r: Message<S>)
        ensures
            r == self.spec_difference_marginal_won(*message),
    {
        let c = message.pi;
        let d = message.tau;
        let sqrt_c = c.sqrt();
        let t = d.div(sqrt_c);
        let e = self.eps.mul(sqrt_c);
        let v_value = Self::norm_pdf(t.sub(e)).div(Self::norm_cdf(t.sub(e)));
        let w_value = v_value.mul(v_value.add(t).sub(e));
        let w1 = S::ratio(1, 1).sub(w_value);
        Message { pi: c.div(w1), tau: d.add(sqrt_c.mul(v_value)).div(w1) }
    }

    /// Marginal of a drawn difference.
    pub open spec fn spec_difference_marginal_draw(self, message: Message<S>) -> Message<S> {
        let c = message.pi;
        let d = message.tau;
        let sqrt_c = c.sqrt_s();
        let t = d.div_s(sqrt_c);
        let e = self.eps_v().mul_s(sqrt_c);
        Self::spec_marginal_from(c, d, Self::spec_v_draw(t, e), Self::spec_w_draw(t, e))
    }

    fn difference_marginal_draw(&self, message: &Message<S>) -> (r: Message<S>)
        ensures
            r == self.spec_difference_marginal_draw(*message),
    {
        let c = message.pi;
        let d = message.tau;
        let sqrt_c = c.sqrt();
        let t = d.div(sqrt_c);
        let e = self.eps.mul(sqrt_c);
        let v_value = Self::norm_pdf(e.neg().sub(t)).sub(Self::norm_pdf(e.sub(t))).div(
            Self::norm_cdf(e.sub(t)).sub(Self::norm_cdf(e.neg().sub(t))),
        );
        let w_value = v_value.mul(v_value).add(
            e.sub(t).mul(Self::norm_pdf(e.sub(t))).add(e.add(t).mul(Self::norm_pdf(e.add(t)))).div(
                Self::norm_cdf(e.sub(t)).sub(Self::norm_cdf(e.neg().sub(t))),
            ),
        );
        let w1 = S::ratio(1, 1).sub(w_value);
        Message { pi: c.div(w1), tau: d.add(sqrt_c.mul(v_value)).div(w1) }
    }

    /// Per-team updates coming back from the difference node.
    pub open spec fn spec_pass_from_difference(
        left_message: Message<S>,
        right_message: Message<S>,
        to_difference: Message<S>,
    ) -> (Message<S>, Message<S>) {
        (
            spec_pass_weighted(
                seq![
                    SignedMessage { positive: true, message: right_message },
                    SignedMessage { positive: true, message: to_difference },
                ],
            ),
            spec_pass_weighted(
                seq![
                    SignedMessage { positive: true, message: left_message },
                    SignedMessage { positive: false, message: to_difference },
                ],
            ),
        )
    }

    fn pass_from_difference(
        left_message: Message<S>,
        right_message: Message<S>,
        to_difference: Message<S>,
    ) -> (r: (Message<S>, Message<S>))
        ensures
            r == Self::spec_pass_from_difference(left_message, right_message, to_difference),
    {
        let mut left_entries: Vec<SignedMessage<S>> = Vec::new();
        left_entries.push(SignedMessage { positive: true, message: right_message });
        left_entries.push(SignedMessage { positive: true, message: to_difference });
        let mut right_entries: Vec<SignedMessage<S>> = Vec::new();
        right_entries.push(SignedMessage { positive: true, message: left_message });
        right_entries.push(SignedMessage { positive: false, message: to_difference });
        proof {
            assert(left_entries@ =~= seq![
                SignedMessage { positive: true, message: right_message },
                SignedMessage { positive: true, message: to_difference },
            ]);
            assert(right_entries@ =~= seq![
                SignedMessage { positive: true, message: left_message },
                SignedMessage { positive: false, message: to_difference },
            ]);
        }
        (pass_weighted(&left_entries), pass_weighted(&right_entries))
    }

    /// Per-player performance updates of one team.
    pub open spec fn spec_pass_to_performance(
        perfs: Seq<Message<S>>,
        update: Message<S>,
    ) -> Seq<Message<S>> {
        Seq::new(perfs.len(), |i: int| spec_pass_weighted(spec_perf_entries(perfs, update, i)))
    }

    fn pass_to_performance(perfs: &Vec<Message<S>>, update: &Message<S>) -> (r: Vec<Message<S>>)
        ensures
            r@ == Self::spec_pass_to_performance(perfs@, *update),
    {
        let mut out: Vec<Message<S>> = Vec::new();
        let mut i: usize = 0;
        while i < perfs.len()
            invariant
                i <= perfs.len(),
                out@.len() == i as int,
                forall|k: int| #![auto]
                    0 <= k < i as int ==> out@[k] == spec_pass_weighted(
                        spec_perf_entries(perfs@, *update, k),
                    ),
            decreases perfs.len() - i,
        {
            let mut entries: Vec<SignedMessage<S>> = Vec::new();
            let mut j: usize = 0;
            while j < perfs.len()
                invariant
                    i < perfs.len(),
                    j <= perfs.len(),
                    entries@.len() == j as int,
                    forall|k: int| #![auto]
                        0 <= k < j as int ==> entries@[k] == spec_perf_entries(
                            perfs@,
                            *update,
                            i as int,
                        )[k],
                decreases perfs.len() - j,
            {
                if j == i {
                    entries.push(SignedMessage { positive: true, message: *update });
                } else {
                    entries.push(SignedMessage { positive: false, message: perfs[j] });
                }
                j = j + 1;
            }
            proof {
                assert(entries@ =~= spec_perf_entries(perfs@, *update, i as int));
            }
            out.push(pass_weighted(&entries));
            i = i + 1;
        }
        proof {
            assert(out@ =~= Self::spec_pass_to_performance(perfs@, *update));
        }
        out
    }

    /// Skill updates of both teams, in the forward (non-`Lost`) direction.
    pub open spec fn spec_forward_pass(
        self,
        left_team: Seq<Message<S>>,
        right_team: Seq<Message<S>>,
        draw: bool,
    ) -> (Seq<Message<S>>, Seq<Message<S>>) {
        let left_performances = left_team.map(|i: int, m: Message<S>| self.spec_pass_from_skill(m));
        let right_performances = right_team.map(
            |i: int, m: Message<S>| self.spec_pass_from_skill(m),
        );
        let left_performance = Self::spec_pass_from_performance(left_performances);
        let right_performance = Self::spec_pass_from_performance(right_performances);
        let to_difference = Self::spec_pass_to_difference(left_performance, right_performance);
        let marginal = if draw {
            self.spec_difference_marginal_draw(to_difference)
        } else {
            self.spec_difference_marginal_won(to_difference)
        };
        let from_difference = Self::spec_pass_from_difference(
            left_performance,
            right_performance,
            marginal.spec_exclude(to_difference),
        );
        let left_skills = Self::spec_pass_to_performance(left_performances, from_difference.0).map(
            |i: int, m: Message<S>| self.spec_pass_from_skill(m),
        );
        let right_skills = Self::spec_pass_to_performance(right_performances, from_difference.1)
            .map(|i: int, m: Message<S>| self.spec_pass_from_skill(m));
        (left_skills, right_skills)
    }

    /// Skill updates of both teams for the given outcome: `Lost` is the
    /// `Won` pass with the teams swapped, its result swapped back.
    pub open spec fn spec_tree_pass(
        self,
        left_team: Seq<Message<S>>,
        right_team: Seq<Message<S>>,
        result: GameResult,
    ) -> (Seq<Message<S>>, Seq<Message<S>>) {
        match result {
            GameResult::Lost => {
                let swapped = self.spec_forward_pass(right_team, left_team, false);
                (swapped.1, swapped.0)
            },
            GameResult::Draw => self.spec_forward_pass(left_team, right_team, true),
            GameResult::Won => self.spec_forward_pass(left_team, right_team, false),
        }
    }

    fn map_from_skill(&self, team: &Vec<Message<S>>) -> (r: Vec<Message<S>>)
        ensures
            r@ == team@.map(|i: int, m: Message<S>| self.spec_pass_from_skill(m)),
    {
        let mut out: Vec<Message<S>> = Vec::new();
        let mut i: usize = 0;
        while i < team.len()
            invariant
                i <= team.len(),
                out@.len() == i as int,
                forall|k: int| #![auto]
                    0 <= k < i as int ==> out@[k] == self.spec_pass_from_skill(team@[k]),
            decreases team.len() - i,
        {
            out.push(self.pass_from_skill(&team[i]));
            i = i + 1;
        }
        proof {
            assert(out@ =~= team@.map(|i: int, m: Message<S>| self.spec_pass_from_skill(m)));
        }
        out
    }

    fn forward_pass(&self, left_team: &Vec<Message<S>>, right_team: &Vec<Message<S>>, draw: bool)
        -> (r: (Vec<Message<S>>, Vec<Message<S>>))
        ensures
            (r.0@, r.1@) == self.spec_forward_pass(left_team@, right_team@, draw),
            r.0@.len() == left_team@.len(),
            r.1@.len() == right_team@.len(),
    {
        let left_performances = self.map_from_skill(left_team);
        let right_performances = self.map_from_skill(right_team);
        let left_performance = Self::pass_from_performance(&left_performances);
        let right_performance = Self::pass_from_performance(&right_performances);
        let to_difference = Self::pass_to_difference(left_performance, right_performance);
        let marginal = if draw {
            self.difference_marginal_draw(&to_difference)
        } else {
            self.difference_marginal_won(&to_difference)
        };
        let from_difference = Self::pass_from_difference(
            left_performance,
            right_performance,
            marginal.exclude(&to_difference),
        );
        let left_mid = Self::pass_to_performance(&left_performances, &from_difference.0);
        let right_mid = Self::pass_to_performance(&right_performances, &from_difference.1);
        let left_skills = self.map_from_skill(&left_mid);
        let right_skills = self.map_from_skill(&right_mid);
        (left_skills, right_skills)
    }

    /// Passes all input team messages down the message tree and returns
    /// the message update for each player, in input order.
    pub fn tree_pass(
        &self,
        left_team: &Vec<Message<S>>,
        right_team: &Vec<Message<S>>,
        result: GameResult,
    ) -> (r: (Vec<Message<S>>, Vec<Message<S>>))
        ensures
            (r.0@, r.1@) == self.spec_tree_pass(left_team@, right_team@, result),
            r.0@.len() == left_team@.len(),
            r.1@.len() == right_team@.len(),
    {
        match result {
            GameResult::Lost => {
                let swapped = self.forward_pass(right_team, left_team, false);
                (swapped.1, swapped.0)
            },
            GameResult::Draw => self.forward_pass(left_team, right_team, true),
            GameResult::Won => self.forward_pass(left_team, right_team, false),
        }
    }
}

/// Law: the outcome is symmetric between the teams.  Passing the teams as
/// (left, right) with `Won` gives exactly the updates of passing them as
/// (right, left) with `Lost`, swapped back into place.
pub proof fn lemma_tree_pass_symmetric<S: Scalar>(
    ts: TrueSkill<S>,
    left_team: Seq<Message<S>>,
    right_team: Seq<Message<S>>,
)
    ensures
        ts.spec_tree_pass(left_team, right_team, GameResult::Won) == ((
        ts.spec_tree_pass(right_team, left_team, GameResult::Lost).1,
        ts.spec_tree_pass(right_team, left_team, GameResult::Lost).0,
        )),
{
}

} // verus!
