//! Numeric behaviour of the rating kernel over a floating-point scalar.

use fooskill::message::Message;
use fooskill::player::Player;
use fooskill::true_skill::{GameResult, TrueSkill};
use fooskill::Scalar;

/// Floating-point scalar for the rating computations.
#[derive(Clone, Copy, PartialEq, Debug)]
struct Fp(f64);

impl Scalar for Fp {
    fn add(self, o: Self) -> Self {
        Fp(self.0 + o.0)
    }

    fn sub(self, o: Self) -> Self {
        Fp(self.0 - o.0)
    }

    fn mul(self, o: Self) -> Self {
        Fp(self.0 * o.0)
    }

    fn div(self, o: Self) -> Self {
        Fp(self.0 / o.0)
    }

    fn neg(self) -> Self {
        Fp(-self.0)
    }

    fn sqrt(self) -> Self {
        Fp(self.0.sqrt())
    }

    fn exp(self) -> Self {
        Fp(self.0.exp())
    }

    fn erf(self) -> Self {
        Fp(libm::erf(self.0))
    }

    fn le(self, o: Self) -> bool {
        self.0 <= o.0
    }

    fn ratio(n: i64, d: i64) -> Self {
        Fp(n as f64 / d as f64)
    }

    fn pi() -> Self {
        Fp(std::f64::consts::PI)
    }
}

fn close(a: f64, b: f64, tol: f64) -> bool {
    (a - b).abs() <= tol
}

#[test]
fn test_message_round_trip() {
    // for finite (mu, sigma2) with sigma2 > 0 the conversion round-trips
    let cases = [(25.0, 69.444), (0.0, 1.0), (-3.5, 0.25), (1e6, 4e3), (1e-6, 1e-9)];
    for (mu, sigma2) in cases {
        let m = Message::from_mu_sigma2(Fp(mu), Fp(sigma2));
        let (mu2, s2) = m.to_mu_sigma2();
        assert!(close(mu2.0, mu, 1e-6 * (1.0 + mu.abs())));
        assert!(close(s2.0, sigma2, 1e-6 * (1.0 + sigma2.abs())));
    }
}

#[test]
fn test_combine_exclude_inverse() {
    let a = Message::from_mu_sigma2(Fp(25.0), Fp(69.444));
    let b = Message::from_mu_sigma2(Fp(30.0), Fp(10.0));
    let c = a.combine(&b).exclude(&b);
    assert!(close(c.pi.0, a.pi.0, 1e-12));
    assert!(close(c.tau.0, a.tau.0, 1e-12));
}

#[test]
fn test_skill_at_refuses_the_past() {
    let player = Player::<Fp>::default_at(1_000_000);
    assert!(player.skill_at(999_999).is_none());
    assert!(player.skill_at(1_000_000).is_some());
    assert!(player.skill_at(1_000_001).is_some());
}

#[test]
fn test_temporal_monotonicity() {
    // variance grows with the horizon; the mean decays toward 25
    let t0: i64 = 0;
    let mut player = Player::<Fp>::default_at(t0);
    player.set_skill(Message::from_mu_sigma2(Fp(35.0), Fp(4.0)), t0);
    let day: i64 = 86_400_000;
    let mut last_sigma2 = f64::NEG_INFINITY;
    let mut last_mu = f64::INFINITY;
    for k in 1..120i64 {
        let (mu, sigma2) = player.skill_at(t0 + k * 10 * day).unwrap().to_mu_sigma2();
        assert!(sigma2.0 >= last_sigma2);
        assert!(mu.0 <= last_mu);
        assert!(mu.0 >= 25.0);
        last_sigma2 = sigma2.0;
        last_mu = mu.0;
    }
    // after many timescales the belief approaches the prior
    let (mu, sigma2) = player.skill_at(t0 + 10_000 * day).unwrap().to_mu_sigma2();
    assert!(close(mu.0, 25.0, 1e-3));
    assert!(close(sigma2.0, (25.0f64 / 3.0) * (25.0 / 3.0), 1e-3));
}

#[test]
fn test_tree_pass_symmetry() {
    let ts = TrueSkill::new(Player::<Fp>::default_sigma());
    let left = vec![
        Message::from_mu_sigma2(Fp(27.0), Fp(30.0)),
        Message::from_mu_sigma2(Fp(22.0), Fp(50.0)),
    ];
    let right = vec![
        Message::from_mu_sigma2(Fp(25.0), Fp(69.444)),
        Message::from_mu_sigma2(Fp(31.0), Fp(12.0)),
    ];
    let forward = ts.tree_pass(&left, &right, GameResult::Won);
    let swapped = ts.tree_pass(&right, &left, GameResult::Lost);
    assert_eq!(forward.0.len(), swapped.1.len());
    assert_eq!(forward.1.len(), swapped.0.len());
    for (a, b) in forward.0.iter().zip(swapped.1.iter()) {
        assert_eq!(a.pi.0, b.pi.0);
        assert_eq!(a.tau.0, b.tau.0);
    }
    for (a, b) in forward.1.iter().zip(swapped.0.iter()) {
        assert_eq!(a.pi.0, b.pi.0);
        assert_eq!(a.tau.0, b.tau.0);
    }
}

#[test]
fn test_zero_sum_of_means() {
    // two solo teams with identical priors: the winner gains what the
    // loser gives up
    let prior = Message::from_mu_sigma2(Fp(25.0), Fp((25.0f64 / 3.0) * (25.0 / 3.0)));
    let ts = TrueSkill::new(Player::<Fp>::default_sigma());
    let (wins, loses) = ts.tree_pass(&vec![prior], &vec![prior], GameResult::Won);
    let new_winner = prior.combine(&wins[0]).to_mu_sigma2();
    let new_loser = prior.combine(&loses[0]).to_mu_sigma2();
    let delta_w = new_winner.0 .0 - 25.0;
    let delta_l = new_loser.0 .0 - 25.0;
    assert!(delta_w > 0.0);
    assert!(delta_l < 0.0);
    assert!(close(delta_w, -delta_l, 1e-9));
}

#[test]
fn test_draw_keeps_equal_priors_even() {
    let prior = Message::from_mu_sigma2(Fp(25.0), Fp((25.0f64 / 3.0) * (25.0 / 3.0)));
    let ts = TrueSkill::new(Player::<Fp>::default_sigma());
    let (l, r) = ts.tree_pass(&vec![prior], &vec![prior], GameResult::Draw);
    let new_l = prior.combine(&l[0]).to_mu_sigma2();
    let new_r = prior.combine(&r[0]).to_mu_sigma2();
    assert!(close(new_l.0 .0, 25.0, 1e-9));
    assert!(close(new_r.0 .0, 25.0, 1e-9));
    // a draw still sharpens the beliefs
    assert!(new_l.1 .0 < 69.444444444444444);
}
