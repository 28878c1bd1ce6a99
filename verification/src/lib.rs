//! Skill-rating library for two-team games.
//!
//! The crate keeps per-player skill beliefs as Gaussian messages in natural
//! parameters, updates them with a TrueSkill-style factor-graph pass after
//! every game, ages them toward the prior between appearances, and stores
//! user records as nodes of a union-find forest inside a transactional
//! key-value store model.

pub mod merge;
pub mod message;
pub mod player;
pub mod scalar;
pub mod skill_base;
pub mod true_skill;
pub mod tx;

pub use scalar::Scalar;
