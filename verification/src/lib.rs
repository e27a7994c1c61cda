//! Runtime self-collision detection for a bimanual arm, on exact double
//! arithmetic.
//!
//! Every link is wrapped in a few capsules when a model is built ([`fit`]). At
//! runtime the only geometry is the distance between capsules, so a query is
//! cheap enough for every control tick ([`model`]).
//!
//! - [`model::DualArmCollisionModel::min_distance`] is the runtime query: the
//!   margin-adjusted surface distance over the checked pairs, negative meaning
//!   penetration. [`scan`] holds its loops.
//! - [`pairs`] derives the checked pairs from the kinematic tree, and
//!   [`policy`] their margins from the poses that the caller declares
//!   legitimate.
//! - [`queries`] states what queries depend on and how their readings compare:
//!   no earlier query leaks into a later one, and more pairs or larger margins
//!   never read more. [`laws`] states what holds of models derived from a
//!   policy: the declared poses read as clear, and the margins follow the
//!   closest of them. [`assembly`] states what a robot is put together from:
//!   which capsules a body carries, which pairs are checked by their places in
//!   the chains, and where the links and the witnesses of an answer stand.
//! - [`hull`] states on exact numbers that a capsule which holds the vertices
//!   holds the mesh, so that an alarm is early and never late; [`spread`] that
//!   the axis of a fit is the direction of largest spread; [`bounds`] that a
//!   bounded cloud gets a finite capsule. [`cloud`] holds the centroid, the
//!   covariance and the extent of a cloud against the exact numbers, and
//!   [`choice`] the candidates of a fit and the one it keeps.
//! - [`double`], [`rounding`] and [`arithmetic`] hold a double by its encoding
//!   and compute on it with whole numbers, so that every contract speaks of
//!   the very numbers that come out.
//!
//! What only floating-point code can compute (forward kinematics, eigenvectors,
//! the closed-form distances of segments) is handed in as functions, and the
//! contracts hold for whatever they answer.
pub mod double;
pub mod rounding;
pub mod arithmetic;
pub mod geometry;
pub mod hull;
pub mod bounds;
pub mod spread;
pub mod cloud;
pub mod choice;
pub mod fit;
pub mod error;
pub mod pairs;
pub mod policy;
pub mod scan;
pub mod model;
pub mod queries;
pub mod laws;
pub mod assembly;
