//! The contact pipeline of a small rigid-body simulation of marbles and walls.
//!
//! Numbers are IEEE-754 single-precision values held by their bit patterns
//! ([`scalar::Scalar`]): the library compares and classifies them, and leaves
//! their arithmetic to its host. [`geom`] holds the overlap decisions of the
//! geometric queries, [`collision`] the per-tick contact set and its update,
//! [`frame`] the state machine that one tick of that update follows, and
//! [`scan`] what the gathering of a tick comes to.

pub mod collision;
pub mod frame;
pub mod geom;
pub mod scalar;
pub mod scan;
