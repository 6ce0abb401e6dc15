//! Sampling of spirograph curves: a point carried by a small rotating frame
//! whose centre is itself carried by a large rotating frame.
//!
//! The crate holds the discrete part of the sampler. [`period`] derives the
//! number of coarse steps after which the pattern closes from the two
//! frequencies. [`bisect`] refines one coarse chord by repeated bisection
//! until every piece is within tolerance, under a hard cap on the work done.
//! [`sampler`] chains the coarse walk and the refinement into one pass.
//!
//! Points are opaque to the crate: the host evaluates them, measures chords
//! and draws the accepted segments, and reports what it found step by step.
//! [`polyline`] and [`pass`] say what comes out when the host answers by
//! fixed rules, for one chord and for a whole pass, and prove what holds of
//! it: only short chords are drawn, a smaller tolerance never yields fewer
//! segments, and a refinement that ends before the cap leaves no gap.

pub mod bisect;
pub mod pass;
pub mod period;
pub mod polyline;
pub mod sampler;
