//! Bounded top-N frequency tracking.
//!
//! A [`top_tracker::TopTracker`] counts observations of hashable identities and
//! keeps the `n` most frequently observed ones ready in descending order.

pub mod laws;
pub mod model;
pub mod top_tracker;
