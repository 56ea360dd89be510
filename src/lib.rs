//! Contextual coherence analysis and a three-tier event propagation model.
//!
//! The verified part of the library holds the discrete logic: the bounded
//! event queue, the cluster labelling of a coherence graph, the tier routing
//! and the counters of the slow tier.

pub mod coherence;
pub mod context;
pub mod events;
pub mod nested_learning;
