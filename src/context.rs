use vstd::prelude::*;

verus! {

/// The kind of a context.
#[derive(Debug, Clone, PartialEq)]
pub enum ContextKind {
    Physical,
    Social,
    Conceptual,
    Quantum,
    Thermal,
    Inertial,
    Accelerated,
    Custom(String),
}

/// The kind of an observer's perspective.
#[derive(Debug, Clone, PartialEq)]
pub enum PerspectiveKind {
    Objective,
    Subjective,
    Intersubjective,
    Deterministic,
    Statistical,
    Custom(String),
}

} // verus!
