use vstd::prelude::*;

verus! {

/// How the keys of a sensor are to be treated when an absent key is activated.
#[derive(Clone, Copy, PartialEq, Eq, Structural, Debug)]
pub enum DataCategory {
    Numerical,
    Ordinal,
    Categorical,
}

/// The concrete type of the data a sensor holds. This library indexes `i32` keys.
#[derive(Clone, Copy, PartialEq, Eq, Structural, Debug)]
pub enum DataType {
    I32,
}

/// The kinds of connection an element can take part in. Elements accept only
/// defining connections towards higher-order neurons.
#[derive(Clone, Copy, PartialEq, Eq, Structural, Debug)]
pub enum ConnectionKind {
    Defining,
    Explanatory,
}

/// Identity of an element when presented as a neuron: the printed key together
/// with the name of the owning graph.
pub struct NeuronID {
    pub id: String,
    pub parent_id: String,
}

/// Recoverable failures of the sensor facade. Each carries the key involved.
#[derive(Clone, Copy, PartialEq, Eq, Structural, Debug)]
pub enum SensorError {
    /// A categorical key was activated but never inserted.
    ActivationMissingCategorical(i32),
    /// A numerical or ordinal key was activated without horizontal propagation
    /// but never inserted.
    ActivationMissingNonCategorical(i32),
    /// A key was deactivated but never inserted.
    DeactivationMissing(i32),
    /// A connection of a kind other than `Defining` was requested.
    UnsupportedConnection,
}

/// What an activation hands back for the caller to drive the vertical
/// propagation: the handles of every harvested higher-order neuron and the
/// source element's resulting activation, the signal those neurons receive.
#[derive(Debug)]
pub struct ActivationOutcome {
    pub neurons: Vec<u64>,
    pub source_activation: i64,
}

} // verus!
