//! Identifiers used by the work-sharing swarms: which query a message is
//! about, and which worker sent it.
use vstd::prelude::*;

verus! {

/// Which query a message refers to.
#[derive(Clone, Copy, Debug, PartialEq, Eq, Structural, Hash, Default)]
pub enum QID {
    /// The setup message.
    #[default]
    INIT,
    /// The query with this number.
    STEP(usize),
    /// The shutdown message.
    DONE,
}

/// A worker id.
#[derive(Clone, Copy, Debug, PartialEq, Eq, Structural, Hash, Default)]
pub struct WID {
    pub n: usize,
}

/// A key that identifies a job for a swarm of workers.
pub trait JobKey: Copy + Clone + Default + core::fmt::Debug + Eq + core::hash::Hash {}

impl JobKey for crate::bdd::NormIteKey {}

/// The job handler for the BDD swarm (it keeps no state of its own).
#[derive(Clone, Copy, Debug, Default)]
pub struct BddJobHandler {}

} // verus!
