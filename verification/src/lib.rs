//! A constrained concurrent-action path search engine: given declarative
//! actions, named state predicates (duties), and implication rules over
//! sets of action or duty indices, it searches forward from a start state
//! through sequences of simultaneously applied action sets, for every
//! reachable path whose final state satisfies a target duty.

#![verifier::loop_isolation(false)]

pub mod bitmatrix;
pub mod fact;
pub mod graph;
pub mod iset;
pub mod model;
pub mod path;
pub mod pstate;
pub mod search;
pub mod situation;
pub mod step;

use vstd::prelude::*;

verus! {

pub use crate::bitmatrix::SquareBitMatrix;
pub use crate::fact::{Fact, FactPattern};
pub use crate::graph::{Edge, Graph, LabelledHalfEdge};
pub use crate::iset::IndexSet;
pub use crate::model::{Action, Duty, Rule, Specification};
pub use crate::path::PathNode;
pub use crate::pstate::{PartialState, Val, Var};
pub use crate::situation::{Event, Situation};
pub use crate::step::{NextStateStepIter, StepError};

} // verus!
