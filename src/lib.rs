//! A task graph engine: tasks with declared predecessors are checked for
//! unknown references and cycles, ordered topologically and run so that each
//! task sees the outputs of its predecessors.

pub mod content;
pub mod dag;
pub mod graph;
pub mod task;
mod seal;

pub use content::{Content, EnvVar, Input, Output, Storable, Value};
pub use dag::{Dag, DagError, Parser};
pub use graph::Graph;
pub use task::{Complex, DefaultTask, IdAllocator};
