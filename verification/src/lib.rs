//! Core of a resumable build pipeline that turns a native project into
//! linked LLVM bitcode.
//!
//! - `progress`: the checkpoint of the five stages and the exit statuses.
//! - `model`: the build metadata and the tool configuration.
//! - `escape`, `store`: keys and paths of the artifact store.
//! - `tokens`, `compile`: rewriting the recorded compiler invocations.
//! - `graph`, `linking`: the link graph and the scheduler that links the
//!   targets in dependency order.
//! - `index`, `queue`: hashed lookup of paths and the ready queue.
//! - `text`, `callgraph`: reading the dump of a call graph.

pub mod callgraph;
pub mod compile;
pub mod escape;
pub mod graph;
pub mod index;
pub mod linking;
pub mod model;
pub mod progress;
pub mod queue;
pub mod store;
pub mod text;
pub mod tokens;
