//! An incrementally maintained relational dataflow engine.
//!
//! A dataflow graph ([`flow::Flow`]) wires nodes addressed by position, each
//! carrying a durable string id and a [`view::ViewKind`] describing how its output
//! relation is computed.  Base data lives in `Table` views, which are mutated
//! by external change sets and by selector-derived feedback; every other view
//! kind is recomputed by worklist-driven dirty propagation until the whole
//! graph is quiescent.  Structural diffing between graph versions, matched by
//! durable id, produces the change lists used for persistence and for pushing
//! updates to subscribers.

pub mod codec;
pub mod flow;
pub mod relation;
pub mod view;
pub mod value;
