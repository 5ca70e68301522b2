//! Scope-chain resolution for an ActionScript-style virtual machine.
//!
//! Scope nodes and the property bags they refer to live in a `Heap`, an
//! arena addressed by index handles. A chain is walked from the innermost
//! node outwards through parent links; a node's parent always sits at a
//! smaller index than the node itself, so every walk ends.

pub mod heap;
pub mod laws;
pub mod object;
pub mod scope;

pub use heap::{Heap, ObjectRef, ScopeRef};
pub use scope::{Scope, ScopeClass};
pub use object::{Attributes, Object, Property, Value};
