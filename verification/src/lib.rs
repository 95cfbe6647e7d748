//! Incremental reconciliation of an entity tree against a declarative
//! template.
//!
//! A template is an ordered description of an entity subtree. Reconciling it
//! against a live `bevy_ecs` world realizes the description while keeping
//! the entities of earlier builds wherever their anchors recur: components
//! no longer contributed are removed, child lists are put in authored
//! order, and subtrees whose anchor disappeared are destroyed. Receipts
//! record what each build did so the next build can diff against it.
//!
//! The store itself is reached only through the trusted interface in
//! `world`, which also states the mathematical model of a world that every
//! other contract is written against; everything else is proved.

pub mod anchor;
pub mod laws;
pub mod node;
pub mod receipt;
pub mod reconcile;
pub mod world;

pub use anchor::Anchor;
pub use node::{Node, Payload, Template};
pub use receipt::Receipt;
pub use reconcile::{Roots, apply_node, reconcile, reconcile_registry};
