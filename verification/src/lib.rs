//! Layout-resolution and event-routing core of a retained-mode UI toolkit.
//!
//! A tree of widgets has its geometry derived by an incremental linear
//! constraint solver (the `cassowary` crate). This crate owns the
//! bookkeeping around that solver: which constraints and edit variables
//! belong to which widget, incremental add/remove without a full re-solve,
//! batched change notifications, the widget tree itself, and the routing
//! of typed notifications through the tree.

pub mod strength;
pub mod layout;
pub mod solver_backend;
pub mod ordered_map;
pub mod solver;
pub mod tree;
pub mod ui;
pub mod scalar;
pub mod text;
