//! Lowering passes over an arena-based UI object tree, and the runtime
//! store behind debug hooks.

pub mod debug_hook;
pub mod diagnostics;
pub mod inject_debug_hooks;
pub mod lower_popups;
pub mod object_tree;
