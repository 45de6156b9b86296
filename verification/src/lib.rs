//! A DOM-like tree whose nodes live in an arena and refer to each other by
//! handle: every node knows its parent, its previous and next sibling and its
//! first and last child.

pub mod model;
pub mod arena;
pub mod traverse;
pub mod axis;
pub mod laws;
pub mod wire;
pub mod forest;
pub mod debug;
pub mod roundtrip;
