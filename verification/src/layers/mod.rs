//! The three analysis layers: syntax invariants, semantic encoding and chaos attacks.

pub mod syntax_layer;
pub mod chaos_layer;
pub mod semantic_layer;
pub mod source;
pub mod syntax_tree;
