//! Structural selection over a syntax tree, and the list of enclosing block
//! headers that an editor pins above its viewport.
pub mod context;
pub mod object;
pub mod parse_tree;
pub mod range;
pub mod selection;
pub mod text;
pub mod tree;
