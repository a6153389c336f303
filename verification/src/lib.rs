//! Tidy tree layouts printed as text: the tree model, its flattening into a preorder node
//! table, and the character canvas that the printer draws on.
pub mod drawing_laws;
pub mod pretty_print;
pub mod text_draw;
pub mod tree;
