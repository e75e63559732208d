//! Boxed fixed-width rendering of delimited tables, with tall tables folded
//! into side-by-side blocks that share one header row.
pub mod layout;
pub mod render;
pub mod table;
pub mod text;
