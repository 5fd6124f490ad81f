//! Evaluation of a grid of textual cells whose expressions refer to other
//! cells by coordinate ("a1"-style references).

pub mod reference;
pub mod table;
pub mod evaluate;
pub mod render;
