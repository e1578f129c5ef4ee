//! Abstract domains that approximate the string values a program can hold,
//! and the per-program-point state that maps locations to such values.

pub mod brick;
pub mod bricks;
pub mod character_inclusion;
pub mod context;
pub mod domain;
pub mod ir;
pub mod language;
pub mod lexical;
pub mod normalize;
pub mod ordered_set;
pub mod state;
pub mod string_length;
