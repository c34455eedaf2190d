//! The standard library of the scripting language.

pub mod print;
pub mod sleep;
pub mod str_utils;
