//! Address-space bookkeeping for ARM binary reconstruction: relocation
//! tables, section collections and symbol maps, together with their
//! line-oriented text forms.

pub mod function;
pub mod module;
pub mod num;
pub mod section;
pub mod symbol;
pub mod relocations;
pub mod text;
