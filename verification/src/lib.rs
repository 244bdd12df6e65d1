//! Building blocks of the `classes`, `attributes` and `events` property macros
//! for Dioxus components: what each macro checks, expands and generates.

pub mod apply;
pub mod class;
pub mod common;
pub mod extend;
pub mod meta;
pub mod named;
pub mod sort;
pub mod specs;
pub mod text;
