//! Applying properties to the attributes of elements.
pub mod attributes;
