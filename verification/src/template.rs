//! Compile-time template source transforms and the template helpers.
pub mod dates;
pub mod filters;
pub mod markup;
pub mod regions;
pub mod switch;
