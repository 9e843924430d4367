//! The verified core of an HTML-to-PDF engine: template preprocessing, HTML
//! parsing into a node tree, the CSS cascade, box generation, pagination
//! decisions, the tagged-PDF structure plan, the object layout and the
//! encryption of the finished file. Each function's behaviour is stated in its
//! contract; the laws that relate several functions are proof functions
//! beside them.
pub mod bytes;
pub mod chars;
pub mod encrypt;
pub mod sort;
pub mod node;
pub mod endnotes;
pub mod error;
pub mod options;
pub mod layout;
pub mod text;
pub mod template;
pub mod html_layout;
pub mod numbers;
pub mod style;
pub mod paginate;
pub mod emit;
