//! A permissive markup parser and style resolver: the parser scans a
//! document into a tree of element, text and comment nodes, repairing
//! misnested closing tags in a single forward pass through one
//! document-wide queue of pending closures; the style resolver maps each
//! element of the resulting tree to the declarations of the rules whose
//! selectors match it.

pub mod dom;
pub mod html_parse;
pub mod scan;
pub mod style;
