//! The platform's shared vocabulary: link patterns, control flow and errors.
pub mod link;
pub mod links;
