//! Formats of the document-level sections.

pub mod image_resources;
pub mod guides;
pub mod paths;
pub mod alpha_names;
pub mod caption;
pub mod resource_section;
