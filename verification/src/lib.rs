//! Reading and writing of Adobe Photoshop PSD and PSB structures.

pub mod bytes;

pub mod error;
pub mod compression;
pub mod types;
pub mod psd;
pub mod strings;
pub mod io;
pub mod reader;
pub mod format;
pub mod layer;
pub mod effects;
pub mod layer_effects;
pub mod additional_info;
pub mod composite;
pub mod patterns;
pub mod annotations;
pub mod pattern_laws;
pub mod xml;
pub mod pixel_source;
pub mod filter_effects;
