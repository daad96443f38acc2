//! Document-level model types.

use vstd::prelude::*;

verus! {

/// Animation info.
#[derive(Debug, Clone, PartialEq)]
pub struct AnimationInfo {
    pub id: i32,
    pub frames: Vec<i32>,
    pub repeats: Option<i32>,
    pub active_frame: Option<i32>,
}

/// Version info (resource 1057).
#[derive(Debug, Clone, PartialEq)]
pub struct VersionInfo {
    pub has_real_merged_data: bool,
    pub writer_name: String,
    pub reader_name: String,
    pub file_version: u32,
}

/// URL list item.
#[derive(Debug, Clone, PartialEq)]
pub struct UrlsListItem {
    pub id: i32,
    pub reference: String,
    pub url: String,
}

/// Raw thumbnail pixels.
#[derive(Debug, Clone, PartialEq)]
pub struct ThumbnailRaw {
    pub width: u32,
    pub height: u32,
    pub data: Vec<u8>,
}

/// Frame reader of an audio clip.
#[derive(Debug, Clone, PartialEq)]
pub struct AudioClipFrameReader {
    pub reader_type: i32,
    pub media_descriptor: String,
    pub link: AudioClipLink,
}

/// File link of an audio clip.
#[derive(Debug, Clone, PartialEq)]
pub struct AudioClipLink {
    pub name: String,
    pub full_path: String,
    pub relative_path: String,
}

/// Sheet timeline options.
#[derive(Debug, Clone, PartialEq)]
pub struct SheetTimelineOptions {
    pub sheet_id: i32,
    pub sheet_disclosed: bool,
    pub lights_disclosed: bool,
    pub meshes_disclosed: bool,
    pub materials_disclosed: bool,
}

/// Sheet disclosure.
#[derive(Debug, Clone, PartialEq)]
pub struct SheetDisclosure {
    pub sheet_timeline_options: Option<Vec<SheetTimelineOptions>>,
}

/// Global layer mask info.
#[derive(Debug, Clone, Copy, PartialEq, Eq, Structural)]
pub struct GlobalLayerMaskInfo {
    pub overlay_color_space: u16,
    pub color_space1: u16,
    pub color_space2: u16,
    pub color_space3: u16,
    pub color_space4: u16,
    pub opacity: u16,
    pub kind: u8,
}

/// Annotation payload.
#[derive(Debug, Clone, PartialEq)]
pub enum AnnotationData {
    Text(String),
    Sound(Vec<u8>),
}

/// Variable set (resource 7000).
#[derive(Debug, Clone, PartialEq)]
pub struct VariableSet {
    pub var_name: Option<String>,
    pub trait_name: Option<String>,
    pub doc_ref: Option<String>,
    pub placement_method: Option<String>,
    pub align: Option<String>,
    pub valign: Option<String>,
    pub clip: Option<String>,
}

/// Position of a color sampler (resource 1073), by record version.
#[derive(Debug, Clone, Copy, PartialEq, Eq, Structural)]
pub enum ColorSamplerPosition {
    V1 { horizontal: i32, vertical: i32 },
    V2 { horizontal: i32, vertical: i32, depth: u16 },
    Unsupported { version: u32, horizontal: i32, vertical: i32, depth: Option<u16> },
}

/// The record version a sampler position belongs to.
pub open spec fn position_version(p: ColorSamplerPosition) -> u32 {
    match p {
        ColorSamplerPosition::V1 { .. } => 1,
        ColorSamplerPosition::V2 { .. } => 2,
        ColorSamplerPosition::Unsupported { version, .. } => version,
    }
}

/// The horizontal and vertical coordinates of a sampler position.
pub open spec fn position_coordinates(p: ColorSamplerPosition) -> (i32, i32) {
    match p {
        ColorSamplerPosition::V1 { horizontal, vertical } => (horizontal, vertical),
        ColorSamplerPosition::V2 { horizontal, vertical, .. } => (horizontal, vertical),
        ColorSamplerPosition::Unsupported { horizontal, vertical, .. } => (horizontal, vertical),
    }
}

impl ColorSamplerPosition {
    /// The record version: 1, 2, or the version kept for an unsupported one.
    pub fn version(&self) -> (r: u32)
        ensures
            r == position_version(*self),
    {
        match self {
            ColorSamplerPosition::V1 { .. } => 1,
            ColorSamplerPosition::V2 { .. } => 2,
            ColorSamplerPosition::Unsupported { version, .. } => *version,
        }
    }

    /// The `(horizontal, vertical)` coordinates.
    pub fn coordinates(&self) -> (r: (i32, i32))
        ensures
            r == position_coordinates(*self),
    {
        match self {
            ColorSamplerPosition::V1 { horizontal, vertical } => (*horizontal, *vertical),
            ColorSamplerPosition::V2 { horizontal, vertical, .. } => (*horizontal, *vertical),
            ColorSamplerPosition::Unsupported { horizontal, vertical, .. } => (*horizontal, *vertical),
        }
    }
}

/// Color sampler point (resource 1073).
#[derive(Debug, Clone, Copy, PartialEq, Eq, Structural)]
pub struct ColorSampler {
    pub position: ColorSamplerPosition,
    pub color_space: i16,
}

/// Generic color-mode section payload for non-indexed modes.
#[derive(Debug, Clone, PartialEq, Default)]
pub struct ColorModeSectionData {
    pub bytes: Vec<u8>,
}

/// Options for PSD parsing.
#[derive(Debug, Clone, Copy, PartialEq, Eq, Structural)]
pub struct ReadOptions {
    pub skip_layer_image_data: Option<bool>,
    pub skip_composite_image_data: Option<bool>,
    pub skip_thumbnail: Option<bool>,
    pub skip_linked_files_data: Option<bool>,
    pub throw_for_missing_features: Option<bool>,
    pub log_missing_features: Option<bool>,
    pub use_image_data: Option<bool>,
    pub use_raw_data: Option<bool>,
    pub use_raw_thumbnail: Option<bool>,
    pub log_dev_features: Option<bool>,
    pub strict: Option<bool>,
    pub debug: Option<bool>,
}

impl ReadOptions {
    /// Options with nothing set.
    pub fn new() -> (r: ReadOptions)
        ensures
            r == (ReadOptions {
                skip_layer_image_data: None,
                skip_composite_image_data: None,
                skip_thumbnail: None,
                skip_linked_files_data: None,
                throw_for_missing_features: None,
                log_missing_features: None,
                use_image_data: None,
                use_raw_data: None,
                use_raw_thumbnail: None,
                log_dev_features: None,
                strict: None,
                debug: None,
            }),
    {
        ReadOptions {
            skip_layer_image_data: None,
            skip_composite_image_data: None,
            skip_thumbnail: None,
            skip_linked_files_data: None,
            throw_for_missing_features: None,
            log_missing_features: None,
            use_image_data: None,
            use_raw_data: None,
            use_raw_thumbnail: None,
            log_dev_features: None,
            strict: None,
            debug: None,
        }
    }
}

impl Default for ReadOptions {
    fn default() -> (r: ReadOptions)
        ensures
            r == ReadOptions::spec_none(),
    {
        ReadOptions::new()
    }
}

impl ReadOptions {
    /// The options with nothing set.
    pub open spec fn spec_none() -> ReadOptions {
        ReadOptions {
            skip_layer_image_data: None,
            skip_composite_image_data: None,
            skip_thumbnail: None,
            skip_linked_files_data: None,
            throw_for_missing_features: None,
            log_missing_features: None,
            use_image_data: None,
            use_raw_data: None,
            use_raw_thumbnail: None,
            log_dev_features: None,
            strict: None,
            debug: None,
        }
    }
}

/// Options for PSD generation.
#[derive(Debug, Clone, Copy, PartialEq, Eq, Structural)]
pub struct WriteOptions {
    pub generate_thumbnail: Option<bool>,
    pub trim_image_data: Option<bool>,
    pub invalidate_text_layers: Option<bool>,
    pub log_missing_features: Option<bool>,
    pub no_background: Option<bool>,
    pub psb: Option<bool>,
    pub compress: Option<bool>,
}

impl Default for WriteOptions {
    fn default() -> (r: WriteOptions)
        ensures
            r == (WriteOptions {
                generate_thumbnail: None,
                trim_image_data: None,
                invalidate_text_layers: None,
                log_missing_features: None,
                no_background: None,
                psb: None,
                compress: None,
            }),
    {
        WriteOptions {
            generate_thumbnail: None,
            trim_image_data: None,
            invalidate_text_layers: None,
            log_missing_features: None,
            no_background: None,
            psb: None,
            compress: None,
        }
    }
}

} // verus!
