//! Layer records and the typed values of their tagged blocks.

use crate::types::{ChannelID, ColorMode, Compression, PsdStringCode, CMYK};
use vstd::prelude::*;

verus! {

/// The edges of a layer's rectangle, each possibly unset.
#[derive(Debug, Clone, Copy, PartialEq, Eq)]
pub struct LayerEdges {
    pub top: Option<i32>,
    pub left: Option<i32>,
    pub bottom: Option<i32>,
    pub right: Option<i32>,
}

/// The edges of a layer mask: its rectangle and its "real" rectangle,
/// each edge possibly unset.
#[derive(Debug, Clone, Copy, PartialEq, Eq)]
pub struct MaskEdges {
    pub top: Option<i32>,
    pub left: Option<i32>,
    pub bottom: Option<i32>,
    pub right: Option<i32>,
    pub real_top: Option<i32>,
    pub real_left: Option<i32>,
    pub real_bottom: Option<i32>,
    pub real_right: Option<i32>,
}

/// Preset reference of an adjustment.
#[derive(Debug, Clone, PartialEq, Eq)]
pub struct PresetInfo {
    pub preset_kind: Option<i32>,
    pub preset_file_name: Option<String>,
}

/// Color lookup adjustment.
#[derive(Debug, Clone, PartialEq, Eq)]
pub struct ColorLookupAdjustment {
    pub adjustment_type: String,
    pub lookup_type: Option<String>,
    pub name: Option<String>,
    pub dither: Option<bool>,
    pub profile: Option<Vec<u8>>,
    pub lut_format: Option<String>,
    pub data_order: Option<String>,
    pub table_order: Option<String>,
    pub lut3d_file_data: Option<Vec<u8>>,
    pub lut3d_file_name: Option<String>,
}

/// Invert adjustment.
#[derive(Debug, Clone, PartialEq, Eq)]
pub struct InvertAdjustment {
    pub adjustment_type: String,
}

/// Posterize adjustment.
#[derive(Debug, Clone, PartialEq, Eq)]
pub struct PosterizeAdjustment {
    pub adjustment_type: String,
    pub levels: Option<i32>,
}

/// Selective color adjustment: CMYK corrections per color range.
#[derive(Debug, Clone, PartialEq, Eq)]
pub struct SelectiveColorAdjustment {
    pub adjustment_type: String,
    pub mode: Option<String>,
    pub reds: Option<CMYK>,
    pub yellows: Option<CMYK>,
    pub greens: Option<CMYK>,
    pub cyans: Option<CMYK>,
    pub blues: Option<CMYK>,
    pub magentas: Option<CMYK>,
    pub whites: Option<CMYK>,
    pub neutrals: Option<CMYK>,
    pub blacks: Option<CMYK>,
}

/// Descriptor of a linked file.
#[derive(Debug, Clone, Copy, PartialEq, Eq, Structural)]
pub struct LinkedFileDescriptor {
    pub comp_info: CompInfo,
}

/// Layer comp identifiers of a linked file.
#[derive(Debug, Clone, Copy, PartialEq, Eq, Structural)]
pub struct CompInfo {
    pub comp_id: i32,
    pub original_comp_id: i32,
}

/// Size and paths of a linked file.
#[derive(Debug, Clone, PartialEq, Eq)]
pub struct LinkedFileInfo {
    pub file_size: u64,
    pub name: String,
    pub full_path: String,
    pub original_path: String,
    pub relative_path: String,
}

/// Protection flags of a layer.
#[derive(Debug, Clone, Copy, PartialEq, Eq, Structural)]
pub struct Protected {
    pub transparency: Option<bool>,
    pub composite: Option<bool>,
    pub position: Option<bool>,
    pub artboards: Option<bool>,
}

/// Which compositor rendered the document.
#[derive(Debug, Clone, PartialEq, Eq)]
pub struct CompositorUsed {
    pub version: Option<Version>,
    pub photoshop_version: Option<Version>,
    pub description: String,
    pub reason: String,
    pub engine: String,
    pub enable_comp_core: Option<String>,
    pub enable_comp_core_gpu: Option<String>,
    pub enable_comp_core_threads: Option<String>,
    pub comp_core_support: Option<String>,
    pub comp_core_gpu_support: Option<String>,
}

/// A three-part version number.
#[derive(Debug, Clone, Copy, PartialEq, Eq, Structural)]
pub struct Version {
    pub major: i32,
    pub minor: i32,
    pub fix: i32,
}

/// Animation frame flags.
#[derive(Debug, Clone, Copy, PartialEq, Eq, Structural)]
pub struct AnimationFrameFlags {
    pub propagate_frame_one: Option<bool>,
    pub unify_layer_position: Option<bool>,
    pub unify_layer_style: Option<bool>,
    pub unify_layer_visibility: Option<bool>,
}

/// One channel of a filter effects mask.
#[derive(Debug, Clone, PartialEq, Eq)]
pub struct FilterEffectsMaskChannel {
    pub compression_mode: i32,
    pub data: Vec<u8>,
}

/// Interpretation of a pixel source.
#[derive(Debug, Clone, PartialEq, Eq)]
pub struct Interpretation {
    pub interpret_alpha: PsdStringCode,
    pub profile: Vec<u8>,
}

/// Frame reader of a pixel source.
#[derive(Debug, Clone, PartialEq, Eq)]
pub struct FrameReader {
    pub reader_type: String,
    pub link: FrameReaderLink,
    pub media_descriptor: String,
}

/// Link of a frame reader.
#[derive(Debug, Clone, PartialEq, Eq)]
pub struct FrameReaderLink {
    pub name: String,
    pub full_path: String,
    pub original_path: String,
    pub relative_path: String,
    pub alias: String,
}

/// One channel of a layer as stored: its id, compression and bytes.
#[derive(Debug, Clone, PartialEq, Eq)]
pub struct LayerRawDataChannel {
    pub id: ChannelID,
    pub compression: Compression,
    pub data: Option<Vec<u8>>,
}

/// The stored channels of a layer.
#[derive(Debug, Clone, PartialEq, Eq)]
pub struct LayerRawData {
    pub color_mode: ColorMode,
    pub bits_per_channel: u8,
    pub channels: Vec<LayerRawDataChannel>,
    pub large: bool,
}

/// A source and destination blending range, black and white points.
#[derive(Debug, Clone, Copy, PartialEq, Eq, Structural)]
pub struct LayerBlendingRangePair {
    pub src_black: u8,
    pub src_white: u8,
    pub dst_black: u8,
    pub dst_white: u8,
}

/// Blending ranges of a layer: the composite gray range, then one per
/// channel.
#[derive(Debug, Clone, PartialEq, Eq)]
pub struct LayerBlendingRangesData {
    pub composite_gray: Option<LayerBlendingRangePair>,
    pub channels: Vec<LayerBlendingRangePair>,
}

} // verus!
