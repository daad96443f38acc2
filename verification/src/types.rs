//! Value types shared across the document model.

use vstd::prelude::*;

verus! {

/// An 8-bit RGB triple.
#[derive(Debug, Clone, Copy, PartialEq, Eq, Structural)]
pub struct RGB {
    pub r: u8,
    pub g: u8,
    pub b: u8,
}

/// An 8-bit RGBA quadruple.
#[derive(Debug, Clone, Copy, PartialEq, Eq, Structural)]
pub struct RGBA {
    pub r: u8,
    pub g: u8,
    pub b: u8,
    pub a: u8,
}

/// CMYK components as stored in Photoshop color structures.
#[derive(Debug, Clone, Copy, PartialEq, Eq, Structural)]
pub struct CMYK {
    pub c: u16,
    pub m: u16,
    pub y: u16,
    pub k: u16,
}

/// A gray level as stored in Photoshop color structures (0..=10000).
#[derive(Debug, Clone, Copy, PartialEq, Eq, Structural)]
pub struct Grayscale {
    pub k: u16,
}

/// A color, either in one of Photoshop's lossless raw color-structure forms
/// or as 8-bit RGB(A).
#[derive(Debug, Clone, Copy, PartialEq, Eq)]
pub enum Color {
    RGBA(RGBA),
    RGB(RGB),
    Rgb48 { red: u16, green: u16, blue: u16 },
    Hsb { hue: u16, saturation: u16, brightness: u16 },
    CMYK(CMYK),
    Lab { lightness: u16, a: i16, b: i16 },
    Grayscale(Grayscale),
    OpaqueColorSpace { color_space: u16, components: [u16; 4] },
}

/// Document color mode.
#[derive(Debug, Clone, Copy, PartialEq, Eq, Structural)]
pub enum ColorMode {
    Bitmap,
    Grayscale,
    Indexed,
    RGB,
    CMYK,
    Multichannel,
    Duotone,
    Lab,
}

/// The wire code of each color mode.
pub open spec fn color_mode_code(mode: ColorMode) -> u16 {
    match mode {
        ColorMode::Bitmap => 0,
        ColorMode::Grayscale => 1,
        ColorMode::Indexed => 2,
        ColorMode::RGB => 3,
        ColorMode::CMYK => 4,
        ColorMode::Multichannel => 7,
        ColorMode::Duotone => 8,
        ColorMode::Lab => 9,
    }
}

/// The color mode numbering of the file header: bitmap 0, grayscale 1,
/// indexed 2, RGB 3, CMYK 4, multichannel 7, duotone 8 and Lab 9; no other
/// code names a mode.
pub proof fn law_color_mode_numbering(m: ColorMode, code: u16)
    ensures
        color_mode_code(m) == 0 <==> m == ColorMode::Bitmap,
        color_mode_code(m) == 1 <==> m == ColorMode::Grayscale,
        color_mode_code(m) == 2 <==> m == ColorMode::Indexed,
        color_mode_code(m) == 3 <==> m == ColorMode::RGB,
        color_mode_code(m) == 4 <==> m == ColorMode::CMYK,
        color_mode_code(m) == 7 <==> m == ColorMode::Multichannel,
        color_mode_code(m) == 8 <==> m == ColorMode::Duotone,
        color_mode_code(m) == 9 <==> m == ColorMode::Lab,
        code == 5 || code == 6 || code > 9 ==> color_mode_code(m) != code,
{
}

impl ColorMode {
    /// The color mode with the given wire code, if any.
    pub fn from_code(code: u16) -> (r: Option<ColorMode>)
        ensures
            r matches Some(m) ==> color_mode_code(m) == code,
            r is None ==> forall|m: ColorMode| color_mode_code(m) != code,
    {
        match code {
            0 => Some(ColorMode::Bitmap),
            1 => Some(ColorMode::Grayscale),
            2 => Some(ColorMode::Indexed),
            3 => Some(ColorMode::RGB),
            4 => Some(ColorMode::CMYK),
            7 => Some(ColorMode::Multichannel),
            8 => Some(ColorMode::Duotone),
            9 => Some(ColorMode::Lab),
            _ => None,
        }
    }

    /// The wire code of this color mode.
    pub fn code(&self) -> (r: u16)
        ensures
            r == color_mode_code(*self),
    {
        match self {
            ColorMode::Bitmap => 0,
            ColorMode::Grayscale => 1,
            ColorMode::Indexed => 2,
            ColorMode::RGB => 3,
            ColorMode::CMYK => 4,
            ColorMode::Multichannel => 7,
            ColorMode::Duotone => 8,
            ColorMode::Lab => 9,
        }
    }
}

/// Channel identifiers of layer records.
#[derive(Debug, Clone, Copy, PartialEq, Eq, Structural)]
pub enum ChannelID {
    Color0,
    Color1,
    Color2,
    Color3,
    Transparency,
    UserMask,
    RealUserMask,
    Other(i16),
}

/// Channel data compression methods.
#[derive(Debug, Clone, Copy, PartialEq, Eq, Structural)]
pub enum Compression {
    RawData,
    RleCompressed,
    ZipWithoutPrediction,
    ZipWithPrediction,
}

/// Kind of a layer's section divider.
#[derive(Debug, Clone, Copy, PartialEq, Eq, Structural)]
pub enum SectionDividerType {
    Other,
    OpenFolder,
    ClosedFolder,
    BoundingSectionDivider,
}

/// Color tag of a layer in the layers panel.
#[derive(Debug, Clone, Copy, PartialEq, Eq, Structural)]
pub enum LayerColor {
    NoColor,
    Red,
    Orange,
    Yellow,
    Green,
    Blue,
    Violet,
    Gray,
}

/// Interleaved pixel data.
#[derive(Debug, Clone, PartialEq, Eq)]
pub struct PixelData {
    pub data: Vec<u8>,
    pub width: usize,
    pub height: usize,
}

/// A four-character code kept as text.
#[derive(Debug, Clone, PartialEq, Eq)]
pub struct PsdStringCode {
    pub code: String,
}

} // verus!
