use psd_great::additional_info::{read_blending_restrictions, read_layer_color};
use psd_great::io::writer::{
    expand_integer_samples, layer_channel_bounds, layer_channel_dimensions,
    should_emit_default_blending_ranges, PsdWriter,
};
use psd_great::layer::{LayerEdges, MaskEdges};
use psd_great::psd::ReadOptions;
use psd_great::reader::{read_color_mode_data, PsdReader};
use psd_great::types::{ChannelID, ColorMode, LayerColor};

#[test]
fn test_layer_color_roundtrip() {
    let mut writer = PsdWriter::new(128);
    writer.write_layer_color(LayerColor::Blue).unwrap();
    let buffer = writer.into_buffer();
    assert_eq!(buffer.len(), 8);
    let mut reader = PsdReader::new(buffer, ReadOptions::default());
    assert_eq!(read_layer_color(&mut reader).unwrap(), LayerColor::Blue);
}

#[test]
fn layer_color_out_of_range_is_invalid() {
    let mut reader = PsdReader::new(vec![0, 8, 0, 0, 0, 0, 0, 0], ReadOptions::default());
    assert!(read_layer_color(&mut reader).is_err());
}

#[test]
fn blending_restrictions_mark_listed_channels() {
    let bytes = vec![0, 0, 0, 2, 0, 0, 0, 9, 0, 0, 0, 0];
    let mut reader = PsdReader::new(bytes, ReadOptions::default());
    assert_eq!(read_blending_restrictions(&mut reader, 13).unwrap(), [0, 1, 0]);
    assert_eq!(reader.offset, 12);
    let mut reader = PsdReader::new(vec![0, 0], ReadOptions::default());
    assert!(read_blending_restrictions(&mut reader, 4).is_err());
}

#[test]
fn legacy_color_mode_data_reads_palette_planes() {
    let mut bytes = vec![0, 0, 3, 0];
    for plane in 0..3u8 {
        for i in 0..=255u8 {
            bytes.push(i.wrapping_add(plane));
        }
    }
    let mut reader = PsdReader::new(bytes, ReadOptions::default());
    let (palette, data) = read_color_mode_data(&mut reader, Some(ColorMode::Indexed)).unwrap();
    let palette = palette.unwrap();
    assert_eq!(palette.len(), 256);
    assert_eq!((palette[255].r, palette[255].g, palette[255].b), (255, 0, 1));
    assert!(data.unwrap().bytes.is_empty());
    assert_eq!(reader.offset, 772);
}

fn layer() -> LayerEdges {
    LayerEdges { top: Some(10), left: Some(20), bottom: Some(30), right: Some(60) }
}

fn mask() -> MaskEdges {
    MaskEdges {
        top: Some(12),
        left: Some(22),
        bottom: None,
        right: Some(32),
        real_top: None,
        real_left: Some(1),
        real_bottom: Some(9),
        real_right: Some(11),
    }
}

#[test]
fn channel_bounds_follow_masks() {
    let l = layer();
    let m = mask();
    assert_eq!(layer_channel_bounds(&l, None, None, ChannelID::Color0), (20, 10, 40, 20));
    assert_eq!(layer_channel_bounds(&l, Some(&m), None, ChannelID::UserMask), (22, 12, 10, 0));
    assert_eq!(layer_channel_bounds(&l, Some(&m), None, ChannelID::RealUserMask), (1, 12, 10, 0));
    let empty_real = MaskEdges {
        top: None,
        left: None,
        bottom: None,
        right: None,
        real_top: None,
        real_left: None,
        real_bottom: None,
        real_right: None,
    };
    // a real mask without edges gives way to the user mask's real rectangle
    assert_eq!(
        layer_channel_bounds(&l, Some(&m), Some(&empty_real), ChannelID::RealUserMask),
        (1, 12, 10, 0)
    );
    assert_eq!(layer_channel_dimensions(&l, None, None, ChannelID::Transparency), (40, 20));
    // reading takes the real mask as it is
    assert_eq!(
        psd_great::io::reader::layer_channel_bounds(&l, Some(&m), Some(&empty_real), ChannelID::RealUserMask),
        (20, 10, 0, 0)
    );
    let reversed = LayerEdges { top: Some(5), left: Some(5), bottom: Some(1), right: None };
    assert_eq!(layer_channel_bounds(&reversed, None, None, ChannelID::Color1), (5, 5, 0, 0));
}

#[test]
fn default_blending_ranges_need_pixels() {
    assert!(should_emit_default_blending_ranges(true, false, &[]));
    assert!(should_emit_default_blending_ranges(false, false, &[ChannelID::UserMask, ChannelID::Color2]));
    assert!(!should_emit_default_blending_ranges(false, false, &[ChannelID::UserMask, ChannelID::Other(-3)]));
}

#[test]
fn integer_samples_widen_to_sixteen_bits() {
    assert_eq!(expand_integer_samples(&[1, 2], 16), Some(vec![1, 1, 2, 2]));
    assert_eq!(expand_integer_samples(&[1, 2], 8), Some(vec![1, 2]));
    assert_eq!(expand_integer_samples(&[1, 2], 32), None);
}
