use psd_great::io::writer::{layer_count_i16, PsdWriter};

#[test]
fn test_write_signature() {
    let mut writer = PsdWriter::with_default_capacity();
    writer.write_signature("8BPS").unwrap();
    assert_eq!(writer.get_buffer(), b"8BPS");
}

#[test]
fn zero_capacity_writer_does_not_hang() {
    let mut writer = PsdWriter::new(0);
    writer.write_u8(42).unwrap();
    assert_eq!(writer.get_buffer(), &[42]);
}

#[test]
fn layer_count_over_i16_max_errors() {
    assert!(layer_count_i16(40_000).is_err());
    assert_eq!(layer_count_i16(3).unwrap(), 3);
}

#[test]
fn test_write_pascal_string() {
    let mut writer = PsdWriter::with_default_capacity();
    writer.write_pascal_string("Hi", 4).unwrap();
    assert_eq!(writer.get_buffer(), &[2, b'H', b'i', 0]);
}

#[test]
fn test_write_integers() {
    let mut writer = PsdWriter::with_default_capacity();
    writer.write_u16(256).unwrap();
    writer.write_u32(512).unwrap();
    assert_eq!(writer.get_buffer(), &[0x01, 0x00, 0x00, 0x00, 0x02, 0x00]);
}

use psd_great::io::writer::{
    bytes_per_sample, default_layer_blending_ranges_bytes, extent,
    extract_channel_data_from_rgba_opt, extract_layer_channel_data, extract_mask_channel_data,
    preferred_channel_compression,
};
use psd_great::psd::WriteOptions;
use psd_great::types::{ChannelID, Color, Compression, PixelData, RGB};

#[test]
fn signature_of_wrong_length_is_rejected() {
    let mut writer = PsdWriter::new(0);
    assert!(writer.write_signature("8BP").is_err());
    assert!(writer.get_buffer().is_empty());
}

#[test]
fn long_pascal_string_is_rejected() {
    let long: String = std::iter::repeat('a').take(256).collect();
    let mut writer = PsdWriter::new(0);
    let err = writer.write_pascal_string(&long, 2).unwrap_err();
    assert!(err.to_string().contains("too long"));
}

#[test]
fn plain_rgb_color_has_no_structure() {
    let mut writer = PsdWriter::new(0);
    let err = writer.write_color(Some(&Color::RGB(RGB { r: 1, g: 2, b: 3 }))).unwrap_err();
    assert!(err.to_string().starts_with("Unsupported feature"));
}

#[test]
fn zeros_and_buffers() {
    let mut writer = PsdWriter::new(1);
    writer.write_zeros(3).unwrap();
    writer.write_bytes(&[7]).unwrap();
    assert_eq!(writer.into_buffer(), vec![0, 0, 0, 7]);
}

#[test]
fn extents_clamp_to_zero() {
    assert_eq!(extent(2, 10), 8);
    assert_eq!(extent(10, 2), 0);
    assert_eq!(extent(i32::MIN, i32::MAX), 0);
}

#[test]
fn depth_helpers() {
    assert_eq!(bytes_per_sample(16), 2);
    assert_eq!(bytes_per_sample(3), 1);
    let options = WriteOptions::default();
    assert_eq!(preferred_channel_compression(8, &options), Compression::RleCompressed);
    assert_eq!(preferred_channel_compression(16, &options), Compression::ZipWithPrediction);
    let off = WriteOptions { compress: Some(false), ..WriteOptions::default() };
    assert_eq!(preferred_channel_compression(8, &off), Compression::RawData);
}

#[test]
fn channel_extraction() {
    let px = PixelData { data: vec![1, 2, 3, 4, 5, 6], width: 2, height: 1 };
    assert_eq!(extract_layer_channel_data(Some(&px), 2, 1, 1), vec![2, 6]);
    assert_eq!(extract_layer_channel_data(Some(&px), 2, 1, 3), vec![4, 255]);
    assert_eq!(extract_layer_channel_data(None, 2, 1, 3), vec![255, 255]);
    assert_eq!(extract_channel_data_from_rgba_opt(None, 1, 1, 0), vec![0]);
    assert_eq!(extract_mask_channel_data(Some(&px), 4, 2), vec![1, 2, 3, 4, 5, 6, 0, 0]);
}

#[test]
fn default_blending_ranges_cover_color_channels() {
    let bytes = default_layer_blending_ranges_bytes(&[
        ChannelID::Transparency,
        ChannelID::Color0,
        ChannelID::UserMask,
    ]);
    assert_eq!(bytes.len(), 24);
    assert_eq!(&bytes[0..8], &[0, 0, 0xFF, 0xFF, 0, 0, 0xFF, 0xFF]);
}
