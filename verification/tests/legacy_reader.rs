use psd_great::psd::ReadOptions;
use psd_great::reader::PsdReader;
use psd_great::types::{Color, Grayscale, CMYK};

#[test]
fn reader_test_read_signature() {
    let data = b"8BPS";
    let mut reader = PsdReader::new(data.to_vec(), ReadOptions::default());
    let sig = reader.read_signature().unwrap();
    assert_eq!(sig, "8BPS");
}

#[test]
fn reader_test_read_pascal_string() {
    let data = vec![5, b'H', b'e', b'l', b'l', b'o', 0, 0];
    let mut reader = PsdReader::new(data, ReadOptions::default());
    let s = reader.read_pascal_string(4).unwrap();
    assert_eq!(s, "Hello");
}

#[test]
fn reader_test_read_integers() {
    let data = vec![0x00, 0x01, 0x00, 0x00, 0x00, 0x02];
    let mut reader = PsdReader::new(data, ReadOptions::default());
    assert_eq!(reader.read_u16().unwrap(), 1);
    assert_eq!(reader.read_u32().unwrap(), 2);
}

#[test]
fn reader_test_read_section_applies_padding_for_round() {
    let data = vec![0x00, 0x00, 0x00, 0x01, 0xAA, 0x00, 0xBB];
    let mut reader = PsdReader::new(data, ReadOptions::default());
    let payload = reader
        .read_section(2, |r, _| r.read_u8())
        .expect("read section");
    assert_eq!(payload, 0xAA);
    let next = reader.read_u8().expect("next byte");
    assert_eq!(next, 0xBB);
}

#[test]
fn reader_test_read_color_cmyk() {
    let bytes = [0x00, 0x02, 0xFF, 0xFF, 0x80, 0x80, 0x40, 0x40, 0x00, 0x00];
    let mut reader = PsdReader::new(bytes.to_vec(), ReadOptions::default());
    let color = reader.read_color().unwrap();
    assert_eq!(
        color,
        Color::CMYK(CMYK {
            c: 65535,
            m: 32896,
            y: 16448,
            k: 0,
        })
    );
}

#[test]
fn reader_test_read_color_preserves_grayscale_0_to_10000() {
    let bytes = [0x00, 0x08, 0x27, 0x10, 0x00, 0x00, 0x00, 0x00, 0x00, 0x00];
    let mut reader = PsdReader::new(bytes.to_vec(), ReadOptions::default());
    let color = reader.read_color().unwrap();
    assert_eq!(color, Color::Grayscale(Grayscale { k: 10000 }));
}

#[test]
fn reader_test_read_color_preserves_opaque_custom_space() {
    let bytes = [0x00, 0x03, 0x00, 0x01, 0x00, 0x02, 0x00, 0x03, 0x00, 0x04];
    let mut reader = PsdReader::new(bytes.to_vec(), ReadOptions::default());
    let color = reader.read_color().unwrap();
    assert_eq!(
        color,
        Color::OpaqueColorSpace {
            color_space: 3,
            components: [1, 2, 3, 4],
        }
    );
}

use psd_great::reader::{
    channel_offset, compression_from_code, normalize_channel_data, parse_layer_blending_ranges,
    read_image_data,
};
use psd_great::types::{ChannelID, ColorMode, Compression};
use psd_great::layer::{LayerBlendingRangePair, LayerBlendingRangesData};
use psd_great::io::writer::serialize_layer_blending_ranges;
use psd_great::compression::compress_zip;

#[test]
fn legacy_unicode_string_drops_zero_and_surrogate_units() {
    let data = vec![0, 0, 0, 4, 0, b'H', 0, 0, 0xD8, 0x00, 0, b'i'];
    let mut reader = PsdReader::new(data, ReadOptions::default());
    assert_eq!(reader.read_unicode_string().unwrap(), "Hi");
    assert_eq!(reader.offset, 12);
}

#[test]
fn legacy_read_past_end_is_io_error() {
    let mut reader = PsdReader::new(vec![1], ReadOptions::default());
    let err = reader.read_u16().unwrap_err();
    assert!(err.to_string().starts_with("IO error"));
}

#[test]
fn legacy_skip_may_pass_the_end() {
    let mut reader = PsdReader::new(vec![1, 2], ReadOptions::default());
    reader.skip_bytes(5).unwrap();
    assert_eq!(reader.offset, 5);
    assert!(reader.read_u8().is_err());
}

#[test]
fn legacy_peek_signature_keeps_position() {
    let mut reader = PsdReader::new(b"8BIMrest".to_vec(), ReadOptions::default());
    assert_eq!(reader.peek_signature().unwrap(), "8BIM");
    assert_eq!(reader.read_signature().unwrap(), "8BIM");
    assert_eq!(reader.offset, 4);
}

#[test]
fn legacy_check_signature_rejects_other_text() {
    let mut reader = PsdReader::new(b"8BPB".to_vec(), ReadOptions::default());
    let err = reader.check_signature("8BPS").unwrap_err();
    assert!(err.to_string().contains("Invalid signature"));
}

#[test]
fn legacy_large_section_with_high_word_is_unsupported() {
    let mut reader = PsdReader::new(vec![0, 0, 0, 1, 0, 0, 0, 0], ReadOptions::default());
    reader.large = true;
    let err = reader.read_section(1, |r, _| r.read_u8()).unwrap_err();
    assert!(err.to_string().contains("4GB"));
}

#[test]
fn legacy_section_skips_unread_payload() {
    let data = vec![0, 0, 0, 3, 1, 2, 3, 0, 9];
    let mut reader = PsdReader::new(data, ReadOptions::default());
    let first = reader.read_section(4, |r, _| r.read_u8()).unwrap();
    assert_eq!(first, 1);
    assert_eq!(reader.read_u8().unwrap(), 9);
}

#[test]
fn normalize_pads_or_cuts() {
    assert_eq!(normalize_channel_data(vec![1, 2], 4), vec![1, 2, 0, 0]);
    assert_eq!(normalize_channel_data(vec![1, 2, 3], 2), vec![1, 2]);
}

#[test]
fn channel_offsets_follow_color_mode() {
    assert_eq!(channel_offset(ChannelID::Color3, true), 3);
    assert_eq!(channel_offset(ChannelID::Color3, false), 4);
    assert_eq!(channel_offset(ChannelID::Transparency, false), 3);
    assert_eq!(channel_offset(ChannelID::UserMask, false), -1);
    assert_eq!(channel_offset(ChannelID::Other(9), false), -2);
}

#[test]
fn unknown_compression_code_is_invalid() {
    assert!(compression_from_code(4).is_err());
    assert_eq!(compression_from_code(1).unwrap(), Compression::RleCompressed);
}

#[test]
fn blending_ranges_parse_back() {
    let data = LayerBlendingRangesData {
        composite_gray: Some(LayerBlendingRangePair { src_black: 0, src_white: 255, dst_black: 1, dst_white: 254 }),
        channels: vec![LayerBlendingRangePair { src_black: 2, src_white: 3, dst_black: 4, dst_white: 5 }],
    };
    let bytes = serialize_layer_blending_ranges(&data);
    assert_eq!(bytes.len(), 8);
    assert_eq!(parse_layer_blending_ranges(&bytes), Some(data));
    assert_eq!(parse_layer_blending_ranges(&[]), None);
    let partial = parse_layer_blending_ranges(&[1, 2, 3]).unwrap();
    assert_eq!(partial.composite_gray, None);
    assert!(partial.channels.is_empty());
}

#[test]
fn raw_composite_planes_are_read_in_order() {
    let data = vec![0, 0, 10, 20, 30, 40, 50, 60];
    let mut reader = PsdReader::new(data, ReadOptions::default());
    let planes = read_image_data(&mut reader, 2, 1, Some(ColorMode::RGB), Some(3), Some(8))
        .unwrap()
        .unwrap();
    assert_eq!(planes.total_channels, 3);
    assert_eq!(planes.planes, vec![vec![10, 20], vec![30, 40], vec![50, 60]]);
}

#[test]
fn rle_composite_planes_decode() {
    // one row per channel: a run of two equal bytes (-1 => 2 copies)
    let data = vec![0, 1, 0, 2, 0, 2, 0xFF, 7, 0xFF, 9];
    let mut reader = PsdReader::new(data, ReadOptions::default());
    let planes = read_image_data(&mut reader, 2, 1, Some(ColorMode::Grayscale), Some(2), Some(8))
        .unwrap()
        .unwrap();
    assert_eq!(planes.planes, vec![vec![7, 7], vec![9, 9]]);
}

#[test]
fn zip_composite_planes_undo_prediction() {
    let predicted = vec![5, 1, 10, 2];
    let mut data = vec![0, 3];
    data.extend(compress_zip(&predicted).unwrap());
    let mut reader = PsdReader::new(data, ReadOptions::default());
    let planes = read_image_data(&mut reader, 2, 1, Some(ColorMode::Grayscale), Some(2), Some(8))
        .unwrap()
        .unwrap();
    assert_eq!(planes.planes, vec![vec![5, 6], vec![10, 12]]);
}

#[test]
fn composite_of_empty_document_is_none() {
    let mut reader = PsdReader::new(vec![0, 0], ReadOptions::default());
    assert!(read_image_data(&mut reader, 0, 5, None, None, None).unwrap().is_none());
}

#[test]
fn composite_rejects_unsupported_modes_and_depths() {
    let mut reader = PsdReader::new(vec![0, 0], ReadOptions::default());
    let err = read_image_data(&mut reader, 1, 1, Some(ColorMode::Lab), None, None).unwrap_err();
    assert!(err.to_string().contains("Color mode not supported"));
    let mut reader = PsdReader::new(vec![0, 0], ReadOptions::default());
    let err = read_image_data(&mut reader, 1, 1, None, None, Some(12)).unwrap_err();
    assert!(err.to_string().contains("bits per channel"));
    let mut reader = PsdReader::new(vec![0, 9], ReadOptions::default());
    let err = read_image_data(&mut reader, 1, 1, None, None, None).unwrap_err();
    assert!(err.to_string().contains("Invalid compression"));
}

use psd_great::io::writer::{write_global_layer_mask_info, PsdWriter};
use psd_great::psd::GlobalLayerMaskInfo;
use psd_great::reader::read_global_layer_mask_info;

#[test]
fn global_layer_mask_info_roundtrip() {
    let info = GlobalLayerMaskInfo {
        overlay_color_space: 1,
        color_space1: 2,
        color_space2: 3,
        color_space3: 4,
        color_space4: 5,
        opacity: 100,
        kind: 128,
    };
    let mut w = PsdWriter::new(0);
    write_global_layer_mask_info(&mut w, Some(&info)).unwrap();
    write_global_layer_mask_info(&mut w, None).unwrap();
    assert_eq!(w.get_buffer().len(), 24);
    let mut r = PsdReader::new(w.into_buffer(), ReadOptions::default());
    assert_eq!(read_global_layer_mask_info(&mut r).unwrap(), Some(info));
    assert_eq!(read_global_layer_mask_info(&mut r).unwrap(), None);
}

#[test]
fn global_layer_mask_info_skips_extra_bytes() {
    let mut data = vec![0, 0, 0, 20];
    data.extend(vec![0u8; 20]);
    data.push(7);
    let mut r = PsdReader::new(data, ReadOptions::default());
    assert!(read_global_layer_mask_info(&mut r).unwrap().is_some());
    assert_eq!(r.read_u8().unwrap(), 7);
}
