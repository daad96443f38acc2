use psd_great::additional_info::{
    interleave_pattern_buffer, linked_file_uses_versioned_paths, palette_bytes_to_colors,
    palette_colors_to_bytes, read_pascal_string_with_padding, read_u64_parts,
    split_pattern_buffer, write_pascal_string_with_padding, write_u64_parts,
};
use psd_great::io::writer::PsdWriter;
use psd_great::layer::LinkedFileInfo;
use psd_great::psd::ReadOptions;
use psd_great::reader::PsdReader;
use psd_great::types::RGB;

#[test]
fn padded_pascal_string_roundtrip() {
    let mut w = PsdWriter::new(0);
    write_pascal_string_with_padding(&mut w, "name").unwrap();
    assert_eq!(w.get_buffer(), &[0, 0, 0, 5, b'n', b'a', b'm', b'e', 0]);
    let mut r = PsdReader::new(w.into_buffer(), ReadOptions::default());
    assert_eq!(read_pascal_string_with_padding(&mut r).unwrap(), "name");
    assert_eq!(r.offset, 9);
}

#[test]
fn padded_pascal_zero_length_is_empty() {
    let mut r = PsdReader::new(vec![0, 0, 0, 0], ReadOptions::default());
    assert_eq!(read_pascal_string_with_padding(&mut r).unwrap(), "");
}

#[test]
fn u64_parts_roundtrip() {
    let mut w = PsdWriter::new(0);
    write_u64_parts(&mut w, 0x0123_4567_89AB_CDEF).unwrap();
    assert_eq!(w.get_buffer(), &[0x01, 0x23, 0x45, 0x67, 0x89, 0xAB, 0xCD, 0xEF]);
    let mut r = PsdReader::new(w.into_buffer(), ReadOptions::default());
    assert_eq!(read_u64_parts(&mut r).unwrap(), 0x0123_4567_89AB_CDEF);
}

#[test]
fn palette_roundtrip() {
    let colors: Vec<RGB> = (0..256u32)
        .map(|i| RGB { r: i as u8, g: (255 - i) as u8, b: (i / 2) as u8 })
        .collect();
    let bytes = palette_colors_to_bytes(&colors);
    assert_eq!(bytes.len(), 768);
    assert_eq!(palette_bytes_to_colors(&bytes), colors);
}

#[test]
fn short_palette_reads_black() {
    let colors = palette_bytes_to_colors(&[1, 2, 3, 4]);
    assert_eq!(colors.len(), 256);
    assert_eq!(colors[0], RGB { r: 1, g: 2, b: 3 });
    assert_eq!(colors[1], RGB { r: 4, g: 0, b: 0 });
    assert_eq!(colors[2], RGB { r: 0, g: 0, b: 0 });
}

#[test]
fn rgb_pattern_split_and_interleave_roundtrip() {
    let buffer = vec![10, 20, 30, 255, 40, 50, 60, 128];
    let (channels, alpha) = split_pattern_buffer(3, &buffer, 2, 1);
    assert_eq!(channels, vec![vec![10, 40], vec![20, 50], vec![30, 60]]);
    assert_eq!(alpha, vec![255, 128]);
    let back = interleave_pattern_buffer(3, 2, 1, None, &channels, Some(&alpha)).unwrap();
    assert_eq!(back, buffer);
}

#[test]
fn gray_and_indexed_patterns_interleave() {
    let gray = interleave_pattern_buffer(1, 2, 1, None, &[vec![7]], None).unwrap();
    assert_eq!(gray, vec![7, 7, 7, 255, 0, 0, 0, 255]);
    let palette = vec![RGB { r: 1, g: 2, b: 3 }, RGB { r: 4, g: 5, b: 6 }];
    let indexed = interleave_pattern_buffer(2, 2, 1, Some(&palette), &[vec![1, 9]], None).unwrap();
    assert_eq!(indexed, vec![4, 5, 6, 255, 0, 0, 0, 255]);
    assert!(interleave_pattern_buffer(2, 1, 1, None, &[vec![0]], None).is_none());
    assert!(interleave_pattern_buffer(4, 1, 1, None, &[vec![0]], None).is_none());
    assert!(interleave_pattern_buffer(3, 1, 1, None, &[], None).is_none());
}

#[test]
fn versioned_paths_are_detected() {
    let mut info = LinkedFileInfo {
        file_size: 0,
        name: String::new(),
        full_path: String::new(),
        original_path: String::new(),
        relative_path: String::new(),
    };
    assert!(!linked_file_uses_versioned_paths(&info));
    info.relative_path = "a".to_string();
    assert!(linked_file_uses_versioned_paths(&info));
}
