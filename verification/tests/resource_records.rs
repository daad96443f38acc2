use psd_great::error::PsdError;
use psd_great::format::guides::{StoredGridAndGuides, StoredGuide};
use psd_great::format::image_resources::{Grid, GuideDirection};
use psd_great::format::paths::{StoredPathPoint, StoredPathRecord};
use psd_great::io::color_mode::{read_color_mode_data, write_color_mode_data};
use psd_great::io::reader::PsdReader;
use psd_great::io::writer::PsdWriter;
use psd_great::psd::{ColorModeSectionData, ReadOptions};
use psd_great::types::{ColorMode, RGB};

fn reader_of(bytes: Vec<u8>) -> PsdReader {
    PsdReader::new(bytes, ReadOptions::default())
}

#[test]
fn test_grid_and_guides_roundtrip() {
    // guide locations are stored in 1/32 pixel: 100.0 and 200.0
    let grid_guides = StoredGridAndGuides {
        grid: Grid { horizontal: 576, vertical: 576 },
        guides: vec![
            StoredGuide { location_times_32: 3200, direction: GuideDirection::Vertical },
            StoredGuide { location_times_32: 6400, direction: GuideDirection::Horizontal },
        ],
    };
    let mut writer = PsdWriter::new(256);
    writer.write_grid_and_guides(&grid_guides).unwrap();
    let buffer = writer.into_buffer();
    assert_eq!(buffer.len(), 16 + 2 * 5);
    let mut reader = reader_of(buffer);
    let read = reader.read_grid_and_guides().unwrap();
    assert_eq!(read, grid_guides);
}

#[test]
fn grid_and_guides_wrong_version_is_invalid() {
    let mut bytes = vec![0, 0, 0, 2];
    bytes.extend_from_slice(&[0; 12]);
    let mut reader = reader_of(bytes);
    match reader.read_grid_and_guides() {
        Err(PsdError::InvalidFormat(_)) => {},
        other => panic!("unexpected {:?}", other),
    }
}

#[test]
fn grid_and_guides_missing_guide_is_io_error() {
    let mut bytes = vec![0, 0, 0, 1, 0, 0, 0, 8, 0, 0, 0, 8, 0, 0, 0, 1];
    bytes.extend_from_slice(&[0, 0, 1]);
    let mut reader = reader_of(bytes);
    match reader.read_grid_and_guides() {
        Err(PsdError::Io(_)) => {},
        other => panic!("unexpected {:?}", other),
    }
}

#[test]
fn path_resource_roundtrip() {
    // points (x, y) = (1, 2), (3, 4), (5, 6), (7, 8) in 8.24 fixed point
    let one = 16777216;
    let record = StoredPathRecord {
        record_type: 1,
        closed: true,
        points: vec![
            StoredPathPoint { y: 2 * one, x: one },
            StoredPathPoint { y: 4 * one, x: 3 * one },
            StoredPathPoint { y: 6 * one, x: 5 * one },
            StoredPathPoint { y: 8 * one, x: 7 * one },
        ],
    };
    let mut w = PsdWriter::new(64);
    w.write_path_resource_records(&[record.clone()]).unwrap();
    let buf = w.into_buffer();
    assert_eq!(buf.len(), 36);
    let len = buf.len();
    let mut reader = reader_of(buf);
    let reparsed = reader.read_path_resource_records(len).unwrap();
    assert_eq!(reparsed, vec![record]);
}

#[test]
fn path_records_closed_flag_follows_type_and_points_are_padded() {
    let record = StoredPathRecord {
        record_type: 6,
        closed: true,
        points: vec![StoredPathPoint { y: -1, x: 5 }],
    };
    let mut w = PsdWriter::new(64);
    w.write_path_resource_records(&[record.clone(), record]).unwrap();
    let buf = w.into_buffer();
    let len = buf.len();
    assert_eq!(len, 72);
    let mut reader = reader_of(buf);
    let reparsed = reader.read_path_resource_records(len).unwrap();
    assert_eq!(reparsed.len(), 2);
    assert!(!reparsed[1].closed);
    assert_eq!(reparsed[1].points[0], StoredPathPoint { y: -1, x: 5 });
    assert_eq!(reparsed[1].points[3], StoredPathPoint { y: 0, x: 0 });
}

#[test]
fn path_records_short_tail_is_ignored() {
    let mut bytes = vec![0u8; 36];
    bytes[1] = 2;
    bytes.extend_from_slice(&[9; 10]);
    let len = bytes.len();
    let mut reader = reader_of(bytes);
    let records = reader.read_path_resource_records(len).unwrap();
    assert_eq!(records.len(), 1);
    assert!(records[0].closed);
}

#[test]
fn alpha_names_are_read_until_the_length_is_used() {
    let bytes = vec![3, b'R', b'e', b'd', 0, 2, b'A', b'B', 7];
    let mut reader = reader_of(bytes);
    let names = reader.read_alpha_names(8).unwrap();
    assert_eq!(names, vec!["Red".to_string(), String::new(), "AB".to_string()]);
    assert_eq!(reader.offset, 8);
}

#[test]
fn alpha_unicode_names_stop_at_zero_length() {
    // "Hi" with its terminating zero unit, then a zero length
    let bytes = vec![0, 0, 0, 3, 0, b'H', 0, b'i', 0, 0, 0, 0, 0, 0, 1, 1];
    let mut reader = reader_of(bytes);
    let names = reader.read_alpha_unicode_names(16).unwrap();
    assert_eq!(names, vec!["Hi".to_string()]);
    assert_eq!(reader.offset, 14);
}

#[test]
fn alpha_unicode_names_truncated_is_an_error() {
    let bytes = vec![0, 0, 0, 9, 0, b'H'];
    let mut reader = reader_of(bytes);
    assert!(reader.read_alpha_unicode_names(6).is_err());
}

#[test]
fn caption_digest_roundtrip() {
    let digest: Vec<u8> = (0u8..16).map(|i| i * 17).collect();
    let mut reader = reader_of(digest.clone());
    let text = reader.read_caption_digest().unwrap();
    assert_eq!(text, "00112233445566778899aabbccddeeff");
    let mut writer = PsdWriter::new(16);
    writer.write_caption_digest(&text).unwrap();
    assert_eq!(writer.into_buffer(), digest);
}

#[test]
fn caption_digest_accepts_upper_case_and_rejects_non_hex() {
    let mut writer = PsdWriter::new(16);
    writer.write_caption_digest("00112233445566778899AABBCCDDEEFF").unwrap();
    assert_eq!(writer.into_buffer()[15], 0xff);
    let mut writer = PsdWriter::new(16);
    match writer.write_caption_digest("zz112233445566778899aabbccddeeff") {
        Err(PsdError::InvalidFormat(_)) => {},
        other => panic!("unexpected {:?}", other),
    }
}

#[test]
fn color_mode_data_palette_roundtrip() {
    let palette: Vec<RGB> = (0..256u32)
        .map(|i| RGB { r: i as u8, g: (255 - i) as u8, b: (i / 2) as u8 })
        .collect();
    let mut writer = PsdWriter::new(800);
    write_color_mode_data(&mut writer, Some(ColorMode::Indexed), Some(&palette), None).unwrap();
    let buf = writer.into_buffer();
    assert_eq!(buf.len(), 772);
    assert_eq!(&buf[0..4], &[0, 0, 3, 0]);
    let mut reader = reader_of(buf);
    let (read_palette, data) = read_color_mode_data(&mut reader, Some(ColorMode::Indexed)).unwrap();
    assert_eq!(read_palette, Some(palette));
    assert_eq!(data, Some(ColorModeSectionData { bytes: Vec::new() }));
}

#[test]
fn color_mode_data_bytes_roundtrip_and_errors() {
    let data = ColorModeSectionData { bytes: vec![1, 2, 3] };
    let mut writer = PsdWriter::new(8);
    write_color_mode_data(&mut writer, Some(ColorMode::RGB), None, Some(&data)).unwrap();
    let buf = writer.into_buffer();
    let mut reader = reader_of(buf);
    let (p, d) = read_color_mode_data(&mut reader, Some(ColorMode::RGB)).unwrap();
    assert_eq!(p, None);
    assert_eq!(d, Some(data));

    let mut writer = PsdWriter::new(8);
    assert!(write_color_mode_data(&mut writer, Some(ColorMode::Indexed), None, None).is_err());

    // an indexed document whose section is not a 768-byte palette
    let mut reader = reader_of(vec![0, 0, 0, 2, 1, 2]);
    match read_color_mode_data(&mut reader, Some(ColorMode::Indexed)) {
        Err(PsdError::InvalidFormat(_)) => {},
        other => panic!("unexpected {:?}", other),
    }
    // an empty section gives nothing
    let mut reader = reader_of(vec![0, 0, 0, 0]);
    assert_eq!(read_color_mode_data(&mut reader, None).unwrap(), (None, None));
    // a section longer than the input
    let mut reader = reader_of(vec![0, 0, 0, 9, 1]);
    assert!(read_color_mode_data(&mut reader, None).is_err());
}

#[test]
fn seek_to_respects_section_bounds() {
    let mut reader = reader_of(vec![0; 8]);
    reader.seek_to(6).unwrap();
    assert_eq!(reader.offset, 6);
    reader.push_section_bound(4);
    match reader.seek_to(5) {
        Err(PsdError::InvalidFormat(_)) => {},
        other => panic!("unexpected {:?}", other),
    }
    assert_eq!(reader.offset, 6);
    reader.seek_to(2).unwrap();
    assert_eq!(reader.offset, 2);
}
