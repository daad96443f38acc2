use psd_great::additional_info::{PatternBlock, PatternBlockEntry};
use psd_great::error::PsdError;
use psd_great::io::writer::PsdWriter;
use psd_great::psd::ReadOptions;
use psd_great::reader::PsdReader;
use psd_great::types::{PixelData, PsdStringCode, RGB};

fn rgb_entry() -> PatternBlockEntry {
    PatternBlockEntry {
        name: "pattern".to_string(),
        id: "pat".to_string(),
        version: 1,
        mode: 3,
        width: 2,
        height: 1,
        indexed_palette: None,
        rgba: Some(PixelData {
            data: vec![10, 20, 30, 255, 40, 50, 60, 128],
            width: 2,
            height: 1,
        }),
    }
}

fn roundtrip(block: &PatternBlock) -> PatternBlock {
    let mut writer = PsdWriter::new(256);
    writer.write_pattern_block(block).unwrap();
    let buf = writer.into_buffer();
    let len = buf.len();
    let mut reader = PsdReader::new(buf, ReadOptions::default());
    let read = reader.read_pattern_block(block.key.code.as_str(), len).unwrap();
    assert_eq!(reader.offset as usize, len);
    read
}

#[test]
fn pattern_block_roundtrip() {
    let block = PatternBlock {
        key: PsdStringCode { code: "Patt".to_string() },
        patterns: vec![rgb_entry()],
    };
    assert_eq!(roundtrip(&block), block);
}

#[test]
fn pattern_block_roundtrip_indexed_and_gray() {
    let mut palette = vec![RGB { r: 0, g: 0, b: 0 }; 256];
    palette[1] = RGB { r: 200, g: 100, b: 50 };
    palette[2] = RGB { r: 1, g: 2, b: 3 };
    let indexed = PatternBlockEntry {
        name: "idx".to_string(),
        id: "i".to_string(),
        version: 1,
        mode: 2,
        width: 3,
        height: 1,
        indexed_palette: Some(palette.clone()),
        rgba: Some(PixelData {
            data: vec![200, 100, 50, 255, 1, 2, 3, 7, 0, 0, 0, 0],
            width: 3,
            height: 1,
        }),
    };
    let gray = PatternBlockEntry {
        name: "gray".to_string(),
        id: "g".to_string(),
        version: 1,
        mode: 1,
        width: 1,
        height: 2,
        indexed_palette: None,
        rgba: Some(PixelData { data: vec![9, 9, 9, 255, 4, 4, 4, 40], width: 1, height: 2 }),
    };
    let block = PatternBlock {
        key: PsdStringCode { code: "Pat2".to_string() },
        patterns: vec![gray.clone(), rgb_entry()],
    };
    assert_eq!(roundtrip(&block), block);

    // The indexed pattern writes the red component as the palette index,
    // so only pixels whose red equals their index come back unchanged.
    let block = PatternBlock { key: PsdStringCode { code: "Pat3".to_string() }, patterns: vec![indexed] };
    let read = roundtrip(&block);
    let entry = &read.patterns[0];
    assert_eq!(entry.indexed_palette, Some(palette));
    let px = entry.rgba.as_ref().unwrap();
    assert_eq!(px.data[3], 255);
    assert_eq!(px.data[7], 7);
    assert_eq!(&px.data[0..3], &[0, 0, 0]);
    assert_eq!(&px.data[4..7], &[200, 100, 50]);
}

#[test]
fn pattern_block_empty_reads_nothing() {
    let mut reader = PsdReader::new(vec![1, 2, 3], ReadOptions::default());
    let block = reader.read_pattern_block("Patt", 0).unwrap();
    assert!(block.patterns.is_empty());
    assert_eq!(block.key.code, "Patt");
    assert_eq!(reader.offset, 0);
}

#[test]
fn pattern_entry_truncated_is_io_error() {
    let mut reader = PsdReader::new(vec![0, 0, 0, 1, 0, 0, 0, 3, 0], ReadOptions::default());
    match reader.read_pattern_entry(9) {
        Err(PsdError::Io(_)) => {},
        other => panic!("unexpected {:?}", other),
    }
}

#[test]
fn pattern_id_too_long_is_refused() {
    let mut entry = rgb_entry();
    entry.id = "x".repeat(256);
    let block = PatternBlock { key: PsdStringCode { code: "Patt".to_string() }, patterns: vec![entry] };
    let mut writer = PsdWriter::new(16);
    assert!(writer.write_pattern_block(&block).is_err());
}

#[test]
fn decode_pattern_channel_zero_length_is_zero_filled() {
    let mut reader = PsdReader::new(vec![], ReadOptions::default());
    assert_eq!(reader.decode_pattern_channel(2, 3, 0).unwrap(), vec![0; 6]);
    assert_eq!(reader.offset, 0);
}

#[test]
fn decode_pattern_channel_raw_is_cut_to_size() {
    // depth 8, 16 rectangle bytes, compression 0, one unused byte, samples
    let mut data = vec![0, 0, 0, 8];
    data.extend_from_slice(&[0; 16]);
    data.extend_from_slice(&[0, 0, 0]);
    data.extend_from_slice(&[5, 6, 7, 8, 9]);
    let mut reader = PsdReader::new(data, ReadOptions::default());
    // 2 x 2 samples at depth 8: four of the five stored bytes are taken
    assert_eq!(reader.decode_pattern_channel(2, 2, 28).unwrap(), vec![5, 6, 7, 8]);
    assert_eq!(reader.offset, 27);
}

#[test]
fn decode_pattern_channel_rle() {
    let mut data = vec![0, 0, 0, 8];
    data.extend_from_slice(&[0; 16]);
    data.extend_from_slice(&[0, 1, 0]);
    // one row of three bytes: a run of three 7s
    data.extend_from_slice(&[0, 2, 254, 7]);
    let mut reader = PsdReader::new(data, ReadOptions::default());
    assert_eq!(reader.decode_pattern_channel(3, 1, 27).unwrap(), vec![7, 7, 7]);
    assert_eq!(reader.offset, 27);
}

#[test]
fn decode_pattern_channel_bad_rle_is_compression_error() {
    let mut data = vec![0, 0, 0, 8];
    data.extend_from_slice(&[0; 16]);
    data.extend_from_slice(&[0, 1, 0]);
    // a literal of four bytes where the row has one byte left
    data.extend_from_slice(&[0, 2, 3, 1]);
    let mut reader = PsdReader::new(data, ReadOptions::default());
    match reader.decode_pattern_channel(2, 1, 27) {
        Err(PsdError::Compression(_)) => {},
        other => panic!("unexpected {:?}", other),
    }
}
