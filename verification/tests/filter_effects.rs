use std::io::Write;
use psd_great::additional_info::{
    ChannelImageData, FilterEffectsBlock, FilterEffectsItem, FilterEffectsPreview,
    FilterEffectsRect, FilterEffectsSlot,
};
use psd_great::filter_effects::{
    decode_feid_slot, interleave_feid_buffer, read_filter_effects, sample_to_byte,
};
use psd_great::io::writer::PsdWriter;
use psd_great::psd::ReadOptions;
use psd_great::reader::PsdReader;
use psd_great::types::PixelData;

fn float_to_byte(bits: u32) -> u8 {
    (f32::from_bits(bits) * 255.0).round().clamp(0.0, 255.0) as u8
}

fn write_block(block: &FilterEffectsBlock) -> Vec<u8> {
    let mut w = PsdWriter::new(256);
    w.write_filter_effects(block).unwrap();
    w.into_buffer()
}

fn read_block(buf: Vec<u8>) -> FilterEffectsBlock {
    let len = buf.len();
    let mut reader = PsdReader::new(buf, ReadOptions::default());
    let block = read_filter_effects(&mut reader, len, &float_to_byte).unwrap();
    assert_eq!(reader.offset as usize, len);
    block
}

fn minimal_item() -> FilterEffectsItem {
    FilterEffectsItem {
        id: "test".to_string(),
        version: Some(1),
        rect: None,
        depth: None,
        channel_count: None,
        slots: None,
        preview: None,
        rgba: None,
    }
}

#[test]
fn feid_roundtrip_minimal_item() {
    let block = FilterEffectsBlock { version: 1, items: vec![minimal_item()] };
    assert_eq!(read_block(write_block(&block)), block);
}

#[test]
fn feid_minimal_item_bytes() {
    let block = FilterEffectsBlock { version: 3, items: vec![minimal_item()] };
    assert_eq!(
        write_block(&block),
        vec![
            0, 0, 0, 3, // version
            0, 0, 0, 0, 0, 0, 0, 13, // item length
            4, b't', b'e', b's', b't', 0, 0, 0, 1, 0, 0, 0, 0, // id, version, flag
            0, 0, 0, // padding to four bytes
        ]
    );
}

fn slot(slot: u32, data: Vec<u8>) -> FilterEffectsSlot {
    FilterEffectsSlot { slot, channel_data: ChannelImageData { width: 2, height: 1, data } }
}

#[test]
fn feid_roundtrip_with_slots_and_preview() {
    let rect = FilterEffectsRect { left: 1, top: 2, right: 3, bottom: 3 };
    let preview_rect = FilterEffectsRect { left: 0, top: 0, right: 1, bottom: 1 };
    let item = FilterEffectsItem {
        id: "filter".to_string(),
        version: Some(2),
        rect: Some(rect),
        depth: Some(8),
        channel_count: Some(3),
        slots: Some(vec![slot(0, vec![10, 20]), slot(2, vec![30, 40]), slot(4, vec![50])]),
        preview: Some(FilterEffectsPreview {
            rect: preview_rect,
            channel_data: ChannelImageData { width: 1, height: 1, data: vec![9, 8, 7, 6] },
            rgba: Some(PixelData { data: vec![9, 8, 7, 6], width: 1, height: 1 }),
        }),
        rgba: None,
    };
    let block = FilterEffectsBlock { version: 1, items: vec![item.clone()] };
    let back = read_block(write_block(&block));
    let mut expected = item;
    expected.rgba = Some(PixelData { data: vec![10, 255, 30, 255, 20, 255, 40, 255], width: 2, height: 1 });
    assert_eq!(back.items, vec![expected]);
}

#[test]
fn feid_last_slot_of_a_number_is_written() {
    let rect = FilterEffectsRect { left: 0, top: 0, right: 2, bottom: 1 };
    let item = FilterEffectsItem {
        id: String::new(),
        version: None,
        rect: Some(rect),
        depth: None,
        channel_count: Some(1),
        slots: Some(vec![slot(1, vec![1, 1]), slot(1, vec![7, 7])]),
        preview: None,
        rgba: None,
    };
    let back = read_block(write_block(&FilterEffectsBlock { version: 1, items: vec![item] }));
    let item = &back.items[0];
    assert_eq!(item.version, Some(1));
    assert_eq!(item.depth, Some(8));
    assert_eq!(item.slots, Some(vec![slot(1, vec![7, 7])]));
    assert_eq!(item.rgba.as_ref().unwrap().data, vec![255, 7, 255, 255, 255, 7, 255, 255]);
}

#[test]
fn sample_to_byte_by_depth() {
    let data = [0x12u8, 0x34, 0x56, 0x78];
    assert_eq!(sample_to_byte(&data, 1, 8, &float_to_byte), 0x34);
    assert_eq!(sample_to_byte(&data, 9, 8, &float_to_byte), 0);
    assert_eq!(sample_to_byte(&data, 1, 16, &float_to_byte), 0x78);
    assert_eq!(sample_to_byte(&data, 2, 16, &float_to_byte), 0);
    assert_eq!(sample_to_byte(&data, 0, 4, &float_to_byte), 0);
    let half = 0.5f32.to_bits().to_be_bytes();
    assert_eq!(sample_to_byte(&half, 0, 32, &float_to_byte), 128);
    assert_eq!(sample_to_byte(&half[..3], 0, 32, &float_to_byte), 0);
}

#[test]
fn interleave_uses_first_slot_of_a_number() {
    let rect = FilterEffectsRect { left: 0, top: 0, right: 2, bottom: 1 };
    let slots = vec![slot(25, vec![5]), slot(25, vec![6, 6]), slot(0, vec![1, 2])];
    let px = interleave_feid_buffer(rect, &slots, 8, &float_to_byte);
    assert_eq!((px.width, px.height), (2, 1));
    assert_eq!(px.data, vec![1, 255, 255, 5, 2, 255, 255, 255]);
}

#[test]
fn interleave_reversed_rect_is_empty() {
    let rect = FilterEffectsRect { left: 5, top: 0, right: 1, bottom: 3 };
    let px = interleave_feid_buffer(rect, &[], 8, &float_to_byte);
    assert_eq!((px.width, px.height), (0, 3));
    assert!(px.data.is_empty());
}

#[test]
fn decode_slot_raw_rle_and_zip() {
    assert_eq!(decode_feid_slot(&[0, 0, 1, 2, 3], 3, 1, 8), vec![1, 2, 3]);
    assert_eq!(decode_feid_slot(&[0], 3, 1, 8), Vec::<u8>::new());
    // PackBits: one row of 2 bytes encoding a run of three 9s.
    assert_eq!(decode_feid_slot(&[0, 1, 0, 2, 0xFE, 9], 3, 1, 8), vec![9, 9, 9]);
    // Table longer than the payload: kept as it stands.
    assert_eq!(decode_feid_slot(&[0, 1, 0], 3, 2, 8), vec![0]);
    // Unknown code: kept as it stands.
    assert_eq!(decode_feid_slot(&[0, 9, 4, 5], 2, 1, 8), vec![4, 5]);
    // A DEFLATE stream that does not decode: kept as it stands.
    assert_eq!(decode_feid_slot(&[0, 2, 0xFF, 0xFF], 1, 1, 8), vec![0xFF, 0xFF]);
}

#[test]
fn decode_slot_deflate() {
    let mut enc = flate2::write::DeflateEncoder::new(Vec::new(), flate2::Compression::default());
    enc.write_all(&[4, 5, 6]).unwrap();
    let mut stored = vec![0u8, 2];
    stored.extend(enc.finish().unwrap());
    assert_eq!(decode_feid_slot(&stored, 3, 1, 8), vec![4, 5, 6]);
}

#[test]
fn feid_truncated_block_fails() {
    let mut buf = write_block(&FilterEffectsBlock { version: 1, items: vec![minimal_item()] });
    buf.truncate(10);
    let mut reader = PsdReader::new(buf, ReadOptions::default());
    assert!(read_filter_effects(&mut reader, 28, &float_to_byte).is_err());
}

#[test]
fn feid_long_id_is_refused() {
    let mut item = minimal_item();
    item.id = "x".repeat(256);
    let mut w = PsdWriter::new(16);
    assert!(w.write_filter_effects(&FilterEffectsBlock { version: 1, items: vec![item] }).is_err());
}
