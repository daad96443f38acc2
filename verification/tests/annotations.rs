use psd_great::additional_info::AnnotationItem;
use psd_great::annotations::{read_annotation_item, read_annotations};
use psd_great::io::writer::PsdWriter;
use psd_great::psd::ReadOptions;
use psd_great::reader::PsdReader;

fn item() -> AnnotationItem {
    AnnotationItem {
        x: 10,
        y: -20,
        color_l: 255,
        color_o: 128,
        color_c: 0,
        author: "Ann".to_string(),
        text: "Hello".to_string(),
    }
}

#[test]
fn annotation_block_reads_back_its_item() {
    let mut writer = PsdWriter::new(64);
    writer.write_annotations(&[item()]).unwrap();
    let mut bytes = writer.into_buffer();
    // the text block announces one code unit more than it holds; the unit
    // after the block is read too, and a zero unit adds no character
    bytes.extend_from_slice(&[0, 0]);
    let mut reader = PsdReader::new(bytes, ReadOptions::default());
    let items = read_annotations(&mut reader).unwrap();
    assert_eq!(items, vec![item()]);
}

#[test]
fn annotation_item_layout() {
    let mut writer = PsdWriter::new(64);
    writer.write_annotations(&[item()]).unwrap();
    let bytes = writer.into_buffer();
    assert_eq!(&bytes[0..8], &[0, 2, 0, 1, 0, 0, 0, 1]);
    assert_eq!(&bytes[12..16], b"txtA");
    // color 128 is stored as 128 * 257
    assert_eq!(&bytes[12 + 44..12 + 46], &[128, 128]);
    let item_len = u32::from_be_bytes([bytes[8], bytes[9], bytes[10], bytes[11]]) as usize;
    assert_eq!(bytes.len(), 12 + item_len);
}

#[test]
fn annotation_wrong_signature_is_invalid() {
    let mut bytes = b"txtB".to_vec();
    bytes.extend_from_slice(&[0; 60]);
    let mut reader = PsdReader::new(bytes, ReadOptions::default());
    match read_annotation_item(&mut reader, 64) {
        Err(psd_great::error::PsdError::InvalidFormat(_)) => {},
        other => panic!("unexpected {:?}", other),
    }
}

#[test]
fn annotation_truncated_is_io_error() {
    let mut writer = PsdWriter::new(64);
    writer.write_annotations(&[item()]).unwrap();
    let mut bytes = writer.into_buffer();
    bytes.truncate(40);
    let mut reader = PsdReader::new(bytes, ReadOptions::default());
    match read_annotations(&mut reader) {
        Err(psd_great::error::PsdError::Io(_)) => {},
        other => panic!("unexpected {:?}", other),
    }
}
