use psd_great::io::header::read_psd_header;
use psd_great::io::reader::PsdReader;
use psd_great::psd::ReadOptions;
use psd_great::types::ColorMode;

fn minimal_valid_psd() -> Vec<u8> {
    vec![
        b'8', b'B', b'P', b'S', // signature
        0x00, 0x01, // version
        0, 0, 0, 0, 0, 0, // reserved
        0x00, 0x03, // channels
        0x00, 0x00, 0x00, 0x01, // height
        0x00, 0x00, 0x00, 0x01, // width
        0x00, 0x08, // depth
        0x00, 0x03, // RGB
        0x00, 0x00, 0x00, 0x00, // color mode data length
        0x00, 0x00, 0x00, 0x00, // image resources length
        0x00, 0x00, 0x00, 0x00, // layer and mask length
        0x00, 0x00, // image compression = raw
        0x00, 0x00, 0x00, // one byte per channel
    ]
}

fn header_error(bytes: Vec<u8>) -> String {
    let mut reader = PsdReader::new(bytes, ReadOptions::default());
    match read_psd_header(&mut reader) {
        Ok(_) => panic!("header accepted"),
        Err(e) => e.to_string(),
    }
}

#[test]
fn test_rejects_non_zero_reserved_header_bytes() {
    let mut bytes = minimal_valid_psd();
    bytes[6] = 1;
    assert!(header_error(bytes).contains("reserved"));
}

#[test]
fn test_rejects_zero_width_in_header() {
    let mut bytes = minimal_valid_psd();
    bytes[18..22].copy_from_slice(&0u32.to_be_bytes());
    assert!(header_error(bytes).contains("Invalid size"));
}

#[test]
fn reader_test_rejects_non_zero_reserved_header_bytes() {
    let mut bytes = minimal_valid_psd();
    bytes[11] = 0x80;
    assert_eq!(header_error(bytes), "Invalid format: Header reserved bytes must be zero");
}

#[test]
fn reader_test_rejects_zero_width_in_header() {
    let mut bytes = minimal_valid_psd();
    bytes[18..22].copy_from_slice(&0u32.to_be_bytes());
    assert_eq!(header_error(bytes), "Invalid format: Invalid size: 0x1");
}

#[test]
fn header_of_minimal_document() {
    let mut reader = PsdReader::new(minimal_valid_psd(), ReadOptions::default());
    let h = read_psd_header(&mut reader).unwrap();
    assert_eq!((h.version, h.channels, h.width, h.height, h.bits_per_channel), (1, 3, 1, 1, 8));
    assert!(h.color_mode == ColorMode::RGB);
    assert_eq!(reader.offset, 26);
    assert!(!reader.large);
    assert!(reader.color_mode == Some(ColorMode::RGB));
}

#[test]
fn header_of_large_document_sets_psb_layout() {
    let mut bytes = minimal_valid_psd();
    bytes[5] = 2;
    bytes[18..22].copy_from_slice(&300000u32.to_be_bytes());
    let mut reader = PsdReader::new(bytes, ReadOptions::default());
    let h = read_psd_header(&mut reader).unwrap();
    assert_eq!(h.width, 300000);
    assert!(reader.large);
}

#[test]
fn header_errors_name_the_offending_value() {
    let mut bytes = minimal_valid_psd();
    bytes[0] = b'X';
    assert_eq!(header_error(bytes), "Invalid format: Invalid signature: expected '8BPS', got 'XBPS'");
    let mut bytes = minimal_valid_psd();
    bytes[5] = 3;
    assert_eq!(header_error(bytes), "Invalid format: Invalid PSD file version: 3");
    let mut bytes = minimal_valid_psd();
    bytes[18..22].copy_from_slice(&30001u32.to_be_bytes());
    assert_eq!(header_error(bytes), "Invalid format: Invalid size: 30001x1");
    let mut bytes = minimal_valid_psd();
    bytes[13] = 57;
    assert_eq!(header_error(bytes), "Invalid format: Invalid channel count: 57");
    let mut bytes = minimal_valid_psd();
    bytes[23] = 4;
    assert_eq!(header_error(bytes), "Invalid format: Invalid bits per channel: 4");
    let mut bytes = minimal_valid_psd();
    bytes[25] = 5;
    assert_eq!(header_error(bytes), "Invalid format: Invalid color mode: 5");
}

#[test]
fn header_needs_all_26_bytes() {
    let bytes = minimal_valid_psd()[..20].to_vec();
    let mut reader = PsdReader::new(bytes, ReadOptions::default());
    assert!(read_psd_header(&mut reader).is_err());
    assert_eq!(reader.offset, 0);
}
