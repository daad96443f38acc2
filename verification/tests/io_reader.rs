use psd_great::io::reader::PsdReader;
use psd_great::psd::ReadOptions;
use psd_great::types::{Color, Grayscale, CMYK};

#[test]
fn test_read_signature() {
    let data = b"8BPS";
    let mut reader = PsdReader::new(data.to_vec(), ReadOptions::default());
    let sig = reader.read_signature().unwrap();
    assert_eq!(sig, "8BPS");
}

#[test]
fn test_read_pascal_string() {
    let data = vec![5, b'H', b'e', b'l', b'l', b'o', 0, 0];
    let mut reader = PsdReader::new(data, ReadOptions::default());
    let s = reader.read_pascal_string(4).unwrap();
    assert_eq!(s, "Hello");
}

#[test]
fn test_read_integers() {
    let data = vec![0x00, 0x01, 0x00, 0x00, 0x00, 0x02];
    let mut reader = PsdReader::new(data, ReadOptions::default());
    assert_eq!(reader.read_u16().unwrap(), 1);
    assert_eq!(reader.read_u32().unwrap(), 2);
}

#[test]
fn test_read_section_applies_padding_for_round() {
    let data = vec![0x00, 0x00, 0x00, 0x01, 0xAA, 0x00, 0xBB];
    let mut reader = PsdReader::new(data, ReadOptions::default());
    let payload = reader
        .read_section(2, false, |r, _| r.read_u8())
        .expect("read section");
    assert_eq!(payload, 0xAA);
    let next = reader.read_u8().expect("next byte");
    assert_eq!(next, 0xBB);
}

#[test]
fn truncated_section_padding_is_rejected() {
    let mut reader = PsdReader::new(vec![0, 0, 0, 1, 0xAA], ReadOptions::default());
    let result = reader.read_section(2, false, |reader, _| reader.read_u8());
    assert!(result.is_err(), "missing alignment padding must fail");
}

#[test]
fn test_section_handler_overread_is_rejected() {
    let data = vec![0x00, 0x00, 0x00, 0x01, 0x07, 0x08];
    let mut reader = PsdReader::new(data, ReadOptions::default());
    let err = reader
        .read_section(1, false, |r, _| r.read_u16())
        .unwrap_err();
    assert!(
        err.to_string().contains("overread"),
        "unexpected error: {}",
        err.to_string()
    );
    assert_eq!(reader.read_u8().unwrap(), 0x07);
}

#[test]
fn test_section_declared_payload_past_eof_is_rejected() {
    let data = vec![0x00, 0x00, 0x00, 0x64];
    let mut reader = PsdReader::new(data, ReadOptions::default());
    let err = reader.read_section(1, false, |_, _| Ok(())).unwrap_err();
    assert!(
        err.to_string().contains("exceeds available input"),
        "unexpected error: {}",
        err.to_string()
    );
}

#[test]
fn test_nested_section_bounds_apply_to_inner_handlers() {
    let data = vec![0x00, 0x00, 0x00, 0x06, 0x00, 0x00, 0x00, 0x05, 0x01, 0x02];
    let mut reader = PsdReader::new(data, ReadOptions::default());
    let err = reader
        .read_section(1, false, |reader, end_offset| {
            if reader.bytes_left(end_offset) > 0 {
                reader.read_section(1, false, |r, _| r.read_u8())?;
            }
            Ok(())
        })
        .unwrap_err();
    assert!(
        err.to_string().contains("overread") || err.to_string().contains("exceeds available input"),
        "unexpected error: {}",
        err.to_string()
    );
}

#[test]
fn test_read_color_cmyk() {
    let bytes = [0x00, 0x02, 0xFF, 0xFF, 0x80, 0x80, 0x40, 0x40, 0x00, 0x00];
    let mut reader = PsdReader::new(bytes.to_vec(), ReadOptions::default());
    let color = reader.read_color().unwrap();
    assert_eq!(
        color,
        Color::CMYK(CMYK {
            c: 65535,
            m: 32896,
            y: 16448,
            k: 0,
        })
    );
}

#[test]
fn test_read_color_preserves_grayscale_0_to_10000() {
    let bytes = [0x00, 0x08, 0x27, 0x10, 0x00, 0x00, 0x00, 0x00, 0x00, 0x00];
    let mut reader = PsdReader::new(bytes.to_vec(), ReadOptions::default());
    let color = reader.read_color().unwrap();
    assert_eq!(color, Color::Grayscale(Grayscale { k: 10000 }));
}

#[test]
fn test_read_color_preserves_opaque_custom_space() {
    let bytes = [0x00, 0x03, 0x00, 0x01, 0x00, 0x02, 0x00, 0x03, 0x00, 0x04];
    let mut reader = PsdReader::new(bytes.to_vec(), ReadOptions::default());
    let color = reader.read_color().unwrap();
    assert_eq!(
        color,
        Color::OpaqueColorSpace {
            color_space: 3,
            components: [1, 2, 3, 4],
        }
    );
}
