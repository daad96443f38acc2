use psd_great::io::reader::PsdReader;
use psd_great::io::writer::PsdWriter;
use psd_great::psd::ReadOptions;
use psd_great::types::{Color, Grayscale, CMYK};

fn reader_over(writer: PsdWriter) -> PsdReader {
    PsdReader::new(writer.into_buffer(), ReadOptions::default())
}

#[test]
fn integers_read_back_as_written() {
    let mut w = PsdWriter::new(0);
    w.write_u8(7).unwrap();
    w.write_u16(0xBEEF).unwrap();
    w.write_i16(-2).unwrap();
    w.write_u32(0xDEAD_BEEF).unwrap();
    w.write_i32(-123_456).unwrap();
    let mut r = reader_over(w);
    assert_eq!(r.read_u8().unwrap(), 7);
    assert_eq!(r.read_u16().unwrap(), 0xBEEF);
    assert_eq!(r.read_i16().unwrap(), -2);
    assert_eq!(r.read_u32().unwrap(), 0xDEAD_BEEF);
    assert_eq!(r.read_i32().unwrap(), -123_456);
}

#[test]
fn colors_read_back_as_written() {
    let colors = vec![
        Color::Rgb48 { red: 1, green: 2, blue: 3 },
        Color::Hsb { hue: 4, saturation: 5, brightness: 6 },
        Color::CMYK(CMYK { c: 7, m: 8, y: 9, k: 10 }),
        Color::Lab { lightness: 11, a: -12, b: 13 },
        Color::Grayscale(Grayscale { k: 10000 }),
        Color::OpaqueColorSpace { color_space: 42, components: [1, 2, 3, 4] },
    ];
    let mut w = PsdWriter::new(16);
    for c in &colors {
        w.write_color(Some(c)).unwrap();
    }
    let mut r = reader_over(w);
    for c in &colors {
        assert_eq!(&r.read_color().unwrap(), c);
    }
}

#[test]
fn absent_color_reads_as_black() {
    let mut w = PsdWriter::new(16);
    w.write_color(None).unwrap();
    assert_eq!(w.get_buffer(), &[0u8; 10]);
    let mut r = reader_over(w);
    assert_eq!(r.read_color().unwrap(), Color::Rgb48 { red: 0, green: 0, blue: 0 });
}

#[test]
fn pascal_string_reads_back_with_padding() {
    let mut w = PsdWriter::new(16);
    w.write_pascal_string("Layer 1", 4).unwrap();
    w.write_u8(0xAB).unwrap();
    assert_eq!(w.get_buffer().len(), 9);
    let mut r = reader_over(w);
    assert_eq!(r.read_pascal_string(4).unwrap(), "Layer 1");
    assert_eq!(r.read_u8().unwrap(), 0xAB);
}

#[test]
fn unicode_string_reads_back() {
    let mut w = PsdWriter::new(16);
    w.write_unicode_string("Ünïcödé 🎨").unwrap();
    w.write_unicode_string_with_padding("tail\0").unwrap();
    let mut r = reader_over(w);
    assert_eq!(r.read_unicode_string().unwrap(), "Ünïcödé 🎨");
    assert_eq!(r.read_unicode_string().unwrap(), "tail\0");
}

#[test]
fn unicode_string_ending_in_nul_loses_it() {
    let mut w = PsdWriter::new(16);
    w.write_unicode_string("ab\0").unwrap();
    let mut r = reader_over(w);
    assert_eq!(r.read_unicode_string().unwrap(), "ab");
}

#[test]
fn legacy_layer_name_is_cut_and_masked() {
    let long: String = std::iter::repeat('x').take(300).collect();
    let mut w = PsdWriter::new(0);
    w.write_legacy_pascal_layer_name(&long, 4).unwrap();
    let buf = w.get_buffer().to_vec();
    assert_eq!(buf[0], 255);
    assert_eq!(buf.len(), 256);
    let mut w = PsdWriter::new(0);
    w.write_legacy_pascal_layer_name("é1", 2).unwrap();
    assert_eq!(w.get_buffer(), &[2, b'?', b'1', 0]);
    let mut r = reader_over(w);
    assert_eq!(r.read_pascal_string(2).unwrap(), "?1");
}

#[test]
fn written_section_reads_back() {
    let mut w = PsdWriter::new(0);
    w.write_section(4, false, |w| w.write_bytes(&[1, 2, 3])).unwrap();
    w.write_u8(9).unwrap();
    assert_eq!(w.get_buffer(), &[0, 0, 0, 3, 1, 2, 3, 0, 9]);
    let mut r = reader_over(w);
    let payload = r.read_section(4, false, |r, _| r.read_bytes(3)).unwrap();
    assert_eq!(payload, vec![1, 2, 3]);
    assert_eq!(r.read_u8().unwrap(), 9);
}

#[test]
fn large_section_length_counts_padding_when_asked() {
    let mut w = PsdWriter::new(0);
    w.write_section_with_length_mode(2, true, true, |w| w.write_u8(5)).unwrap();
    assert_eq!(w.get_buffer(), &[0, 0, 0, 0, 0, 0, 0, 2, 5, 0]);
}
