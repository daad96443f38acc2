use psd_great::format::resource_section::{write_image_resources, ImageResources};
use psd_great::io::writer::PsdWriter;
use psd_great::types::{Color, RGBA};

fn written(res: &ImageResources) -> Vec<u8> {
    let mut w = PsdWriter::new(64);
    write_image_resources(&mut w, res).unwrap();
    w.into_buffer()
}

#[test]
fn no_resources_write_nothing() {
    assert!(written(&ImageResources::default()).is_empty());
}

#[test]
fn resources_are_written_as_blocks_in_order() {
    let mut res = ImageResources::default();
    res.url = Some("ab".to_string());
    res.layer_state = Some(7);
    let expected: Vec<u8> = vec![
        0x38, 0x42, 0x49, 0x4d, 0x04, 0x00, 0, 0, 0, 0, 0, 2, 0x00, 0x07, // layer state
        0x38, 0x42, 0x49, 0x4d, 0x04, 0x0b, 0, 0, 0, 0, 0, 2, b'a', b'b', // url
    ];
    assert_eq!(written(&res), expected);
}

#[test]
fn odd_resource_data_is_padded() {
    let mut res = ImageResources::default();
    res.icc_profile = Some(vec![1, 2, 3]);
    assert_eq!(
        written(&res),
        vec![0x38, 0x42, 0x49, 0x4d, 0x04, 0x0f, 0, 0, 0, 0, 0, 3, 1, 2, 3, 0]
    );
}

#[test]
fn xml_resources_come_last() {
    let mut res = ImageResources::default();
    res.variables = Some("<variables/>".to_string());
    res.copyrighted = Some(true);
    let out = written(&res);
    assert_eq!(&out[..14], &[0x38, 0x42, 0x49, 0x4d, 0x04, 0x0a, 0, 0, 0, 0, 0, 1, 1, 0]);
    assert_eq!(&out[14..20], &[0x38, 0x42, 0x49, 0x4d, 0x1b, 0x58]);
    assert_eq!(&out[22..26], &[0, 0, 0, 12]);
    assert_eq!(&out[26..], b"<variables/>");
}

#[test]
fn rgba_background_color_is_refused() {
    let mut res = ImageResources::default();
    res.background_color = Some(Color::RGBA(RGBA { r: 1, g: 2, b: 3, a: 4 }));
    let mut w = PsdWriter::new(64);
    let err = write_image_resources(&mut w, &res).unwrap_err();
    assert!(err.to_string().starts_with("Unsupported feature"));
}

#[test]
fn long_clipping_path_name_is_refused() {
    let mut res = ImageResources::default();
    res.clipping_path_name = Some("x".repeat(300));
    let mut w = PsdWriter::new(64);
    let err = write_image_resources(&mut w, &res).unwrap_err();
    assert!(err.to_string().starts_with("Invalid format"));
}

#[test]
fn clipping_path_name_is_a_padded_pascal_string() {
    let mut res = ImageResources::default();
    res.clipping_path_name = Some("Path 1".to_string());
    assert_eq!(
        written(&res),
        vec![
            0x38, 0x42, 0x49, 0x4d, 0x0b, 0xb7, 0, 0, 0, 0, 0, 8, 6, b'P', b'a', b't', b'h', b' ',
            b'1', 0
        ]
    );
}
