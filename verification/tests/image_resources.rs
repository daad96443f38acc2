use psd_great::format::image_resources::{
    build_color_samplers_resource, build_thumbnail_resource,
    next_bytes_start_legacy_slice_descriptor, parse_color_samplers_resource,
    ColorSamplersResource, Thumbnail, ThumbnailFormat, ThumbnailHeaderRecord,
};
use psd_great::psd::{ColorSampler, ColorSamplerPosition};

#[test]
fn thumbnail_format_matches_spec_values() {
    let thumbnail = Thumbnail {
        width: 1,
        height: 1,
        format: ThumbnailFormat::JpegRgb,
        data: vec![0xFF, 0xD8, 0xFF],
    };
    let bytes = build_thumbnail_resource(&thumbnail);
    assert_eq!(u32::from_be_bytes(bytes[0..4].try_into().unwrap()), 1);
}

#[test]
fn thumbnail_header_roundtrips_via_binrw() {
    let record = ThumbnailHeaderRecord {
        format: 1,
        width: 5,
        height: 7,
        width_bytes: 16,
        total_size: 112,
        compressed_size: 13,
        bits_per_pixel: 24,
        planes: 1,
    };

    let bytes = record.encode();
    let reparsed = ThumbnailHeaderRecord::decode(&bytes).expect("decode");

    assert_eq!(reparsed, record);
}

#[test]
fn color_sampler_roundtrips_color_space_and_depth() {
    let resource = ColorSamplersResource {
        version: 2,
        samplers: vec![ColorSampler {
            position: ColorSamplerPosition::V2 {
                horizontal: 100,
                vertical: 200,
                depth: 16,
            },
            color_space: 8,
        }],
    };

    let bytes = build_color_samplers_resource(&resource).unwrap();
    let reparsed = parse_color_samplers_resource(&bytes);
    assert_eq!(reparsed, resource);
}

#[test]
fn color_sampler_resource_v1_roundtrips_versioned_position() {
    let resource = ColorSamplersResource {
        version: 1,
        samplers: vec![ColorSampler {
            position: ColorSamplerPosition::V1 {
                horizontal: 123,
                vertical: 456,
            },
            color_space: 2,
        }],
    };

    let bytes = build_color_samplers_resource(&resource).unwrap();
    let reparsed = parse_color_samplers_resource(&bytes);

    assert_eq!(reparsed, resource);
    assert_eq!(bytes.len(), 18);
}

#[test]
fn color_sampler_resource_v2_roundtrips_depth_and_position() {
    let resource = ColorSamplersResource {
        version: 2,
        samplers: vec![ColorSampler {
            position: ColorSamplerPosition::V2 {
                horizontal: -32,
                vertical: 4096,
                depth: 16,
            },
            color_space: 8,
        }],
    };

    let bytes = build_color_samplers_resource(&resource).unwrap();
    let reparsed = parse_color_samplers_resource(&bytes);

    assert_eq!(reparsed, resource);
    assert_eq!(bytes.len(), 20);
}

#[test]
fn color_sampler_resource_preserves_unsupported_version() {
    let resource = ColorSamplersResource {
        version: 3,
        samplers: vec![ColorSampler {
            position: ColorSamplerPosition::Unsupported {
                version: 3,
                horizontal: 7,
                vertical: 9,
                depth: Some(12),
            },
            color_space: 8,
        }],
    };

    let bytes = build_color_samplers_resource(&resource).unwrap();
    let reparsed = parse_color_samplers_resource(&bytes);

    assert_eq!(reparsed, resource);
    assert_eq!(bytes.len(), 20);
}

#[test]
fn color_sampler_resource_rejects_mixed_versions() {
    let resource = ColorSamplersResource {
        version: 2,
        samplers: vec![
            ColorSampler {
                position: ColorSamplerPosition::V2 {
                    horizontal: 1,
                    vertical: 2,
                    depth: 16,
                },
                color_space: 8,
            },
            ColorSampler {
                position: ColorSamplerPosition::V1 {
                    horizontal: 3,
                    vertical: 4,
                },
                color_space: 0,
            },
        ],
    };

    let err = build_color_samplers_resource(&resource).unwrap_err();
    assert!(
        err.to_string().contains("single color sampler version"),
        "unexpected error: {}",
        err.to_string()
    );
}

#[test]
fn color_sampler_resource_rejects_version_shape_mismatch() {
    let resource = ColorSamplersResource {
        version: 1,
        samplers: vec![ColorSampler {
            position: ColorSamplerPosition::V2 {
                horizontal: 1,
                vertical: 2,
                depth: 16,
            },
            color_space: 8,
        }],
    };

    let err = build_color_samplers_resource(&resource).unwrap_err();
    assert!(
        err.to_string().contains("does not match resource version"),
        "unexpected error: {}",
        err.to_string()
    );
}

#[test]
fn color_sampler_resource_rejects_missing_depth_for_unsupported_version_two_or_higher() {
    let resource = ColorSamplersResource {
        version: 9,
        samplers: vec![ColorSampler {
            position: ColorSamplerPosition::Unsupported {
                version: 9,
                horizontal: 1,
                vertical: 2,
                depth: None,
            },
            color_space: 8,
        }],
    };

    let err = build_color_samplers_resource(&resource).unwrap_err();
    assert!(
        err.to_string().contains("requires depth"),
        "unexpected error: {}",
        err.to_string()
    );
}

#[test]
fn color_sampler_public_model_carries_depth_in_position() {
    let sampler = ColorSampler {
        position: ColorSamplerPosition::V2 {
            horizontal: 1,
            vertical: 2,
            depth: 16,
        },
        color_space: 8,
    };

    match sampler.position {
        ColorSamplerPosition::V2 { depth, .. } => assert_eq!(depth, 16),
        _ => panic!("expected version 2 sampler"),
    }
}

#[test]
fn legacy_slice_descriptor_probe_rejects_header_like_trailing_bytes_without_empty_name_prefix() {
    let bytes = [
        0, 0, 0, 16, 0, 0, 0, 0, 0, 0, 0, 0, b'n', b'u', b'l', b'l', 0, 0, 0, 0,
    ];

    assert!(!next_bytes_start_legacy_slice_descriptor(
        &bytes,
        0,
        bytes.len()
    ));
}

use psd_great::format::image_resources::{parse_thumbnail_resource, PrintFlags};
use psd_great::io::reader::PsdReader;
use psd_great::io::writer::PsdWriter;
use psd_great::psd::ReadOptions;

#[test]
fn thumbnail_roundtrip() {
    let thumbnail = Thumbnail {
        width: 5,
        height: 7,
        format: ThumbnailFormat::RawRgb,
        data: vec![1, 2, 3],
    };
    let bytes = build_thumbnail_resource(&thumbnail);
    assert_eq!(bytes.len(), 31);
    assert_eq!(u32::from_be_bytes(bytes[12..16].try_into().unwrap()), 16);
    assert_eq!(u32::from_be_bytes(bytes[16..20].try_into().unwrap()), 112);
    assert_eq!(parse_thumbnail_resource(&bytes), Some(thumbnail));
}

#[test]
fn truncated_thumbnail_is_none() {
    assert_eq!(parse_thumbnail_resource(&[0u8; 27]), None);
    let mut bytes = vec![0u8; 28];
    bytes[23] = 1;
    assert_eq!(parse_thumbnail_resource(&bytes), None);
    assert!(ThumbnailHeaderRecord::decode(&[0u8; 10]).is_err());
}

#[test]
fn short_color_samplers_resource_is_empty() {
    let parsed = parse_color_samplers_resource(&[0, 0, 0, 1]);
    assert_eq!(parsed, ColorSamplersResource { version: 0, samplers: vec![] });
    let parsed = parse_color_samplers_resource(&[0, 0, 0, 1, 0, 0, 0, 5, 0, 0, 0, 1]);
    assert_eq!(parsed.version, 1);
    assert!(parsed.samplers.is_empty());
}

#[test]
fn legacy_slice_descriptor_probe_accepts_empty_name() {
    let bytes = [
        0, 0, 0, 16, 0, 0, 0, 1, 0, 0, 0, 0, 0, 0, b'n', b'u', b'l', b'l', 0, 0, 0, 0,
    ];
    assert!(next_bytes_start_legacy_slice_descriptor(&bytes, 0, bytes.len()));
}

#[test]
fn test_print_flags_roundtrip() {
    let flags = PrintFlags {
        labels: true,
        crop_marks: false,
        color_bars: true,
        registration_marks: false,
        negative: true,
        flip: false,
        interpolate: true,
        caption: false,
        print_flags: true,
    };

    let mut writer = PsdWriter::new(64);
    writer.write_print_flags(&flags).unwrap();

    let buffer = writer.into_buffer();
    let mut reader = PsdReader::new(buffer, ReadOptions::default());
    assert_eq!(reader.read_print_flags().unwrap(), flags);
}

#[test]
fn test_layer_selection_ids_roundtrip() {
    let ids = vec![11, 22, 33];

    let mut writer = PsdWriter::new(64);
    writer.write_layer_selection_ids(&ids).unwrap();

    let buffer = writer.into_buffer();
    let mut reader = PsdReader::new(buffer, ReadOptions::default());
    assert_eq!(reader.read_layer_selection_ids().unwrap(), ids);
}

#[test]
fn small_resource_records_roundtrip() {
    let mut w = PsdWriter::new(0);
    w.write_global_angle(-30).unwrap();
    w.write_global_altitude(45).unwrap();
    w.write_layer_state(3).unwrap();
    w.write_copyright_flag(true).unwrap();
    w.write_layer_group_ids(&[1, 2]).unwrap();
    w.write_url("http://x").unwrap();
    let mut r = PsdReader::new(w.into_buffer(), ReadOptions::default());
    assert_eq!(r.read_global_angle().unwrap(), -30);
    assert_eq!(r.read_global_altitude().unwrap(), 45);
    assert_eq!(r.read_layer_state().unwrap(), 3);
    assert!(r.read_copyright_flag().unwrap());
    assert_eq!(r.read_layer_group_ids(5).unwrap(), vec![1, 2]);
    assert_eq!(r.read_url(8).unwrap(), "http://x");
}

#[test]
fn alpha_identifiers_and_icc_profile_read() {
    let data = vec![0, 0, 0, 7, 0, 0, 1, 0, 9, 9, 9];
    let mut r = PsdReader::new(data, ReadOptions::default());
    assert_eq!(r.read_alpha_identifiers(9).unwrap(), vec![7, 256]);
    assert_eq!(r.read_icc_profile(3).unwrap(), vec![9, 9, 9]);
}
