use psd_great::compression::{
    compress_rle, compress_zip, compress_zip_with_prediction, decompress_rle, decompress_zip,
    decompress_zip_with_prediction,
};

#[test]
fn test_compress_decompress_rle() {
    let data = vec![1, 1, 1, 2, 3, 4, 5, 5];
    let compressed = compress_rle(&data, 8, 1).unwrap();

    let byte_count = u16::from_be_bytes([compressed[0], compressed[1]]) as usize;
    let compressed_data = &compressed[2..];

    let mut output = vec![0u8; 8];
    decompress_rle(compressed_data, &mut output, 8, 1, &[byte_count as u16]).unwrap();

    assert_eq!(output, data);
}

#[test]
fn test_compress_decompress_zip() {
    let data = b"Hello, World! This is a test of ZIP compression.";
    let compressed = compress_zip(data).unwrap();
    let decompressed = decompress_zip(&compressed, data.len()).unwrap();

    assert_eq!(&decompressed[..], &data[..]);
}

#[test]
fn zip_roundtrip_is_raw_deflate_not_zlib() {
    let data: Vec<u8> = (0..256u16).map(|v| v as u8).collect();
    let compressed = compress_zip(&data).unwrap();
    let recovered = decompress_zip(&compressed, data.len()).unwrap();
    assert_eq!(recovered, data);
    assert!(
        !(compressed.len() >= 2 && compressed[0] == 0x78 && compressed[1] == 0x9C),
        "output looks like a Zlib stream; should be raw deflate"
    );
}

#[test]
fn zip_prediction_8bit_roundtrip() {
    let data: Vec<u8> = vec![10, 20, 30, 40, 50, 60, 70, 80];
    let compressed = compress_zip_with_prediction(&data, 4, 2, 8).unwrap();
    let recovered = decompress_zip_with_prediction(&compressed, 4, 2, 8).unwrap();
    assert_eq!(recovered, data);
}

#[test]
fn zip_prediction_16bit_roundtrip() {
    let data: Vec<u8> = vec![0x01, 0x00, 0x02, 0x00, 0x03, 0x00];
    let compressed = compress_zip_with_prediction(&data, 3, 1, 16).unwrap();
    let recovered = decompress_zip_with_prediction(&compressed, 3, 1, 16).unwrap();
    assert_eq!(recovered, data);
}

#[test]
fn zip_prediction_32bit_roundtrip() {
    let data: Vec<u8> = vec![0x3f, 0x80, 0x00, 0x00, 0x40, 0x00, 0x00, 0x00];
    let compressed = compress_zip_with_prediction(&data, 2, 1, 32).unwrap();
    let recovered = decompress_zip_with_prediction(&compressed, 2, 1, 32).unwrap();
    assert_eq!(recovered, data);
}

use psd_great::compression::reverse_prediction_planar;

#[test]
fn planar_prediction_is_undone_per_plane() {
    let mut data = vec![1, 1, 1, 5, 5, 5, 9];
    reverse_prediction_planar(&mut data, 3, 1, 2, 8);
    assert_eq!(data, vec![1, 2, 3, 5, 10, 15, 9]);
    let mut same = vec![1, 2, 3];
    reverse_prediction_planar(&mut same, 3, 1, 1, 12);
    assert_eq!(same, vec![1, 2, 3]);
}

#[test]
fn rle_rejects_missing_counts() {
    let mut out = vec![0u8; 4];
    let err = decompress_rle(&[0, 1], &mut out, 2, 2, &[2]).unwrap_err();
    assert!(err.to_string().starts_with("Compression error"));
}

#[test]
fn short_zip_channel_is_an_error() {
    let compressed = compress_zip(&[1, 2]).unwrap();
    assert!(decompress_zip_with_prediction(&compressed, 2, 2, 8).is_err());
    assert!(compress_zip_with_prediction(&[1], 1, 1, 12).is_err());
}

#[test]
fn rle_widest_literal_row_fits_its_count() {
    // No three equal bytes in a row: the row packs into literal blocks of
    // 128 bytes, one header each.
    let width = 65026usize;
    let data: Vec<u8> = (0..width).map(|i| (i % 251) as u8).collect();
    let compressed = compress_rle(&data, width, 1).unwrap();
    let count = u16::from_be_bytes([compressed[0], compressed[1]]) as usize;
    assert_eq!(count, width + (width + 127) / 128);
    assert_eq!(compressed.len(), 2 + count);
    let mut out = vec![0u8; width];
    decompress_rle(&compressed[2..], &mut out, width, 1, &[count as u16]).unwrap();
    assert_eq!(out, data);
}

#[test]
fn rle_runs_take_two_bytes_per_128() {
    let data = vec![7u8; 300];
    let compressed = compress_rle(&data, 300, 1).unwrap();
    // 128 + 128 + 44: three run packets of two bytes each.
    assert_eq!(&compressed[..2], &[0, 6]);
    assert_eq!(&compressed[2..], &[129, 7, 129, 7, 213, 7]);
}
