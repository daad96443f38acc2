use psd_great::error::{compression_error, invalid_format, io_error, unsupported};

#[test]
fn messages_name_their_kind() {
    assert_eq!(io_error("eof").to_string(), "IO error: eof");
    assert_eq!(invalid_format("bad").to_string(), "Invalid format: bad");
    assert_eq!(unsupported("x").to_string(), "Unsupported feature: x");
    assert_eq!(compression_error("z").to_string(), "Compression error: z");
}
