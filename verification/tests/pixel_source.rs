use psd_great::additional_info::{
    FilterEffectsRect, PixelSourceDataBlock, PixelSourceDataImage, PixelSourceDataItem,
};
use psd_great::io::writer::PsdWriter;
use psd_great::pixel_source::read_pixel_source_data;
use psd_great::psd::ReadOptions;
use psd_great::reader::PsdReader;

fn roundtrip(block: &PixelSourceDataBlock) -> PixelSourceDataBlock {
    let mut w = PsdWriter::new(256);
    w.write_pixel_source_data(block).unwrap();
    let buf = w.into_buffer();
    let len = buf.len();
    let mut reader = PsdReader::new(buf, ReadOptions::default());
    let reparsed = read_pixel_source_data(&mut reader, len).unwrap();
    assert_eq!(reader.offset as usize, len);
    reparsed
}

#[test]
fn pxsd_roundtrip_minimal_item() {
    let block = PixelSourceDataBlock { items: vec![PixelSourceDataItem { key: 7, images: None }] };
    assert_eq!(roundtrip(&block), block);
}

#[test]
fn pxsd_roundtrip_with_images() {
    let rect = FilterEffectsRect { left: -3, top: 4, right: 100, bottom: 200 };
    let block = PixelSourceDataBlock {
        items: vec![
            PixelSourceDataItem {
                key: 1,
                images: Some(vec![
                    PixelSourceDataImage { index: 0, rect: Some(rect), rgba: None },
                    PixelSourceDataImage {
                        index: 9,
                        rect: Some(FilterEffectsRect { left: 0, top: 0, right: 1, bottom: 1 }),
                        rgba: None,
                    },
                ]),
            },
            PixelSourceDataItem { key: 2, images: None },
        ],
    };
    assert_eq!(roundtrip(&block), block);
}

#[test]
fn pxsd_image_without_rect_reads_back_with_zero_rect() {
    let block = PixelSourceDataBlock {
        items: vec![PixelSourceDataItem {
            key: 5,
            images: Some(vec![PixelSourceDataImage { index: 3, rect: None, rgba: None }]),
        }],
    };
    let back = roundtrip(&block);
    let images = back.items[0].images.as_ref().unwrap();
    assert_eq!(images[0].index, 3);
    assert_eq!(images[0].rect, Some(FilterEffectsRect { left: 0, top: 0, right: 0, bottom: 0 }));
}

#[test]
fn pxsd_item_bytes_layout() {
    let block = PixelSourceDataBlock { items: vec![PixelSourceDataItem { key: 7, images: None }] };
    let mut w = PsdWriter::new(64);
    w.write_pixel_source_data(&block).unwrap();
    assert_eq!(
        w.into_buffer(),
        vec![
            0, 0, 0, 0, 0, 0, 0, 24, // item length
            0, 0, 0, 7, 0, 0, 0, 2, 0, 0, 0, 2, 0, 0, 0, 0, 0, 0, 0, 0, 0, 0, 0, 0,
        ]
    );
}

#[test]
fn pxsd_truncated_item_fails() {
    let mut reader = PsdReader::new(vec![0, 0, 0, 0, 0, 0, 0, 24, 0, 0], ReadOptions::default());
    assert!(read_pixel_source_data(&mut reader, 10).is_err());
}

#[test]
fn pxsd_other_kind_has_no_images_and_skips_chunk() {
    let bytes = vec![
        0, 0, 0, 0, 0, 0, 0, 12, // length 12
        0, 0, 0, 1, 0, 0, 0, 5, 0xAA, 0xBB, 0xCC, 0xDD, // key 1, kind 5, 4 more bytes
    ];
    let len = bytes.len();
    let mut reader = PsdReader::new(bytes, ReadOptions::default());
    let block = read_pixel_source_data(&mut reader, len).unwrap();
    assert_eq!(block.items, vec![PixelSourceDataItem { key: 1, images: None }]);
    assert_eq!(reader.offset, 20);
}

#[test]
fn pxsd_zero_image_length_stops_images() {
    let bytes = vec![
        0, 0, 0, 0, 0, 0, 0, 32, // chunk length
        0, 0, 0, 4, 0, 0, 0, 2, // key 4, kind 2
        0, 0, 0, 0, 0, 0, 0, 0, 0, 0, 0, 0, 0, 0, 0, 3, // three words, count 3
        0, 0, 0, 0, 0, 0, 0, 0, // zero image length
    ];
    let len = bytes.len();
    let mut reader = PsdReader::new(bytes, ReadOptions::default());
    let block = read_pixel_source_data(&mut reader, len).unwrap();
    assert_eq!(block.items, vec![PixelSourceDataItem { key: 4, images: None }]);
}
