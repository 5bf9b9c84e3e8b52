use sprite_sheet::codec::DecodeError;
use sprite_sheet::mapping::{Rect, SpriteSheetMetaData};
use sprite_sheet::{Image, Pixel, SpriteSheet};

// Helper function to create a sample image
fn create_sample_image() -> Image {
    let width = 2;
    let height = 2;
    let mut img = Image::new(width, height);

    img.put_pixel(0, 0, Pixel { r: 255, g: 0, b: 0, a: 255 }); // Red
    img.put_pixel(1, 0, Pixel { r: 0, g: 255, b: 0, a: 255 }); // Green
    img.put_pixel(0, 1, Pixel { r: 0, g: 0, b: 255, a: 255 }); // Blue
    img.put_pixel(1, 1, Pixel { r: 255, g: 255, b: 0, a: 255 }); // Yellow

    img
}

// Helper function to create sample metadata
fn create_sample_metadata() -> SpriteSheetMetaData {
    let mut meta = SpriteSheetMetaData::empty();
    meta.mapping.insert(
        "sprite1".to_string(),
        Rect {
            x: 0,
            y: 0,
            w: 1,
            h: 1,
        },
    );
    meta.mapping.insert(
        "sprite2".to_string(),
        Rect {
            x: 1,
            y: 0,
            w: 1,
            h: 1,
        },
    );
    meta
}

#[test]
fn test_image_raw_to_writer_and_image_raw_from_reader() {
    let image = create_sample_image();

    // Write into an in-memory byte sink
    let mut writer: Vec<u8> = Vec::new();
    SpriteSheet::image_raw_to_writer(&image, &mut writer);

    // Read back from the bytes
    let (result_image, _) = SpriteSheet::image_raw_from_reader(&writer, 0).unwrap();

    // Assert that the written and read images are the same
    assert_eq!(image.dimensions(), result_image.dimensions());
    assert_eq!(image.as_raw(), result_image.as_raw());
}

#[test]
fn test_get_sprite() {
    let image = create_sample_image();
    let meta = create_sample_metadata();
    let sprite_sheet = SpriteSheet::new(image.clone(), meta.clone());

    // Test that sprites are correctly extracted
    let sprite1 = sprite_sheet.get_sprite(&"sprite1".to_string()).unwrap();
    let sprite2 = sprite_sheet.get_sprite(&"sprite2".to_string()).unwrap();

    assert_eq!(sprite1.inner.dimensions(), (1, 1));
    assert_eq!(sprite1.inner.get_pixel(0, 0), Pixel { r: 255, g: 0, b: 0, a: 255 }); // Red sprite

    assert_eq!(sprite2.inner.dimensions(), (1, 1));
    assert_eq!(sprite2.inner.get_pixel(0, 0), Pixel { r: 0, g: 255, b: 0, a: 255 }); // Green sprite
}

#[test]
fn test_version_mismatch() {
    let image = create_sample_image();

    // Write image with wrong version number
    let mut writer: Vec<u8> = Vec::new();
    writer.push(99); // Invalid version number
    writer.extend_from_slice(&image.width().to_le_bytes());
    writer.extend_from_slice(&image.height().to_le_bytes());
    writer.extend_from_slice(image.as_raw());

    // Attempt to read back
    let result = SpriteSheet::image_raw_from_reader(&writer, 0);

    assert!(result.is_err());
    if let Err(err) = result {
        assert_eq!(err, DecodeError::VersionMismatch);
        assert_eq!(err.message(), "Unsupported file version");
    }
}

#[test]
fn test_raw_round_trip() {
    let image = create_sample_image();
    let meta = create_sample_metadata();
    let sheet = SpriteSheet::new(image.clone(), meta.clone());

    let bytes = sheet.encode_raw();
    let decoded = SpriteSheet::decode_raw(&bytes).unwrap();

    assert_eq!(decoded.image.dimensions(), (2, 2));
    assert_eq!(decoded.image.as_raw(), image.as_raw());
    assert_eq!(decoded.meta.len(), 2);
    // Entry-set equality, independent of the order entries were encoded in.
    for name in ["sprite1", "sprite2"] {
        let original = meta.mapping.get(&name.to_string()).copied().unwrap();
        let restored = decoded.meta.mapping.get(&name.to_string()).copied().unwrap();
        assert_eq!(original, restored);
    }
}

#[test]
fn test_raw_round_trip_degenerate_sizes() {
    // 0 x 0 image with an empty mapping
    let sheet = SpriteSheet::new(Image::new(0, 0), SpriteSheetMetaData::empty());
    let bytes = sheet.encode_raw();
    assert_eq!(bytes.len(), 9 + 5); // image header + mapping header, no payload
    let decoded = SpriteSheet::decode_raw(&bytes).unwrap();
    assert_eq!(decoded.image.dimensions(), (0, 0));
    assert_eq!(decoded.meta.len(), 0);

    // 1 x 1 image with one entry
    let mut img = Image::new(1, 1);
    img.put_pixel(0, 0, Pixel { r: 1, g: 2, b: 3, a: 4 });
    let mut meta = SpriteSheetMetaData::empty();
    meta.mapping.insert("p".to_string(), Rect { x: 0, y: 0, w: 1, h: 1 });
    let sheet = SpriteSheet::new(img, meta);
    let decoded = SpriteSheet::decode_raw(&sheet.encode_raw()).unwrap();
    assert_eq!(decoded.image.dimensions(), (1, 1));
    assert_eq!(decoded.image.as_raw(), &vec![1, 2, 3, 4]);
    assert_eq!(
        decoded.meta.mapping.get(&"p".to_string()),
        Some(&Rect { x: 0, y: 0, w: 1, h: 1 })
    );
}

#[test]
fn test_version_gate_any_nonzero_byte() {
    for v in [1u8, 42, 99, 255] {
        // A single wrong leading byte fails, whatever follows (here: nothing).
        let bytes = vec![v];
        assert!(matches!(
            SpriteSheet::decode_raw(&bytes),
            Err(DecodeError::VersionMismatch)
        ));
        assert!(matches!(
            SpriteSheet::image_raw_from_reader(&bytes, 0),
            Err(DecodeError::VersionMismatch)
        ));
    }
}

#[test]
fn test_mapping_version_gate() {
    let mut bytes = vec![7u8];
    bytes.extend_from_slice(&0u32.to_le_bytes());
    assert!(matches!(
        SpriteSheetMetaData::from_reader(&bytes, 0),
        Err(DecodeError::VersionMismatch)
    ));
}

#[test]
fn test_truncation_pixel_data() {
    // A 2 x 2 RGBA stream must supply 16 raw bytes after the 9-byte header;
    // supplying 10 must fail.
    let mut bytes: Vec<u8> = vec![0];
    bytes.extend_from_slice(&2u32.to_le_bytes());
    bytes.extend_from_slice(&2u32.to_le_bytes());
    bytes.extend_from_slice(&[0u8; 10]);
    assert!(matches!(
        SpriteSheet::image_raw_from_reader(&bytes, 0),
        Err(DecodeError::Truncation)
    ));
    assert!(matches!(
        SpriteSheet::decode_raw(&bytes),
        Err(DecodeError::Truncation)
    ));
}

#[test]
fn test_mapping_truncation() {
    // Empty stream
    assert!(matches!(
        SpriteSheetMetaData::from_reader(&[], 0),
        Err(DecodeError::Truncation)
    ));
    // Version byte only, no entry count
    assert!(matches!(
        SpriteSheetMetaData::from_reader(&[0u8], 0),
        Err(DecodeError::Truncation)
    ));
    // One entry declared, nothing follows
    let mut bytes: Vec<u8> = vec![0];
    bytes.extend_from_slice(&1u32.to_le_bytes());
    assert!(matches!(
        SpriteSheetMetaData::from_reader(&bytes, 0),
        Err(DecodeError::Truncation)
    ));
    // Key declared longer than the bytes supplied
    bytes.extend_from_slice(&10u32.to_le_bytes());
    bytes.extend_from_slice(b"abc");
    assert!(matches!(
        SpriteSheetMetaData::from_reader(&bytes, 0),
        Err(DecodeError::Truncation)
    ));
}

#[test]
fn test_invalid_utf8_key() {
    let mut bytes: Vec<u8> = vec![0]; // mapping version
    bytes.extend_from_slice(&2u32.to_le_bytes()); // two entries declared
    bytes.extend_from_slice(&2u32.to_le_bytes()); // key length 2
    bytes.extend_from_slice(&[0xff, 0xfe]); // not valid UTF-8
    bytes.extend_from_slice(&[0u8; 16]); // rectangle of the bad entry
    // A syntactically complete second entry follows; it must not be reached.
    bytes.extend_from_slice(&1u32.to_le_bytes());
    bytes.push(b'k');
    bytes.extend_from_slice(&[0u8; 16]);
    assert!(matches!(
        SpriteSheetMetaData::from_reader(&bytes, 0),
        Err(DecodeError::InvalidEncoding)
    ));
}

#[test]
fn test_non_ascii_key_round_trip() {
    // A multi-byte UTF-8 key survives the codec unchanged.
    let name = "h\u{e9}llo\u{2713}".to_string();
    let mut meta = SpriteSheetMetaData::empty();
    meta.mapping.insert(name.clone(), Rect { x: 5, y: 6, w: 7, h: 8 });
    let bytes = meta.to_bytes();
    let decoded = SpriteSheetMetaData::from_bytes(bytes).unwrap();
    assert_eq!(decoded.len(), 1);
    assert_eq!(
        decoded.mapping.get(&name),
        Some(&Rect { x: 5, y: 6, w: 7, h: 8 })
    );
}

#[test]
fn test_size_overflow() {
    let mut bytes: Vec<u8> = vec![0];
    bytes.extend_from_slice(&u32::MAX.to_le_bytes());
    bytes.extend_from_slice(&u32::MAX.to_le_bytes());
    assert!(matches!(
        SpriteSheet::image_raw_from_reader(&bytes, 0),
        Err(DecodeError::SizeOverflow)
    ));
}

#[test]
fn test_get_sprite_absent_and_out_of_bounds() {
    let image = create_sample_image();
    let mut meta = create_sample_metadata();
    meta.mapping.insert("huge".to_string(), Rect { x: 1, y: 1, w: 5, h: 5 });
    let sheet = SpriteSheet::new(image, meta);
    // An absent name is an absent result, not an error.
    assert!(sheet.get_sprite(&"missing".to_string()).is_none());
    // An area beyond the image bounds yields no sprite.
    assert!(sheet.get_sprite(&"huge".to_string()).is_none());
    assert!(sheet.get_sprite(&"sprite1".to_string()).is_some());
}

#[test]
fn test_duplicate_key_last_wins() {
    let mut meta = SpriteSheetMetaData::empty();
    meta.mapping.insert("a".to_string(), Rect { x: 1, y: 1, w: 1, h: 1 });
    meta.mapping.insert("a".to_string(), Rect { x: 2, y: 2, w: 2, h: 2 });
    assert_eq!(meta.len(), 1);
    assert_eq!(
        meta.mapping.get(&"a".to_string()),
        Some(&Rect { x: 2, y: 2, w: 2, h: 2 })
    );

    // A hand-crafted stream carrying the same key twice decodes last-wins.
    let mut bytes: Vec<u8> = vec![0];
    bytes.extend_from_slice(&2u32.to_le_bytes());
    for rect_val in [7u32, 9u32] {
        bytes.extend_from_slice(&1u32.to_le_bytes());
        bytes.push(b'k');
        for _ in 0..4 {
            bytes.extend_from_slice(&rect_val.to_le_bytes());
        }
    }
    let decoded = SpriteSheetMetaData::from_bytes(bytes).unwrap();
    assert_eq!(decoded.len(), 1);
    assert_eq!(
        decoded.mapping.get(&"k".to_string()),
        Some(&Rect { x: 9, y: 9, w: 9, h: 9 })
    );
}

#[test]
fn test_mapping_exact_bytes() {
    let mut meta = SpriteSheetMetaData::empty();
    meta.mapping.insert("ab".to_string(), Rect { x: 1, y: 2, w: 3, h: 4 });
    let bytes = meta.to_bytes();
    let mut expected: Vec<u8> = vec![0]; // version
    expected.extend_from_slice(&1u32.to_le_bytes()); // entry count
    expected.extend_from_slice(&2u32.to_le_bytes()); // key byte length
    expected.extend_from_slice(b"ab");
    for field in [1u32, 2, 3, 4] {
        expected.extend_from_slice(&field.to_le_bytes());
    }
    assert_eq!(bytes, expected);
}

#[test]
fn test_image_exact_bytes() {
    let mut img = Image::new(1, 1);
    img.put_pixel(0, 0, Pixel { r: 10, g: 20, b: 30, a: 40 });
    let mut out: Vec<u8> = Vec::new();
    SpriteSheet::image_raw_to_writer(&img, &mut out);
    assert_eq!(out, vec![0, 1, 0, 0, 0, 1, 0, 0, 0, 10, 20, 30, 40]);
}

#[test]
fn test_trailing_bytes_ignored() {
    let sheet = SpriteSheet::new(create_sample_image(), create_sample_metadata());
    let mut bytes = sheet.encode_raw();
    bytes.push(0xaa);
    assert!(SpriteSheet::decode_raw(&bytes).is_ok());
}

#[test]
fn test_from_raw_length_check() {
    assert!(Image::from_raw(2, 2, vec![0u8; 15]).is_none());
    assert!(Image::from_raw(2, 2, vec![0u8; 16]).is_some());
}

#[test]
fn test_error_messages() {
    assert_eq!(DecodeError::VersionMismatch.message(), "Unsupported file version");
    assert_eq!(DecodeError::Truncation.message(), "Unexpected end of data");
    assert_eq!(DecodeError::InvalidEncoding.message(), "Invalid UTF-8 string");
    assert_eq!(DecodeError::InvalidImageData.message(), "Invalid image data");
    assert_eq!(DecodeError::SizeOverflow.message(), "Image size overflows");
}

#[test]
fn test_check_encodable() {
    let meta = create_sample_metadata();
    assert!(meta.mapping.check_encodable());
    let sheet = SpriteSheet::new(create_sample_image(), meta);
    assert!(sheet.check_raw_encodable());
}

#[test]
fn test_crop_window_content() {
    // A 2 x 2 crop out of a 3 x 3 image copies exactly the window
    // [x, x + w) x [y, y + h).
    let mut img = Image::new(3, 3);
    for y in 0..3u32 {
        for x in 0..3u32 {
            let v = (y * 3 + x) as u8;
            img.put_pixel(x, y, Pixel { r: v, g: v, b: v, a: 255 });
        }
    }
    let cropped = img.crop(&Rect { x: 1, y: 1, w: 2, h: 2 }).unwrap();
    assert_eq!(cropped.dimensions(), (2, 2));
    assert_eq!(cropped.get_pixel(0, 0).r, 4);
    assert_eq!(cropped.get_pixel(1, 0).r, 5);
    assert_eq!(cropped.get_pixel(0, 1).r, 7);
    assert_eq!(cropped.get_pixel(1, 1).r, 8);
}
