use giffy::GifError;

/// A minimal valid prefix: header and a 1-by-1 logical screen without a
/// global color table.
fn header_and_lsd() -> Vec<u8> {
    vec![71, 73, 70, 56, 57, 97, 1, 0, 1, 0, 0, 0, 0]
}

#[test]
fn test_unknown_block_tag() {
    let mut input = header_and_lsd();
    input.push(0x99);
    assert!(matches!(giffy::load(&input), Err(GifError::UnknownBlockTag(0x99))));
}

#[test]
fn test_unknown_extension_label() {
    let mut input = header_and_lsd();
    input.extend_from_slice(&[0x21, 0xab]);
    assert!(matches!(giffy::load(&input), Err(GifError::UnknownExtensionLabel(0xab))));
}

#[test]
fn test_graphic_control_block_size_must_be_four() {
    let mut input = header_and_lsd();
    input.extend_from_slice(&[0x21, 0xf9, 5, 0, 0, 0, 0, 0]);
    assert!(matches!(giffy::load(&input), Err(GifError::InvalidPackedField)));
}

#[test]
fn test_application_extension_block_size_must_be_eleven() {
    let mut input = header_and_lsd();
    input.extend_from_slice(&[0x21, 0xff, 10]);
    assert!(matches!(giffy::load(&input), Err(GifError::InvalidPackedField)));
}

#[test]
fn test_plain_text_block_size_must_be_twelve() {
    let mut input = header_and_lsd();
    input.extend_from_slice(&[0x21, 0x01, 11]);
    assert!(matches!(giffy::load(&input), Err(GifError::InvalidPackedField)));
}

#[test]
fn test_graphic_control_terminator_must_be_zero() {
    let mut input = header_and_lsd();
    input.extend_from_slice(&[0x21, 0xf9, 4, 0, 0, 0, 0, 7]);
    assert!(matches!(giffy::load(&input), Err(GifError::MissingBlockTerminator)));
}

#[test]
fn test_comment_and_application_extensions_are_accepted() {
    let mut input = header_and_lsd();
    // A comment with two sub-blocks, and an application extension.
    input.extend_from_slice(&[0x21, 0xfe, 2, 104, 105, 1, 33, 0]);
    input.extend_from_slice(&[
        0x21, 0xff, 11, 78, 69, 84, 83, 67, 65, 80, 69, 50, 46, 48, 3, 1, 0, 0, 0,
    ]);
    input.push(0x3b);
    let gif = giffy::load(&input).unwrap();
    assert_eq!(0, gif.image_frames.len());
}

#[test]
fn test_missing_color_table() {
    let mut input = header_and_lsd();
    // An image block without a local color table, while the screen has no
    // global one either.
    input.extend_from_slice(&[0x2c, 0, 0, 0, 0, 1, 0, 1, 0, 0, 2, 1, 0x04, 0, 0x3b]);
    assert!(matches!(giffy::load(&input), Err(GifError::MissingColorTable)));
}

/// A 1-by-1 screen with a four-entry global color table, followed by one
/// image block with the given minimum code size and compressed bytes.
fn tiny_gif(min_code: u8, data: &[u8]) -> Vec<u8> {
    let mut input = vec![
        71, 73, 70, 56, 57, 97, 1, 0, 1, 0, 0x91, 0, 0, 255, 255, 255, 255, 0, 0, 0, 0, 255, 0,
        0, 0,
    ];
    input.extend_from_slice(&[0x2c, 0, 0, 0, 0, 1, 0, 1, 0, 0, min_code]);
    input.push(data.len() as u8);
    input.extend_from_slice(data);
    input.push(0);
    input.push(0x3b);
    input
}

#[test]
fn test_min_code_size_out_of_range() {
    assert!(matches!(
        giffy::load(&tiny_gif(1, &[0x04])),
        Err(GifError::LzwMinCodeSizeOutOfRange)
    ));
    assert!(matches!(
        giffy::load(&tiny_gif(9, &[0x04])),
        Err(GifError::LzwMinCodeSizeOutOfRange)
    ));
}

#[test]
fn test_color_index_out_of_range() {
    // Minimum code size 3 over a four-entry table: CLEAR(8), 7, EOI(9) at
    // four bits each decompress to the single index 7, which the table
    // cannot resolve.
    assert!(matches!(
        giffy::load(&tiny_gif(3, &[0x78, 0x09])),
        Err(GifError::ColorIndexOutOfRange)
    ));
}

#[test]
fn test_index_count_must_match_sub_image() {
    // CLEAR(4), 1, 1, EOI(5) at three bits decompress to two indices for a
    // 1-by-1 sub-image.
    assert!(matches!(
        giffy::load(&tiny_gif(2, &[0b01_001_100, 0b1010])),
        Err(GifError::DeinterlaceSizeMismatch)
    ));
}

#[test]
fn test_undefined_disposal_is_rejected() {
    let mut input = vec![
        71, 73, 70, 56, 57, 97, 1, 0, 1, 0, 0x91, 0, 0, 255, 255, 255, 255, 0, 0, 0, 0, 255, 0,
        0, 0,
    ];
    // Disposal code 4 is reserved.
    input.extend_from_slice(&[0x21, 0xf9, 4, 4 << 2, 0, 0, 0, 0]);
    // CLEAR(4), 1, EOI(5) at three bits: one pixel.
    input.extend_from_slice(&[0x2c, 0, 0, 0, 0, 1, 0, 1, 0, 0, 2, 2, 0b01_001_100, 0b1, 0, 0x3b]);
    assert!(matches!(giffy::load(&input), Err(GifError::DisposalUndefined)));
}

#[test]
fn test_sub_image_must_fit_the_screen() {
    let mut input = vec![
        71, 73, 70, 56, 57, 97, 1, 0, 1, 0, 0x91, 0, 0, 255, 255, 255, 255, 0, 0, 0, 0, 255, 0,
        0, 0,
    ];
    // A 1-by-1 sub-image placed at left 1 on a 1-wide screen.
    input.extend_from_slice(&[0x2c, 1, 0, 0, 0, 1, 0, 1, 0, 0, 2, 2, 0b01_001_100, 0b1, 0, 0x3b]);
    assert!(matches!(giffy::load(&input), Err(GifError::FrameOutOfBounds)));
}

#[test]
fn test_single_pixel_gif() {
    // CLEAR(4), 1, EOI(5) at three bits: the screen's one pixel is red.
    let gif = giffy::load(&tiny_gif(2, &[0b01_001_100, 0b1])).unwrap();
    assert_eq!(1, gif.image_frames.len());
    assert_eq!(vec![giffy::Color(255, 0, 0)], gif.image_frames[0].colors);
}

#[test]
fn test_error_message_names_the_stage() {
    let mut input = vec![66, 77, 70];
    input.extend_from_slice(&[56, 57, 97, 1, 0, 1, 0, 0, 0, 0]);
    let e = giffy::load(&input).unwrap_err();
    assert_eq!("file is not a GIF", e.message());
    assert_eq!(
        "unexpected end of input",
        giffy::load(&[71, 73, 70]).unwrap_err().message()
    );
}
