use giffy::decoder::Decoder;
use giffy::Color;
use giffy::GifError;

/// The 10-by-10 single-frame GIF fixture: white/red/blue/black palette, one
/// image block compressed with minimum code size 2.
fn sample_gif() -> Vec<u8> {
    vec![
        71, 73, 70, 56, 57, 97, 10, 0, 10, 0, 145, 0, 0, 255, 255, 255, 255, 0, 0, 0, 0, 255, 0,
        0, 0, 33, 249, 4, 0, 0, 0, 0, 0, 44, 0, 0, 0, 0, 10, 0, 10, 0, 0, 2, 22, 140, 45, 153,
        135, 42, 28, 220, 51, 160, 2, 117, 236, 149, 250, 168, 222, 96, 140, 4, 145, 76, 1, 0, 59,
    ]
}

/// The colors the fixture's single frame must decode to, row-major.
fn sample_colors() -> Vec<Color> {
    let w = Color(255, 255, 255);
    let r = Color(255, 0, 0);
    let b = Color(0, 0, 255);
    vec![
        r, r, r, r, r, b, b, b, b, b,
        r, r, r, r, r, b, b, b, b, b,
        r, r, r, r, r, b, b, b, b, b,
        r, r, r, w, w, w, w, b, b, b,
        r, r, r, w, w, w, w, b, b, b,
        b, b, b, w, w, w, w, r, r, r,
        b, b, b, w, w, w, w, r, r, r,
        b, b, b, b, b, r, r, r, r, r,
        b, b, b, b, b, r, r, r, r, r,
        b, b, b, b, b, r, r, r, r, r,
    ]
}

#[test]
fn test_sample_gif() {
    let input = sample_gif();

    let expected = vec![sample_colors()];

    let gif = giffy::load(&input).unwrap();

    let mut v = vec![];
    for i in gif.image_frames.iter() {
        v.push(i.colors.clone());
    }

    assert_eq!(expected, v);
}

#[test]
fn test_sample_gif_dimensions() {
    let gif = giffy::load(&sample_gif()).unwrap();
    assert_eq!(10, gif.width);
    assert_eq!(10, gif.height);
    assert_eq!(1, gif.image_frames.len());
    assert_eq!(100, gif.image_frames[0].colors.len());
    assert_eq!(0, gif.image_frames[0].delay_time);
}

#[test]
fn test_color_components() {
    let c = Color(12, 34, 56);
    assert_eq!(12, c.r());
    assert_eq!(34, c.g());
    assert_eq!(56, c.b());
}

#[test]
fn test_truncated_input_is_eof() {
    let input = sample_gif();
    for n in 0..input.len() {
        let r = giffy::load(&input[..n]);
        assert!(matches!(r, Err(GifError::UnexpectedEof)));
    }
}

#[test]
fn test_bad_signature() {
    let mut input = sample_gif();
    input[0] = 66;
    input[1] = 77;
    input[2] = 70;
    assert!(matches!(giffy::load(&input), Err(GifError::InvalidSignature)));
}

#[test]
fn test_deinterlace_row_order() {
    // A 4-row, 4-column interlaced sub-image: the passes hand over rows
    // 0, 2, 1, 3 of the screen in that order.
    let mut input = Vec::new();
    for i in 0..16 {
        input.push(Some(Color(i as u8, 0, 0)));
    }
    let out = Decoder::deinterlace(input.clone(), 4, 4);
    let mut expected = Vec::new();
    for row in [0usize, 2, 1, 3] {
        for x in 0..4 {
            expected.push(input[row * 4 + x]);
        }
    }
    // input rows land on screen rows 0, 2, 1, 3; so screen row 0 is input
    // row 0, screen row 1 is input row 2, screen row 2 is input row 1 and
    // screen row 3 is input row 3.
    assert_eq!(expected, out);
}

/// Re-interlaces a deinterlaced grid by reading screen rows back in pass
/// order: rows 0,8,…, then 4,12,…, then 2,6,…, then the odd rows.
fn interlace_rows(input: &[Option<Color>], w: usize, h: usize) -> Vec<Option<Color>> {
    let mut out = Vec::new();
    for (start, step) in [(0usize, 8usize), (4, 8), (2, 4), (1, 2)] {
        let mut y = start;
        while y < h {
            for x in 0..w {
                out.push(input[y * w + x]);
            }
            y += step;
        }
    }
    out
}

#[test]
fn test_interlace_round_trip() {
    // Deinterlacing a grid of distinct sentinels and re-interlacing it
    // yields the identity, here on an 11-row grid touching all four passes.
    let w = 3usize;
    let h = 11usize;
    let mut input = Vec::new();
    for i in 0..(w * h) {
        input.push(Some(Color((i / 256) as u8, (i % 256) as u8, 7)));
    }
    let deinterlaced = Decoder::deinterlace(input.clone(), w, h);
    assert_eq!(input, interlace_rows(&deinterlaced, w, h));
}

/// The fixture extended with a second, identical image block whose graphic
/// control extension carries the given packed byte and transparency index.
fn two_frame_gif(packed: u8, tidx: u8) -> Vec<u8> {
    let base = sample_gif();
    let mut input = base[..base.len() - 1].to_vec();
    input.extend_from_slice(&[33, 249, 4, packed, 0, 0, tidx, 0]);
    input.extend_from_slice(&base[33..base.len() - 1]);
    input.push(59);
    input
}

#[test]
fn test_do_not_dispose_keeps_previous_pixels() {
    // Second frame: disposal DoNotDispose, red (index 1) transparent. The
    // transparent pixels show the first frame's red, so both frames agree.
    let input = two_frame_gif((1 << 2) | 1, 1);
    let gif = giffy::load(&input).unwrap();
    assert_eq!(2, gif.image_frames.len());
    assert_eq!(gif.image_frames[0].colors, gif.image_frames[1].colors);
}

#[test]
fn test_restore_to_background_shows_background() {
    // Second frame: disposal RestoreToBackgroundColor, red transparent. The
    // canvas is refilled with the background (index 0: white) first, so the
    // red pixels of the sub-image come out white.
    let input = two_frame_gif((2 << 2) | 1, 1);
    let gif = giffy::load(&input).unwrap();
    assert_eq!(2, gif.image_frames.len());
    let expected: Vec<Color> = sample_colors()
        .iter()
        .map(|c| if *c == Color(255, 0, 0) { Color(255, 255, 255) } else { *c })
        .collect();
    assert_eq!(expected, gif.image_frames[1].colors);
}

#[test]
fn test_restore_to_previous_uses_pre_blit_canvas() {
    // Three frames. The second uses RestoreToBackgroundColor, so its base
    // canvas is an all-white fill. The third uses RestoreToPrevious with
    // blue (index 2) transparent: it starts from that white canvas again,
    // so its blue pixels come out white.
    let base = sample_gif();
    let mut input = two_frame_gif((2 << 2) | 1, 1);
    input.pop();
    input.extend_from_slice(&[33, 249, 4, (3 << 2) | 1, 0, 0, 2, 0]);
    input.extend_from_slice(&base[33..base.len() - 1]);
    input.push(59);
    let gif = giffy::load(&input).unwrap();
    assert_eq!(3, gif.image_frames.len());
    let expected: Vec<Color> = sample_colors()
        .iter()
        .map(|c| if *c == Color(0, 0, 255) { Color(255, 255, 255) } else { *c })
        .collect();
    assert_eq!(expected, gif.image_frames[2].colors);
}

#[test]
fn test_interlaced_frame_reorders_rows() {
    // The same fixture with the interlace flag set: the decompressed rows
    // are handed over in pass order 0, 8, 4, 2, 6, 1, 3, 5, 7, 9.
    let mut input = sample_gif();
    input[42] |= 0x40;
    let gif = giffy::load(&input).unwrap();
    let data = sample_colors();
    let pass_order = [0usize, 8, 4, 2, 6, 1, 3, 5, 7, 9];
    let mut expected = vec![Color(0, 0, 0); 100];
    for (k, &row) in pass_order.iter().enumerate() {
        for x in 0..10 {
            expected[row * 10 + x] = data[k * 10 + x];
        }
    }
    assert_eq!(expected, gif.image_frames[0].colors);
}

#[test]
fn test_gce_survives_a_comment_block() {
    // A comment between the extension and the image does not break the
    // association: the image keeps the delay.
    let base = sample_gif();
    let mut input = base[..25].to_vec();
    input.extend_from_slice(&[33, 249, 4, 0, 5, 0, 0, 0]);
    input.extend_from_slice(&[0x21, 0xfe, 2, 104, 105, 0]);
    input.extend_from_slice(&base[33..]);
    let gif = giffy::load(&input).unwrap();
    assert_eq!(5, gif.image_frames[0].delay_time);
}

#[test]
fn test_gce_is_consumed_by_a_plain_text_block() {
    // The extension binds to the next image or plain-text block only; here
    // the plain-text block consumes it, so the image gets the defaults.
    let base = sample_gif();
    let mut input = base[..25].to_vec();
    input.extend_from_slice(&[33, 249, 4, 0, 5, 0, 0, 0]);
    input.extend_from_slice(&[0x21, 0x01, 12, 0, 0, 0, 0, 1, 0, 1, 0, 1, 1, 0, 0, 0]);
    input.extend_from_slice(&base[33..]);
    let gif = giffy::load(&input).unwrap();
    assert_eq!(0, gif.image_frames[0].delay_time);
}

#[test]
fn test_second_gce_replaces_the_first() {
    let base = sample_gif();
    let mut input = base[..25].to_vec();
    input.extend_from_slice(&[33, 249, 4, 0, 5, 0, 0, 0]);
    input.extend_from_slice(&[33, 249, 4, 0, 9, 0, 0, 0]);
    input.extend_from_slice(&base[33..]);
    let gif = giffy::load(&input).unwrap();
    assert_eq!(9, gif.image_frames[0].delay_time);
}

#[test]
fn test_gce_delay_time_reaches_frame() {
    // A delay of 0x0102 centiseconds in the second frame's extension.
    let base = sample_gif();
    let mut input = base[..base.len() - 1].to_vec();
    input.extend_from_slice(&[33, 249, 4, 0, 2, 1, 0, 0]);
    input.extend_from_slice(&base[33..base.len() - 1]);
    input.push(59);
    let gif = giffy::load(&input).unwrap();
    assert_eq!(0, gif.image_frames[0].delay_time);
    assert_eq!(0x0102, gif.image_frames[1].delay_time);
}
