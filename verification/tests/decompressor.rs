use giffy::bits::CodeReader;
use giffy::decompressor::Decompressor;
use giffy::Color;
use giffy::GifError;

/// Packs `(width, value)` codes least-significant-bit first into bytes, the
/// way GIF lays out its LZW code stream; the last byte is zero-padded.
fn pack(codes: &[(u8, u16)]) -> Vec<u8> {
    let mut out = Vec::new();
    let mut cur: u16 = 0;
    let mut nbits: u32 = 0;
    for &(w, v) in codes {
        for b in 0..w {
            let bit = (v >> b) & 1;
            cur |= bit << nbits;
            nbits += 1;
            if nbits == 8 {
                out.push(cur as u8);
                cur = 0;
                nbits = 0;
            }
        }
    }
    if nbits > 0 {
        out.push(cur as u8);
    }
    out
}

#[test]
fn test_code_reader_read() {
    let data = vec![
        0b01011101, 0b01011101, 0b01011101, 0b01011101, 0b01011101, 0b11110101, 0b10110110,
        0b01100110, 0b10110110, 0b01100110, 0b01010100,
    ];

    let mut cr = CodeReader::new(&data);

    assert_eq!(Some(0b101), cr.read(3));
    assert_eq!(Some(0b011), cr.read(3));
    assert_eq!(Some(0b101), cr.read(3));
    assert_eq!(Some(0b1110), cr.read(4));
    assert_eq!(Some(0b1010), cr.read(4));
    assert_eq!(Some(0b0101110), cr.read(7));
    assert_eq!(Some(0b01011101), cr.read(8));
    assert_eq!(Some(0b01011101), cr.read(8));
    assert_eq!(Some(0b11110101), cr.read(8));
    assert_eq!(Some(0b0110011010110110), cr.read(16));
    assert_eq!(Some(0b110), cr.read(3));
    assert_eq!(Some(0b011010110), cr.read(9));
    assert_eq!(Some(0b010101000110), cr.read(12));
}

#[test]
fn test_code_reader_exhaustion() {
    let data = vec![0xff, 0x0f];
    let mut cr = CodeReader::new(&data);
    assert_eq!(Some(0xff), cr.read(8));
    assert_eq!(Some(0x0f), cr.read(8));
    assert_eq!(None, cr.read(1));
}

#[test]
fn test_code_reader_short_stream() {
    let data = vec![0xff];
    let mut cr = CodeReader::new(&data);
    assert_eq!(None, cr.read(9));
}

/// The bit reader inverts the packer: packing a list of codes and reading
/// them back at the same widths yields the original values.
#[test]
fn test_pack_then_read_round_trip() {
    let codes: Vec<(u8, u16)> = vec![
        (3, 0b101),
        (1, 0b1),
        (12, 0xabc),
        (5, 0b10011),
        (7, 0x55),
        (12, 0xfff),
        (2, 0b01),
        (9, 0x1ff),
        (4, 0b0110),
    ];
    let data = pack(&codes);
    let mut cr = CodeReader::new(&data);
    for &(w, v) in codes.iter() {
        assert_eq!(Some(v), cr.read(w));
    }
}

#[test]
fn test_decompressor_decompress() {
    let input = vec![
        140, 45, 153, 135, 42, 28, 220, 51, 160, 2, 117, 236, 149, 250, 168, 222, 96, 140, 4,
        145, 76, 1,
    ];

    let expected = vec![
        Color(255, 0, 0),
        Color(255, 0, 0),
        Color(255, 0, 0),
        Color(255, 0, 0),
        Color(255, 0, 0),
        Color(0, 0, 255),
        Color(0, 0, 255),
        Color(0, 0, 255),
        Color(0, 0, 255),
        Color(0, 0, 255),
        Color(255, 0, 0),
        Color(255, 0, 0),
        Color(255, 0, 0),
        Color(255, 0, 0),
        Color(255, 0, 0),
        Color(0, 0, 255),
        Color(0, 0, 255),
        Color(0, 0, 255),
        Color(0, 0, 255),
        Color(0, 0, 255),
        Color(255, 0, 0),
        Color(255, 0, 0),
        Color(255, 0, 0),
        Color(255, 0, 0),
        Color(255, 0, 0),
        Color(0, 0, 255),
        Color(0, 0, 255),
        Color(0, 0, 255),
        Color(0, 0, 255),
        Color(0, 0, 255),
        Color(255, 0, 0),
        Color(255, 0, 0),
        Color(255, 0, 0),
        Color(255, 255, 255),
        Color(255, 255, 255),
        Color(255, 255, 255),
        Color(255, 255, 255),
        Color(0, 0, 255),
        Color(0, 0, 255),
        Color(0, 0, 255),
        Color(255, 0, 0),
        Color(255, 0, 0),
        Color(255, 0, 0),
        Color(255, 255, 255),
        Color(255, 255, 255),
        Color(255, 255, 255),
        Color(255, 255, 255),
        Color(0, 0, 255),
        Color(0, 0, 255),
        Color(0, 0, 255),
        Color(0, 0, 255),
        Color(0, 0, 255),
        Color(0, 0, 255),
        Color(255, 255, 255),
        Color(255, 255, 255),
        Color(255, 255, 255),
        Color(255, 255, 255),
        Color(255, 0, 0),
        Color(255, 0, 0),
        Color(255, 0, 0),
        Color(0, 0, 255),
        Color(0, 0, 255),
        Color(0, 0, 255),
        Color(255, 255, 255),
        Color(255, 255, 255),
        Color(255, 255, 255),
        Color(255, 255, 255),
        Color(255, 0, 0),
        Color(255, 0, 0),
        Color(255, 0, 0),
        Color(0, 0, 255),
        Color(0, 0, 255),
        Color(0, 0, 255),
        Color(0, 0, 255),
        Color(0, 0, 255),
        Color(255, 0, 0),
        Color(255, 0, 0),
        Color(255, 0, 0),
        Color(255, 0, 0),
        Color(255, 0, 0),
        Color(0, 0, 255),
        Color(0, 0, 255),
        Color(0, 0, 255),
        Color(0, 0, 255),
        Color(0, 0, 255),
        Color(255, 0, 0),
        Color(255, 0, 0),
        Color(255, 0, 0),
        Color(255, 0, 0),
        Color(255, 0, 0),
        Color(0, 0, 255),
        Color(0, 0, 255),
        Color(0, 0, 255),
        Color(0, 0, 255),
        Color(0, 0, 255),
        Color(255, 0, 0),
        Color(255, 0, 0),
        Color(255, 0, 0),
        Color(255, 0, 0),
        Color(255, 0, 0),
    ];

    let color_table = vec![
        Color(255, 255, 255),
        Color(255, 0, 0),
        Color(0, 0, 255),
        Color(0, 0, 0),
    ];

    let mut decompressor = Decompressor::new(&input, 2);
    let actual = decompressor
        .decompress()
        .unwrap()
        .iter()
        .map(|i| color_table[*i])
        .collect::<Vec<_>>();

    assert_eq!(expected, actual);
}

#[test]
fn test_decompress_empty_stream_is_truncated() {
    let input: Vec<u8> = vec![];
    let mut d = Decompressor::new(&input, 2);
    assert_eq!(Err(GifError::LzwTruncatedBitstream), d.decompress());
}

#[test]
fn test_decompress_missing_leading_clear() {
    // min code size 2: the first 3-bit code must be CLEAR (4); send 0.
    let input = pack(&[(3, 0)]);
    let mut d = Decompressor::new(&input, 2);
    assert_eq!(Err(GifError::LzwMissingClear), d.decompress());
}

#[test]
fn test_decompress_invalid_code_beyond_dictionary() {
    // CLEAR, then 6: the fresh dictionary has entries 0..=5 only, and the
    // first code of a round may not even name a reserved slot.
    let input = pack(&[(3, 4), (3, 6)]);
    let mut d = Decompressor::new(&input, 2);
    assert_eq!(Err(GifError::LzwInvalidCode), d.decompress());
}

#[test]
fn test_decompress_double_clear_is_invalid() {
    // A CLEAR directly after a CLEAR leaves no previous entry to start from.
    let input = pack(&[(3, 4), (3, 4)]);
    let mut d = Decompressor::new(&input, 2);
    assert_eq!(Err(GifError::LzwInvalidCode), d.decompress());
}

#[test]
fn test_decompress_end_of_information_only() {
    // CLEAR then END-OF-INFORMATION: an empty index stream.
    let input = pack(&[(3, 4), (3, 5)]);
    let mut d = Decompressor::new(&input, 2);
    assert_eq!(Ok(Vec::new()), d.decompress());
}

#[test]
fn test_decompress_single_pixel() {
    // CLEAR, index 1, END-OF-INFORMATION.
    let input = pack(&[(3, 4), (3, 1), (3, 5)]);
    let mut d = Decompressor::new(&input, 2);
    assert_eq!(Ok(vec![1]), d.decompress());
}

#[test]
fn test_decompress_code_width_growth() {
    // With min code size 2 the dictionary starts at 6 entries and the width
    // at 3. The codes 1 and 2 insert entries at indices 6 and 7; right after
    // the slot 7 = 2^3 - 1 is filled the width grows, so the remaining codes
    // are read at 4 bits. All four codes emit their singletons.
    let input = pack(&[(3, 4), (3, 0), (3, 1), (3, 2), (4, 3), (4, 5)]);
    let mut d = Decompressor::new(&input, 2);
    assert_eq!(Ok(vec![0, 1, 2, 3]), d.decompress());
}

/// Drives the dictionary to the 12-bit saturation point: after the CLEAR and
/// one literal, each code names the next free slot, which always exists.
/// Returns the codes and the total number of indices they decompress to.
fn saturating_codes() -> (Vec<(u8, u16)>, usize) {
    let mut codes: Vec<(u8, u16)> = vec![(9, 256), (9, 0)];
    let mut emitted: usize = 1;
    let mut width: u8 = 9;
    let mut len: u16 = 258;
    loop {
        codes.push((width, len));
        emitted += (len - 257) as usize + 1;
        if len == 4095 && width == 12 {
            break;
        }
        if width < 12 && len == (1u16 << width) - 1 {
            width += 1;
        }
        len += 1;
    }
    (codes, emitted)
}

#[test]
fn test_decompress_saturated_dictionary_needs_clear() {
    let (mut codes, _) = saturating_codes();
    // After saturation the very next code must be CLEAR; send 0 instead.
    codes.push((12, 0));
    let input = pack(&codes);
    let mut d = Decompressor::new(&input, 8);
    assert_eq!(Err(GifError::LzwDictSaturated), d.decompress());
}

#[test]
fn test_decompress_saturated_dictionary_truncated() {
    // After saturation the stream ends where the CLEAR code was required.
    let (codes, _) = saturating_codes();
    let input = pack(&codes);
    let mut d = Decompressor::new(&input, 8);
    assert_eq!(Err(GifError::LzwTruncatedBitstream), d.decompress());
}

#[test]
fn test_decompress_saturated_dictionary_then_clear() {
    let (mut codes, emitted) = saturating_codes();
    // CLEAR at width 12 resets the round; a literal and END-OF-INFORMATION
    // close the stream.
    codes.push((12, 256));
    codes.push((9, 77));
    codes.push((9, 257));
    let input = pack(&codes);
    let mut d = Decompressor::new(&input, 8);
    let out = d.decompress().unwrap();
    assert_eq!(emitted + 1, out.len());
    assert_eq!(Some(&77), out.last());
}
