//! A decoder for the GIF89a animated image format.
//!
//! Given a byte slice containing a GIF file, [`load`] produces a [`Gif`]:
//! a sequence of fully rendered image frames, each a row-major grid of RGB
//! pixels sized to the logical screen, along with per-frame delay times.

use vstd::prelude::*;

mod util;
pub mod bits;
pub mod decompressor;
pub mod parser;
pub mod decoder;

pub use util::Color;
use crate::parser::Parser;
use crate::decoder::Decoder;

verus! {

/// The reason a decode failed. Every failure is fatal to the current decode;
/// there is no partial-success mode.
#[derive(Debug, PartialEq, Eq, Structural, Copy, Clone)]
pub enum GifError {
    /// The first three bytes of the file are not the ASCII letters "GIF".
    InvalidSignature,
    /// The input ended in the middle of a byte-level read.
    UnexpectedEof,
    /// A data block began with a tag byte that is neither image, extension
    /// nor trailer; the payload is the offending byte.
    UnknownBlockTag(u8),
    /// An extension block carried a label that is neither graphic control,
    /// comment, plain text nor application; the payload is the label byte.
    UnknownExtensionLabel(u8),
    /// A fixed block-size byte did not match the value the format requires
    /// (4 for graphic control, 11 for application, 12 for plain text).
    InvalidPackedField,
    /// The graphic control extension payload was not followed by a zero byte.
    MissingBlockTerminator,
    /// An image block has no local color table and no global table exists.
    MissingColorTable,
    /// The compressed stream used a code beyond the next free dictionary slot,
    /// or a reserved code where a dictionary entry was required.
    LzwInvalidCode,
    /// A code was read where a CLEAR code was required, but it was not CLEAR.
    LzwMissingClear,
    /// The dictionary was saturated at the 12-bit width and the next code
    /// was not CLEAR.
    LzwDictSaturated,
    /// The bit stream ended where a code was strictly required.
    LzwTruncatedBitstream,
    /// An image block's minimum LZW code size was outside the valid 2..=8.
    LzwMinCodeSizeOutOfRange,
    /// An image carried one of the reserved disposal methods (codes 4..=7).
    DisposalUndefined,
    /// The decompressed index count differs from the product of the image
    /// block's sub-image width and height.
    DeinterlaceSizeMismatch,
    /// A palette index (pixel or background) was not below the length of the
    /// active color table.
    ColorIndexOutOfRange,
    /// The sub-image does not fit inside the logical screen.
    FrameOutOfBounds,
}

impl GifError {
    /// The diagnostic the error stands for.
    pub open spec fn spec_message(&self) -> Seq<char> {
        match self {
            GifError::InvalidSignature => "file is not a GIF"@,
            GifError::UnexpectedEof => "unexpected end of input"@,
            GifError::UnknownBlockTag(_) => "unknown block type"@,
            GifError::UnknownExtensionLabel(_) => "unknown extension type"@,
            GifError::InvalidPackedField => "invalid extension block size"@,
            GifError::MissingBlockTerminator => "block terminator not found"@,
            GifError::MissingColorTable => "global color table is missing"@,
            GifError::LzwInvalidCode => "invalid code"@,
            GifError::LzwMissingClear => "missing clear code"@,
            GifError::LzwDictSaturated => "saturated dictionary not followed by clear code"@,
            GifError::LzwTruncatedBitstream => "compressed data ended where a code was expected"@,
            GifError::LzwMinCodeSizeOutOfRange => "minimum code size out of range"@,
            GifError::DisposalUndefined => "dispose method not supported"@,
            GifError::DeinterlaceSizeMismatch => "pixel count does not match the sub-image"@,
            GifError::ColorIndexOutOfRange => "color index out of range"@,
            GifError::FrameOutOfBounds => "sub-image outside the logical screen"@,
        }
    }

    /// A short human-readable diagnostic identifying the failing stage.
    pub fn message(&self) -> (r: String)
        ensures
            r@ == self.spec_message(),
    {
        match self {
            GifError::InvalidSignature => "file is not a GIF".to_owned(),
            GifError::UnexpectedEof => "unexpected end of input".to_owned(),
            GifError::UnknownBlockTag(_) => "unknown block type".to_owned(),
            GifError::UnknownExtensionLabel(_) => "unknown extension type".to_owned(),
            GifError::InvalidPackedField => "invalid extension block size".to_owned(),
            GifError::MissingBlockTerminator => "block terminator not found".to_owned(),
            GifError::MissingColorTable => "global color table is missing".to_owned(),
            GifError::LzwInvalidCode => "invalid code".to_owned(),
            GifError::LzwMissingClear => "missing clear code".to_owned(),
            GifError::LzwDictSaturated => "saturated dictionary not followed by clear code"
                .to_owned(),
            GifError::LzwTruncatedBitstream => "compressed data ended where a code was expected"
                .to_owned(),
            GifError::LzwMinCodeSizeOutOfRange => "minimum code size out of range".to_owned(),
            GifError::DisposalUndefined => "dispose method not supported".to_owned(),
            GifError::DeinterlaceSizeMismatch => "pixel count does not match the sub-image"
                .to_owned(),
            GifError::ColorIndexOutOfRange => "color index out of range".to_owned(),
            GifError::FrameOutOfBounds => "sub-image outside the logical screen".to_owned(),
        }
    }
}

/// This struct is used to hold the color information and the delay time of a frame.
#[derive(Debug, Clone)]
pub struct ImageFrame {
    /// The colors that make up the image frame, row-major with top-left
    /// origin, one entry per pixel of the logical screen.
    pub colors: Vec<Color>,
    /// The amount of time (in centiseconds) this image frame should stay on
    /// screen before moving on to the next image frame.
    pub delay_time: u16,
}

/// The mathematical model of one rendered frame.
pub struct SpecFrame {
    pub colors: Seq<Color>,
    pub delay_time: u16,
}

impl View for ImageFrame {
    type V = SpecFrame;

    open spec fn view(&self) -> SpecFrame {
        SpecFrame { colors: self.colors@, delay_time: self.delay_time }
    }
}

/// This struct holds the width, height and the image frames of the GIF media.
#[derive(Debug, Clone)]
pub struct Gif {
    /// The width of the GIF media.
    pub width: u32,
    /// The height of the GIF media.
    pub height: u32,
    /// Individual image frames.
    pub image_frames: Vec<ImageFrame>,
}

/// The mathematical model of a decoded GIF.
pub struct SpecGif {
    pub width: u32,
    pub height: u32,
    pub image_frames: Seq<SpecFrame>,
}

impl View for Gif {
    type V = SpecGif;

    open spec fn view(&self) -> SpecGif {
        SpecGif {
            width: self.width,
            height: self.height,
            image_frames: self.image_frames@.map_values(|f: ImageFrame| f@),
        }
    }
}

/// What loading a byte stream yields: the parsed structure composited into
/// frames, under the logical screen's dimensions.
pub open spec fn spec_load(s: Seq<u8>) -> Result<SpecGif, GifError> {
    match crate::parser::spec_parse(s) {
        Err(e) => Err(e),
        Ok(pr) => match crate::decoder::spec_decode(pr) {
            Err(e) => Err(e),
            Ok(frames) => Ok(
                SpecGif {
                    width: pr.logical_screen_descriptor.width as u32,
                    height: pr.logical_screen_descriptor.height as u32,
                    image_frames: frames,
                },
            ),
        },
    }
}

/// Attempt to load a GIF from the bytes of `src`.
///
/// # Errors
///
/// This function will return an error if `src` is not a valid GIF stream;
/// the error says which rule of the format was broken.
pub fn load(src: &[u8]) -> (r: Result<Gif, GifError>)
    ensures
        ({
            match (r, spec_load(src@)) {
                (Ok(g), Ok(sg)) => g@ == sg,
                (Err(e1), Err(e2)) => e1 == e2,
                _ => false,
            }
        }),
        r matches Ok(g) ==> forall|i: int|
            0 <= i < g.image_frames@.len() ==> (#[trigger] g.image_frames@[i]).colors@.len() == (
            g.width as int) * (g.height as int),
{
    let mut parser = Parser::new(src);
    let result = match parser.parse() {
        Ok(v) => v,
        Err(e) => {
            return Err(e);
        },
    };
    let decoder = Decoder::new(&result);
    let image_frames = match decoder.decode() {
        Ok(v) => v,
        Err(e) => {
            return Err(e);
        },
    };
    proof {
        crate::decoder::lemma_decode_frame_invariants(result@);
        let fs = crate::decoder::frames_view(image_frames@);
        assert forall|i: int| 0 <= i < image_frames@.len() implies (#[trigger] image_frames@[i])
            .colors@.len() == (result.logical_screen_descriptor.width as int) * (
        result.logical_screen_descriptor.height as int) by {
            assert(fs[i] == image_frames@[i]@);
            assert(fs[i].colors.len() == crate::decoder::screen_area(
                result@.logical_screen_descriptor,
            ));
        }
    }
    Ok(
        Gif {
            width: result.logical_screen_descriptor.width as u32,
            height: result.logical_screen_descriptor.height as u32,
            image_frames,
        },
    )
}

} // verus!

