//! The container parser. It walks the GIF block grammar over a byte slice —
//! header, logical-screen descriptor, then a mix of image blocks and
//! extension blocks terminated by a trailer — and builds a tree of parsed
//! structures.
//!
//! The grammar:
//!
//! ```text
//! GIF            := Header LSD (DataBlock)* Trailer
//! Header         := "GIF" 3-byte-version
//! LSD            := u16 u16 packed:u8 bgIdx:u8 par:u8 [GlobalColorTable]
//! DataBlock      := ImageBlock | ExtensionBlock
//! ImageBlock     := 0x2C ImageDescriptor [LocalColorTable] LZWMinCode SubBlocks
//! ExtensionBlock := 0x21 label:u8 (body varies; all end in SubBlocks)
//! Trailer        := 0x3B
//! ```
//!
//! All multi-byte integers are little-endian. A buffered graphic control
//! extension binds to the next image or plain-text block only; a second one
//! with no such block between them replaces the first.

use vstd::prelude::*;
use vstd::arithmetic::power2::{pow2, lemma2_to64, lemma_pow2_strictly_increases};
use vstd::slice::slice_to_vec;
use crate::util::Color;
use crate::GifError;

verus! {

/// The first six bytes of the file: a three-byte signature (which must spell
/// "GIF") and a three-byte version such as "87a" or "89a".
#[derive(Debug)]
pub struct Header {
    pub sig: Vec<u8>,
    pub version: Vec<u8>,
}

pub struct SpecHeader {
    pub sig: Seq<u8>,
    pub version: Seq<u8>,
}

impl View for Header {
    type V = SpecHeader;

    open spec fn view(&self) -> SpecHeader {
        SpecHeader { sig: self.sig@, version: self.version@ }
    }
}

/// The logical-screen descriptor: the size of the canvas all sub-images are
/// composited onto, plus the optional global color table.
#[derive(Debug)]
pub struct LogicalScreenDescriptor {
    pub width: u16,
    pub height: u16,
    pub global_color_table_flag: bool,
    pub color_resolution: u8,
    pub sort_flag: bool,
    pub global_color_table_size: u8,
    pub background_color_index: u8,
    /// The raw pixel-aspect-ratio byte. A zero byte means no ratio is given;
    /// otherwise the ratio is `(raw + 15) / 64`.
    pub pixel_aspect_ratio: u8,
    pub global_color_table: Option<Vec<Color>>,
}

pub struct SpecLsd {
    pub width: u16,
    pub height: u16,
    pub global_color_table_flag: bool,
    pub color_resolution: u8,
    pub sort_flag: bool,
    pub global_color_table_size: u8,
    pub background_color_index: u8,
    pub pixel_aspect_ratio: u8,
    pub global_color_table: Option<Seq<Color>>,
}

impl View for LogicalScreenDescriptor {
    type V = SpecLsd;

    open spec fn view(&self) -> SpecLsd {
        SpecLsd {
            width: self.width,
            height: self.height,
            global_color_table_flag: self.global_color_table_flag,
            color_resolution: self.color_resolution,
            sort_flag: self.sort_flag,
            global_color_table_size: self.global_color_table_size,
            background_color_index: self.background_color_index,
            pixel_aspect_ratio: self.pixel_aspect_ratio,
            global_color_table: match self.global_color_table {
                Some(t) => Some(t@),
                None => None,
            },
        }
    }
}

/// What the renderer does with the previous frame before painting the next.
#[derive(Debug, Copy, Clone, PartialEq, Eq, Structural)]
pub enum DisposalMethod {
    Unspecified,
    DoNotDispose,
    RestoreToBackgroundColor,
    RestoreToPrevious,
    /// One of the reserved codes 4..=7; the compositor rejects it.
    Undefined,
}

/// Timing, disposal and transparency bound to the next rendered block.
#[derive(Debug, Copy, Clone, PartialEq, Eq, Structural)]
pub struct GraphicControlExtension {
    pub disposal_method: DisposalMethod,
    pub user_input_expected: bool,
    pub transparent_color_index_available: bool,
    pub delay_time: u16,
    pub transparent_color_index: u8,
}

/// The placement, size and packed flags of one sub-image.
#[derive(Debug, Copy, Clone, PartialEq, Eq, Structural)]
pub struct ImageDescriptor {
    pub left: u16,
    pub top: u16,
    pub width: u16,
    pub height: u16,
    pub local_color_table_flag: bool,
    pub interlace_flag: bool,
    pub sort_flag: bool,
    pub local_color_table_size: u8,
}

/// The compressed pixel data of one image block.
#[derive(Debug)]
pub struct ImageData {
    pub lzw_min_code_size: u8,
    /// The concatenation of all length-prefixed sub-blocks.
    pub data_sub_blocks: Vec<u8>,
}

pub struct SpecImageData {
    pub lzw_min_code_size: u8,
    pub data_sub_blocks: Seq<u8>,
}

impl View for ImageData {
    type V = SpecImageData;

    open spec fn view(&self) -> SpecImageData {
        SpecImageData {
            lzw_min_code_size: self.lzw_min_code_size,
            data_sub_blocks: self.data_sub_blocks@,
        }
    }
}

/// One image block, together with the graphic control extension that was
/// buffered when it was parsed, if any.
#[derive(Debug)]
pub struct TableBasedImage {
    pub image_descriptor: ImageDescriptor,
    pub local_color_table: Option<Vec<Color>>,
    pub image_data: ImageData,
    pub graphic_control_extension: Option<GraphicControlExtension>,
}

pub struct SpecTbi {
    pub image_descriptor: ImageDescriptor,
    pub local_color_table: Option<Seq<Color>>,
    pub image_data: SpecImageData,
    pub graphic_control_extension: Option<GraphicControlExtension>,
}

impl View for TableBasedImage {
    type V = SpecTbi;

    open spec fn view(&self) -> SpecTbi {
        SpecTbi {
            image_descriptor: self.image_descriptor,
            local_color_table: match self.local_color_table {
                Some(t) => Some(t@),
                None => None,
            },
            image_data: self.image_data@,
            graphic_control_extension: self.graphic_control_extension,
        }
    }
}

/// A plain-text extension: parsed, never rendered.
#[derive(Debug)]
pub struct PlainTextExtension {
    pub text_grid_left_pos: u16,
    pub text_grid_top_pos: u16,
    pub text_grid_width: u16,
    pub text_grid_height: u16,
    pub char_cell_width: u8,
    pub char_cell_height: u8,
    pub text_fg_color_index: u8,
    pub text_bg_color_index: u8,
    pub plain_text_data: Vec<u8>,
}

pub struct SpecPlainText {
    pub text_grid_left_pos: u16,
    pub text_grid_top_pos: u16,
    pub text_grid_width: u16,
    pub text_grid_height: u16,
    pub char_cell_width: u8,
    pub char_cell_height: u8,
    pub text_fg_color_index: u8,
    pub text_bg_color_index: u8,
    pub plain_text_data: Seq<u8>,
}

impl View for PlainTextExtension {
    type V = SpecPlainText;

    open spec fn view(&self) -> SpecPlainText {
        SpecPlainText {
            text_grid_left_pos: self.text_grid_left_pos,
            text_grid_top_pos: self.text_grid_top_pos,
            text_grid_width: self.text_grid_width,
            text_grid_height: self.text_grid_height,
            char_cell_width: self.char_cell_width,
            char_cell_height: self.char_cell_height,
            text_fg_color_index: self.text_fg_color_index,
            text_bg_color_index: self.text_bg_color_index,
            plain_text_data: self.plain_text_data@,
        }
    }
}

/// An application extension: an eight-byte identifier, a three-byte
/// authentication code, and opaque payload bytes.
#[derive(Debug)]
pub struct ApplicationExtension {
    pub id: Vec<u8>,
    pub auth_code: Vec<u8>,
    pub data_sub_blocks: Vec<u8>,
}

pub struct SpecAppExt {
    pub id: Seq<u8>,
    pub auth_code: Seq<u8>,
    pub data_sub_blocks: Seq<u8>,
}

impl View for ApplicationExtension {
    type V = SpecAppExt;

    open spec fn view(&self) -> SpecAppExt {
        SpecAppExt {
            id: self.id@,
            auth_code: self.auth_code@,
            data_sub_blocks: self.data_sub_blocks@,
        }
    }
}

/// A comment extension: free-form bytes.
#[derive(Debug)]
pub struct CommentExtension {
    pub text: Vec<u8>,
}

pub struct SpecComment {
    pub text: Seq<u8>,
}

impl View for CommentExtension {
    type V = SpecComment;

    open spec fn view(&self) -> SpecComment {
        SpecComment { text: self.text@ }
    }
}

/// One data block, in file order.
#[derive(Debug)]
pub enum DataType {
    ApplicationExtensionType(ApplicationExtension),
    CommentExtensionType(CommentExtension),
    GraphicControlExtensionType(GraphicControlExtension),
    PlainTextExtensionType(PlainTextExtension),
    TableBasedImageType(TableBasedImage),
}

pub enum SpecBlock {
    AppExt(SpecAppExt),
    Comment(SpecComment),
    GraphicControl(GraphicControlExtension),
    PlainText(SpecPlainText),
    Image(SpecTbi),
}

impl View for DataType {
    type V = SpecBlock;

    open spec fn view(&self) -> SpecBlock {
        match self {
            DataType::ApplicationExtensionType(a) => SpecBlock::AppExt(a@),
            DataType::CommentExtensionType(c) => SpecBlock::Comment(c@),
            DataType::GraphicControlExtensionType(g) => SpecBlock::GraphicControl(*g),
            DataType::PlainTextExtensionType(t) => SpecBlock::PlainText(t@),
            DataType::TableBasedImageType(i) => SpecBlock::Image(i@),
        }
    }
}

/// Everything the parser extracted: header, logical-screen descriptor, and
/// all data blocks in file order.
#[derive(Debug)]
pub struct ParseResult {
    pub header: Header,
    pub logical_screen_descriptor: LogicalScreenDescriptor,
    pub data_blocks: Vec<DataType>,
}

pub struct SpecParseResult {
    pub header: SpecHeader,
    pub logical_screen_descriptor: SpecLsd,
    pub data_blocks: Seq<SpecBlock>,
}

impl View for ParseResult {
    type V = SpecParseResult;

    open spec fn view(&self) -> SpecParseResult {
        SpecParseResult {
            header: self.header@,
            logical_screen_descriptor: self.logical_screen_descriptor@,
            data_blocks: self.data_blocks@.map_values(|b: DataType| b@),
        }
    }
}

/// The kind of block that begins at the cursor.
#[derive(Debug, Copy, Clone, PartialEq, Eq, Structural)]
pub enum BlockType {
    TableBasedImage,
    Extension(ExtensionType),
    Trailer,
    Unknown(u8),
}

/// The kind of extension block selected by the label byte after 0x21.
#[derive(Debug, Copy, Clone, PartialEq, Eq, Structural)]
pub enum ExtensionType {
    ApplicationExtension,
    CommentExtension,
    GraphicControlExtension,
    PlainTextExtension,
    Unknown(u8),
}

/// Two bytes combined little-endian.
pub open spec fn u16_le(lo: u8, hi: u8) -> u16 {
    (lo as u16) | ((hi as u16) << 8)
}

/// The number of entries of a color table whose packed size field is `size`:
/// `2^(size + 1)`.
pub open spec fn color_table_entries(size: u8) -> int {
    (1usize << ((size + 1) as usize)) as int
}

/// The `n`-entry color table packed at byte position `q`: three bytes per
/// color, red then green then blue.
pub open spec fn color_table_from(s: Seq<u8>, q: int, n: int) -> Seq<Color> {
    Seq::new(n as nat, |i: int| Color(s[q + 3 * i], s[q + 3 * i + 1], s[q + 3 * i + 2]))
}

/// The header at position `p`: six bytes, signature then version.
pub open spec fn spec_parse_header(s: Seq<u8>, p: int) -> Result<(SpecHeader, int), GifError> {
    if p + 6 > s.len() {
        Err(GifError::UnexpectedEof)
    } else {
        Ok((SpecHeader { sig: s.subrange(p, p + 3), version: s.subrange(p + 3, p + 6) }, p + 6))
    }
}

/// The logical-screen descriptor at position `p`: seven fixed bytes, then the
/// global color table if the packed flag announces one.
pub open spec fn spec_parse_lsd(s: Seq<u8>, p: int) -> Result<(SpecLsd, int), GifError> {
    if p + 7 > s.len() {
        Err(GifError::UnexpectedEof)
    } else {
        let packed = s[p + 4];
        let flag = (packed >> 7) == 1;
        let size = packed & 0b0000_0111;
        let lsd = SpecLsd {
            width: u16_le(s[p], s[p + 1]),
            height: u16_le(s[p + 2], s[p + 3]),
            global_color_table_flag: flag,
            color_resolution: (packed & 0b0111_0000) >> 4,
            sort_flag: ((packed & 0b0000_1000) >> 3) == 1,
            global_color_table_size: size,
            background_color_index: s[p + 5],
            pixel_aspect_ratio: s[p + 6],
            global_color_table: None,
        };
        if flag {
            let n = color_table_entries(size);
            if p + 7 + 3 * n > s.len() {
                Err(GifError::UnexpectedEof)
            } else {
                Ok(
                    (
                        SpecLsd {
                            global_color_table: Some(color_table_from(s, p + 7, n)),
                            ..lsd
                        },
                        p + 7 + 3 * n,
                    ),
                )
            }
        } else {
            Ok((lsd, p + 7))
        }
    }
}

/// The image descriptor at position `p`: four little-endian u16 fields and
/// one packed byte.
pub open spec fn spec_parse_image_descriptor(s: Seq<u8>, p: int) -> Result<
    (ImageDescriptor, int),
    GifError,
> {
    if p + 9 > s.len() {
        Err(GifError::UnexpectedEof)
    } else {
        let packed = s[p + 8];
        Ok(
            (
                ImageDescriptor {
                    left: u16_le(s[p], s[p + 1]),
                    top: u16_le(s[p + 2], s[p + 3]),
                    width: u16_le(s[p + 4], s[p + 5]),
                    height: u16_le(s[p + 6], s[p + 7]),
                    local_color_table_flag: (packed >> 7) == 1,
                    interlace_flag: ((packed & 0b0100_0000) >> 6) == 1,
                    sort_flag: ((packed & 0b0010_0000) >> 5) == 1,
                    local_color_table_size: packed & 0b0000_0111,
                },
                p + 9,
            ),
        )
    }
}

/// The sub-block chain at position `p`: repeated `(len, payload)` pairs up to
/// and including a zero length byte; the concatenated payload is returned.
pub open spec fn spec_parse_sub_blocks(s: Seq<u8>, p: int) -> Result<(Seq<u8>, int), GifError>
    decreases s.len() - p,
{
    if p + 1 > s.len() {
        Err(GifError::UnexpectedEof)
    } else {
        let bsize = s[p];
        if bsize == 0 {
            Ok((Seq::empty(), p + 1))
        } else if p + 1 + bsize > s.len() {
            Err(GifError::UnexpectedEof)
        } else {
            match spec_parse_sub_blocks(s, p + 1 + bsize) {
                Ok((rest, pe)) => Ok((s.subrange(p + 1, p + 1 + bsize) + rest, pe)),
                Err(e) => Err(e),
            }
        }
    }
}

/// An image block at position `p` (after the 0x2C tag): descriptor, optional
/// local color table, minimum code size, sub-block chain. No graphic control
/// extension is attached here.
pub open spec fn spec_parse_table_based_image(s: Seq<u8>, p: int) -> Result<
    (SpecTbi, int),
    GifError,
> {
    match spec_parse_image_descriptor(s, p) {
        Err(e) => Err(e),
        Ok((id, p1)) => {
            if id.local_color_table_flag {
                let n = color_table_entries(id.local_color_table_size);
                if p1 + 3 * n > s.len() {
                    Err(GifError::UnexpectedEof)
                } else {
                    match spec_parse_image_data(s, p1 + 3 * n) {
                        Err(e) => Err(e),
                        Ok((data, p2)) => Ok(
                            (
                                SpecTbi {
                                    image_descriptor: id,
                                    local_color_table: Some(color_table_from(s, p1, n)),
                                    image_data: data,
                                    graphic_control_extension: None,
                                },
                                p2,
                            ),
                        ),
                    }
                }
            } else {
                match spec_parse_image_data(s, p1) {
                    Err(e) => Err(e),
                    Ok((data, p2)) => Ok(
                        (
                            SpecTbi {
                                image_descriptor: id,
                                local_color_table: None,
                                image_data: data,
                                graphic_control_extension: None,
                            },
                            p2,
                        ),
                    ),
                }
            }
        },
    }
}

/// The compressed data of an image block: the minimum code size byte, then
/// the sub-block chain.
pub open spec fn spec_parse_image_data(s: Seq<u8>, p: int) -> Result<
    (SpecImageData, int),
    GifError,
> {
    if p + 1 > s.len() {
        Err(GifError::UnexpectedEof)
    } else {
        match spec_parse_sub_blocks(s, p + 1) {
            Err(e) => Err(e),
            Ok((data, pe)) => Ok(
                (SpecImageData { lzw_min_code_size: s[p], data_sub_blocks: data }, pe),
            ),
        }
    }
}

/// The disposal method named by the three-bit code of the packed field.
pub open spec fn disposal_of(code: u8) -> DisposalMethod {
    if code == 0 {
        DisposalMethod::Unspecified
    } else if code == 1 {
        DisposalMethod::DoNotDispose
    } else if code == 2 {
        DisposalMethod::RestoreToBackgroundColor
    } else if code == 3 {
        DisposalMethod::RestoreToPrevious
    } else {
        DisposalMethod::Undefined
    }
}

/// The graphic control extension at position `p` (after tag and label): the
/// block-size byte must be 4 and the terminator must be a zero byte.
pub open spec fn spec_parse_gce(s: Seq<u8>, p: int) -> Result<
    (GraphicControlExtension, int),
    GifError,
> {
    if p + 1 > s.len() {
        Err(GifError::UnexpectedEof)
    } else if s[p] != 4 {
        Err(GifError::InvalidPackedField)
    } else if p + 6 > s.len() {
        Err(GifError::UnexpectedEof)
    } else if s[p + 5] != 0 {
        Err(GifError::MissingBlockTerminator)
    } else {
        let packed = s[p + 1];
        Ok(
            (
                GraphicControlExtension {
                    disposal_method: disposal_of((packed & 0b0001_1100) >> 2),
                    user_input_expected: ((packed & 0b0000_0010) >> 1) == 1,
                    transparent_color_index_available: (packed & 0b0000_0001) == 1,
                    delay_time: u16_le(s[p + 2], s[p + 3]),
                    transparent_color_index: s[p + 4],
                },
                p + 6,
            ),
        )
    }
}

/// The application extension at position `p` (after tag and label): the
/// block-size byte must be 11, then the identifier, authentication code and
/// sub-block chain.
pub open spec fn spec_parse_app_ext(s: Seq<u8>, p: int) -> Result<(SpecAppExt, int), GifError> {
    if p + 1 > s.len() {
        Err(GifError::UnexpectedEof)
    } else if s[p] != 11 {
        Err(GifError::InvalidPackedField)
    } else if p + 12 > s.len() {
        Err(GifError::UnexpectedEof)
    } else {
        match spec_parse_sub_blocks(s, p + 12) {
            Err(e) => Err(e),
            Ok((data, pe)) => Ok(
                (
                    SpecAppExt {
                        id: s.subrange(p + 1, p + 9),
                        auth_code: s.subrange(p + 9, p + 12),
                        data_sub_blocks: data,
                    },
                    pe,
                ),
            ),
        }
    }
}

/// The comment extension at position `p` (after tag and label): just a
/// sub-block chain.
pub open spec fn spec_parse_comment(s: Seq<u8>, p: int) -> Result<(SpecComment, int), GifError> {
    match spec_parse_sub_blocks(s, p) {
        Err(e) => Err(e),
        Ok((data, pe)) => Ok((SpecComment { text: data }, pe)),
    }
}

/// The plain-text extension at position `p` (after tag and label): the
/// block-size byte must be 12, then the grid fields and a sub-block chain.
pub open spec fn spec_parse_plain_text(s: Seq<u8>, p: int) -> Result<
    (SpecPlainText, int),
    GifError,
> {
    if p + 1 > s.len() {
        Err(GifError::UnexpectedEof)
    } else if s[p] != 12 {
        Err(GifError::InvalidPackedField)
    } else if p + 13 > s.len() {
        Err(GifError::UnexpectedEof)
    } else {
        match spec_parse_sub_blocks(s, p + 13) {
            Err(e) => Err(e),
            Ok((data, pe)) => Ok(
                (
                    SpecPlainText {
                        text_grid_left_pos: u16_le(s[p + 1], s[p + 2]),
                        text_grid_top_pos: u16_le(s[p + 3], s[p + 4]),
                        text_grid_width: u16_le(s[p + 5], s[p + 6]),
                        text_grid_height: u16_le(s[p + 7], s[p + 8]),
                        char_cell_width: s[p + 9],
                        char_cell_height: s[p + 10],
                        text_fg_color_index: s[p + 11],
                        text_bg_color_index: s[p + 12],
                        plain_text_data: data,
                    },
                    pe,
                ),
            ),
        }
    }
}

/// A parsed sub-block chain ends after its starting position and within the
/// input.
pub proof fn lemma_sub_blocks_range(s: Seq<u8>, p: int)
    ensures
        spec_parse_sub_blocks(s, p) matches Ok((b, pe)) ==> p < pe <= s.len(),
    decreases s.len() - p,
{
    if p + 1 > s.len() {
    } else {
        let bsize = s[p];
        if bsize == 0 {
        } else if p + 1 + bsize > s.len() {
        } else {
            lemma_sub_blocks_range(s, p + 1 + bsize);
        }
    }
}

/// A parsed image block ends after its starting position and within the
/// input.
pub proof fn lemma_table_based_image_range(s: Seq<u8>, p: int)
    ensures
        spec_parse_table_based_image(s, p) matches Ok((v, pe)) ==> p < pe <= s.len(),
{
    match spec_parse_image_descriptor(s, p) {
        Ok((id, p1)) => {
            if id.local_color_table_flag {
                let n = color_table_entries(id.local_color_table_size);
                lemma_sub_blocks_range(s, p1 + 3 * n + 1);
            } else {
                lemma_sub_blocks_range(s, p1 + 1);
            }
        },
        Err(_) => {},
    }
}

/// A parsed extension body ends after its starting position and within the
/// input.
pub proof fn lemma_extensions_range(s: Seq<u8>, p: int)
    ensures
        spec_parse_gce(s, p) matches Ok((v, pe)) ==> p < pe <= s.len(),
        spec_parse_app_ext(s, p) matches Ok((v, pe)) ==> p < pe <= s.len(),
        spec_parse_comment(s, p) matches Ok((v, pe)) ==> p < pe <= s.len(),
        spec_parse_plain_text(s, p) matches Ok((v, pe)) ==> p < pe <= s.len(),
{
    lemma_sub_blocks_range(s, p);
    lemma_sub_blocks_range(s, p + 12);
    lemma_sub_blocks_range(s, p + 13);
}

/// The data blocks from position `p` to the trailer. `pending` is the
/// buffered graphic control extension: a parsed image block consumes it, a
/// plain-text block consumes it too, and a new graphic control extension
/// replaces it.
pub open spec fn spec_parse_blocks(
    s: Seq<u8>,
    p: int,
    pending: Option<GraphicControlExtension>,
) -> Result<(Seq<SpecBlock>, int), GifError>
    decreases s.len() - p,
        via spec_parse_blocks_dec
{
    if p + 1 > s.len() {
        Err(GifError::UnexpectedEof)
    } else {
        let tag = s[p];
        if tag == 0x3b {
            Ok((Seq::empty(), p + 1))
        } else if tag == 0x2c {
            match spec_parse_table_based_image(s, p + 1) {
                Err(e) => Err(e),
                Ok((tbi, p2)) => match spec_parse_blocks(s, p2, None) {
                    Err(e) => Err(e),
                    Ok((rest, pe)) => Ok(
                        (
                            seq![
                                SpecBlock::Image(
                                    SpecTbi { graphic_control_extension: pending, ..tbi },
                                ),
                            ] + rest,
                            pe,
                        ),
                    ),
                },
            }
        } else if tag == 0x21 {
            if p + 2 > s.len() {
                Err(GifError::UnexpectedEof)
            } else {
                let label = s[p + 1];
                if label == 0xf9 {
                    match spec_parse_gce(s, p + 2) {
                        Err(e) => Err(e),
                        Ok((g, p2)) => match spec_parse_blocks(s, p2, Some(g)) {
                            Err(e) => Err(e),
                            Ok((rest, pe)) => Ok((seq![SpecBlock::GraphicControl(g)] + rest, pe)),
                        },
                    }
                } else if label == 0xfe {
                    match spec_parse_comment(s, p + 2) {
                        Err(e) => Err(e),
                        Ok((c, p2)) => match spec_parse_blocks(s, p2, pending) {
                            Err(e) => Err(e),
                            Ok((rest, pe)) => Ok((seq![SpecBlock::Comment(c)] + rest, pe)),
                        },
                    }
                } else if label == 0x01 {
                    match spec_parse_plain_text(s, p + 2) {
                        Err(e) => Err(e),
                        Ok((t, p2)) => match spec_parse_blocks(s, p2, None) {
                            Err(e) => Err(e),
                            Ok((rest, pe)) => Ok((seq![SpecBlock::PlainText(t)] + rest, pe)),
                        },
                    }
                } else if label == 0xff {
                    match spec_parse_app_ext(s, p + 2) {
                        Err(e) => Err(e),
                        Ok((a, p2)) => match spec_parse_blocks(s, p2, pending) {
                            Err(e) => Err(e),
                            Ok((rest, pe)) => Ok((seq![SpecBlock::AppExt(a)] + rest, pe)),
                        },
                    }
                } else {
                    Err(GifError::UnknownExtensionLabel(label))
                }
            }
        } else {
            Err(GifError::UnknownBlockTag(tag))
        }
    }
}

#[via_fn]
proof fn spec_parse_blocks_dec(s: Seq<u8>, p: int, pending: Option<GraphicControlExtension>) {
    lemma_table_based_image_range(s, p + 1);
    lemma_extensions_range(s, p + 2);
}

/// Everything the parser extracts from a byte stream: the header (whose
/// signature must spell "GIF"), the logical-screen descriptor, and the data
/// blocks up to the trailer. Bytes after the trailer are ignored.
pub open spec fn spec_parse(s: Seq<u8>) -> Result<SpecParseResult, GifError> {
    match spec_parse_header(s, 0) {
        Err(e) => Err(e),
        Ok((h, p1)) => {
            if h.sig != seq![71u8, 73u8, 70u8] {
                Err(GifError::InvalidSignature)
            } else {
                match spec_parse_lsd(s, p1) {
                    Err(e) => Err(e),
                    Ok((lsd, p2)) => match spec_parse_blocks(s, p2, None) {
                        Err(e) => Err(e),
                        Ok((blocks, _pe)) => Ok(
                            SpecParseResult {
                                header: h,
                                logical_screen_descriptor: lsd,
                                data_blocks: blocks,
                            },
                        ),
                    },
                }
            }
        },
    }
}

/// The two little-endian bytes of a sixteen-bit value, low byte first.
pub open spec fn u16_bytes(v: u16) -> Seq<u8> {
    seq![(v & 0xff) as u8, (v >> 8) as u8]
}

/// The six bytes a header came from.
pub open spec fn serialize_header(h: SpecHeader) -> Seq<u8> {
    h.sig + h.version
}

/// The packed bytes of a color table, three per entry.
pub open spec fn color_table_bytes(t: Seq<Color>) -> Seq<u8> {
    Seq::new(
        3 * t.len(),
        |i: int|
            if i % 3 == 0 {
                t[i / 3].0
            } else if i % 3 == 1 {
                t[i / 3].1
            } else {
                t[i / 3].2
            },
    )
}

/// The bytes a logical-screen descriptor came from, global color table
/// included.
pub open spec fn serialize_lsd(l: SpecLsd) -> Seq<u8> {
    let packed = ((if l.global_color_table_flag {
        0x80u8
    } else {
        0u8
    }) | (l.color_resolution << 4) | (if l.sort_flag {
        0x08u8
    } else {
        0u8
    }) | l.global_color_table_size);
    u16_bytes(l.width) + u16_bytes(l.height) + seq![
        packed,
        l.background_color_index,
        l.pixel_aspect_ratio,
    ] + (match l.global_color_table {
        Some(t) => color_table_bytes(t),
        None => Seq::empty(),
    })
}

/// The nine bytes an image descriptor came from, with zero reserved bits.
pub open spec fn serialize_image_descriptor(d: ImageDescriptor) -> Seq<u8> {
    let packed = ((if d.local_color_table_flag {
        0x80u8
    } else {
        0u8
    }) | (if d.interlace_flag {
        0x40u8
    } else {
        0u8
    }) | (if d.sort_flag {
        0x20u8
    } else {
        0u8
    }) | d.local_color_table_size);
    u16_bytes(d.left) + u16_bytes(d.top) + u16_bytes(d.width) + u16_bytes(d.height) + seq![packed]
}

/// The three-bit code of a named disposal method.
pub open spec fn disposal_code(d: DisposalMethod) -> u8 {
    match d {
        DisposalMethod::Unspecified => 0,
        DisposalMethod::DoNotDispose => 1,
        DisposalMethod::RestoreToBackgroundColor => 2,
        DisposalMethod::RestoreToPrevious => 3,
        DisposalMethod::Undefined => 4,
    }
}

/// The six bytes a graphic control extension body came from (after tag and
/// label), with zero reserved bits and a named disposal method.
pub open spec fn serialize_gce(g: GraphicControlExtension) -> Seq<u8> {
    let packed = ((disposal_code(g.disposal_method) << 2) | (if g.user_input_expected {
        0x02u8
    } else {
        0u8
    }) | (if g.transparent_color_index_available {
        0x01u8
    } else {
        0u8
    }));
    seq![4u8, packed] + u16_bytes(g.delay_time) + seq![g.transparent_color_index, 0u8]
}

/// Combining two bytes little-endian and taking them apart again is the
/// identity.
proof fn lemma_u16_le_bytes(lo: u8, hi: u8)
    ensures
        u16_bytes(u16_le(lo, hi)) == seq![lo, hi],
{
    assert(((((lo as u16) | ((hi as u16) << 8)) & 0xff) as u8) == lo) by (bit_vector);
    assert(((((lo as u16) | ((hi as u16) << 8)) >> 8) as u8) == hi) by (bit_vector);
    assert(u16_bytes(u16_le(lo, hi)) =~= seq![lo, hi]);
}

/// A parsed color table, re-packed, is the bytes it came from.
proof fn lemma_color_table_bytes(s: Seq<u8>, q: int, n: int)
    requires
        0 <= q,
        0 <= n,
        q + 3 * n <= s.len(),
    ensures
        color_table_bytes(color_table_from(s, q, n)) == s.subrange(q, q + 3 * n),
{
    let t = color_table_from(s, q, n);
    assert forall|i: int| 0 <= i < 3 * n implies color_table_bytes(t)[i] == s[q + i] by {
        vstd::arithmetic::div_mod::lemma_fundamental_div_mod(i, 3);
        vstd::arithmetic::div_mod::lemma_mod_bound(i, 3);
        vstd::arithmetic::div_mod::lemma_div_pos_is_pos(i, 3);
        assert(3 * (i / 3) == (i / 3) * 3) by (nonlinear_arith);
        assert(i / 3 < n) by (nonlinear_arith)
            requires
                3 * (i / 3) <= i < 3 * n,
        ;
    }
    assert(color_table_bytes(t) =~= s.subrange(q, q + 3 * n));
}

/// The parser is a left inverse of serialization on the header: what it read
/// as a header, serialized again, is the input it consumed.
pub proof fn lemma_header_round_trip(s: Seq<u8>, p: int)
    requires
        0 <= p,
    ensures
        spec_parse_header(s, p) matches Ok((h, pe)) ==> serialize_header(h) == s.subrange(p, pe),
{
    match spec_parse_header(s, p) {
        Ok((h, pe)) => {
            assert(serialize_header(h) =~= s.subrange(p, pe));
        },
        Err(_) => {},
    }
}

/// The parser is a left inverse of serialization on the logical-screen
/// descriptor: what it read, serialized again, is the input it consumed.
/// Its packed byte splits into the five fields without remainder, so no
/// side condition is needed.
pub proof fn lemma_lsd_round_trip(s: Seq<u8>, p: int)
    requires
        0 <= p,
    ensures
        spec_parse_lsd(s, p) matches Ok((l, pe)) ==> serialize_lsd(l) == s.subrange(p, pe),
{
    match spec_parse_lsd(s, p) {
        Ok((l, pe)) => {
            let pb = s[p + 4];
            assert(((if (pb >> 7) == 1 {
                0x80u8
            } else {
                0u8
            }) | (((pb & 0b0111_0000) >> 4) << 4) | (if ((pb & 0b0000_1000) >> 3) == 1 {
                0x08u8
            } else {
                0u8
            }) | (pb & 0b0000_0111)) == pb) by (bit_vector);
            lemma_u16_le_bytes(s[p], s[p + 1]);
            lemma_u16_le_bytes(s[p + 2], s[p + 3]);
            if l.global_color_table_flag {
                let n = color_table_entries(pb & 0b0000_0111);
                assert(n >= 0) by {
                    assert((pb & 0b0000_0111) < 8) by (bit_vector);
                    vstd::bits::lemma_usize_pow2_no_overflow(
                        ((pb & 0b0000_0111) + 1) as nat,
                    );
                    vstd::bits::lemma_usize_shl_is_mul(
                        1,
                        ((pb & 0b0000_0111) + 1) as usize,
                    );
                    vstd::arithmetic::power2::lemma_pow2_pos(((pb & 0b0000_0111) + 1) as nat);
                }
                lemma_color_table_bytes(s, p + 7, n);
            }
            assert(serialize_lsd(l) =~= s.subrange(p, pe));
        },
        Err(_) => {},
    }
}

/// The parser is a left inverse of serialization on the image descriptor,
/// provided the two reserved bits of its packed byte are zero — the parser
/// does not retain them.
pub proof fn lemma_image_descriptor_round_trip(s: Seq<u8>, p: int)
    requires
        0 <= p,
    ensures
        spec_parse_image_descriptor(s, p) matches Ok((d, pe)) ==> (s[p + 8] & 0b0001_1000 == 0
            ==> serialize_image_descriptor(d) == s.subrange(p, pe)),
{
    match spec_parse_image_descriptor(s, p) {
        Ok((d, pe)) => {
            if s[p + 8] & 0b0001_1000 == 0 {
                let pb = s[p + 8];
                assert(((if (pb >> 7) == 1 {
                    0x80u8
                } else {
                    0u8
                }) | (if ((pb & 0b0100_0000) >> 6) == 1 {
                    0x40u8
                } else {
                    0u8
                }) | (if ((pb & 0b0010_0000) >> 5) == 1 {
                    0x20u8
                } else {
                    0u8
                }) | (pb & 0b0000_0111)) == pb) by (bit_vector)
                    requires
                        pb & 0b0001_1000 == 0,
                ;
                lemma_u16_le_bytes(s[p], s[p + 1]);
                lemma_u16_le_bytes(s[p + 2], s[p + 3]);
                lemma_u16_le_bytes(s[p + 4], s[p + 5]);
                lemma_u16_le_bytes(s[p + 6], s[p + 7]);
                assert(serialize_image_descriptor(d) =~= s.subrange(p, pe));
            }
        },
        Err(_) => {},
    }
}

/// The parser is a left inverse of serialization on the graphic control
/// extension body, provided the three reserved bits of its packed byte are
/// zero and the disposal code is one of the four named ones — the reserved
/// codes all collapse into one parsed value.
pub proof fn lemma_gce_round_trip(s: Seq<u8>, p: int)
    requires
        0 <= p,
    ensures
        spec_parse_gce(s, p) matches Ok((g, pe)) ==> ((s[p + 1] & 0b1110_0000 == 0
            && g.disposal_method != DisposalMethod::Undefined) ==> serialize_gce(g) == s.subrange(
            p,
            pe,
        )),
{
    match spec_parse_gce(s, p) {
        Ok((g, pe)) => {
            let pb = s[p + 1];
            if pb & 0b1110_0000 == 0 && g.disposal_method != DisposalMethod::Undefined {
                let c = (pb & 0b0001_1100) >> 2;
                assert(((pb & 0b0001_1100) >> 2) < 8) by (bit_vector);
                assert(disposal_code(g.disposal_method) == c);
                assert(((c << 2) | (if ((pb & 0b0000_0010) >> 1) == 1 {
                    0x02u8
                } else {
                    0u8
                }) | (if (pb & 0b0000_0001) == 1 {
                    0x01u8
                } else {
                    0u8
                })) == pb) by (bit_vector)
                    requires
                        c == (pb & 0b0001_1100) >> 2,
                        pb & 0b1110_0000 == 0,
                ;
                lemma_u16_le_bytes(s[p + 2], s[p + 3]);
                assert(serialize_gce(g) =~= s.subrange(p, pe));
            }
        },
        Err(_) => {},
    }
}

/// The extension kind selected by a label byte.
pub open spec fn ext_label_of(label: u8) -> ExtensionType {
    if label == 0xf9 {
        ExtensionType::GraphicControlExtension
    } else if label == 0xfe {
        ExtensionType::CommentExtension
    } else if label == 0x01 {
        ExtensionType::PlainTextExtension
    } else if label == 0xff {
        ExtensionType::ApplicationExtension
    } else {
        ExtensionType::Unknown(label)
    }
}

/// Walks the grammar over an owned copy of the input bytes.
#[derive(Debug)]
pub struct Parser {
    src: Vec<u8>,
    pos: usize,
}

impl Parser {
    /// The input byte stream.
    pub closed spec fn src(&self) -> Seq<u8> {
        self.src@
    }

    /// The cursor: the position of the next unread byte.
    pub closed spec fn pos(&self) -> int {
        self.pos as int
    }

    /// The cursor never leaves the input.
    pub closed spec fn wf(&self) -> bool {
        self.pos <= self.src@.len()
    }

    pub fn new(src: &[u8]) -> (r: Parser)
        ensures
            r.wf(),
            r.src() == src@,
            r.pos() == 0,
    {
        Parser { src: slice_to_vec(src), pos: 0 }
    }

    /// Reads exactly `n` bytes; a short read fails with `UnexpectedEof` and
    /// leaves the cursor in place.
    fn read_bytes(&mut self, n: usize) -> (r: Result<Vec<u8>, GifError>)
        requires
            old(self).wf(),
        ensures
            final(self).wf(),
            final(self).src() == old(self).src(),
            ({
                let s = old(self).src();
                let p = old(self).pos();
                match r {
                    Ok(v) => p + n <= s.len() && v@ == s.subrange(p, p + n) && final(self).pos()
                        == p + n,
                    Err(e) => e == GifError::UnexpectedEof && p + n > s.len() && final(self).pos()
                        == p,
                }
            }),
    {
        if n > self.src.len() - self.pos {
            return Err(GifError::UnexpectedEof);
        }
        let mut v: Vec<u8> = Vec::new();
        let mut i: usize = 0;
        while i < n
            invariant
                self.wf(),
                self.src@ == old(self).src(),
                self.pos == old(self).pos,
                i <= n,
                self.pos + n <= self.src@.len(),
                self.src@.len() <= usize::MAX,
                v@ == self.src@.subrange(self.pos as int, self.pos + i),
            decreases n - i,
        {
            v.push(self.src[self.pos + i]);
            i = i + 1;
            proof {
                assert(v@ =~= self.src@.subrange(self.pos as int, self.pos + i));
            }
        }
        self.pos = self.pos + n;
        Ok(v)
    }

    /// Reads one byte.
    fn read_u8(&mut self) -> (r: Result<u8, GifError>)
        requires
            old(self).wf(),
        ensures
            final(self).wf(),
            final(self).src() == old(self).src(),
            ({
                let s = old(self).src();
                let p = old(self).pos();
                match r {
                    Ok(b) => p + 1 <= s.len() && b == s[p] && final(self).pos() == p + 1,
                    Err(e) => e == GifError::UnexpectedEof && p + 1 > s.len() && final(self).pos()
                        == p,
                }
            }),
    {
        if self.pos < self.src.len() {
            let b = self.src[self.pos];
            self.pos = self.pos + 1;
            Ok(b)
        } else {
            Err(GifError::UnexpectedEof)
        }
    }

    /// Reads two bytes and combines them little-endian, low byte first.
    fn read_u16(&mut self) -> (r: Result<u16, GifError>)
        requires
            old(self).wf(),
        ensures
            final(self).wf(),
            final(self).src() == old(self).src(),
            ({
                let s = old(self).src();
                let p = old(self).pos();
                match r {
                    Ok(v) => p + 2 <= s.len() && v == u16_le(s[p], s[p + 1]) && final(self).pos()
                        == p + 2,
                    Err(e) => e == GifError::UnexpectedEof && p + 2 > s.len(),
                }
            }),
    {
        let lo = match self.read_u8() {
            Ok(b) => b,
            Err(e) => {
                return Err(e);
            },
        };
        let hi = match self.read_u8() {
            Ok(b) => b,
            Err(e) => {
                return Err(e);
            },
        };
        Ok((lo as u16) | ((hi as u16) << 8))
    }

    /// Reads the tag byte of the next block, and for an extension block the
    /// label byte too.
    fn read_block_type(&mut self) -> (r: Result<BlockType, GifError>)
        requires
            old(self).wf(),
        ensures
            final(self).wf(),
            final(self).src() == old(self).src(),
            ({
                let s = old(self).src();
                let p = old(self).pos();
                match r {
                    Ok(bt) => p + 1 <= s.len() && ({
                        let tag = s[p];
                        if tag == 0x2c {
                            bt == BlockType::TableBasedImage && final(self).pos() == p + 1
                        } else if tag == 0x3b {
                            bt == BlockType::Trailer && final(self).pos() == p + 1
                        } else if tag == 0x21 {
                            p + 2 <= s.len() && bt == BlockType::Extension(ext_label_of(s[p + 1]))
                                && final(self).pos() == p + 2
                        } else {
                            bt == BlockType::Unknown(tag) && final(self).pos() == p + 1
                        }
                    }),
                    Err(e) => e == GifError::UnexpectedEof && (p + 1 > s.len() || (s[p] == 0x21
                        && p + 2 > s.len())),
                }
            }),
    {
        let tag = match self.read_u8() {
            Ok(b) => b,
            Err(e) => {
                return Err(e);
            },
        };
        if tag == 0x2c {
            Ok(BlockType::TableBasedImage)
        } else if tag == 0x21 {
            let label = match self.read_u8() {
                Ok(b) => b,
                Err(e) => {
                    return Err(e);
                },
            };
            if label == 0xf9 {
                Ok(BlockType::Extension(ExtensionType::GraphicControlExtension))
            } else if label == 0xfe {
                Ok(BlockType::Extension(ExtensionType::CommentExtension))
            } else if label == 0x01 {
                Ok(BlockType::Extension(ExtensionType::PlainTextExtension))
            } else if label == 0xff {
                Ok(BlockType::Extension(ExtensionType::ApplicationExtension))
            } else {
                Ok(BlockType::Extension(ExtensionType::Unknown(label)))
            }
        } else if tag == 0x3b {
            Ok(BlockType::Trailer)
        } else {
            Ok(BlockType::Unknown(tag))
        }
    }

    /// Reads the six header bytes: signature, then version.
    fn read_header(&mut self) -> (r: Result<Header, GifError>)
        requires
            old(self).wf(),
        ensures
            final(self).wf(),
            final(self).src() == old(self).src(),
            ({
                let s = old(self).src();
                let p = old(self).pos();
                match (r, spec_parse_header(s, p)) {
                    (Ok(v), Ok((h, pe))) => v@ == h && final(self).pos() == pe,
                    (Err(e1), Err(e2)) => e1 == e2,
                    _ => false,
                }
            }),
    {
        let sig = match self.read_bytes(3) {
            Ok(v) => v,
            Err(e) => {
                return Err(e);
            },
        };
        let version = match self.read_bytes(3) {
            Ok(v) => v,
            Err(e) => {
                return Err(e);
            },
        };
        Ok(Header { sig, version })
    }

    /// Reads a color table of `2^(size + 1)` entries, three bytes per color.
    fn read_color_table(&mut self, size: u8) -> (r: Result<Vec<Color>, GifError>)
        requires
            old(self).wf(),
            size < 8,
        ensures
            final(self).wf(),
            final(self).src() == old(self).src(),
            ({
                let s = old(self).src();
                let p = old(self).pos();
                let n = color_table_entries(size);
                match r {
                    Ok(v) => p + 3 * n <= s.len() && v@ == color_table_from(s, p, n)
                        && final(self).pos() == p + 3 * n,
                    Err(e) => e == GifError::UnexpectedEof && p + 3 * n > s.len(),
                }
            }),
    {
        let ghost s = self.src@;
        let ghost p = self.pos();
        let entries = 1usize << ((size + 1) as usize);
        proof {
            vstd::bits::lemma_usize_pow2_no_overflow((size + 1) as nat);
            vstd::bits::lemma_usize_shl_is_mul(1, (size + 1) as usize);
            if ((size + 1) as nat) < 8 {
                lemma_pow2_strictly_increases((size + 1) as nat, 8);
            }
            lemma2_to64();
            assert(entries == pow2((size + 1) as nat));
            assert(entries <= 256);
        }
        let t = match self.read_bytes(3 * entries) {
            Ok(v) => v,
            Err(e) => {
                return Err(e);
            },
        };
        let mut table: Vec<Color> = Vec::new();
        let mut i: usize = 0;
        while i < entries
            invariant
                t@.len() == 3 * entries,
                entries <= 256,
                i <= entries,
                table@.len() == i,
                forall|j: int|
                    0 <= j < i ==> #[trigger] table@[j] == Color(
                        t@[3 * j],
                        t@[3 * j + 1],
                        t@[3 * j + 2],
                    ),
            decreases entries - i,
        {
            table.push(Color(t[3 * i], t[3 * i + 1], t[3 * i + 2]));
            i = i + 1;
        }
        proof {
            assert(table@ =~= color_table_from(s, p, entries as int));
        }
        Ok(table)
    }

    /// Reads the logical-screen descriptor, including the global color table
    /// when the packed flag announces one.
    fn read_logical_screen_descriptor(&mut self) -> (r: Result<LogicalScreenDescriptor, GifError>)
        requires
            old(self).wf(),
        ensures
            final(self).wf(),
            final(self).src() == old(self).src(),
            ({
                let s = old(self).src();
                let p = old(self).pos();
                match (r, spec_parse_lsd(s, p)) {
                    (Ok(v), Ok((l, pe))) => v@ == l && final(self).pos() == pe,
                    (Err(e1), Err(e2)) => e1 == e2,
                    _ => false,
                }
            }),
    {
        let width = match self.read_u16() {
            Ok(v) => v,
            Err(e) => {
                return Err(e);
            },
        };
        let height = match self.read_u16() {
            Ok(v) => v,
            Err(e) => {
                return Err(e);
            },
        };
        let packed_fields = match self.read_u8() {
            Ok(v) => v,
            Err(e) => {
                return Err(e);
            },
        };
        let background_color_index = match self.read_u8() {
            Ok(v) => v,
            Err(e) => {
                return Err(e);
            },
        };
        let pixel_aspect_ratio = match self.read_u8() {
            Ok(v) => v,
            Err(e) => {
                return Err(e);
            },
        };
        let global_color_table_flag = (packed_fields >> 7) == 1;
        let color_resolution = (packed_fields & 0b0111_0000) >> 4;
        let sort_flag = ((packed_fields & 0b0000_1000) >> 3) == 1;
        let global_color_table_size = packed_fields & 0b0000_0111;
        proof {
            assert((packed_fields & 0b0000_0111) < 8) by (bit_vector);
        }
        let global_color_table = if global_color_table_flag {
            match self.read_color_table(global_color_table_size) {
                Ok(t) => Some(t),
                Err(e) => {
                    return Err(e);
                },
            }
        } else {
            None
        };
        Ok(
            LogicalScreenDescriptor {
                width,
                height,
                global_color_table_flag,
                color_resolution,
                sort_flag,
                global_color_table_size,
                background_color_index,
                pixel_aspect_ratio,
                global_color_table,
            },
        )
    }

    /// Reads the nine bytes of an image descriptor.
    fn read_image_descriptor(&mut self) -> (r: Result<ImageDescriptor, GifError>)
        requires
            old(self).wf(),
        ensures
            final(self).wf(),
            final(self).src() == old(self).src(),
            ({
                let s = old(self).src();
                let p = old(self).pos();
                match (r, spec_parse_image_descriptor(s, p)) {
                    (Ok(v), Ok((d, pe))) => v == d && v.local_color_table_size < 8
                        && final(self).pos() == pe,
                    (Err(e1), Err(e2)) => e1 == e2,
                    _ => false,
                }
            }),
    {
        let left = match self.read_u16() {
            Ok(v) => v,
            Err(e) => {
                return Err(e);
            },
        };
        let top = match self.read_u16() {
            Ok(v) => v,
            Err(e) => {
                return Err(e);
            },
        };
        let width = match self.read_u16() {
            Ok(v) => v,
            Err(e) => {
                return Err(e);
            },
        };
        let height = match self.read_u16() {
            Ok(v) => v,
            Err(e) => {
                return Err(e);
            },
        };
        let packed_fields = match self.read_u8() {
            Ok(v) => v,
            Err(e) => {
                return Err(e);
            },
        };
        proof {
            assert((packed_fields & 0b0000_0111) < 8) by (bit_vector);
        }
        Ok(
            ImageDescriptor {
                left,
                top,
                width,
                height,
                local_color_table_flag: (packed_fields >> 7) == 1,
                interlace_flag: ((packed_fields & 0b0100_0000) >> 6) == 1,
                sort_flag: ((packed_fields & 0b0010_0000) >> 5) == 1,
                local_color_table_size: packed_fields & 0b0000_0111,
            },
        )
    }

    /// Reads a sub-block chain and concatenates the payloads; the zero-length
    /// terminator is consumed.
    fn read_data_sub_blocks(&mut self) -> (r: Result<Vec<u8>, GifError>)
        requires
            old(self).wf(),
        ensures
            final(self).wf(),
            final(self).src() == old(self).src(),
            ({
                let s = old(self).src();
                let p = old(self).pos();
                match (r, spec_parse_sub_blocks(s, p)) {
                    (Ok(v), Ok((b, pe))) => v@ == b && final(self).pos() == pe,
                    (Err(e1), Err(e2)) => e1 == e2,
                    _ => false,
                }
            }),
    {
        let ghost s = self.src@;
        let ghost p0 = self.pos();
        let mut sub_blocks: Vec<u8> = Vec::new();
        loop
            invariant
                self.wf(),
                self.src@ == s,
                s == old(self).src(),
                p0 == old(self).pos(),
                spec_parse_sub_blocks(s, p0) == (match spec_parse_sub_blocks(s, self.pos()) {
                    Ok((b, pe)) => Ok::<(Seq<u8>, int), GifError>((sub_blocks@ + b, pe)),
                    Err(e) => Err(e),
                }),
            decreases s.len() - self.pos(),
        {
            let ghost pos_b = self.pos();
            let block_size = match self.read_u8() {
                Ok(b) => b,
                Err(e) => {
                    return Err(e);
                },
            };
            // Block terminator value is 0x00
            if block_size == 0 {
                proof {
                    assert(sub_blocks@ + Seq::<u8>::empty() =~= sub_blocks@);
                }
                return Ok(sub_blocks);
            }
            let mut data = match self.read_bytes(block_size as usize) {
                Ok(d) => d,
                Err(e) => {
                    return Err(e);
                },
            };
            let ghost chunk = data@;
            let ghost acc_old = sub_blocks@;
            sub_blocks.append(&mut data);
            proof {
                assert(spec_parse_sub_blocks(s, pos_b) == (match spec_parse_sub_blocks(
                    s,
                    self.pos(),
                ) {
                    Ok((rest, pe)) => Ok::<(Seq<u8>, int), GifError>((chunk + rest, pe)),
                    Err(e) => Err(e),
                }));
                match spec_parse_sub_blocks(s, self.pos()) {
                    Ok((rest, pe)) => {
                        assert(acc_old + (chunk + rest) =~= sub_blocks@ + rest);
                    },
                    Err(_) => {},
                }
            }
        }
    }

    /// Reads one image block (after its 0x2C tag). No graphic control
    /// extension is attached yet; the caller owns that association.
    fn read_table_based_image(&mut self) -> (r: Result<TableBasedImage, GifError>)
        requires
            old(self).wf(),
        ensures
            final(self).wf(),
            final(self).src() == old(self).src(),
            ({
                let s = old(self).src();
                let p = old(self).pos();
                match (r, spec_parse_table_based_image(s, p)) {
                    (Ok(v), Ok((t, pe))) => v@ == t && final(self).pos() == pe,
                    (Err(e1), Err(e2)) => e1 == e2,
                    _ => false,
                }
            }),
    {
        let image_descriptor = match self.read_image_descriptor() {
            Ok(v) => v,
            Err(e) => {
                return Err(e);
            },
        };
        let local_color_table = if image_descriptor.local_color_table_flag {
            match self.read_color_table(image_descriptor.local_color_table_size) {
                Ok(t) => Some(t),
                Err(e) => {
                    return Err(e);
                },
            }
        } else {
            None
        };
        let lzw_min_code_size = match self.read_u8() {
            Ok(v) => v,
            Err(e) => {
                return Err(e);
            },
        };
        let data_sub_blocks = match self.read_data_sub_blocks() {
            Ok(v) => v,
            Err(e) => {
                return Err(e);
            },
        };
        Ok(
            TableBasedImage {
                image_descriptor,
                local_color_table,
                image_data: ImageData { lzw_min_code_size, data_sub_blocks },
                graphic_control_extension: None,
            },
        )
    }

    /// Reads an application extension body (after tag and label).
    fn read_application_extension(&mut self) -> (r: Result<ApplicationExtension, GifError>)
        requires
            old(self).wf(),
        ensures
            final(self).wf(),
            final(self).src() == old(self).src(),
            ({
                let s = old(self).src();
                let p = old(self).pos();
                match (r, spec_parse_app_ext(s, p)) {
                    (Ok(v), Ok((a, pe))) => v@ == a && final(self).pos() == pe,
                    (Err(e1), Err(e2)) => e1 == e2,
                    _ => false,
                }
            }),
    {
        let block_size = match self.read_u8() {
            Ok(b) => b,
            Err(e) => {
                return Err(e);
            },
        };
        if block_size != 11 {
            return Err(GifError::InvalidPackedField);
        }
        let id = match self.read_bytes(8) {
            Ok(v) => v,
            Err(e) => {
                return Err(e);
            },
        };
        let auth_code = match self.read_bytes(3) {
            Ok(v) => v,
            Err(e) => {
                return Err(e);
            },
        };
        let data_sub_blocks = match self.read_data_sub_blocks() {
            Ok(v) => v,
            Err(e) => {
                return Err(e);
            },
        };
        Ok(ApplicationExtension { id, auth_code, data_sub_blocks })
    }

    /// Reads a comment extension body (after tag and label).
    fn read_comment_extension(&mut self) -> (r: Result<CommentExtension, GifError>)
        requires
            old(self).wf(),
        ensures
            final(self).wf(),
            final(self).src() == old(self).src(),
            ({
                let s = old(self).src();
                let p = old(self).pos();
                match (r, spec_parse_comment(s, p)) {
                    (Ok(v), Ok((c, pe))) => v@ == c && final(self).pos() == pe,
                    (Err(e1), Err(e2)) => e1 == e2,
                    _ => false,
                }
            }),
    {
        let text = match self.read_data_sub_blocks() {
            Ok(v) => v,
            Err(e) => {
                return Err(e);
            },
        };
        Ok(CommentExtension { text })
    }

    /// Reads a graphic control extension body (after tag and label): the
    /// block-size byte must be 4 and the terminator must be a zero byte.
    fn read_graphic_control_extension(&mut self) -> (r: Result<GraphicControlExtension, GifError>)
        requires
            old(self).wf(),
        ensures
            final(self).wf(),
            final(self).src() == old(self).src(),
            ({
                let s = old(self).src();
                let p = old(self).pos();
                match (r, spec_parse_gce(s, p)) {
                    (Ok(v), Ok((g, pe))) => v == g && final(self).pos() == pe,
                    (Err(e1), Err(e2)) => e1 == e2,
                    _ => false,
                }
            }),
    {
        let block_size = match self.read_u8() {
            Ok(b) => b,
            Err(e) => {
                return Err(e);
            },
        };
        if block_size != 4 {
            return Err(GifError::InvalidPackedField);
        }
        let packed_fields = match self.read_u8() {
            Ok(b) => b,
            Err(e) => {
                return Err(e);
            },
        };
        let delay_time = match self.read_u16() {
            Ok(v) => v,
            Err(e) => {
                return Err(e);
            },
        };
        let transparent_color_index = match self.read_u8() {
            Ok(b) => b,
            Err(e) => {
                return Err(e);
            },
        };
        let terminator = match self.read_u8() {
            Ok(b) => b,
            Err(e) => {
                return Err(e);
            },
        };
        if terminator != 0 {
            return Err(GifError::MissingBlockTerminator);
        }
        let code = (packed_fields & 0b0001_1100) >> 2;
        let disposal_method = if code == 0 {
            DisposalMethod::Unspecified
        } else if code == 1 {
            DisposalMethod::DoNotDispose
        } else if code == 2 {
            DisposalMethod::RestoreToBackgroundColor
        } else if code == 3 {
            DisposalMethod::RestoreToPrevious
        } else {
            DisposalMethod::Undefined
        };
        Ok(
            GraphicControlExtension {
                disposal_method,
                user_input_expected: ((packed_fields & 0b0000_0010) >> 1) == 1,
                transparent_color_index_available: (packed_fields & 0b0000_0001) == 1,
                delay_time,
                transparent_color_index,
            },
        )
    }

    /// Reads a plain-text extension body (after tag and label): the
    /// block-size byte must be 12.
    fn read_plain_text_extension(&mut self) -> (r: Result<PlainTextExtension, GifError>)
        requires
            old(self).wf(),
        ensures
            final(self).wf(),
            final(self).src() == old(self).src(),
            ({
                let s = old(self).src();
                let p = old(self).pos();
                match (r, spec_parse_plain_text(s, p)) {
                    (Ok(v), Ok((t, pe))) => v@ == t && final(self).pos() == pe,
                    (Err(e1), Err(e2)) => e1 == e2,
                    _ => false,
                }
            }),
    {
        let block_size = match self.read_u8() {
            Ok(b) => b,
            Err(e) => {
                return Err(e);
            },
        };
        if block_size != 12 {
            return Err(GifError::InvalidPackedField);
        }
        let text_grid_left_pos = match self.read_u16() {
            Ok(v) => v,
            Err(e) => {
                return Err(e);
            },
        };
        let text_grid_top_pos = match self.read_u16() {
            Ok(v) => v,
            Err(e) => {
                return Err(e);
            },
        };
        let text_grid_width = match self.read_u16() {
            Ok(v) => v,
            Err(e) => {
                return Err(e);
            },
        };
        let text_grid_height = match self.read_u16() {
            Ok(v) => v,
            Err(e) => {
                return Err(e);
            },
        };
        let char_cell_width = match self.read_u8() {
            Ok(b) => b,
            Err(e) => {
                return Err(e);
            },
        };
        let char_cell_height = match self.read_u8() {
            Ok(b) => b,
            Err(e) => {
                return Err(e);
            },
        };
        let text_fg_color_index = match self.read_u8() {
            Ok(b) => b,
            Err(e) => {
                return Err(e);
            },
        };
        let text_bg_color_index = match self.read_u8() {
            Ok(b) => b,
            Err(e) => {
                return Err(e);
            },
        };
        let plain_text_data = match self.read_data_sub_blocks() {
            Ok(v) => v,
            Err(e) => {
                return Err(e);
            },
        };
        Ok(
            PlainTextExtension {
                text_grid_left_pos,
                text_grid_top_pos,
                text_grid_width,
                text_grid_height,
                char_cell_width,
                char_cell_height,
                text_fg_color_index,
                text_bg_color_index,
                plain_text_data,
            },
        )
    }

    /// Parses the whole stream, from the header to the trailer.
    #[verifier::rlimit(100)]
    pub fn parse(&mut self) -> (r: Result<ParseResult, GifError>)
        requires
            old(self).wf(),
        ensures
            final(self).wf(),
            final(self).src() == old(self).src(),
            ({
                match (r, spec_parse(old(self).src())) {
                    (Ok(v), Ok(pr)) => v@ == pr,
                    (Err(e1), Err(e2)) => e1 == e2,
                    _ => false,
                }
            }),
    {
        self.pos = 0;
        let ghost s = self.src@;
        let header = match self.read_header() {
            Ok(h) => h,
            Err(e) => {
                return Err(e);
            },
        };
        if !(header.sig[0] == 71 && header.sig[1] == 73 && header.sig[2] == 70) {
            proof {
                let gif_sig = seq![71u8, 73u8, 70u8];
                if header.sig@ == gif_sig {
                    assert(header.sig@[0] == 71 && header.sig@[1] == 73 && header.sig@[2] == 70);
                }
            }
            return Err(GifError::InvalidSignature);
        }
        proof {
            assert(header.sig@ =~= seq![71u8, 73u8, 70u8]);
        }
        let logical_screen_descriptor = match self.read_logical_screen_descriptor() {
            Ok(l) => l,
            Err(e) => {
                return Err(e);
            },
        };
        let mut data_blocks: Vec<DataType> = Vec::new();
        let mut pending: Option<GraphicControlExtension> = None;
        loop
            invariant
                self.wf(),
                self.src@ == s,
                s == old(self).src(),
                spec_parse(s) == (match spec_parse_blocks(s, self.pos(), pending) {
                    Ok((rest, pe)) => Ok::<SpecParseResult, GifError>(
                        SpecParseResult {
                            header: header@,
                            logical_screen_descriptor: logical_screen_descriptor@,
                            data_blocks: data_blocks@.map_values(|b: DataType| b@) + rest,
                        },
                    ),
                    Err(e) => Err(e),
                }),
            decreases s.len() - self.pos(),
        {
            let ghost pos_b = self.pos();
            let ghost pending_b = pending;
            let ghost mapped_b = data_blocks@.map_values(|b: DataType| b@);
            proof {
                lemma_table_based_image_range(s, pos_b + 1);
                lemma_extensions_range(s, pos_b + 2);
            }
            match self.read_block_type() {
                Err(e) => {
                    return Err(e);
                },
                Ok(BlockType::Trailer) => {
                    proof {
                        assert(mapped_b + Seq::<SpecBlock>::empty() =~= mapped_b);
                    }
                    return Ok(
                        ParseResult { header, logical_screen_descriptor, data_blocks },
                    );
                },
                Ok(BlockType::TableBasedImage) => {
                    let mut tbi = match self.read_table_based_image() {
                        Ok(t) => t,
                        Err(e) => {
                            return Err(e);
                        },
                    };
                    tbi.graphic_control_extension = pending;
                    pending = None;
                    let ghost tbiv = tbi@;
                    data_blocks.push(DataType::TableBasedImageType(tbi));
                    proof {
                        assert(data_blocks@.map_values(|b: DataType| b@) =~= mapped_b.push(
                            SpecBlock::Image(tbiv),
                        ));
                        match spec_parse_blocks(s, self.pos(), pending) {
                            Ok((rest, pe)) => {
                                assert(mapped_b.push(SpecBlock::Image(tbiv)) + rest =~= mapped_b + (
                                seq![SpecBlock::Image(tbiv)] + rest));
                            },
                            Err(_) => {},
                        }
                    }
                },
                Ok(BlockType::Extension(ExtensionType::GraphicControlExtension)) => {
                    let g = match self.read_graphic_control_extension() {
                        Ok(g) => g,
                        Err(e) => {
                            return Err(e);
                        },
                    };
                    pending = Some(g);
                    data_blocks.push(DataType::GraphicControlExtensionType(g));
                    proof {
                        assert(data_blocks@.map_values(|b: DataType| b@) =~= mapped_b.push(
                            SpecBlock::GraphicControl(g),
                        ));
                        match spec_parse_blocks(s, self.pos(), pending) {
                            Ok((rest, pe)) => {
                                assert(mapped_b.push(SpecBlock::GraphicControl(g)) + rest
                                    =~= mapped_b + (seq![SpecBlock::GraphicControl(g)] + rest));
                            },
                            Err(_) => {},
                        }
                    }
                },
                Ok(BlockType::Extension(ExtensionType::CommentExtension)) => {
                    let c = match self.read_comment_extension() {
                        Ok(c) => c,
                        Err(e) => {
                            return Err(e);
                        },
                    };
                    let ghost cv = c@;
                    data_blocks.push(DataType::CommentExtensionType(c));
                    proof {
                        assert(data_blocks@.map_values(|b: DataType| b@) =~= mapped_b.push(
                            SpecBlock::Comment(cv),
                        ));
                        match spec_parse_blocks(s, self.pos(), pending) {
                            Ok((rest, pe)) => {
                                assert(mapped_b.push(SpecBlock::Comment(cv)) + rest =~= mapped_b + (
                                seq![SpecBlock::Comment(cv)] + rest));
                            },
                            Err(_) => {},
                        }
                    }
                },
                Ok(BlockType::Extension(ExtensionType::PlainTextExtension)) => {
                    let t = match self.read_plain_text_extension() {
                        Ok(t) => t,
                        Err(e) => {
                            return Err(e);
                        },
                    };
                    pending = None;
                    let ghost tv = t@;
                    data_blocks.push(DataType::PlainTextExtensionType(t));
                    proof {
                        assert(data_blocks@.map_values(|b: DataType| b@) =~= mapped_b.push(
                            SpecBlock::PlainText(tv),
                        ));
                        match spec_parse_blocks(s, self.pos(), pending) {
                            Ok((rest, pe)) => {
                                assert(mapped_b.push(SpecBlock::PlainText(tv)) + rest =~= mapped_b
                                    + (seq![SpecBlock::PlainText(tv)] + rest));
                            },
                            Err(_) => {},
                        }
                    }
                },
                Ok(BlockType::Extension(ExtensionType::ApplicationExtension)) => {
                    let a = match self.read_application_extension() {
                        Ok(a) => a,
                        Err(e) => {
                            return Err(e);
                        },
                    };
                    let ghost av = a@;
                    data_blocks.push(DataType::ApplicationExtensionType(a));
                    proof {
                        assert(data_blocks@.map_values(|b: DataType| b@) =~= mapped_b.push(
                            SpecBlock::AppExt(av),
                        ));
                        match spec_parse_blocks(s, self.pos(), pending) {
                            Ok((rest, pe)) => {
                                assert(mapped_b.push(SpecBlock::AppExt(av)) + rest =~= mapped_b + (
                                seq![SpecBlock::AppExt(av)] + rest));
                            },
                            Err(_) => {},
                        }
                    }
                },
                Ok(BlockType::Extension(ExtensionType::Unknown(x))) => {
                    return Err(GifError::UnknownExtensionLabel(x));
                },
                Ok(BlockType::Unknown(x)) => {
                    return Err(GifError::UnknownBlockTag(x));
                },
            }
        }
    }
}

} // verus!
