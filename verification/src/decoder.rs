//! The frame compositor. It traverses the parsed block list, invokes the
//! decompressor for every image block, and composites the results into
//! full-screen frames using the disposal, transparency and interlace rules.

use vstd::prelude::*;
use vstd::arithmetic::div_mod::{
    lemma_fundamental_div_mod, lemma_fundamental_div_mod_converse, lemma_mod_bound, lemma_mod_mod,
    lemma_div_pos_is_pos, lemma_small_mod,
};
use vstd::arithmetic::mul::lemma_mul_inequality;
use crate::util::Color;
use crate::GifError;
use crate::{ImageFrame, SpecFrame};
use crate::parser::{
    ParseResult, SpecLsd, SpecTbi, SpecBlock, DataType, TableBasedImage, DisposalMethod,
};
use crate::decompressor::{spec_lzw, Decompressor};

verus! {

/// The number of rows the first interlace pass (rows 0, 8, 16, ...) covers.
pub open spec fn ilace_c0(h: int) -> int {
    (h + 7) / 8
}

/// The number of rows the second interlace pass (rows 4, 12, ...) covers.
pub open spec fn ilace_c1(h: int) -> int {
    (h + 3) / 8
}

/// The number of rows the third interlace pass (rows 2, 6, ...) covers.
pub open spec fn ilace_c2(h: int) -> int {
    (h + 1) / 4
}

/// The number of rows the fourth interlace pass (rows 1, 3, 5, ...) covers.
pub open spec fn ilace_c3(h: int) -> int {
    h / 2
}

/// The screen row that the `k`-th row of interlaced data lands on: the four
/// passes cover rows 0,8,16,…, then 4,12,…, then 2,6,…, then 1,3,5,….
pub open spec fn pass_row(k: int, h: int) -> int {
    if k < ilace_c0(h) {
        8 * k
    } else if k < ilace_c0(h) + ilace_c1(h) {
        4 + 8 * (k - ilace_c0(h))
    } else if k < ilace_c0(h) + ilace_c1(h) + ilace_c2(h) {
        2 + 4 * (k - ilace_c0(h) - ilace_c1(h))
    } else {
        1 + 2 * (k - ilace_c0(h) - ilace_c1(h) - ilace_c2(h))
    }
}

/// The position within the interlaced data of screen row `y`: the inverse of
/// `pass_row`.
pub open spec fn interlace_pos(y: int, h: int) -> int {
    if y % 8 == 0 {
        y / 8
    } else if y % 8 == 4 {
        ilace_c0(h) + (y - 4) / 8
    } else if y % 4 == 2 {
        ilace_c0(h) + ilace_c1(h) + (y - 2) / 4
    } else {
        ilace_c0(h) + ilace_c1(h) + ilace_c2(h) + (y - 1) / 2
    }
}

/// A `w`-column, `h`-row sub-image rearranged from interlaced row order into
/// screen row order: screen row `y` is row `interlace_pos(y, h)` of the data.
pub open spec fn deinterlace_spec(input: Seq<Option<Color>>, w: int, h: int) -> Seq<
    Option<Color>,
> {
    Seq::new((w * h) as nat, |j: int| input[interlace_pos(j / w, h) * w + j % w])
}

/// The opposite rearrangement, from screen row order into interlaced row
/// order: the `k`-th emitted row is screen row `pass_row(k, h)`.
pub open spec fn interlace_spec(input: Seq<Option<Color>>, w: int, h: int) -> Seq<Option<Color>> {
    Seq::new((w * h) as nat, |j: int| input[pass_row(j / w, h) * w + j % w])
}

/// Exact division: `(d * q + s) / d == q` when `0 <= s < d`.
proof fn lemma_div_exact(q: int, s: int, d: int)
    requires
        d > 0,
        0 <= s < d,
    ensures
        (d * q + s) / d == q,
        (d * q + s) % d == s,
{
    assert(d * q == q * d) by (nonlinear_arith);
    lemma_fundamental_div_mod_converse(d * q + s, d, q, s);
}

/// The four interlace passes together cover exactly the `h` rows.
proof fn lemma_ilace_counts(h: int)
    requires
        h >= 0,
    ensures
        0 <= ilace_c0(h),
        0 <= ilace_c1(h),
        0 <= ilace_c2(h),
        0 <= ilace_c3(h),
        ilace_c0(h) + ilace_c1(h) + ilace_c2(h) + ilace_c3(h) == h,
{
    let q = h / 8;
    let r = h % 8;
    lemma_fundamental_div_mod(h, 8);
    lemma_mod_bound(h, 8);
    lemma_div_pos_is_pos(h, 8);
    if r == 0 {
        lemma_div_exact(q, 7, 8);
        lemma_div_exact(q, 3, 8);
        lemma_div_exact(2 * q, 1, 4);
        lemma_div_exact(4 * q, 0, 2);
    } else if r == 1 {
        lemma_div_exact(q + 1, 0, 8);
        lemma_div_exact(q, 4, 8);
        lemma_div_exact(2 * q, 2, 4);
        lemma_div_exact(4 * q, 1, 2);
    } else if r == 2 {
        lemma_div_exact(q + 1, 1, 8);
        lemma_div_exact(q, 5, 8);
        lemma_div_exact(2 * q, 3, 4);
        lemma_div_exact(4 * q + 1, 0, 2);
    } else if r == 3 {
        lemma_div_exact(q + 1, 2, 8);
        lemma_div_exact(q, 6, 8);
        lemma_div_exact(2 * q + 1, 0, 4);
        lemma_div_exact(4 * q + 1, 1, 2);
    } else if r == 4 {
        lemma_div_exact(q + 1, 3, 8);
        lemma_div_exact(q, 7, 8);
        lemma_div_exact(2 * q + 1, 1, 4);
        lemma_div_exact(4 * q + 2, 0, 2);
    } else if r == 5 {
        lemma_div_exact(q + 1, 4, 8);
        lemma_div_exact(q + 1, 0, 8);
        lemma_div_exact(2 * q + 1, 2, 4);
        lemma_div_exact(4 * q + 2, 1, 2);
    } else if r == 6 {
        lemma_div_exact(q + 1, 5, 8);
        lemma_div_exact(q + 1, 1, 8);
        lemma_div_exact(2 * q + 1, 3, 4);
        lemma_div_exact(4 * q + 3, 0, 2);
    } else {
        lemma_div_exact(q + 1, 6, 8);
        lemma_div_exact(q + 1, 2, 8);
        lemma_div_exact(2 * q + 2, 0, 4);
        lemma_div_exact(4 * q + 3, 1, 2);
    }
}

/// Bounds of the pass lengths in terms of `h`, as multiples.
proof fn lemma_ilace_count_eqs(h: int)
    requires
        h >= 0,
    ensures
        h <= 8 * ilace_c0(h) <= h + 7,
        h - 4 <= 8 * ilace_c1(h) <= h + 3,
        h - 2 <= 4 * ilace_c2(h) <= h + 1,
        h - 1 <= 2 * ilace_c3(h) <= h,
{
    lemma_fundamental_div_mod(h + 7, 8);
    lemma_mod_bound(h + 7, 8);
    lemma_fundamental_div_mod(h + 3, 8);
    lemma_mod_bound(h + 3, 8);
    lemma_fundamental_div_mod(h + 1, 4);
    lemma_mod_bound(h + 1, 4);
    lemma_fundamental_div_mod(h, 2);
    lemma_mod_bound(h, 2);
}

/// Screen row `y` sits at position `interlace_pos(y, h)` of the traversal,
/// and `pass_row` maps that position back to `y`.
proof fn lemma_interlace_pos_row(y: int, h: int)
    requires
        0 <= y < h,
    ensures
        0 <= interlace_pos(y, h) < h,
        pass_row(interlace_pos(y, h), h) == y,
{
    lemma_ilace_counts(h);
    lemma_ilace_count_eqs(h);
    lemma_fundamental_div_mod(y, 8);
    lemma_mod_bound(y, 8);
    lemma_fundamental_div_mod(y, 4);
    lemma_mod_bound(y, 4);
    lemma_fundamental_div_mod(y, 2);
    lemma_mod_bound(y, 2);
    lemma_div_pos_is_pos(y, 8);
    lemma_div_pos_is_pos(y, 4);
    lemma_div_pos_is_pos(y, 2);
    lemma_mod_mod(y, 4, 2);
    lemma_mod_mod(y, 2, 2);
    if y % 8 == 0 {
        // y == 8 * (y / 8), and 8 * (y / 8) < h <= 8 * c0.
    } else if y % 8 == 4 {
        let q = y / 8;
        lemma_div_exact(q, 0, 8);
        assert((y - 4) / 8 == q);
    } else if y % 4 == 2 {
        assert(y % 8 != 0 && y % 8 != 4) by {
            lemma_mod_mod(y, 4, 2);
            assert(4 * 2 == 8);
        }
        let q = y / 4;
        lemma_div_exact(q, 0, 4);
        assert((y - 2) / 4 == q);
    } else {
        assert(y % 2 == 1) by {
            lemma_mod_mod(y, 2, 2);
            lemma_mod_mod(y, 4, 2);
            assert(2 * 2 == 4);
            assert(4 * 2 == 8);
        }
        assert(y % 8 != 0 && y % 8 != 4) by {
            lemma_mod_mod(y, 2, 4);
            assert(2 * 4 == 8);
        }
        let q = y / 2;
        lemma_div_exact(q, 0, 2);
        assert((y - 1) / 2 == q);
    }
}

/// Traversal position `k` names screen row `pass_row(k, h)`, and
/// `interlace_pos` maps that row back to `k`.
proof fn lemma_pass_row_pos(k: int, h: int)
    requires
        0 <= k < h,
    ensures
        0 <= pass_row(k, h) < h,
        interlace_pos(pass_row(k, h), h) == k,
{
    lemma_ilace_counts(h);
    lemma_ilace_count_eqs(h);
    let c0 = ilace_c0(h);
    let c1 = ilace_c1(h);
    let c2 = ilace_c2(h);
    if k < c0 {
        let y = 8 * k;
        lemma_div_exact(k, 0, 8);
        assert(y % 8 == 0 && y / 8 == k);
    } else if k < c0 + c1 {
        let m = k - c0;
        let y = 4 + 8 * m;
        lemma_div_exact(m, 4, 8);
        assert(y % 8 == 4 && y / 8 == m);
        lemma_div_exact(m, 0, 8);
        assert((y - 4) / 8 == m);
    } else if k < c0 + c1 + c2 {
        let m = k - c0 - c1;
        let y = 2 + 4 * m;
        lemma_div_exact(m, 2, 4);
        assert(y % 4 == 2 && y / 4 == m);
        lemma_div_exact(m, 0, 4);
        assert((y - 2) / 4 == m);
        assert(y % 8 != 0 && y % 8 != 4) by {
            lemma_mod_mod(y, 4, 2);
            assert(4 * 2 == 8);
        }
    } else {
        let m = k - c0 - c1 - c2;
        let y = 1 + 2 * m;
        lemma_div_exact(m, 1, 2);
        assert(y % 2 == 1);
        lemma_div_exact(m, 0, 2);
        assert((y - 1) / 2 == m);
        assert(y % 8 != 0 && y % 8 != 4) by {
            lemma_mod_mod(y, 2, 4);
            assert(2 * 4 == 8);
        }
        assert(y % 4 != 2) by {
            lemma_mod_mod(y, 2, 2);
            assert(2 * 2 == 4);
        }
    }
}

/// Splitting a row-major index: `(y * w + x) / w == y` and the remainder is
/// the column.
proof fn lemma_row_col(y: int, x: int, w: int)
    requires
        w > 0,
        0 <= x < w,
    ensures
        (y * w + x) / w == y,
        (y * w + x) % w == x,
{
    lemma_fundamental_div_mod_converse(y * w + x, w, y, x);
}

/// A row-major index below the last row stays inside the `w * h` grid.
proof fn lemma_row_col_bound(y: int, x: int, w: int, h: int)
    requires
        0 <= x < w,
        0 <= y < h,
    ensures
        0 <= y * w + x < w * h,
{
    lemma_mul_inequality(y + 1, h, w);
    assert((y + 1) * w == y * w + w) by (nonlinear_arith);
    assert(h * w == w * h) by (nonlinear_arith);
    assert(y * w >= 0) by (nonlinear_arith)
        requires
            y >= 0,
            w >= 0,
    ;
}

/// Interlacing is a permutation of the rows: rearranging a full `w`-by-`h`
/// pixel grid out of interlaced order and back — in either order — returns
/// the original grid.
pub proof fn lemma_interlace_round_trip(s: Seq<Option<Color>>, w: int, h: int)
    requires
        w >= 1,
        h >= 0,
        s.len() == w * h,
    ensures
        interlace_spec(deinterlace_spec(s, w, h), w, h) == s,
        deinterlace_spec(interlace_spec(s, w, h), w, h) == s,
{
    let d = deinterlace_spec(s, w, h);
    let i = interlace_spec(s, w, h);
    assert forall|j: int| 0 <= j < w * h implies interlace_spec(d, w, h)[j] == s[j] by {
        let y = j / w;
        let x = j % w;
        lemma_fundamental_div_mod(j, w);
        lemma_mod_bound(j, w);
        lemma_div_pos_is_pos(j, w);
        assert(w * y == y * w) by (nonlinear_arith);
        assert(y < h) by {
            if y >= h {
                lemma_mul_inequality(h, y, w);
                assert(h * w == w * h) by (nonlinear_arith);
            }
        }
        lemma_pass_row_pos(y, h);
        let y2 = pass_row(y, h);
        lemma_row_col_bound(y2, x, w, h);
        lemma_row_col(y2, x, w);
        // interlace_spec(d)[j] == d[y2 * w + x] == s[interlace_pos(y2) * w + x]
        // and interlace_pos(y2) == y.
    }
    assert(interlace_spec(d, w, h) =~= s);
    assert forall|j: int| 0 <= j < w * h implies deinterlace_spec(i, w, h)[j] == s[j] by {
        let y = j / w;
        let x = j % w;
        lemma_fundamental_div_mod(j, w);
        lemma_mod_bound(j, w);
        lemma_div_pos_is_pos(j, w);
        assert(w * y == y * w) by (nonlinear_arith);
        assert(y < h) by {
            if y >= h {
                lemma_mul_inequality(h, y, w);
                assert(h * w == w * h) by (nonlinear_arith);
            }
        }
        lemma_interlace_pos_row(y, h);
        let k = interlace_pos(y, h);
        lemma_row_col_bound(k, x, w, h);
        lemma_row_col(k, x, w);
    }
    assert(deinterlace_spec(i, w, h) =~= s);
}

/// The transparency, disposal and delay settings an image block is rendered
/// with: from its graphic control extension, or the defaults.
pub struct GceSettings {
    pub transparent_flag: bool,
    pub transparent_index: u8,
    pub disposal: DisposalMethod,
    pub delay_time: u16,
}

pub open spec fn spec_gce_settings(tbi: SpecTbi) -> GceSettings {
    match tbi.graphic_control_extension {
        Some(g) => GceSettings {
            transparent_flag: g.transparent_color_index_available,
            transparent_index: g.transparent_color_index,
            disposal: g.disposal_method,
            delay_time: g.delay_time,
        },
        None => GceSettings {
            transparent_flag: false,
            transparent_index: 0,
            disposal: DisposalMethod::Unspecified,
            delay_time: 0,
        },
    }
}

/// The color table an image block is rendered through: its local table if
/// present, else the global table.
pub open spec fn spec_active_table(lsd: SpecLsd, tbi: SpecTbi) -> Option<Seq<Color>> {
    match tbi.local_color_table {
        Some(t) => Some(t),
        None => lsd.global_color_table,
    }
}

/// The number of pixels of the logical screen.
pub open spec fn screen_area(lsd: SpecLsd) -> int {
    lsd.width * lsd.height
}

/// Palette indices mapped to pixels: the transparent index (when the flag is
/// set) becomes `None`, every other index is looked up in the table.
pub open spec fn spec_map_pixels(
    indices: Seq<usize>,
    table: Seq<Color>,
    tflag: bool,
    tidx: u8,
) -> Seq<Option<Color>> {
    Seq::new(
        indices.len(),
        |j: int|
            if tflag && indices[j] == tidx as usize {
                None
            } else {
                Some(table[indices[j] as int])
            },
    )
}

/// A buffer of `n` copies of one color.
pub open spec fn spec_fill(n: int, c: Color) -> Seq<Color> {
    Seq::new(n as nat, |j: int| c)
}

/// The sub-image `pixels` (of `w` columns and `h` rows) painted onto `base`
/// at `(left, top)`, where `base` is row-major with `sw` columns; transparent
/// pixels leave the underlying pixel unchanged.
pub open spec fn spec_blit(
    base: Seq<Color>,
    pixels: Seq<Option<Color>>,
    left: int,
    top: int,
    w: int,
    h: int,
    sw: int,
) -> Seq<Color> {
    Seq::new(
        base.len(),
        |j: int|
            {
                let y = j / sw;
                let x = j % sw;
                if top <= y < top + h && left <= x < left + w {
                    match pixels[(y - top) * w + (x - left)] {
                        Some(c) => c,
                        None => base[j],
                    }
                } else {
                    base[j]
                }
            },
    )
}

/// One image block composited onto the running state: the resulting frame,
/// and the base buffer it was painted onto (kept for RestoreToPrevious).
pub open spec fn spec_compose(
    lsd: SpecLsd,
    tbi: SpecTbi,
    frames: Seq<SpecFrame>,
    prev_base: Seq<Color>,
) -> Result<(SpecFrame, Seq<Color>), GifError> {
    let sw = lsd.width as int;
    let sh = lsd.height as int;
    let id = tbi.image_descriptor;
    let w = id.width as int;
    let h = id.height as int;
    let gs = spec_gce_settings(tbi);
    match spec_active_table(lsd, tbi) {
        None => Err(GifError::MissingColorTable),
        Some(table) => {
            if !(2 <= tbi.image_data.lzw_min_code_size <= 8) {
                Err(GifError::LzwMinCodeSizeOutOfRange)
            } else {
                match spec_lzw(
                    tbi.image_data.data_sub_blocks,
                    tbi.image_data.lzw_min_code_size as nat,
                ) {
                    Err(e) => Err(e),
                    Ok(indices) => {
                        if indices.len() != w * h {
                            Err(GifError::DeinterlaceSizeMismatch)
                        } else if !(forall|j: int|
                            0 <= j < indices.len() ==> (#[trigger] indices[j]) < table.len()) {
                            Err(GifError::ColorIndexOutOfRange)
                        } else if gs.disposal == DisposalMethod::Undefined {
                            Err(GifError::DisposalUndefined)
                        } else if id.left + w > sw || id.top + h > sh {
                            Err(GifError::FrameOutOfBounds)
                        } else {
                            let pixels0 = spec_map_pixels(
                                indices,
                                table,
                                gs.transparent_flag,
                                gs.transparent_index,
                            );
                            let pixels = if id.interlace_flag {
                                deinterlace_spec(pixels0, w, h)
                            } else {
                                pixels0
                            };
                            let base_r: Result<Seq<Color>, GifError> = if frames.len() == 0
                                || gs.disposal == DisposalMethod::RestoreToBackgroundColor {
                                if (lsd.background_color_index as int) < table.len() {
                                    Ok(
                                        spec_fill(
                                            sw * sh,
                                            table[lsd.background_color_index as int],
                                        ),
                                    )
                                } else {
                                    Err(GifError::ColorIndexOutOfRange)
                                }
                            } else if gs.disposal == DisposalMethod::RestoreToPrevious {
                                Ok(prev_base)
                            } else {
                                Ok(frames.last().colors)
                            };
                            match base_r {
                                Err(e) => Err(e),
                                Ok(base) => Ok(
                                    (
                                        SpecFrame {
                                            colors: spec_blit(
                                                base,
                                                pixels,
                                                id.left as int,
                                                id.top as int,
                                                w,
                                                h,
                                                sw,
                                            ),
                                            delay_time: gs.delay_time,
                                        },
                                        base,
                                    ),
                                ),
                            }
                        }
                    },
                }
            }
        },
    }
}

/// The data blocks from position `i` on, composited onto the running state.
/// Non-image blocks are passed over.
pub open spec fn spec_decode_blocks(
    lsd: SpecLsd,
    blocks: Seq<SpecBlock>,
    i: int,
    frames: Seq<SpecFrame>,
    prev_base: Seq<Color>,
) -> Result<Seq<SpecFrame>, GifError>
    decreases blocks.len() - i,
{
    if i >= blocks.len() {
        Ok(frames)
    } else {
        match blocks[i] {
            SpecBlock::Image(tbi) => match spec_compose(lsd, tbi, frames, prev_base) {
                Err(e) => Err(e),
                Ok((f, base)) => spec_decode_blocks(lsd, blocks, i + 1, frames.push(f), base),
            },
            _ => spec_decode_blocks(lsd, blocks, i + 1, frames, prev_base),
        }
    }
}

/// The frames a parse result decodes to.
pub open spec fn spec_decode(pr: crate::parser::SpecParseResult) -> Result<Seq<SpecFrame>, GifError> {
    spec_decode_blocks(
        pr.logical_screen_descriptor,
        pr.data_blocks,
        0,
        Seq::empty(),
        Seq::empty(),
    )
}

/// The frame sequence a vector of frames denotes.
pub open spec fn frames_view(v: Seq<ImageFrame>) -> Seq<SpecFrame> {
    v.map_values(|f: ImageFrame| f@)
}

/// The decoded view of a frame-vector result.
pub open spec fn decode_result_view(r: Result<Vec<ImageFrame>, GifError>) -> Result<
    Seq<SpecFrame>,
    GifError,
> {
    match r {
        Ok(v) => Ok(frames_view(v@)),
        Err(e) => Err(e),
    }
}

/// How many image blocks stand at or after position `i` of the block list.
pub open spec fn count_images(blocks: Seq<SpecBlock>, i: int) -> int
    decreases blocks.len() - i,
{
    if i >= blocks.len() {
        0
    } else {
        (if blocks[i] is Image {
            1int
        } else {
            0int
        }) + count_images(blocks, i + 1)
    }
}

/// The walk of `spec_decode_blocks` keeps the running state well-sized and
/// yields one frame per image block, each frame covering the whole screen.
proof fn lemma_decode_blocks_frame_sizes(
    lsd: SpecLsd,
    blocks: Seq<SpecBlock>,
    i: int,
    frames: Seq<SpecFrame>,
    prev_base: Seq<Color>,
)
    requires
        forall|k: int|
            0 <= k < frames.len() ==> (#[trigger] frames[k]).colors.len() == screen_area(lsd),
        frames.len() > 0 ==> prev_base.len() == screen_area(lsd),
    ensures
        spec_decode_blocks(lsd, blocks, i, frames, prev_base) matches Ok(fs) ==> {
            &&& fs.len() == frames.len() + count_images(blocks, i)
            &&& forall|k: int|
                0 <= k < fs.len() ==> (#[trigger] fs[k]).colors.len() == screen_area(lsd)
        },
    decreases blocks.len() - i,
{
    if i >= blocks.len() {
    } else {
        match blocks[i] {
            SpecBlock::Image(tbi) => {
                match spec_compose(lsd, tbi, frames, prev_base) {
                    Err(_) => {},
                    Ok((f, base)) => {
                        assert(f.colors.len() == screen_area(lsd) && base.len() == screen_area(
                            lsd,
                        )) by {
                            assert(base.len() == screen_area(lsd));
                        }
                        lemma_decode_blocks_frame_sizes(lsd, blocks, i + 1, frames.push(f), base);
                    },
                }
            },
            _ => {
                lemma_decode_blocks_frame_sizes(lsd, blocks, i + 1, frames, prev_base);
            },
        }
    }
}

/// Law: a successful decode yields exactly one frame per image block of the
/// file — so at least one frame whenever an image block is present — and
/// every frame's pixel count equals the logical screen's width times height.
pub proof fn lemma_decode_frame_invariants(pr: crate::parser::SpecParseResult)
    ensures
        spec_decode(pr) matches Ok(fs) ==> {
            &&& fs.len() == count_images(pr.data_blocks, 0)
            &&& count_images(pr.data_blocks, 0) > 0 ==> fs.len() >= 1
            &&& forall|k: int|
                0 <= k < fs.len() ==> (#[trigger] fs[k]).colors.len() == screen_area(
                    pr.logical_screen_descriptor,
                )
        },
{
    lemma_decode_blocks_frame_sizes(
        pr.logical_screen_descriptor,
        pr.data_blocks,
        0,
        Seq::empty(),
        Seq::empty(),
    );
}

/// The decompressed index stream of an image block is sized to its sub-image
/// and stays inside its active color table.
pub open spec fn block_indices_ok(lsd: SpecLsd, tbi: SpecTbi) -> bool {
    match spec_active_table(lsd, tbi) {
        None => false,
        Some(table) => match spec_lzw(
            tbi.image_data.data_sub_blocks,
            tbi.image_data.lzw_min_code_size as nat,
        ) {
            Err(_) => false,
            Ok(indices) => {
                &&& indices.len() == tbi.image_descriptor.width * tbi.image_descriptor.height
                &&& forall|j: int|
                    0 <= j < indices.len() ==> (#[trigger] indices[j]) < table.len()
            },
        },
    }
}

/// The walk of `spec_decode_blocks` only succeeds when every image block it
/// passes decompresses to well-bounded indices.
proof fn lemma_decode_blocks_indices(
    lsd: SpecLsd,
    blocks: Seq<SpecBlock>,
    i: int,
    frames: Seq<SpecFrame>,
    prev_base: Seq<Color>,
    bi: int,
)
    requires
        spec_decode_blocks(lsd, blocks, i, frames, prev_base) is Ok,
        i <= bi < blocks.len(),
        blocks[bi] is Image,
    ensures
        blocks[bi] matches SpecBlock::Image(tbi) ==> block_indices_ok(lsd, tbi),
    decreases blocks.len() - i,
{
    match blocks[i] {
        SpecBlock::Image(tbi) => {
            match spec_compose(lsd, tbi, frames, prev_base) {
                Err(_) => {},
                Ok((f, base)) => {
                    if bi > i {
                        lemma_decode_blocks_indices(
                            lsd,
                            blocks,
                            i + 1,
                            frames.push(f),
                            base,
                            bi,
                        );
                    }
                },
            }
        },
        _ => {
            if bi > i {
                lemma_decode_blocks_indices(lsd, blocks, i + 1, frames, prev_base, bi);
            }
        },
    }
}

/// Law: when a decode succeeds, each image block's compressed data
/// decompresses to exactly sub-image-width times sub-image-height palette
/// indices, and every emitted index is below the length of that block's
/// active color table.
pub proof fn lemma_decode_block_invariants(pr: crate::parser::SpecParseResult, bi: int)
    requires
        spec_decode(pr) is Ok,
        0 <= bi < pr.data_blocks.len(),
        pr.data_blocks[bi] is Image,
    ensures
        pr.data_blocks[bi] matches SpecBlock::Image(tbi) ==> block_indices_ok(
            pr.logical_screen_descriptor,
            tbi,
        ),
{
    lemma_decode_blocks_indices(
        pr.logical_screen_descriptor,
        pr.data_blocks,
        0,
        Seq::empty(),
        Seq::empty(),
        bi,
    );
}

fn copy_colors(v: &Vec<Color>) -> (r: Vec<Color>)
    ensures
        r@ == v@,
{
    let mut r: Vec<Color> = Vec::new();
    let mut i: usize = 0;
    while i < v.len()
        invariant
            i <= v@.len(),
            r@ == v@.subrange(0, i as int),
        decreases v@.len() - i,
    {
        r.push(v[i]);
        i = i + 1;
        proof {
            assert(r@ =~= v@.subrange(0, i as int));
        }
    }
    proof {
        assert(r@ =~= v@);
    }
    r
}

fn fill_screen(n: usize, c: Color) -> (r: Vec<Color>)
    ensures
        r@ == spec_fill(n as int, c),
{
    let mut r: Vec<Color> = Vec::new();
    let mut i: usize = 0;
    while i < n
        invariant
            i <= n,
            r@.len() == i,
            forall|j: int| 0 <= j < i ==> r@[j] == c,
        decreases n - i,
    {
        r.push(c);
        i = i + 1;
    }
    proof {
        assert(r@ =~= spec_fill(n as int, c));
    }
    r
}

fn map_pixels(index_table: &Vec<usize>, color_table: &Vec<Color>, tflag: bool, tidx: u8) -> (r:
    Vec<Option<Color>>)
    requires
        forall|j: int|
            0 <= j < index_table@.len() ==> (#[trigger] index_table@[j]) < color_table@.len(),
    ensures
        r@ == spec_map_pixels(index_table@, color_table@, tflag, tidx),
{
    let mut r: Vec<Option<Color>> = Vec::new();
    let mut i: usize = 0;
    while i < index_table.len()
        invariant
            i <= index_table@.len(),
            forall|j: int|
                0 <= j < index_table@.len() ==> (#[trigger] index_table@[j])
                    < color_table@.len(),
            r@.len() == i,
            forall|j: int|
                0 <= j < i ==> r@[j] == spec_map_pixels(
                    index_table@,
                    color_table@,
                    tflag,
                    tidx,
                )[j],
        decreases index_table@.len() - i,
    {
        let idx = index_table[i];
        if tflag && idx == tidx as usize {
            r.push(None);
        } else {
            r.push(Some(color_table[idx]));
        }
        i = i + 1;
    }
    proof {
        assert(r@ =~= spec_map_pixels(index_table@, color_table@, tflag, tidx));
    }
    r
}

/// Whether the blit loops, having finished `yd` full rows and `xd` pixels of
/// the next row, have already painted screen position `j`.
spec fn blit_done(j: int, left: int, top: int, w: int, sw: int, yd: int, xd: int) -> bool {
    let y = j / sw;
    let x = j % sw;
    left <= x < left + w && top <= y && (y - top < yd || (y - top == yd && x - left < xd))
}

fn blit(
    canvas: Vec<Color>,
    pixels: &Vec<Option<Color>>,
    left: usize,
    top: usize,
    w: usize,
    h: usize,
    sw: usize,
    sh: usize,
) -> (r: Vec<Color>)
    requires
        canvas@.len() == sw * sh,
        pixels@.len() == w * h,
        left + w <= sw,
        top + h <= sh,
        sw <= 0xffff,
        sh <= 0xffff,
    ensures
        r@ == spec_blit(
            canvas@,
            pixels@,
            left as int,
            top as int,
            w as int,
            h as int,
            sw as int,
        ),
{
    let ghost base = canvas@;
    let ghost target = spec_blit(
        base,
        pixels@,
        left as int,
        top as int,
        w as int,
        h as int,
        sw as int,
    );
    let mut canvas = canvas;
    let mut y: usize = 0;
    while y < h
        invariant
            y <= h,
            canvas@.len() == base.len(),
            base.len() == sw * sh,
            pixels@.len() == w * h,
            left + w <= sw,
            top + h <= sh,
            sw <= 0xffff,
            sh <= 0xffff,
            target == spec_blit(
                base,
                pixels@,
                left as int,
                top as int,
                w as int,
                h as int,
                sw as int,
            ),
            forall|j: int|
                0 <= j < base.len() ==> canvas@[j] == (if blit_done(
                    j,
                    left as int,
                    top as int,
                    w as int,
                    sw as int,
                    y as int,
                    0,
                ) {
                    target[j]
                } else {
                    base[j]
                }),
        decreases h - y,
    {
        let mut x: usize = 0;
        while x < w
            invariant
                y < h,
                x <= w,
                canvas@.len() == base.len(),
                base.len() == sw * sh,
                pixels@.len() == w * h,
                left + w <= sw,
                top + h <= sh,
                sw <= 0xffff,
                sh <= 0xffff,
                target == spec_blit(
                    base,
                    pixels@,
                    left as int,
                    top as int,
                    w as int,
                    h as int,
                    sw as int,
                ),
                forall|j: int|
                    0 <= j < base.len() ==> canvas@[j] == (if blit_done(
                        j,
                        left as int,
                        top as int,
                        w as int,
                        sw as int,
                        y as int,
                        x as int,
                    ) {
                        target[j]
                    } else {
                        base[j]
                    }),
            decreases w - x,
        {
            proof {
                lemma_row_col_bound(y as int, x as int, w as int, h as int);
                lemma_row_col_bound((top + y) as int, (left + x) as int, sw as int, sh as int);
                lemma_row_col((top + y) as int, (left + x) as int, sw as int);
                assert(((top + y) as int) * (sw as int) <= 0xffff * 0xffff) by (nonlinear_arith)
                    requires
                        0 <= (top + y) as int <= 0xffff,
                        0 <= sw as int <= 0xffff,
                ;
                assert((y as int) * (w as int) <= 0xffff * 0xffff) by (nonlinear_arith)
                    requires
                        0 <= y as int <= 0xffff,
                        0 <= w as int <= 0xffff,
                ;
            }
            let j0 = (top + y) * sw + (left + x);
            match pixels[y * w + x] {
                Some(c) => {
                    canvas.set(j0, c);
                },
                None => {},
            }
            x = x + 1;
            proof {
                assert forall|j: int| 0 <= j < base.len() implies canvas@[j] == (if blit_done(
                    j,
                    left as int,
                    top as int,
                    w as int,
                    sw as int,
                    y as int,
                    x as int,
                ) {
                    target[j]
                } else {
                    base[j]
                }) by {
                    lemma_fundamental_div_mod(j, sw as int);
                    lemma_mod_bound(j, sw as int);
                    assert((sw as int) * (j / (sw as int)) == (j / (sw as int)) * (sw as int))
                        by (nonlinear_arith);
                    if j == j0 {
                        assert(target[j] == (match pixels@[(y * w + x - 1) as int] {
                            Some(c) => c,
                            None => base[j],
                        }));
                    }
                }
            }
        }
        y = y + 1;
        proof {
            assert forall|j: int| 0 <= j < base.len() implies (blit_done(
                j,
                left as int,
                top as int,
                w as int,
                sw as int,
                y as int,
                0,
            ) == blit_done(
                j,
                left as int,
                top as int,
                w as int,
                sw as int,
                y as int - 1,
                w as int,
            )) by {}
        }
    }
    proof {
        assert forall|j: int| 0 <= j < base.len() implies canvas@[j] == target[j] by {
            assert(sw as int > 0) by (nonlinear_arith)
                requires
                    (sw as int) * (sh as int) > j >= 0,
                    sw as int >= 0,
            ;
            lemma_fundamental_div_mod(j, sw as int);
            lemma_mod_bound(j, sw as int);
            lemma_div_pos_is_pos(j, sw as int);
            let jy = j / (sw as int);
            let jx = j % (sw as int);
            if jy >= sh {
                lemma_mul_inequality(sh as int, jy, sw as int);
                assert((sh as int) * (sw as int) == (sw as int) * (sh as int))
                    by (nonlinear_arith);
            }
            assert((sw as int) * jy == jy * (sw as int)) by (nonlinear_arith);
        }
        assert(canvas@ =~= target);
    }
    canvas
}

/// Drives the compositor over a parse result.
pub struct Decoder<'a> {
    data: &'a ParseResult,
}

impl<'a> Decoder<'a> {
    /// The parse result being decoded.
    pub closed spec fn pr(&self) -> crate::parser::SpecParseResult {
        self.data@
    }

    pub fn new(input: &'a ParseResult) -> (r: Decoder<'a>)
        ensures
            r.pr() == input@,
    {
        Decoder { data: input }
    }

    /// Rearranges an interlaced `width`-by-`height` sub-image into screen row
    /// order, using the four-pass pattern over rows: starts and steps
    /// (0,8), (4,8), (2,4), (1,2).
    pub fn deinterlace(input: Vec<Option<Color>>, width: usize, height: usize) -> (r: Vec<
        Option<Color>,
    >)
        requires
            input@.len() == width * height,
            width <= 0xffff,
            height <= 0xffff,
        ensures
            r@ == deinterlace_spec(input@, width as int, height as int),
    {
        let mut result: Vec<Option<Color>> = Vec::new();
        let c0 = (height + 7) / 8;
        let c1 = (height + 3) / 8;
        let c2 = (height + 1) / 4;
        let mut y: usize = 0;
        while y < height
            invariant
                input@.len() == width * height,
                width <= 0xffff,
                height <= 0xffff,
                c0 == ilace_c0(height as int),
                c1 == ilace_c1(height as int),
                c2 == ilace_c2(height as int),
                y <= height,
                result@.len() == y * width,
                forall|j: int|
                    0 <= j < result@.len() ==> result@[j] == deinterlace_spec(
                        input@,
                        width as int,
                        height as int,
                    )[j],
            decreases height - y,
        {
            proof {
                lemma_interlace_pos_row(y as int, height as int);
                lemma_ilace_counts(height as int);
                if y < 8 {
                    lemma_small_mod(y as nat, 8);
                }
            }
            let k = if y % 8 == 0 {
                y / 8
            } else if y % 8 == 4 {
                c0 + (y - 4) / 8
            } else if y % 4 == 2 {
                c0 + c1 + (y - 2) / 4
            } else {
                c0 + c1 + c2 + (y - 1) / 2
            };
            proof {
                if y % 4 == 2 && y < 4 {
                    lemma_small_mod(y as nat, 4);
                }
                if y % 8 != 0 && y % 8 != 4 && y % 4 != 2 && y < 2 {
                    lemma_small_mod(y as nat, 2);
                    lemma_small_mod(y as nat, 4);
                    lemma_small_mod(y as nat, 8);
                }
                assert(k == interlace_pos(y as int, height as int));
            }
            let mut x: usize = 0;
            while x < width
                invariant
                    input@.len() == width * height,
                    width <= 0xffff,
                    height <= 0xffff,
                    y < height,
                    x <= width,
                    k == interlace_pos(y as int, height as int),
                    0 <= k < height,
                    result@.len() == y * width + x,
                    forall|j: int|
                        0 <= j < result@.len() ==> result@[j] == deinterlace_spec(
                            input@,
                            width as int,
                            height as int,
                        )[j],
                decreases width - x,
            {
                proof {
                    lemma_row_col_bound(k as int, x as int, width as int, height as int);
                    lemma_row_col_bound(y as int, x as int, width as int, height as int);
                    lemma_row_col(y as int, x as int, width as int);
                    assert((k as int) * (width as int) <= 0xffff * 0xffff) by (nonlinear_arith)
                        requires
                            0 <= k as int <= 0xffff,
                            0 <= width as int <= 0xffff,
                    ;
                    assert((width as int) * (height as int) == (height as int) * (width as int))
                        by (nonlinear_arith);
                }
                result.push(input[k * width + x]);
                x = x + 1;
            }
            y = y + 1;
            proof {
                assert((y as int) * (width as int) == (y as int - 1) * (width as int) + (
                width as int)) by (nonlinear_arith);
            }
        }
        proof {
            assert((height as int) * (width as int) == (width as int) * (height as int))
                by (nonlinear_arith);
            assert(result@ =~= deinterlace_spec(input@, width as int, height as int));
        }
        result
    }

    /// Composites one image block onto the running state. `frames` holds the
    /// frames so far and `prev_base` the base buffer the most recent frame
    /// was painted onto; the new frame and its own base come back.
    fn create_frame(
        &self,
        frames: &Vec<ImageFrame>,
        prev_base: &Vec<Color>,
        image: &TableBasedImage,
    ) -> (r: Result<(ImageFrame, Vec<Color>), GifError>)
        requires
            frames@.len() > 0 ==> {
                &&& frames@[frames@.len() - 1].colors@.len() == screen_area(
                    self.pr().logical_screen_descriptor,
                )
                &&& prev_base@.len() == screen_area(self.pr().logical_screen_descriptor)
            },
        ensures
            ({
                let res = spec_compose(
                    self.pr().logical_screen_descriptor,
                    image@,
                    frames_view(frames@),
                    prev_base@,
                );
                match (r, res) {
                    (Ok((f, b)), Ok((sf, sb))) => {
                        &&& f@ == sf
                        &&& b@ == sb
                        &&& f.colors@.len() == screen_area(self.pr().logical_screen_descriptor)
                        &&& b@.len() == screen_area(self.pr().logical_screen_descriptor)
                    },
                    (Err(e1), Err(e2)) => e1 == e2,
                    _ => false,
                }
            }),
    {
        let ghost lsd_s = self.pr().logical_screen_descriptor;
        let ghost tbi_s = image@;
        let lsd = &self.data.logical_screen_descriptor;
        let color_table: &Vec<Color> = match &image.local_color_table {
            Some(t) => t,
            None => match &lsd.global_color_table {
                Some(g) => g,
                None => {
                    return Err(GifError::MissingColorTable);
                },
            },
        };
        proof {
            assert(spec_active_table(lsd_s, tbi_s) == Some(color_table@));
        }
        let (transparent_flag, transparent_color_index, disposal_method, delay_time) = match &image
            .graphic_control_extension {
            Some(ext) => (
                ext.transparent_color_index_available,
                ext.transparent_color_index,
                ext.disposal_method,
                ext.delay_time,
            ),
            None => (false, 0u8, DisposalMethod::Unspecified, 0u16),
        };
        proof {
            assert(spec_gce_settings(tbi_s) == GceSettings {
                transparent_flag,
                transparent_index: transparent_color_index,
                disposal: disposal_method,
                delay_time,
            });
        }
        let lzw_min_code_size = image.image_data.lzw_min_code_size;
        if lzw_min_code_size < 2 || lzw_min_code_size > 8 {
            return Err(GifError::LzwMinCodeSizeOutOfRange);
        }
        let mut decompressor = Decompressor::new(
            image.image_data.data_sub_blocks.as_slice(),
            lzw_min_code_size,
        );
        let index_table = match decompressor.decompress() {
            Ok(v) => v,
            Err(e) => {
                return Err(e);
            },
        };
        let w = image.image_descriptor.width as usize;
        let h = image.image_descriptor.height as usize;
        proof {
            assert((w as int) * (h as int) <= 0xffff * 0xffff) by (nonlinear_arith)
                requires
                    0 <= w as int <= 0xffff,
                    0 <= h as int <= 0xffff,
            ;
        }
        let wh = w * h;
        if index_table.len() != wh {
            return Err(GifError::DeinterlaceSizeMismatch);
        }
        let mut j: usize = 0;
        #[verifier::loop_isolation(false)]
        while j < index_table.len()
            invariant
                j <= index_table@.len(),
                forall|k: int|
                    0 <= k < j ==> (#[trigger] index_table@[k]) < color_table@.len(),
            decreases index_table@.len() - j,
        {
            if index_table[j] >= color_table.len() {
                proof {
                    assert(!(forall|k: int|
                        0 <= k < index_table@.len() ==> (#[trigger] index_table@[k])
                            < color_table@.len())) by {
                        if (forall|k: int|
                            0 <= k < index_table@.len() ==> (#[trigger] index_table@[k])
                                < color_table@.len()) {
                            assert(index_table@[j as int] < color_table@.len());
                        }
                    }
                }
                return Err(GifError::ColorIndexOutOfRange);
            }
            j = j + 1;
        }
        if disposal_method == DisposalMethod::Undefined {
            return Err(GifError::DisposalUndefined);
        }
        let sw = lsd.width as usize;
        let sh = lsd.height as usize;
        if image.image_descriptor.left as usize + w > sw || image.image_descriptor.top as usize + h
            > sh {
            return Err(GifError::FrameOutOfBounds);
        }
        let pixels0 = map_pixels(
            &index_table,
            color_table,
            transparent_flag,
            transparent_color_index,
        );
        let pixels = if image.image_descriptor.interlace_flag {
            Decoder::deinterlace(pixels0, w, h)
        } else {
            pixels0
        };
        proof {
            assert((sw as int) * (sh as int) <= 0xffff * 0xffff) by (nonlinear_arith)
                requires
                    0 <= sw as int <= 0xffff,
                    0 <= sh as int <= 0xffff,
            ;
        }
        let area = sw * sh;
        let base: Vec<Color> = if frames.len() == 0 || disposal_method
            == DisposalMethod::RestoreToBackgroundColor {
            let bg = lsd.background_color_index as usize;
            if bg >= color_table.len() {
                return Err(GifError::ColorIndexOutOfRange);
            }
            fill_screen(area, color_table[bg])
        } else if disposal_method == DisposalMethod::RestoreToPrevious {
            copy_colors(prev_base)
        } else {
            proof {
                assert(frames_view(frames@).last() == frames@[frames@.len() - 1]@);
            }
            copy_colors(&frames[frames.len() - 1].colors)
        };
        let canvas = copy_colors(&base);
        let colors = blit(
            canvas,
            &pixels,
            image.image_descriptor.left as usize,
            image.image_descriptor.top as usize,
            w,
            h,
            sw,
            sh,
        );
        Ok((ImageFrame { colors, delay_time }, base))
    }

    /// Composites the first frame: it starts from a full-screen fill of the
    /// background color.
    fn create_first_frame(&self, image: &TableBasedImage) -> (r: Result<
        (ImageFrame, Vec<Color>),
        GifError,
    >)
        ensures
            ({
                let res = spec_compose(
                    self.pr().logical_screen_descriptor,
                    image@,
                    Seq::empty(),
                    Seq::empty(),
                );
                match (r, res) {
                    (Ok((f, b)), Ok((sf, sb))) => {
                        &&& f@ == sf
                        &&& b@ == sb
                        &&& f.colors@.len() == screen_area(self.pr().logical_screen_descriptor)
                        &&& b@.len() == screen_area(self.pr().logical_screen_descriptor)
                    },
                    (Err(e1), Err(e2)) => e1 == e2,
                    _ => false,
                }
            }),
    {
        let frames: Vec<ImageFrame> = Vec::new();
        let prev_base: Vec<Color> = Vec::new();
        proof {
            assert(frames_view(frames@) =~= Seq::<SpecFrame>::empty());
            assert(prev_base@ =~= Seq::<Color>::empty());
        }
        self.create_frame(&frames, &prev_base, image)
    }

    /// Walks the block list in order and composites every image block into a
    /// full-screen frame.
    pub fn decode(&self) -> (r: Result<Vec<ImageFrame>, GifError>)
        ensures
            decode_result_view(r) == spec_decode(self.pr()),
    {
        let ghost lsd_s = self.pr().logical_screen_descriptor;
        let ghost blocks = self.pr().data_blocks;
        let mut frames: Vec<ImageFrame> = Vec::new();
        let mut prev_base: Vec<Color> = Vec::new();
        let mut bi: usize = 0;
        proof {
            assert(frames_view(frames@) =~= Seq::<SpecFrame>::empty());
            assert(prev_base@ =~= Seq::<Color>::empty());
        }
        while bi < self.data.data_blocks.len()
            invariant
                bi <= self.data.data_blocks@.len(),
                lsd_s == self.pr().logical_screen_descriptor,
                blocks == self.pr().data_blocks,
                blocks.len() == self.data.data_blocks@.len(),
                spec_decode(self.pr()) == spec_decode_blocks(
                    lsd_s,
                    blocks,
                    bi as int,
                    frames_view(frames@),
                    prev_base@,
                ),
                frames@.len() > 0 ==> {
                    &&& frames@[frames@.len() - 1].colors@.len() == screen_area(lsd_s)
                    &&& prev_base@.len() == screen_area(lsd_s)
                },
            decreases self.data.data_blocks@.len() - bi,
        {
            let block = &self.data.data_blocks[bi];
            match block {
                DataType::TableBasedImageType(image) => {
                    proof {
                        assert(blocks[bi as int] == SpecBlock::Image(image@));
                    }
                    let pair = if frames.len() == 0 {
                        self.create_first_frame(image)
                    } else {
                        self.create_frame(&frames, &prev_base, image)
                    };
                    let (frame, base) = match pair {
                        Ok(p) => p,
                        Err(e) => {
                            return Err(e);
                        },
                    };
                    let ghost fv_old = frames_view(frames@);
                    frames.push(frame);
                    prev_base = base;
                    proof {
                        assert(frames_view(frames@) =~= fv_old.push(frame@));
                    }
                },
                _ => {},
            }
            bi = bi + 1;
        }
        Ok(frames)
    }
}

} // verus!
