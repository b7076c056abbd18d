//! The LZW decompressor. It owns a code dictionary, consumes variable-width
//! codes from the bit reader, and emits a sequence of palette indices.
//!
//! The dictionary starts with one singleton entry per palette index, followed
//! by the two reserved CLEAR and END-OF-INFORMATION slots. The code width
//! starts at `lzw_min_code_size + 1` and grows by one immediately after an
//! entry is inserted at index `2^width - 1`, up to the hard maximum of 12;
//! once the dictionary is saturated at width 12, the next code must be CLEAR.

use vstd::prelude::*;
use vstd::arithmetic::power2::{pow2, lemma2_to64, lemma_pow2_strictly_increases};
use vstd::slice::slice_to_vec;
use crate::bits::{code_at, lemma_code_at_bound, CodeReader};
use crate::GifError;

verus! {

/// The CLEAR code for a minimum code size: the first reserved dictionary slot.
pub open spec fn lzw_clear_code(min: nat) -> int {
    pow2(min) as int
}

/// The initial dictionary: the singletons `[0], [1], ..` for every value a
/// palette index can take, then the two reserved slots, which never hold
/// emittable data.
pub open spec fn lzw_init_dict(min: nat) -> Seq<Seq<usize>> {
    Seq::new(
        pow2(min) + 2,
        |i: int| if i < pow2(min) { seq![i as usize] } else { Seq::<usize>::empty() },
    )
}

/// Prefixes `em` onto the indices of a successful remainder; errors pass
/// through unchanged.
pub open spec fn lzw_prepend(em: Seq<usize>, r: Result<Seq<usize>, GifError>) -> Result<
    Seq<usize>,
    GifError,
> {
    match r {
        Ok(s) => Ok(em + s),
        Err(e) => Err(e),
    }
}

/// One round of decoding, starting right after a CLEAR code: the dictionary
/// is fresh and the first regular code is expected. A truncated stream ends
/// the output; END-OF-INFORMATION ends it too; a reserved or out-of-range
/// first code is invalid.
pub open spec fn lzw_round_first(data: Seq<u8>, p: int, min: nat) -> Result<Seq<usize>, GifError>
    decreases 8 * data.len() - p,
{
    let w = (min + 1) as nat;
    let clear = lzw_clear_code(min);
    if p + w > 8 * data.len() {
        Ok(Seq::empty())
    } else {
        let c = code_at(data, p, w);
        if c == clear {
            Err(GifError::LzwInvalidCode)
        } else if c == clear + 1 {
            Ok(Seq::empty())
        } else if c < clear {
            lzw_prepend(seq![c as usize], lzw_step(data, p + w, min, lzw_init_dict(min), c, w))
        } else {
            Err(GifError::LzwInvalidCode)
        }
    }
}

/// One step of the main loop: read a code at the current width, emit the
/// entry it denotes (or the just-built entry for the next free slot), insert
/// the new entry, and grow the width after the slot `2^width - 1` is filled.
pub open spec fn lzw_step(
    data: Seq<u8>,
    p: int,
    min: nat,
    dict: Seq<Seq<usize>>,
    prev: int,
    width: nat,
) -> Result<Seq<usize>, GifError>
    decreases 8 * data.len() - p,
        when width >= 1
{
    let clear = lzw_clear_code(min);
    if p + width > 8 * data.len() {
        Ok(Seq::empty())
    } else {
        let c = code_at(data, p, width);
        if c == clear {
            lzw_round_first(data, p + width, min)
        } else if c == clear + 1 {
            Ok(Seq::empty())
        } else if c < dict.len() {
            let emitted = dict[c];
            let entry = dict[prev].push(dict[c][0]);
            if dict.len() == pow2(width) - 1 {
                if width == 12 {
                    lzw_prepend(emitted, lzw_await_clear(data, p + width, min))
                } else {
                    lzw_prepend(
                        emitted,
                        lzw_step(data, p + width, min, dict.push(entry), c, (width + 1) as nat),
                    )
                }
            } else {
                lzw_prepend(emitted, lzw_step(data, p + width, min, dict.push(entry), c, width))
            }
        } else if c == dict.len() {
            let entry = dict[prev].push(dict[prev][0]);
            if dict.len() == pow2(width) - 1 {
                if width == 12 {
                    lzw_prepend(entry, lzw_await_clear(data, p + width, min))
                } else {
                    lzw_prepend(
                        entry,
                        lzw_step(data, p + width, min, dict.push(entry), c, (width + 1) as nat),
                    )
                }
            } else {
                lzw_prepend(entry, lzw_step(data, p + width, min, dict.push(entry), c, width))
            }
        } else {
            Err(GifError::LzwInvalidCode)
        }
    }
}

/// After the dictionary saturated at the 12-bit width, the very next code
/// must be CLEAR; it is read at width 12 and starts a fresh round.
pub open spec fn lzw_await_clear(data: Seq<u8>, p: int, min: nat) -> Result<Seq<usize>, GifError>
    decreases 8 * data.len() - p,
{
    if p + 12 > 8 * data.len() {
        Err(GifError::LzwTruncatedBitstream)
    } else if code_at(data, p, 12) == lzw_clear_code(min) {
        lzw_round_first(data, p + 12, min)
    } else {
        Err(GifError::LzwDictSaturated)
    }
}

/// What decompression yields on the concatenated sub-block bytes `data` with
/// minimum code size `min`: the stream must open with a CLEAR code, and each
/// round then runs until the next CLEAR, the END-OF-INFORMATION code, or the
/// end of the stream.
pub open spec fn spec_lzw(data: Seq<u8>, min: nat) -> Result<Seq<usize>, GifError> {
    let w = (min + 1) as nat;
    if w > 8 * data.len() {
        Err(GifError::LzwTruncatedBitstream)
    } else if code_at(data, 0, w) != lzw_clear_code(min) {
        Err(GifError::LzwMissingClear)
    } else {
        lzw_round_first(data, w as int, min)
    }
}

/// The decompressed view of an index-table result.
pub open spec fn lzw_result_view(r: Result<Vec<usize>, GifError>) -> Result<
    Seq<usize>,
    GifError,
> {
    match r {
        Ok(v) => Ok(v@),
        Err(e) => Err(e),
    }
}

/// Prefixing distributes over concatenation of emitted indices.
proof fn lemma_prepend_assoc(a: Seq<usize>, b: Seq<usize>, r: Result<Seq<usize>, GifError>)
    ensures
        lzw_prepend(a, lzw_prepend(b, r)) == lzw_prepend(a + b, r),
{
    match r {
        Ok(s) => {
            assert(a + (b + s) =~= (a + b) + s);
        },
        Err(_) => {},
    }
}

fn clone_indices(v: &Vec<usize>) -> (r: Vec<usize>)
    ensures
        r@ == v@,
{
    let mut r: Vec<usize> = Vec::new();
    let mut i: usize = 0;
    while i < v.len()
        invariant
            i <= v@.len(),
            r@ == v@.subrange(0, i as int),
        decreases v@.len() - i,
    {
        r.push(v[i]);
        i = i + 1;
        proof {
            assert(r@ =~= v@.subrange(0, i as int));
        }
    }
    proof {
        assert(r@ =~= v@);
    }
    r
}

fn extend_indices(dst: &mut Vec<usize>, src: &Vec<usize>)
    ensures
        final(dst)@ == old(dst)@ + src@,
{
    let mut i: usize = 0;
    while i < src.len()
        invariant
            i <= src@.len(),
            dst@ == old(dst)@ + src@.subrange(0, i as int),
        decreases src@.len() - i,
    {
        dst.push(src[i]);
        i = i + 1;
        proof {
            assert(dst@ =~= old(dst)@ + src@.subrange(0, i as int));
        }
    }
    proof {
        assert(old(dst)@ + src@.subrange(0, src@.len() as int) =~= old(dst)@ + src@);
    }
}

/// Owns a dictionary and decodes one image's compressed data.
pub struct Decompressor {
    data_sub_blocks: Vec<u8>,
    lzw_min_code_size: u8,
    clear_code: usize,
    code_table: Vec<Vec<usize>>,
    code_size: u8,
}

impl Decompressor {
    /// The concatenated sub-block bytes being decoded.
    pub closed spec fn data(&self) -> Seq<u8> {
        self.data_sub_blocks@
    }

    /// The minimum LZW code size the decompressor was created with.
    pub closed spec fn min(&self) -> nat {
        self.lzw_min_code_size as nat
    }

    /// The current dictionary, as the sequences of indices its entries denote.
    pub closed spec fn dict(&self) -> Seq<Seq<usize>> {
        self.code_table@.map_values(|v: Vec<usize>| v@)
    }

    /// The current code width.
    pub closed spec fn width(&self) -> nat {
        self.code_size as nat
    }

    /// The minimum code size is in the range the format allows, and the
    /// CLEAR code is the matching power of two.
    pub closed spec fn wf(&self) -> bool {
        &&& 2 <= self.lzw_min_code_size <= 8
        &&& self.clear_code == lzw_clear_code(self.min())
    }

    pub fn new(data_sub_blocks: &[u8], lzw_min_code_size: u8) -> (r: Decompressor)
        requires
            2 <= lzw_min_code_size <= 8,
        ensures
            r.wf(),
            r.data() == data_sub_blocks@,
            r.min() == lzw_min_code_size as nat,
    {
        let clear_code = 1usize << (lzw_min_code_size as usize);
        proof {
            vstd::bits::lemma_usize_pow2_no_overflow(lzw_min_code_size as nat);
            vstd::bits::lemma_usize_shl_is_mul(1, lzw_min_code_size as usize);
        }
        Decompressor {
            data_sub_blocks: slice_to_vec(data_sub_blocks),
            lzw_min_code_size,
            clear_code,
            code_table: Vec::new(),
            code_size: lzw_min_code_size + 1,
        }
    }

    /// Rebuilds the fresh dictionary and resets the code width.
    fn reset(&mut self)
        requires
            old(self).wf(),
        ensures
            final(self).wf(),
            final(self).data() == old(self).data(),
            final(self).min() == old(self).min(),
            final(self).dict() == lzw_init_dict(old(self).min()),
            final(self).width() == old(self).min() + 1,
    {
        self.code_size = self.lzw_min_code_size + 1;
        self.code_table.clear();
        let mut i: usize = 0;
        proof {
            lemma2_to64();
        }
        while i < self.clear_code
            invariant
                self.wf(),
                self.data_sub_blocks == old(self).data_sub_blocks,
                self.lzw_min_code_size == old(self).lzw_min_code_size,
                self.clear_code == old(self).clear_code,
                self.code_size == old(self).lzw_min_code_size + 1,
                i <= self.clear_code,
                self.code_table@.len() == i,
                forall|j: int|
                    0 <= j < i ==> #[trigger] self.code_table@[j]@ == seq![j as usize],
            decreases self.clear_code - i,
        {
            let mut single: Vec<usize> = Vec::new();
            single.push(i);
            proof {
                assert(single@ =~= seq![i as usize]);
            }
            self.code_table.push(single);
            i = i + 1;
        }
        self.code_table.push(Vec::new());
        self.code_table.push(Vec::new());
        proof {
            assert(pow2(self.min()) <= pow2(8)) by {
                if self.min() < 8 {
                    lemma_pow2_strictly_increases(self.min(), 8);
                }
            }
            lemma2_to64();
            assert(self.dict() =~~= lzw_init_dict(self.min()));
        }
    }

    /// Reads one code at the opening width and demands that it is CLEAR.
    fn expect_clear_code(&self, code_reader: &mut CodeReader) -> (r: Result<(), GifError>)
        requires
            self.wf(),
            old(code_reader).wf(),
            self.code_size == self.lzw_min_code_size + 1,
        ensures
            final(code_reader).wf(),
            final(code_reader).data() == old(code_reader).data(),
            ({
                let d = old(code_reader).data();
                let p = old(code_reader).pos();
                let w = (self.min() + 1) as nat;
                match r {
                    Ok(_) => p + w <= 8 * d.len() && code_at(d, p, w) == lzw_clear_code(self.min())
                        && final(code_reader).pos() == p + w,
                    Err(e) => (e == GifError::LzwTruncatedBitstream && p + w > 8 * d.len()) || (
                    e == GifError::LzwMissingClear && p + w <= 8 * d.len() && code_at(d, p, w)
                        != lzw_clear_code(self.min())),
                }
            }),
    {
        let ghost d = code_reader.data();
        let ghost p = code_reader.pos();
        match code_reader.read(self.code_size) {
            None => Err(GifError::LzwTruncatedBitstream),
            Some(c) => {
                proof {
                    lemma_code_at_bound(d, p, self.width());
                    lemma_pow2_strictly_increases(self.width(), 16);
                    lemma_pow2_strictly_increases(self.min(), 16);
                    lemma2_to64();
                }
                if c as usize == self.clear_code {
                    Ok(())
                } else {
                    Err(GifError::LzwMissingClear)
                }
            },
        }
    }

    /// Runs one decode round on a freshly reset dictionary. Returns
    /// `Ok(true)` when a CLEAR code ended the round (another round follows),
    /// `Ok(false)` when the stream or the image data ended, and an error for
    /// an invalid stream; emitted indices are appended to `result`.
    fn decompress_until_clear(
        &mut self,
        code_reader: &mut CodeReader,
        result: &mut Vec<usize>,
    ) -> (r: Result<bool, GifError>)
        requires
            old(self).wf(),
            old(self).dict() == lzw_init_dict(old(self).min()),
            old(self).width() == old(self).min() + 1,
            old(code_reader).wf(),
        ensures
            final(self).wf(),
            final(self).data() == old(self).data(),
            final(self).min() == old(self).min(),
            final(code_reader).wf(),
            final(code_reader).data() == old(code_reader).data(),
            old(result)@.is_prefix_of(final(result)@),
            ({
                let d = old(code_reader).data();
                let p0 = old(code_reader).pos();
                let min = old(self).min();
                let em = final(result)@.skip(old(result)@.len() as int);
                match r {
                    Ok(true) => lzw_round_first(d, p0, min) == lzw_prepend(
                        em,
                        lzw_round_first(d, final(code_reader).pos(), min),
                    ) && final(code_reader).pos() > p0,
                    Ok(false) => lzw_round_first(d, p0, min) == Ok::<Seq<usize>, GifError>(em),
                    Err(e) => lzw_round_first(d, p0, min) == Err::<Seq<usize>, GifError>(e),
                }
            }),
    {
        let ghost d = code_reader.data();
        let ghost p0 = code_reader.pos();
        let ghost min = self.min();
        let ghost oldlen = result@.len() as int;
        proof {
            lemma2_to64();
            lemma_pow2_strictly_increases(min, 16);
            lemma_pow2_strictly_increases(self.width(), 16);
        }
        let current: u16;
        match code_reader.read(self.code_size) {
            Some(c) => {
                current = c;
            },
            None => {
                proof {
                    assert(result@.skip(oldlen) =~= Seq::<usize>::empty());
                }
                return Ok(false);
            },
        }
        proof {
            lemma_code_at_bound(d, p0, self.width());
        }
        let cur = current as usize;
        if cur == self.clear_code {
            return Err(GifError::LzwInvalidCode);
        }
        if cur == self.clear_code + 1 {
            proof {
                assert(result@.skip(oldlen) =~= Seq::<usize>::empty());
            }
            return Ok(false);
        }
        if cur > self.clear_code {
            return Err(GifError::LzwInvalidCode);
        }
        result.push(cur);
        proof {
            let c0 = code_at(d, p0, (min + 1) as nat);
            assert(cur as int == c0);
            assert(result@.skip(oldlen) =~= seq![cur]);
            assert(seq![cur] =~= seq![c0 as usize]);
            assert(lzw_round_first(d, p0, min) == lzw_prepend(
                seq![c0 as usize],
                lzw_step(d, p0 + (min + 1), min, lzw_init_dict(min), c0, (min + 1) as nat),
            ));
            // The fresh dictionary fits below the first width boundary.
            vstd::arithmetic::power2::lemma_pow2_unfold((min + 1) as nat);
            assert(pow2(min) >= 4) by {
                lemma2_to64();
                if min > 2 {
                    lemma_pow2_strictly_increases(2, min);
                }
            }
        }
        let mut prev: usize = cur;
        loop
            invariant
                self.wf(),
                self.min() == min,
                self.data() == old(self).data(),
                code_reader.wf(),
                code_reader.data() == d,
                d == old(code_reader).data(),
                p0 == old(code_reader).pos(),
                min == old(self).min(),
                oldlen == old(result)@.len(),
                code_reader.pos() > p0,
                old(result)@.is_prefix_of(result@),
                min + 1 <= self.width() <= 12,
                self.dict().len() <= pow2(self.width()) - 1,
                lzw_clear_code(min) + 2 <= self.dict().len(),
                prev < self.dict().len(),
                prev != lzw_clear_code(min),
                prev != lzw_clear_code(min) + 1,
                forall|j: int|
                    0 <= j < self.dict().len() && j != lzw_clear_code(min) && j != lzw_clear_code(
                        min,
                    ) + 1 ==> (#[trigger] self.dict()[j]).len() >= 1,
                lzw_round_first(d, p0, min) == lzw_prepend(
                    result@.skip(oldlen),
                    lzw_step(d, code_reader.pos(), min, self.dict(), prev as int, self.width()),
                ),
            decreases 8 * d.len() - code_reader.pos(),
        {
            let ghost pos_b = code_reader.pos();
            let ghost dict_b = self.dict();
            let ghost width_b = self.width();
            let ghost em_b = result@.skip(oldlen);
            proof {
                lemma2_to64();
                lemma_pow2_strictly_increases(self.width(), 16);
                code_reader.lemma_pos_in_range();
            }
            let current2: u16;
            match code_reader.read(self.code_size) {
                Some(c) => {
                    current2 = c;
                },
                None => {
                    proof {
                        assert(lzw_step(d, pos_b, min, dict_b, prev as int, width_b) == Ok::<
                            Seq<usize>,
                            GifError,
                        >(Seq::empty()));
                        assert(em_b + Seq::<usize>::empty() =~= em_b);
                    }
                    return Ok(false);
                },
            }
            proof {
                lemma_code_at_bound(d, pos_b, width_b);
            }
            let ghost c_spec = code_at(d, pos_b, width_b);
            let cur2 = current2 as usize;
            if cur2 == self.clear_code {
                proof {
                    assert(lzw_step(d, pos_b, min, dict_b, prev as int, width_b)
                        == lzw_round_first(d, pos_b + width_b, min));
                }
                return Ok(true);
            }
            if cur2 == self.clear_code + 1 {
                proof {
                    assert(lzw_step(d, pos_b, min, dict_b, prev as int, width_b) == Ok::<
                        Seq<usize>,
                        GifError,
                    >(Seq::empty()));
                    assert(em_b + Seq::<usize>::empty() =~= em_b);
                }
                return Ok(false);
            }
            if cur2 > self.code_table.len() {
                proof {
                    assert(lzw_step(d, pos_b, min, dict_b, prev as int, width_b) == Err::<
                        Seq<usize>,
                        GifError,
                    >(GifError::LzwInvalidCode));
                }
                return Err(GifError::LzwInvalidCode);
            }
            // Emit the entry the code denotes, and build the entry for the
            // next free slot out of the previous entry.
            let ghost emitted_spec = if (cur2 as int) < dict_b.len() {
                dict_b[cur2 as int]
            } else {
                dict_b[prev as int].push(dict_b[prev as int][0])
            };
            let mut entry: Vec<usize>;
            if cur2 < self.code_table.len() {
                let e = clone_indices(&self.code_table[cur2]);
                extend_indices(result, &e);
                let k = e[0];
                entry = clone_indices(&self.code_table[prev]);
                entry.push(k);
                proof {
                    assert(entry@ == dict_b[prev as int].push(dict_b[cur2 as int][0]));
                }
            } else {
                entry = clone_indices(&self.code_table[prev]);
                let k = entry[0];
                entry.push(k);
                extend_indices(result, &entry);
                proof {
                    assert(entry@ == dict_b[prev as int].push(dict_b[prev as int][0]));
                }
            }
            let ghost entry_spec = entry@;
            proof {
                assert(result@.skip(oldlen) =~= em_b + emitted_spec);
            }
            // Insert the new entry; width grows right after the slot
            // `2^width - 1` is filled, and at width 12 the dictionary is
            // saturated instead.
            proof {
                vstd::bits::lemma_usize_pow2_no_overflow(self.width());
                vstd::bits::lemma_usize_shl_is_mul(1, self.code_size as usize);
                vstd::arithmetic::power2::lemma_pow2_pos(self.width());
            }
            let boundary = (1usize << (self.code_size as usize)) - 1;
            if self.code_table.len() == boundary {
                if self.code_size == 12 {
                    // Saturated: the next code must be CLEAR, read at width 12.
                    let ghost pos_c = code_reader.pos();
                    match code_reader.read(12) {
                        None => {
                            proof {
                                assert(lzw_await_clear(d, pos_c, min) == Err::<
                                    Seq<usize>,
                                    GifError,
                                >(GifError::LzwTruncatedBitstream));
                            }
                            return Err(GifError::LzwTruncatedBitstream);
                        },
                        Some(c3) => {
                            proof {
                                lemma_code_at_bound(d, pos_c, 12);
                            }
                            if c3 as usize == self.clear_code {
                                proof {
                                    assert(lzw_await_clear(d, pos_c, min) == lzw_round_first(
                                        d,
                                        pos_c + 12,
                                        min,
                                    ));
                                    lemma_prepend_assoc(
                                        em_b,
                                        emitted_spec,
                                        lzw_round_first(d, pos_c + 12, min),
                                    );
                                }
                                return Ok(true);
                            } else {
                                proof {
                                    assert(lzw_await_clear(d, pos_c, min) == Err::<
                                        Seq<usize>,
                                        GifError,
                                    >(GifError::LzwDictSaturated));
                                }
                                return Err(GifError::LzwDictSaturated);
                            }
                        },
                    }
                } else {
                    self.code_size = self.code_size + 1;
                    self.code_table.push(entry);
                }
            } else {
                self.code_table.push(entry);
            }
            proof {
                assert(self.dict() =~~= dict_b.push(entry_spec));
                lemma_prepend_assoc(
                    em_b,
                    emitted_spec,
                    lzw_step(
                        d,
                        pos_b + width_b,
                        min,
                        dict_b.push(entry_spec),
                        cur2 as int,
                        self.width(),
                    ),
                );
                if self.width() == width_b + 1 {
                    vstd::arithmetic::power2::lemma_pow2_unfold(self.width());
                }
                lemma2_to64();
            }
            prev = cur2;
        }
    }

    /// Decompresses the whole stream into a table of palette indices.
    pub fn decompress(&mut self) -> (r: Result<Vec<usize>, GifError>)
        requires
            old(self).wf(),
        ensures
            final(self).wf(),
            final(self).data() == old(self).data(),
            final(self).min() == old(self).min(),
            lzw_result_view(r) == spec_lzw(old(self).data(), old(self).min()),
    {
        let ghost d = self.data();
        let ghost min = self.min();
        let mut code_reader = CodeReader::new(self.data_sub_blocks.as_slice());
        self.code_size = self.lzw_min_code_size + 1;
        match self.expect_clear_code(&mut code_reader) {
            Ok(_) => {},
            Err(e) => {
                return Err(e);
            },
        }
        let mut result: Vec<usize> = Vec::new();
        loop
            invariant
                self.wf(),
                self.data() == d,
                self.min() == min,
                d == old(self).data(),
                min == old(self).min(),
                code_reader.wf(),
                code_reader.data() == d,
                spec_lzw(d, min) == lzw_prepend(
                    result@,
                    lzw_round_first(d, code_reader.pos(), min),
                ),
            decreases 8 * d.len() - code_reader.pos(),
        {
            self.reset();
            let ghost p_before = code_reader.pos();
            let ghost snap = result@;
            proof {
                code_reader.lemma_pos_in_range();
            }
            match self.decompress_until_clear(&mut code_reader, &mut result) {
                Ok(true) => {
                    proof {
                        assert(result@ =~= snap + result@.skip(snap.len() as int));
                        lemma_prepend_assoc(
                            snap,
                            result@.skip(snap.len() as int),
                            lzw_round_first(d, code_reader.pos(), min),
                        );
                        code_reader.lemma_pos_in_range();
                    }
                },
                Ok(false) => {
                    proof {
                        assert(result@ =~= snap + result@.skip(snap.len() as int));
                    }
                    return Ok(result);
                },
                Err(e) => {
                    return Err(e);
                },
            }
        }
    }
}

} // verus!
