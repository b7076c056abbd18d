//! The bit reader: yields little-endian variable-width codes from a byte
//! stream, the packing used by GIF's LZW data. Bits are taken from each byte
//! starting at the least significant end, and codes span bytes low byte first.

use vstd::prelude::*;
use vstd::arithmetic::power2::{pow2, lemma2_to64, lemma_pow2_strictly_increases};
use vstd::arithmetic::div_mod::{
    lemma_fundamental_div_mod, lemma_fundamental_div_mod_converse, lemma_mod_bound,
    lemma_div_pos_is_pos,
};

use vstd::slice::slice_to_vec;

verus! {

/// The bit at position `i` of the bit stream formed by `data`: bit `i` is bit
/// `i % 8` (counted from the least significant end) of byte `i / 8`.
pub open spec fn stream_bit(data: Seq<u8>, i: int) -> int {
    ((data[i / 8] >> ((i % 8) as u8)) & 1) as int
}

/// The value of the `w`-bit code that starts at bit position `p` of the
/// stream, least significant bit first.
pub open spec fn code_at(data: Seq<u8>, p: int, w: nat) -> int
    decreases w,
{
    if w == 0 {
        0
    } else {
        stream_bit(data, p) + 2 * code_at(data, p + 1, (w - 1) as nat)
    }
}

/// A single extracted bit is 0 or 1.
pub proof fn lemma_stream_bit_01(data: Seq<u8>, i: int)
    ensures
        0 <= stream_bit(data, i) <= 1,
{
    let b = data[i / 8];
    let k = (i % 8) as u8;
    assert(((b >> k) & 1) <= 1) by (bit_vector);
}

/// A `w`-bit code lies in `[0, 2^w)`.
pub proof fn lemma_code_at_bound(data: Seq<u8>, p: int, w: nat)
    ensures
        0 <= code_at(data, p, w) < pow2(w),
    decreases w,
{
    if w == 0 {
        vstd::arithmetic::power2::lemma_pow2_pos(0);
    } else {
        lemma_stream_bit_01(data, p);
        lemma_code_at_bound(data, p + 1, (w - 1) as nat);
        vstd::arithmetic::power2::lemma_pow2_unfold(w);
    }
}

/// Reading one more bit appends it at the most significant end of the code.
pub proof fn lemma_code_at_snoc(data: Seq<u8>, p: int, w: nat)
    ensures
        code_at(data, p, w + 1) == code_at(data, p, w) + pow2(w) * stream_bit(data, p + w),
    decreases w,
{
    if w == 0 {
        assert(pow2(0) == 1) by {
            lemma2_to64();
        }
        assert(code_at(data, p + 1, 0) == 0);
        assert(code_at(data, p, 1) == stream_bit(data, p) + 2 * code_at(data, p + 1, 0));
    } else {
        lemma_code_at_snoc(data, p + 1, (w - 1) as nat);
        let c = code_at(data, p + 1, (w - 1) as nat);
        let b = stream_bit(data, p + w);
        let pw1 = pow2((w - 1) as nat) as int;
        assert(code_at(data, p + 1, w) == c + pw1 * b);
        assert(pow2(w) == 2 * pw1) by {
            vstd::arithmetic::power2::lemma_pow2_unfold(w);
        }
        assert(2 * (c + pw1 * b) == 2 * c + (2 * pw1) * b) by (nonlinear_arith);
        assert(code_at(data, p, w + 1) == stream_bit(data, p) + 2 * code_at(data, p + 1, w));
        assert(code_at(data, p, w) == stream_bit(data, p) + 2 * c);
        assert(pow2(w) * b == (2 * pw1) * b) by (nonlinear_arith)
            requires
                pow2(w) == 2 * pw1,
        ;
    }
}

/// Reads variable-width codes least-significant-bit first across byte
/// boundaries from an owned copy of the byte stream.
pub struct CodeReader {
    data: Vec<u8>,
    index: usize,
    used: u8,
}

impl CodeReader {
    /// The byte stream the reader was created over.
    pub closed spec fn data(&self) -> Seq<u8> {
        self.data@
    }

    /// The position of the next unread bit.
    pub closed spec fn pos(&self) -> int {
        8 * self.index + self.used
    }

    /// The cursor stays inside the stream: `used` counts consumed bits of the
    /// current byte, and a fully consumed stream rests at the very end.
    pub closed spec fn wf(&self) -> bool {
        &&& self.used < 8
        &&& self.index <= self.data@.len()
        &&& self.index == self.data@.len() ==> self.used == 0
    }

    /// A well-formed reader's cursor lies within the stream.
    pub proof fn lemma_pos_in_range(&self)
        requires
            self.wf(),
        ensures
            0 <= self.pos() <= 8 * self.data().len(),
    {
    }

    pub fn new(data: &[u8]) -> (r: CodeReader)
        ensures
            r.wf(),
            r.data() == data@,
            r.pos() == 0,
    {
        CodeReader { data: slice_to_vec(data), index: 0, used: 0 }
    }

    /// Reads the next `bits`-wide code. Returns `None` if and only if fewer
    /// than `bits` bits remain in the stream.
    pub fn read(&mut self, bits: u8) -> (r: Option<u16>)
        requires
            old(self).wf(),
            1 <= bits <= 16,
        ensures
            final(self).wf(),
            final(self).data() == old(self).data(),
            old(self).pos() + bits <= 8 * old(self).data().len() ==> {
                &&& r == Some(code_at(old(self).data(), old(self).pos(), bits as nat) as u16)
                &&& final(self).pos() == old(self).pos() + bits
            },
            old(self).pos() + bits > 8 * old(self).data().len() ==> r is None,
    {
        let ghost d = self.data@;
        let ghost p0 = self.pos();
        let mut result: u32 = 0;
        let mut place: u32 = 1;
        let mut i: u8 = 0;
        proof {
            lemma2_to64();
        }
        while i < bits
            invariant
                self.wf(),
                self.data@ == d,
                d == old(self).data(),
                p0 == old(self).pos(),
                1 <= bits <= 16,
                i <= bits,
                self.pos() == p0 + i,
                place == pow2(i as nat),
                result == code_at(d, p0, i as nat),
                0 <= result < pow2(i as nat),
            decreases bits - i,
        {
            proof {
                if (i as nat) < 16 {
                    lemma_pow2_strictly_increases(i as nat, 16);
                }
                lemma2_to64();
            }
            if self.index == self.data.len() {
                // The cursor is at the very end of the stream, so fewer than
                // the remaining `bits - i` bits are available.
                return None;
            }
            let byte = self.data[self.index];
            let used = self.used;
            let bit: u8 = (byte >> used) & 1;
            proof {
                lemma_fundamental_div_mod_converse(p0 + i, 8, self.index as int, used as int);
                assert(((byte >> used) & 1) <= 1) by (bit_vector);
                assert(bit == stream_bit(d, p0 + i));
                lemma_code_at_snoc(d, p0, i as nat);
                assert((bit as int) * (place as int) == pow2(i as nat) * stream_bit(d, p0 + i))
                    by (nonlinear_arith)
                    requires
                        bit as int == stream_bit(d, p0 + i),
                        place as int == pow2(i as nat),
                ;
                assert((bit as u32) * place <= place) by (nonlinear_arith)
                    requires
                        bit <= 1,
                ;
            }
            result = result + (bit as u32) * place;
            place = place * 2;
            proof {
                vstd::arithmetic::power2::lemma_pow2_unfold((i + 1) as nat);
            }
            self.used = self.used + 1;
            if self.used == 8 {
                self.used = 0;
                self.index = self.index + 1;
            }
            i = i + 1;
        }
        proof {
            if (bits as nat) < 16 {
                lemma_pow2_strictly_increases(bits as nat, 16);
            }
            lemma2_to64();
        }
        Some(result as u16)
    }
}

/// The bit at position `p` of an explicit bit list; positions beyond the end
/// read as zero.
pub open spec fn bit_of(bits: Seq<bool>, p: int) -> int {
    if 0 <= p < bits.len() && bits[p] {
        1
    } else {
        0
    }
}

/// The value of `w` bits of the list starting at `p`, least significant bit
/// first.
pub open spec fn bits_value(bits: Seq<bool>, p: int, w: nat) -> int
    decreases w,
{
    if w == 0 {
        0
    } else {
        bit_of(bits, p) + 2 * bits_value(bits, p + 1, (w - 1) as nat)
    }
}

/// The `w` low bits of `v`, least significant first.
pub open spec fn bits_of_code(v: int, w: nat) -> Seq<bool>
    decreases w,
{
    if w == 0 {
        Seq::empty()
    } else {
        seq![v % 2 == 1] + bits_of_code(v / 2, (w - 1) as nat)
    }
}

/// The bits of a list of `(width, value)` codes, in stream order, each value
/// cut to its width.
pub open spec fn bits_of_codes(codes: Seq<(u8, u16)>) -> Seq<bool>
    decreases codes.len(),
{
    if codes.len() == 0 {
        Seq::empty()
    } else {
        bits_of_code(codes[0].1 as int, codes[0].0 as nat) + bits_of_codes(codes.drop_first())
    }
}

/// The bit position where the `i`-th code starts: the sum of the widths
/// before it.
pub open spec fn code_offset(codes: Seq<(u8, u16)>, i: int) -> int
    decreases i,
{
    if i <= 0 {
        0
    } else {
        code_offset(codes, i - 1) + codes[i - 1].0
    }
}

/// One byte assembled from the eight bits of the list starting at `p`, least
/// significant bit first.
pub open spec fn byte_of_bits(bits: Seq<bool>, p: int) -> u8 {
    (bit_of(bits, p) + 2 * bit_of(bits, p + 1) + 4 * bit_of(bits, p + 2) + 8 * bit_of(bits, p + 3)
        + 16 * bit_of(bits, p + 4) + 32 * bit_of(bits, p + 5) + 64 * bit_of(bits, p + 6) + 128
        * bit_of(bits, p + 7)) as u8
}

/// A bit list packed into bytes, least significant bit of each byte first,
/// the last byte zero-padded.
pub open spec fn pack_bits(bits: Seq<bool>) -> Seq<u8> {
    Seq::new(((bits.len() + 7) / 8) as nat, |k: int| byte_of_bits(bits, 8 * k))
}

/// A list of `(width, value)` codes packed into the GIF bit-stream layout.
pub open spec fn pack_codes(codes: Seq<(u8, u16)>) -> Seq<u8> {
    pack_bits(bits_of_codes(codes))
}

/// Selecting one bit of a byte built from eight bit values.
proof fn lemma_byte_bit(
    y: u8,
    b0: u8,
    b1: u8,
    b2: u8,
    b3: u8,
    b4: u8,
    b5: u8,
    b6: u8,
    b7: u8,
    r: u8,
)
    by (bit_vector)
    requires
        b0 <= 1,
        b1 <= 1,
        b2 <= 1,
        b3 <= 1,
        b4 <= 1,
        b5 <= 1,
        b6 <= 1,
        b7 <= 1,
        r < 8,
        y == b0 + 2 * b1 + 4 * b2 + 8 * b3 + 16 * b4 + 32 * b5 + 64 * b6 + 128 * b7,
    ensures
        ((y >> r) & 1) == (if r == 0 {
            b0
        } else if r == 1 {
            b1
        } else if r == 2 {
            b2
        } else if r == 3 {
            b3
        } else if r == 4 {
            b4
        } else if r == 5 {
            b5
        } else if r == 6 {
            b6
        } else {
            b7
        }),
{
}

/// Each bit of the packed bytes is the original bit of the list.
proof fn lemma_pack_bits_bit(bits: Seq<bool>, i: int)
    requires
        0 <= i < bits.len(),
    ensures
        stream_bit(pack_bits(bits), i) == bit_of(bits, i),
{
    let p = pack_bits(bits);
    let k = i / 8;
    let r = i % 8;
    lemma_fundamental_div_mod(i, 8);
    lemma_mod_bound(i, 8);
    lemma_div_pos_is_pos(i, 8);
    lemma_fundamental_div_mod(bits.len() as int + 7, 8);
    lemma_mod_bound(bits.len() as int + 7, 8);
    assert(k < p.len());
    let y = p[k];
    assert(y == byte_of_bits(bits, 8 * k));
    lemma_byte_bit(
        y,
        bit_of(bits, 8 * k) as u8,
        bit_of(bits, 8 * k + 1) as u8,
        bit_of(bits, 8 * k + 2) as u8,
        bit_of(bits, 8 * k + 3) as u8,
        bit_of(bits, 8 * k + 4) as u8,
        bit_of(bits, 8 * k + 5) as u8,
        bit_of(bits, 8 * k + 6) as u8,
        bit_of(bits, 8 * k + 7) as u8,
        r as u8,
    );
}

/// Reading `w` bits out of the packed bytes yields the value of those bits.
proof fn lemma_code_at_pack_bits(bits: Seq<bool>, p: int, w: nat)
    requires
        0 <= p,
        p + w <= bits.len(),
    ensures
        code_at(pack_bits(bits), p, w) == bits_value(bits, p, w),
    decreases w,
{
    if w > 0 {
        lemma_pack_bits_bit(bits, p);
        lemma_code_at_pack_bits(bits, p + 1, (w - 1) as nat);
    }
}

/// `bits_value` after a prefix reads only the suffix.
proof fn lemma_bits_value_shift(a: Seq<bool>, b: Seq<bool>, p: int, w: nat)
    requires
        p >= 0,
    ensures
        bits_value(a + b, a.len() + p, w) == bits_value(b, p, w),
    decreases w,
{
    if w > 0 {
        assert(bit_of(a + b, a.len() + p) == bit_of(b, p));
        lemma_bits_value_shift(a, b, p + 1, (w - 1) as nat);
    }
}

/// `bits_value` within a long-enough prefix ignores the suffix.
proof fn lemma_bits_value_prefix(a: Seq<bool>, b: Seq<bool>, p: int, w: nat)
    requires
        0 <= p,
        p + w <= a.len(),
    ensures
        bits_value(a + b, p, w) == bits_value(a, p, w),
    decreases w,
{
    if w > 0 {
        assert(bit_of(a + b, p) == bit_of(a, p));
        lemma_bits_value_prefix(a, b, p + 1, (w - 1) as nat);
    }
}

/// A code's bit list is as long as its width.
proof fn lemma_bits_of_code_len(v: int, w: nat)
    ensures
        bits_of_code(v, w).len() == w,
    decreases w,
{
    if w > 0 {
        lemma_bits_of_code_len(v / 2, (w - 1) as nat);
    }
}

/// Cutting a value into bits and evaluating them gives the value back.
proof fn lemma_bits_of_code_value(v: int, w: nat)
    requires
        0 <= v < pow2(w),
    ensures
        bits_value(bits_of_code(v, w), 0, w) == v,
    decreases w,
{
    if w == 0 {
        assert(pow2(0) == 1) by {
            lemma2_to64();
        }
    } else {
        let head = seq![v % 2 == 1];
        let tail = bits_of_code(v / 2, (w - 1) as nat);
        lemma_fundamental_div_mod(v, 2);
        lemma_mod_bound(v, 2);
        lemma_div_pos_is_pos(v, 2);
        assert(v / 2 < pow2((w - 1) as nat)) by {
            vstd::arithmetic::power2::lemma_pow2_unfold(w);
        }
        lemma_bits_of_code_value(v / 2, (w - 1) as nat);
        lemma_bits_value_shift(head, tail, 0, (w - 1) as nat);
        assert(bit_of(head + tail, 0) == v % 2);
    }
}

/// The start of the `i`-th code moves down by the first width when the first
/// code is dropped.
proof fn lemma_code_offset_shift(codes: Seq<(u8, u16)>, i: int)
    requires
        1 <= i <= codes.len(),
    ensures
        code_offset(codes, i) == codes[0].0 + code_offset(codes.drop_first(), i - 1),
    decreases i,
{
    if i > 1 {
        lemma_code_offset_shift(codes, i - 1);
        assert(codes.drop_first()[i - 2] == codes[i - 1]);
    } else {
        assert(code_offset(codes, 0) == 0);
        assert(code_offset(codes.drop_first(), 0) == 0);
    }
}

/// The whole bit list is as long as the sum of the widths.
proof fn lemma_bits_of_codes_len(codes: Seq<(u8, u16)>)
    ensures
        bits_of_codes(codes).len() == code_offset(codes, codes.len() as int),
    decreases codes.len(),
{
    if codes.len() > 0 {
        lemma_bits_of_code_len(codes[0].1 as int, codes[0].0 as nat);
        lemma_bits_of_codes_len(codes.drop_first());
        lemma_code_offset_shift(codes, codes.len() as int);
    }
}

/// Code offsets do not decrease.
proof fn lemma_code_offset_mono(codes: Seq<(u8, u16)>, i: int, j: int)
    requires
        0 <= i <= j <= codes.len(),
    ensures
        code_offset(codes, i) <= code_offset(codes, j),
    decreases j - i,
{
    if i < j {
        lemma_code_offset_mono(codes, i, j - 1);
    }
}

/// The `i`-th code's bits, within the whole stream, evaluate to its value.
proof fn lemma_bits_of_codes_at(codes: Seq<(u8, u16)>, i: int)
    requires
        0 <= i < codes.len(),
        forall|k: int|
            0 <= k < codes.len() ==> (#[trigger] codes[k]).1 < pow2(codes[k].0 as nat),
    ensures
        bits_value(bits_of_codes(codes), code_offset(codes, i), codes[i].0 as nat) == codes[i].1,
    decreases i,
{
    let first = bits_of_code(codes[0].1 as int, codes[0].0 as nat);
    let rest = bits_of_codes(codes.drop_first());
    lemma_bits_of_code_len(codes[0].1 as int, codes[0].0 as nat);
    if i == 0 {
        lemma_bits_of_code_value(codes[0].1 as int, codes[0].0 as nat);
        lemma_bits_value_prefix(first, rest, 0, codes[0].0 as nat);
    } else {
        let tail = codes.drop_first();
        assert(forall|k: int|
            0 <= k < tail.len() ==> (#[trigger] tail[k]).1 < pow2(tail[k].0 as nat)) by {
            assert(forall|k: int| 0 <= k < tail.len() ==> tail[k] == codes[k + 1]);
        }
        lemma_bits_of_codes_at(tail, i - 1);
        lemma_code_offset_shift(codes, i);
        lemma_code_offset_mono(tail, 0, i - 1);
        lemma_bits_value_shift(first, rest, code_offset(tail, i - 1), codes[i].0 as nat);
        assert(tail[i - 1] == codes[i]);
    }
}

/// Law: the bit reader inverts bit packing. Packing a list of
/// `(width, value)` codes least-significant-bit first and then reading each
/// one back at its own width and offset yields the original value.
pub proof fn lemma_pack_codes_round_trip(codes: Seq<(u8, u16)>, i: int)
    requires
        0 <= i < codes.len(),
        forall|k: int|
            0 <= k < codes.len() ==> (#[trigger] codes[k]).1 < pow2(codes[k].0 as nat),
    ensures
        0 <= code_offset(codes, i),
        code_offset(codes, i) + codes[i].0 <= 8 * pack_codes(codes).len(),
        code_at(pack_codes(codes), code_offset(codes, i), codes[i].0 as nat) == codes[i].1,
{
    let bits = bits_of_codes(codes);
    lemma_bits_of_codes_len(codes);
    lemma_code_offset_mono(codes, 0, i);
    lemma_code_offset_mono(codes, i + 1, codes.len() as int);
    lemma_bits_of_codes_at(codes, i);
    lemma_code_at_pack_bits(bits, code_offset(codes, i), codes[i].0 as nat);
    lemma_fundamental_div_mod(bits.len() as int + 7, 8);
    lemma_mod_bound(bits.len() as int + 7, 8);
}

} // verus!
