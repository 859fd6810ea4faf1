//! The compressed-position decoder and its arithmetic helpers.
//!
//! A compressed frame stores, after its header: a precision word, the
//! per-axis integer bounds `minint` / `maxint`, a starting index into
//! [`MAGICINTS`], and an opaque blob holding the bit-packed position
//! stream.  [`read_compressed_positions`] reconstructs the integer
//! coordinate triples from that stream; everything it returns is pinned to
//! the spec-level decoder [`spec_decode_positions`].
use vstd::prelude::*;

use vstd::arithmetic::div_mod::{lemma_fundamental_div_mod, lemma_mod_division_less_than_divisor, lemma_small_mod};
use vstd::arithmetic::power2::{
    lemma2_to64, lemma2_to64_rest, lemma_pow2_adds, lemma_pow2_pos, lemma_pow2_strictly_increases,
    lemma_pow2_unfold, pow2,
};

use crate::bits::{decodebits, stream_val, DecodeState};
use crate::bytes::{read_i32, read_u32, spec_be_i32, spec_be_u32, ByteReader};
use crate::selection::AtomSelection;
use crate::XTCError;

verus! {

/// The table of small-integer cube sizes the run protocol adapts over:
/// monotone, zero below index 9 ([`FIRSTIDX`]).
pub const MAGICINTS: [i32; 73] = [
    0,        0,        0,       0,       0,       0,       0,       0,       0,       8,
    10,       12,       16,      20,      25,      32,      40,      50,      64,      80,
    101,      128,      161,     203,     256,     322,     406,     512,     645,     812,
    1024,     1290,     1625,    2048,    2580,    3250,    4096,    5060,    6501,    8192,
    10321,    13003,    16384,   20642,   26007,   32768,   41285,   52015,   65536,   82570,
    104031,   131072,   165140,  208063,  262144,  330280,  416127,  524287,  660561,  832255,
    1048576,  1321122,  1664510, 2097152, 2642245, 3329021, 4194304, 5284491, 6658042, 8388607,
    10568983, 13316085, 16777216,
];

/// The first index of [`MAGICINTS`] that holds a nonzero value.
pub const FIRSTIDX: usize = 9;

/// Facts about the [`MAGICINTS`] table that the decoder leans on.
pub proof fn lemma_magicints_facts()
    ensures
        forall|i: int| 0 <= i < 73 ==> 0 <= #[trigger] MAGICINTS@[i] <= 16777216,
        forall|i: int| 9 <= i < 73 ==> 8 <= #[trigger] MAGICINTS@[i],
        forall|i: int| 0 <= i <= 32 ==> #[trigger] MAGICINTS@[i] <= 1625,
        forall|i: int| 0 <= i < 9 ==> #[trigger] MAGICINTS@[i] == 0,
{
}

/// The number of bits needed to write `n` in binary: the least `k` with
/// `n < 2^k`.
pub open spec fn spec_bitlen(n: nat) -> nat
    decreases n,
{
    if n == 0 {
        0
    } else {
        spec_bitlen(n / 2) + 1
    }
}

/// `n` fits in `spec_bitlen(n)` bits and needs all of them.
pub proof fn lemma_bitlen_bounds(n: nat)
    ensures
        n < pow2(spec_bitlen(n)),
        spec_bitlen(n) > 0 ==> pow2((spec_bitlen(n) - 1) as nat) <= n,
    decreases n,
{
    if n == 0 {
        lemma2_to64();
    } else {
        lemma_bitlen_bounds(n / 2);
        let b = spec_bitlen(n / 2);
        lemma_pow2_unfold(b + 1);
        if b > 0 {
            lemma_pow2_unfold(b);
        } else {
            lemma2_to64();
        }
    }
}

/// The bit length is the unique `k` with `2^(k-1) <= n < 2^k` (and 0 for 0).
pub proof fn lemma_bitlen_unique(n: nat, k: nat)
    requires
        n < pow2(k),
        k > 0 ==> pow2((k - 1) as nat) <= n,
    ensures
        spec_bitlen(n) == k,
{
    lemma_bitlen_bounds(n);
    let b = spec_bitlen(n);
    if b < k {
        lemma_pow2_strictly_increases(b, k);
        if k > 0 && b <= k - 1 {
            if b < k - 1 {
                lemma_pow2_strictly_increases(b, (k - 1) as nat);
            }
            assert(pow2((k - 1) as nat) <= n < pow2(b));
        }
    } else if b > k {
        if k < b - 1 {
            lemma_pow2_strictly_increases(k, (b - 1) as nat);
        }
        assert(pow2((b - 1) as nat) <= n < pow2(k));
    }
}

/// The minimum number of bits needed to represent `size` as an unsigned
/// integer.
pub fn sizeofint(size: u32) -> (r: u32)
    ensures
        r == spec_bitlen(size as nat),
        r <= 32,
{
    let mut nbits: u32 = 0;
    let mut n: u64 = 1;
    proof {
        lemma2_to64();
    }
    while size as u64 >= n && nbits < 32
        invariant
            n == pow2(nbits as nat),
            nbits <= 32,
            nbits > 0 ==> pow2((nbits - 1) as nat) <= size as nat,
        decreases 64 - nbits,
    {
        proof {
            lemma_pow2_unfold(nbits as nat + 1);
            lemma2_to64();
            lemma2_to64_rest();
            assert(pow2(nbits as nat + 1) <= pow2(33)) by {
                if nbits as nat + 1 < 33 {
                    lemma_pow2_strictly_increases(nbits as nat + 1, 33);
                }
            }
        }
        nbits += 1;
        n *= 2;
    }
    proof {
        if size as u64 >= n {
            // The cap kicked in: a `u32` never needs more than 32 bits.
            assert(nbits == 32);
            lemma2_to64();
            assert(size < 0x100000000);
        }
        lemma_bitlen_unique(size as nat, nbits as nat);
    }
    nbits
}

/// The number of bits needed to represent the mixed-radix product
/// `sizes[0] * sizes[1] * sizes[2]`.
pub fn sizeofints(sizes: [u32; 3]) -> (r: u32)
    ensures
        r == spec_bitlen((sizes[0] * sizes[1] * sizes[2]) as nat),
        r <= 96,
{
    proof {
        lemma2_to64();
        lemma2_to64_rest();
        assert((sizes@[0] as nat) * (sizes@[1] as nat) < pow2(64)) by (nonlinear_arith)
            requires
                sizes@[0] < 0x100000000 && sizes@[1] < 0x100000000 && pow2(64) == 0x10000000000000000,
        ;
        assert((sizes@[0] as nat) * (sizes@[1] as nat) * (sizes@[2] as nat) < pow2(64) * pow2(32))
            by (nonlinear_arith)
            requires
                (sizes@[0] as nat) * (sizes@[1] as nat) < pow2(64) && sizes@[2] < 0x100000000
                    && pow2(32) == 0x100000000 && pow2(64) > 0,
        ;
        lemma_pow2_adds(64, 32);
    }
    let p: u128 = sizes[0] as u128 * sizes[1] as u128 * sizes[2] as u128;
    let mut nbits: u32 = 0;
    let mut n: u128 = 1;
    while p >= n && nbits < 127
        invariant
            n == pow2(nbits as nat),
            nbits <= 127,
            p < pow2(96),
            p == (sizes[0] as nat) * (sizes[1] as nat) * (sizes[2] as nat),
            nbits > 0 ==> pow2((nbits - 1) as nat) <= p as nat,
        decreases 127 - nbits,
    {
        proof {
            lemma_pow2_unfold(nbits as nat + 1);
            lemma_pow2_strictly_increases(nbits as nat + 1, 128);
            assert(pow2(128) == pow2(64) * pow2(64)) by {
                lemma_pow2_adds(64, 64);
            }
            lemma2_to64();
            lemma2_to64_rest();
            if nbits >= 96 {
                lemma_pow2_strictly_increases(96, nbits as nat);
                assert(false);
            }
        }
        nbits += 1;
        n *= 2;
    }
    proof {
        assert(p < n) by {
            if p >= n {
                assert(nbits == 127);
                lemma_pow2_strictly_increases(96, 127);
            }
        }
        lemma_bitlen_unique(p as nat, nbits as nat);
        if nbits > 96 {
            lemma_pow2_strictly_increases(96, (nbits - 1) as nat);
            assert(false);
        }
    }
    nbits
}

/// The per-axis integer range of a frame: `maxint - minint + 1`, in the
/// wrapping 32-bit arithmetic of the wire format.
pub open spec fn spec_sizeint(minint: i32, maxint: i32) -> u32 {
    (((maxint - minint + 1) % 0x100000000) as u32)
}

/// What [`calc_sizeint`] hands back: the packed field width (zero flags
/// large mode), the per-axis ranges, and the per-axis widths used by large
/// mode.
pub struct SizeInfo {
    /// Width in bits of one packed coordinate triple, or zero when the
    /// ranges are too large to pack and each axis is read separately.
    pub bitsize: u32,
    /// Per-axis range `maxint - minint + 1`.
    pub sizeint: [u32; 3],
    /// Per-axis widths for the large path; zero in the packed path.
    pub bitsizeint: [u32; 3],
}

/// Whether the per-axis ranges force the large path: some range does not
/// fit in 24 bits.
pub open spec fn spec_is_large(s0: u32, s1: u32, s2: u32) -> bool {
    s0 > 0xffffff || s1 > 0xffffff || s2 > 0xffffff
}

impl SizeInfo {
    /// The contract of [`calc_sizeint`] over the header bounds.
    pub open spec fn spec_matches(&self, minint: [i32; 3], maxint: [i32; 3]) -> bool {
        let s0 = spec_sizeint(minint[0], maxint[0]);
        let s1 = spec_sizeint(minint[1], maxint[1]);
        let s2 = spec_sizeint(minint[2], maxint[2]);
        &&& self.sizeint@ == seq![s0, s1, s2]
        &&& if spec_is_large(s0, s1, s2) {
            &&& self.bitsize == 0
            &&& self.bitsizeint@ == seq![
                spec_bitlen(s0 as nat) as u32,
                spec_bitlen(s1 as nat) as u32,
                spec_bitlen(s2 as nat) as u32,
            ]
        } else {
            &&& self.bitsize == spec_bitlen((s0 * s1 * s2) as nat)
            &&& self.bitsizeint@ == seq![0u32, 0u32, 0u32]
        }
    }
}

/// One axis of [`calc_sizeint`]: the wrapping range computation.
fn sizeint_axis(minint: i32, maxint: i32) -> (r: u32)
    ensures
        r == spec_sizeint(minint, maxint),
{
    let d: i64 = maxint as i64 - minint as i64 + 1;
    let u: u64 = (d + 0x100000000) as u64;
    proof {
        vstd::arithmetic::div_mod::lemma_mod_add_multiples_vanish(d as int, 0x100000000);
        lemma_mod_division_less_than_divisor(d + 0x100000000, 0x100000000);
        vstd::arithmetic::div_mod::lemma_mod_bound(d + 0x100000000, 0x100000000);
    }
    (u % 0x100000000) as u32
}

/// Work out the per-axis coordinate ranges of a frame and how many bits
/// each coordinate field takes: a nonzero `bitsize` means all three axes
/// are packed into one `bitsize`-wide integer, while `bitsize == 0` flags
/// the large path with its per-axis `bitsizeint` widths.
pub fn calc_sizeint(minint: [i32; 3], maxint: [i32; 3]) -> (r: SizeInfo)
    ensures
        r.spec_matches(minint, maxint),
{
    let s0 = sizeint_axis(minint[0], maxint[0]);
    let s1 = sizeint_axis(minint[1], maxint[1]);
    let s2 = sizeint_axis(minint[2], maxint[2]);
    let sizeint = [s0, s1, s2];
    proof {
        assert((s0 | s1 | s2) > 0xffffffu32 <==> (s0 > 0xffffff || s1 > 0xffffff || s2
            > 0xffffff)) by (bit_vector);
        assert(sizeint@ == seq![s0, s1, s2]);
    }
    if (s0 | s1 | s2) > 0xffffff {
        let bitsizeint = [sizeofint(s0), sizeofint(s1), sizeofint(s2)];
        proof {
            assert(bitsizeint@ == seq![
                spec_bitlen(s0 as nat) as u32,
                spec_bitlen(s1 as nat) as u32,
                spec_bitlen(s2 as nat) as u32,
            ]);
        }
        SizeInfo { bitsize: 0, sizeint, bitsizeint }
    } else {
        let bitsize = sizeofints([s0, s1, s2]);
        let bitsizeint = [0u32, 0u32, 0u32];
        proof {
            assert(bitsizeint@ == seq![0u32, 0u32, 0u32]);
            assert([s0, s1, s2]@[0] == s0 && [s0, s1, s2]@[1] == s1 && [s0, s1, s2]@[2] == s2);
        }
        SizeInfo { bitsize, sizeint, bitsizeint }
    }
}

/// The two's-complement reading of a 32-bit word, as executable code.
pub fn u32_as_i32(v: u32) -> (r: i32)
    ensures
        r == crate::bytes::spec_u32_as_i32(v),
{
    if v < 0x80000000 {
        v as i32
    } else {
        let neg = 0x100000000u64 - v as u64;
        (-(neg as i64)) as i32
    }
}

/// The 32-bit wrap of an unbounded integer.
pub open spec fn spec_wrap_i32(x: int) -> i32 {
    crate::bytes::spec_u32_as_i32((x % 0x100000000) as u32)
}

/// The value of an `n`-bit field at bit position `p` as the packed-integer
/// reader sees it: whole bytes first, least significant byte first, with
/// the partial top chunk last and most significant.
pub open spec fn le_val(d: Seq<u8>, p: int, n: nat) -> nat
    decreases n,
{
    if n >= 8 {
        stream_val(d, p, 8) + 256 * le_val(d, p + 8, (n - 8) as nat)
    } else {
        stream_val(d, p, n)
    }
}

/// An `n`-bit little-endian field is smaller than `2^n`.
pub proof fn lemma_le_val_bound(d: Seq<u8>, p: int, n: nat)
    ensures
        le_val(d, p, n) < pow2(n),
    decreases n,
{
    if n >= 8 {
        lemma_le_val_bound(d, p + 8, (n - 8) as nat);
        crate::bits::lemma_stream_val_bound(d, p, 8);
        lemma2_to64();
        lemma_pow2_adds(8, (n - 8) as nat);
        assert(stream_val(d, p, 8) + 256 * le_val(d, p + 8, (n - 8) as nat) < 256 * pow2(
            (n - 8) as nat,
        )) by (nonlinear_arith)
            requires
                stream_val(d, p, 8) < 256 && le_val(d, p + 8, (n - 8) as nat) < pow2((n - 8) as nat),
        ;
    } else {
        crate::bits::lemma_stream_val_bound(d, p, n);
    }
}

/// Splitting a little-endian field after `k` whole bytes.
#[verifier::rlimit(30)]
pub proof fn lemma_le_val_split(d: Seq<u8>, p: int, n: nat, k: nat)
    requires
        8 * k <= n,
    ensures
        le_val(d, p, n) == le_val(d, p, 8 * k) + pow2(8 * k) * le_val(d, p + 8 * k, (n - 8
            * k) as nat),
    decreases k,
{
    if k == 0 {
        lemma2_to64();
    } else {
        lemma_le_val_split(d, p + 8, (n - 8) as nat, (k - 1) as nat);
        lemma_pow2_adds(8, (8 * k - 8) as nat);
        lemma2_to64();
        let c = stream_val(d, p, 8);
        let a = le_val(d, p + 8, (8 * (k - 1)) as nat);
        let b = le_val(d, p + 8 * k, (n - 8 * k) as nat);
        assert((8 * k - 8) as nat == 8 * ((k - 1) as nat));
        assert(le_val(d, p + 8, (n - 8) as nat) == a + pow2((8 * k - 8) as nat) * b);
        assert(le_val(d, p, n) == c + 256 * le_val(d, p + 8, (n - 8) as nat));
        assert(le_val(d, p, 8 * k) == c + 256 * a);
        assert(256 * pow2((8 * k - 8) as nat) == pow2(8 * k));
        assert(c + 256 * (a + pow2((8 * k - 8) as nat) * b) == (c + 256 * a) + (256 * pow2(
            (8 * k - 8) as nat,
        )) * b) by (nonlinear_arith);
    }
}

/// What a packed coordinate triple decodes to: the `nbits`-wide field at
/// bit position `p` (read as [`le_val`]) taken apart in mixed radix, the
/// third axis varying fastest, each axis wrapped to 32 bits.
pub open spec fn spec_decodeints(d: Seq<u8>, p: int, nbits: nat, s1: u32, s2: u32) -> (
    i32,
    i32,
    i32,
) {
    let v = le_val(d, p, nbits) as int;
    let szy = (s1 as int) * (s2 as int);
    let q = v % szy;
    (spec_wrap_i32(v / szy), spec_wrap_i32(q / (s2 as int)), spec_wrap_i32(q % (s2 as int)))
}

/// Unpack one coordinate triple from a field of at most 32 bits, in 32-bit
/// arithmetic.
#[verifier::loop_isolation(false)]
pub fn unpack_from_int_into_u32(
    buf: &[u8],
    state: &mut DecodeState,
    nbits: usize,
    sizes: [u32; 3],
) -> (nums: [i32; 3])
    requires
        nbits <= 32,
        1 <= sizes[1],
        1 <= sizes[2],
        (sizes[1] as int) * (sizes[2] as int) <= u32::MAX,
        old(state).wf(buf@),
        old(state).spec_pos() + nbits <= 8 * buf@.len(),
    ensures
        final(state).wf(buf@),
        final(state).spec_pos() == old(state).spec_pos() + nbits,
        (nums[0], nums[1], nums[2]) == spec_decodeints(
            buf@,
            old(state).spec_pos(),
            nbits as nat,
            sizes[1],
            sizes[2],
        ),
{
    let ghost d = buf@;
    let ghost p0 = old(state).spec_pos();
    let mut v: u32 = 0;
    let mut m: u32 = 1;
    let mut nbytes: usize = 0;
    let mut rem = nbits;
    proof {
        lemma2_to64();
    }
    while rem >= 8
        invariant
            buf@ == d,
            state.wf(d),
            8 * nbytes + rem == nbits <= 32,
            state.spec_pos() == p0 + 8 * nbytes,
            p0 + nbits <= 8 * d.len(),
            v == le_val(d, p0, (8 * nbytes) as nat),
            v < pow2((8 * nbytes) as nat),
            rem > 0 ==> m == pow2((8 * nbytes) as nat),
        decreases rem,
    {
        let byte = crate::bits::decodebyte(buf, state);
        proof {
            lemma_unpack_step(d, p0, nbytes as nat, nbits as nat, rem as nat, 32);
        }
        v = v + (byte as u32) * m;
        nbytes += 1;
        rem -= 8;
        if rem > 0 {
            proof {
                lemma_pow2_adds((8 * (nbytes - 1)) as nat, 8);
                assert(pow2((8 * nbytes) as nat) <= pow2(24)) by {
                    if 8 * nbytes < 24 {
                        lemma_pow2_strictly_increases((8 * nbytes) as nat, 24);
                    }
                }
                lemma2_to64();
            }
            m = m * 256;
        }
    }
    if rem > 0 {
        let c = decodebits(buf, state, rem);
        proof {
            lemma_unpack_final(d, p0, nbytes as nat, nbits as nat, rem as nat, 32);
        }
        v = v + c * m;
    }
    proof {
        assert(v == le_val(d, p0, nbits as nat));
    }
    let sz = sizes[2];
    let sy = sizes[1];
    let szy = sy * sz;
    proof {
        assert(szy >= 1) by (nonlinear_arith)
            requires
                sy >= 1 && sz >= 1 && szy == sy * sz,
        ;
    }
    let x1 = v / szy;
    proof {
        lemma_fundamental_div_mod(v as int, szy as int);
        lemma_mod_division_less_than_divisor(v as int, szy as int);
        vstd::arithmetic::div_mod::lemma_mod_bound(v as int, szy as int);
        assert(x1 * szy <= v) by (nonlinear_arith)
            requires
                v as int == szy as int * (x1 as int) + (v as int % szy as int),
                v as int % szy as int >= 0,
        ;
    }
    let q1 = v - x1 * szy;
    proof {
        assert(q1 == v as int % szy as int) by (nonlinear_arith)
            requires
                q1 == v - x1 * szy,
                v as int == szy as int * (x1 as int) + (v as int % szy as int),
        ;
    }
    let y1 = q1 / sz;
    proof {
        lemma_fundamental_div_mod(q1 as int, sz as int);
        lemma_mod_division_less_than_divisor(q1 as int, sz as int);
        vstd::arithmetic::div_mod::lemma_mod_bound(q1 as int, sz as int);
        assert(y1 * sz <= q1) by (nonlinear_arith)
            requires
                q1 as int == sz as int * (y1 as int) + (q1 as int % sz as int),
                q1 as int % sz as int >= 0,
        ;
    }
    let z1 = q1 - y1 * sz;
    proof {
        assert(z1 == q1 as int % sz as int) by (nonlinear_arith)
            requires
                z1 == q1 - y1 * sz,
                q1 as int == sz as int * (y1 as int) + (q1 as int % sz as int),
        ;
        lemma_small_mod(x1 as nat, 0x100000000);
        lemma_small_mod(y1 as nat, 0x100000000);
        lemma_small_mod(z1 as nat, 0x100000000);
    }
    [u32_as_i32(x1), u32_as_i32(y1), u32_as_i32(z1)]
}

/// Unpack one coordinate triple from a field of at most 64 bits, in 64-bit
/// arithmetic.
#[verifier::loop_isolation(false)]
pub fn unpack_from_int_into_u64(
    buf: &[u8],
    state: &mut DecodeState,
    nbits: usize,
    sizes: [u32; 3],
) -> (nums: [i32; 3])
    requires
        nbits <= 64,
        1 <= sizes[1],
        1 <= sizes[2],
        old(state).wf(buf@),
        old(state).spec_pos() + nbits <= 8 * buf@.len(),
    ensures
        final(state).wf(buf@),
        final(state).spec_pos() == old(state).spec_pos() + nbits,
        (nums[0], nums[1], nums[2]) == spec_decodeints(
            buf@,
            old(state).spec_pos(),
            nbits as nat,
            sizes[1],
            sizes[2],
        ),
{
    let ghost d = buf@;
    let ghost p0 = old(state).spec_pos();
    let mut v: u64 = 0;
    let mut m: u64 = 1;
    let mut nbytes: usize = 0;
    let mut rem = nbits;
    proof {
        lemma2_to64();
    }
    while rem >= 8
        invariant
            buf@ == d,
            state.wf(d),
            8 * nbytes + rem == nbits <= 64,
            state.spec_pos() == p0 + 8 * nbytes,
            p0 + nbits <= 8 * d.len(),
            v == le_val(d, p0, (8 * nbytes) as nat),
            v < pow2((8 * nbytes) as nat),
            rem > 0 ==> m == pow2((8 * nbytes) as nat),
        decreases rem,
    {
        let byte = crate::bits::decodebyte(buf, state);
        proof {
            lemma_unpack_step(d, p0, nbytes as nat, nbits as nat, rem as nat, 64);
        }
        v = v + (byte as u64) * m;
        nbytes += 1;
        rem -= 8;
        if rem > 0 {
            proof {
                lemma_pow2_adds((8 * (nbytes - 1)) as nat, 8);
                assert(pow2((8 * nbytes) as nat) <= pow2(56)) by {
                    if 8 * nbytes < 56 {
                        lemma_pow2_strictly_increases((8 * nbytes) as nat, 56);
                    }
                }
                lemma2_to64();
                lemma2_to64_rest();
            }
            m = m * 256;
        }
    }
    if rem > 0 {
        let c = decodebits(buf, state, rem);
        proof {
            lemma_unpack_final(d, p0, nbytes as nat, nbits as nat, rem as nat, 64);
        }
        v = v + (c as u64) * m;
    }
    proof {
        assert(v == le_val(d, p0, nbits as nat));
    }
    let sz = sizes[2] as u64;
    let sy = sizes[1] as u64;
    proof {
        assert((sy as int) * (sz as int) <= u64::MAX && (sy as int) * (sz as int) >= 1)
            by (nonlinear_arith)
            requires
                1 <= sy < 0x100000000 && 1 <= sz < 0x100000000,
        ;
    }
    let szy = sy * sz;
    let x1 = v / szy;
    proof {
        lemma_fundamental_div_mod(v as int, szy as int);
        lemma_mod_division_less_than_divisor(v as int, szy as int);
        vstd::arithmetic::div_mod::lemma_mod_bound(v as int, szy as int);
        assert(x1 * szy <= v) by (nonlinear_arith)
            requires
                v as int == szy as int * (x1 as int) + (v as int % szy as int),
                v as int % szy as int >= 0,
        ;
    }
    let q1 = v - x1 * szy;
    proof {
        assert(q1 == v as int % szy as int) by (nonlinear_arith)
            requires
                q1 == v - x1 * szy,
                v as int == szy as int * (x1 as int) + (v as int % szy as int),
        ;
    }
    let y1 = q1 / sz;
    proof {
        lemma_fundamental_div_mod(q1 as int, sz as int);
        lemma_mod_division_less_than_divisor(q1 as int, sz as int);
        vstd::arithmetic::div_mod::lemma_mod_bound(q1 as int, sz as int);
        assert(y1 * sz <= q1) by (nonlinear_arith)
            requires
                q1 as int == sz as int * (y1 as int) + (q1 as int % sz as int),
                q1 as int % sz as int >= 0,
        ;
    }
    let z1 = q1 - y1 * sz;
    proof {
        assert(z1 == q1 as int % sz as int) by (nonlinear_arith)
            requires
                z1 == q1 - y1 * sz,
                q1 as int == sz as int * (y1 as int) + (q1 as int % sz as int),
        ;
    }
    [wrap_u64_low(x1), wrap_u64_low(y1), wrap_u64_low(z1)]
}

/// Unpack one coordinate triple from a field of at most 96 bits, in
/// 128-bit arithmetic.
pub fn unpack_from_int_into_u128(
    buf: &[u8],
    state: &mut DecodeState,
    nbits: usize,
    sizes: [u32; 3],
) -> (nums: [i32; 3])
    requires
        nbits <= 96,
        1 <= sizes[1],
        1 <= sizes[2],
        old(state).wf(buf@),
        old(state).spec_pos() + nbits <= 8 * buf@.len(),
    ensures
        final(state).wf(buf@),
        final(state).spec_pos() == old(state).spec_pos() + nbits,
        (nums[0], nums[1], nums[2]) == spec_decodeints(
            buf@,
            old(state).spec_pos(),
            nbits as nat,
            sizes[1],
            sizes[2],
        ),
{
    let ghost d = buf@;
    let ghost p0 = old(state).spec_pos();
    let mut v: u128 = 0;
    let mut m: u128 = 1;
    let mut nbytes: usize = 0;
    let mut rem = nbits;
    proof {
        lemma2_to64();
    }
    while rem >= 8
        invariant
            buf@ == d,
            state.wf(d),
            8 * nbytes + rem == nbits <= 96,
            state.spec_pos() == p0 + 8 * nbytes,
            p0 + nbits <= 8 * d.len(),
            v == le_val(d, p0, (8 * nbytes) as nat),
            v < pow2((8 * nbytes) as nat),
            rem > 0 ==> m == pow2((8 * nbytes) as nat),
        decreases rem,
    {
        let byte = crate::bits::decodebyte(buf, state);
        proof {
            lemma_unpack_step(d, p0, nbytes as nat, nbits as nat, rem as nat, 96);
            lemma_pow2_adds(64, 32);
            lemma2_to64();
        }
        v = v + (byte as u128) * m;
        nbytes += 1;
        rem -= 8;
        if rem > 0 {
            proof {
                lemma_pow2_adds((8 * (nbytes - 1)) as nat, 8);
                assert(pow2((8 * nbytes) as nat) <= pow2(88)) by {
                    if 8 * nbytes < 88 {
                        lemma_pow2_strictly_increases((8 * nbytes) as nat, 88);
                    }
                }
                lemma_pow2_strictly_increases(88, 96);
                lemma_pow2_adds(64, 32);
                lemma2_to64();
                lemma2_to64_rest();
            }
            m = m * 256;
        }
    }
    if rem > 0 {
        let c = decodebits(buf, state, rem);
        proof {
            lemma_unpack_final(d, p0, nbytes as nat, nbits as nat, rem as nat, 96);
            lemma_pow2_adds(64, 32);
            lemma2_to64();
        }
        v = v + (c as u128) * m;
    }
    proof {
        assert(v == le_val(d, p0, nbits as nat));
    }
    let sz = sizes[2] as u128;
    let sy = sizes[1] as u128;
    proof {
        assert((sy as int) * (sz as int) <= u128::MAX && (sy as int) * (sz as int) >= 1)
            by (nonlinear_arith)
            requires
                1 <= sy < 0x100000000 && 1 <= sz < 0x100000000,
        ;
    }
    let szy = sy * sz;
    let x1 = v / szy;
    proof {
        lemma_fundamental_div_mod(v as int, szy as int);
        lemma_mod_division_less_than_divisor(v as int, szy as int);
        vstd::arithmetic::div_mod::lemma_mod_bound(v as int, szy as int);
        assert(x1 * szy <= v) by (nonlinear_arith)
            requires
                v as int == szy as int * (x1 as int) + (v as int % szy as int),
                v as int % szy as int >= 0,
        ;
    }
    let q1 = v - x1 * szy;
    proof {
        assert(q1 == v as int % szy as int) by (nonlinear_arith)
            requires
                q1 == v - x1 * szy,
                v as int == szy as int * (x1 as int) + (v as int % szy as int),
        ;
    }
    let y1 = q1 / sz;
    proof {
        lemma_fundamental_div_mod(q1 as int, sz as int);
        lemma_mod_division_less_than_divisor(q1 as int, sz as int);
        vstd::arithmetic::div_mod::lemma_mod_bound(q1 as int, sz as int);
        assert(y1 * sz <= q1) by (nonlinear_arith)
            requires
                q1 as int == sz as int * (y1 as int) + (q1 as int % sz as int),
                q1 as int % sz as int >= 0,
        ;
    }
    let z1 = q1 - y1 * sz;
    proof {
        assert(z1 == q1 as int % sz as int) by (nonlinear_arith)
            requires
                z1 == q1 - y1 * sz,
                q1 as int == sz as int * (y1 as int) + (q1 as int % sz as int),
        ;
    }
    [wrap_u128_low(x1), wrap_u128_low(y1), wrap_u128_low(z1)]
}

/// The low 32 bits of a 64-bit value, read in two's complement.
fn wrap_u64_low(x: u64) -> (r: i32)
    ensures
        r == spec_wrap_i32(x as int),
{
    proof {
        lemma_mod_division_less_than_divisor(x as int, 0x100000000);
        vstd::arithmetic::div_mod::lemma_mod_bound(x as int, 0x100000000);
    }
    u32_as_i32((x % 0x100000000) as u32)
}

/// The low 32 bits of a 128-bit value, read in two's complement.
fn wrap_u128_low(x: u128) -> (r: i32)
    ensures
        r == spec_wrap_i32(x as int),
{
    proof {
        lemma_mod_division_less_than_divisor(x as int, 0x100000000);
        vstd::arithmetic::div_mod::lemma_mod_bound(x as int, 0x100000000);
    }
    u32_as_i32((x % 0x100000000) as u32)
}

/// One whole-byte step of the little-endian accumulation.
proof fn lemma_unpack_step(d: Seq<u8>, p0: int, nbytes: nat, nbits: nat, rem: nat, width: nat)
    requires
        8 * nbytes + rem == nbits,
        rem >= 8,
        nbits <= width,
    ensures
        le_val(d, p0, 8 * (nbytes + 1)) == le_val(d, p0, 8 * nbytes) + stream_val(
            d,
            p0 + 8 * nbytes,
            8,
        ) * pow2(8 * nbytes),
        le_val(d, p0, 8 * (nbytes + 1)) < pow2(8 * (nbytes + 1)),
        pow2(8 * (nbytes + 1)) <= pow2(width),
{
    lemma_le_val_split(d, p0, 8 * (nbytes + 1), nbytes);
    assert(le_val(d, p0 + 8 * nbytes + 8, 0) == 0);
    assert(le_val(d, p0 + 8 * nbytes, 8) == stream_val(d, p0 + 8 * nbytes, 8));
    assert(pow2(8 * nbytes) * stream_val(d, p0 + 8 * nbytes, 8) == stream_val(
        d,
        p0 + 8 * nbytes,
        8,
    ) * pow2(8 * nbytes)) by (nonlinear_arith);
    lemma_le_val_bound(d, p0, 8 * (nbytes + 1));
    if 8 * (nbytes + 1) < width {
        lemma_pow2_strictly_increases(8 * (nbytes + 1), width);
    }
}

/// The final partial chunk of the little-endian accumulation.
proof fn lemma_unpack_final(d: Seq<u8>, p0: int, nbytes: nat, nbits: nat, rem: nat, width: nat)
    requires
        8 * nbytes + rem == nbits,
        0 < rem < 8,
        nbits <= width,
    ensures
        le_val(d, p0, nbits) == le_val(d, p0, 8 * nbytes) + stream_val(d, p0 + 8 * nbytes, rem)
            * pow2(8 * nbytes),
        le_val(d, p0, nbits) < pow2(nbits),
        pow2(nbits) <= pow2(width),
{
    lemma_le_val_split(d, p0, nbits, nbytes);
    assert(le_val(d, p0 + 8 * nbytes, rem) == stream_val(d, p0 + 8 * nbytes, rem));
    assert(pow2(8 * nbytes) * stream_val(d, p0 + 8 * nbytes, rem) == stream_val(
        d,
        p0 + 8 * nbytes,
        rem,
    ) * pow2(8 * nbytes)) by (nonlinear_arith);
    lemma_le_val_bound(d, p0, nbits);
    if nbits < width {
        lemma_pow2_strictly_increases(nbits, width);
    }
}

/// Unpack one coordinate triple, in the smallest integer width that holds
/// the whole field.
pub fn decodeints(
    buf: &[u8],
    state: &mut DecodeState,
    nbits: usize,
    sizes: [u32; 3],
) -> (nums: [i32; 3])
    requires
        nbits <= 96,
        1 <= sizes[1],
        1 <= sizes[2],
        nbits <= 32 ==> (sizes[1] as int) * (sizes[2] as int) <= u32::MAX,
        old(state).wf(buf@),
        old(state).spec_pos() + nbits <= 8 * buf@.len(),
    ensures
        final(state).wf(buf@),
        final(state).spec_pos() == old(state).spec_pos() + nbits,
        (nums[0], nums[1], nums[2]) == spec_decodeints(
            buf@,
            old(state).spec_pos(),
            nbits as nat,
            sizes[1],
            sizes[2],
        ),
{
    if nbits <= 32 {
        unpack_from_int_into_u32(buf, state, nbits, sizes)
    } else if nbits <= 64 {
        unpack_from_int_into_u64(buf, state, nbits, sizes)
    } else {
        unpack_from_int_into_u128(buf, state, nbits, sizes)
    }
}

/// 32-bit wrapping addition, as the coordinate reconstruction uses it.
pub open spec fn wadd(a: i32, b: i32) -> i32 {
    vstd::wrapping::i32_specs::wrapping_add(a, b)
}

/// 32-bit wrapping subtraction, as the coordinate reconstruction uses it.
pub open spec fn wsub(a: i32, b: i32) -> i32 {
    vstd::wrapping::i32_specs::wrapping_sub(a, b)
}

/// The fixed per-frame decode parameters: how many atom slots the caller
/// asked for, the coordinate offsets and field widths from the preamble,
/// and the atom selection.
pub ghost struct DecodeCfg {
    /// Number of atom slots in the output buffer: the decode loop consumes
    /// encoded atoms until this many have been read.
    pub n: nat,
    /// Per-axis minimum integer coordinate, added to every header triple.
    pub minint: (i32, i32, i32),
    /// Packed field width; zero flags large mode.
    pub bitsize: nat,
    /// Large-mode per-axis field widths.
    pub bsi: (nat, nat, nat),
    /// Per-axis coordinate ranges (the packed radices).
    pub sizeint: (u32, u32, u32),
    /// The atom selection emissions are filtered through.
    pub sel: AtomSelection,
}

/// The emission state: the coordinate components written so far and how
/// many atoms have been offered to the selection.
pub ghost struct EmitSt {
    /// Flattened written coordinates, three components per accepted atom.
    pub out: Seq<i32>,
    /// Number of atoms offered to the selection so far.
    pub sel_idx: nat,
}

/// Offer one decoded atom to the selection: `None` stops the decode,
/// `Some(false)` skips the atom, `Some(true)` appends its components.
pub open spec fn spec_emit(sel: AtomSelection, st: EmitSt, c: (i32, i32, i32)) -> (EmitSt, bool) {
    match sel.spec_is_included(st.sel_idx) {
        None => (st, true),
        Some(false) => (EmitSt { out: st.out, sel_idx: st.sel_idx + 1 }, false),
        Some(true) => (
            EmitSt { out: st.out + seq![c.0, c.1, c.2], sel_idx: st.sel_idx + 1 },
            false,
        ),
    }
}

/// What one run step leaves behind.
pub ghost struct RunOut {
    /// Bit position after the consumed small triples.
    pub pos: int,
    /// Emission state after the run.
    pub st: EmitSt,
    /// Encoded atoms consumed by the run.
    pub reads: nat,
    /// Whether the selection returned its terminal verdict.
    pub stopped: bool,
}

/// The run protocol: `items` small triples follow the header atom, each a
/// delta against the previous atom.  The first one changes places with the
/// header atom when emitted (the water swap).  Emission ends early when the
/// selection stops the decode or when the output buffer is full; the
/// latter abandons the rest of the run.
#[verifier::opaque]
pub open spec fn spec_run(
    d: Seq<u8>,
    cfg: DecodeCfg,
    pos: int,
    smallidx: nat,
    smallnum: i32,
    prev: (i32, i32, i32),
    st: EmitSt,
    items: nat,
    first: bool,
) -> Option<RunOut>
    decreases items,
{
    if items == 0 {
        Some(RunOut { pos, st, reads: 0, stopped: false })
    } else if pos + smallidx > 8 * d.len() {
        None
    } else {
        let sm = MAGICINTS[smallidx as int] as u32;
        let t = spec_decodeints(d, pos, smallidx, sm, sm);
        let pos1 = pos + smallidx;
        let c = (
            wadd(t.0, wsub(prev.0, smallnum)),
            wadd(t.1, wsub(prev.1, smallnum)),
            wadd(t.2, wsub(prev.2, smallnum)),
        );
        let (st1, stop1) = spec_emit(cfg.sel, st, c);
        if stop1 {
            Some(RunOut { pos: pos1, st: st1, reads: 1, stopped: true })
        } else if st1.out.len() == 3 * cfg.n {
            Some(RunOut { pos: pos1, st: st1, reads: 1, stopped: false })
        } else if first {
            // The water swap: the header atom follows the first small atom.
            let (st2, stop2) = spec_emit(cfg.sel, st1, prev);
            if stop2 {
                Some(RunOut { pos: pos1, st: st2, reads: 1, stopped: true })
            } else if st2.out.len() == 3 * cfg.n {
                Some(RunOut { pos: pos1, st: st2, reads: 1, stopped: false })
            } else {
                match spec_run(d, cfg, pos1, smallidx, smallnum, c, st2, (items - 1) as nat, false) {
                    None => None,
                    Some(r) => Some(
                        RunOut { pos: r.pos, st: r.st, reads: r.reads + 1, stopped: r.stopped },
                    ),
                }
            }
        } else {
            match spec_run(d, cfg, pos1, smallidx, smallnum, c, st1, (items - 1) as nat, false) {
                None => None,
                Some(r) => Some(
                    RunOut { pos: r.pos, st: r.st, reads: r.reads + 1, stopped: r.stopped },
                ),
            }
        }
    }
}

/// Adapt the small-integer scale for the next atom group, or fail when the
/// stream walks the index out of the table's nonzero range.
pub open spec fn spec_adapt(smallidx: nat, smallnum: i32, smaller: i32, is_smaller: int) -> Option<
    (nat, i32, i32),
> {
    if is_smaller < 0 {
        if smallidx == 0 {
            None
        } else {
            let si = (smallidx - 1) as nat;
            if si < 73 && MAGICINTS[si as int] != 0 {
                let sm = if si > 9 {
                    (MAGICINTS[si - 1] / 2) as i32
                } else {
                    0i32
                };
                Some((si, smaller, sm))
            } else {
                None
            }
        }
    } else if is_smaller > 0 {
        let si = smallidx + 1;
        if si < 73 && MAGICINTS[si as int] != 0 {
            Some((si, (MAGICINTS[si as int] / 2) as i32, smallnum))
        } else {
            None
        }
    } else {
        if smallidx < 73 && MAGICINTS[smallidx as int] != 0 {
            Some((smallidx, smallnum, smaller))
        } else {
            None
        }
    }
}

/// What one atom group (a header atom and its optional run) leaves behind.
pub ghost struct GroupOut {
    /// Bit position after the group.
    pub pos: int,
    /// Adapted table index.
    pub smallidx: nat,
    /// Adapted half cube size.
    pub smallnum: i32,
    /// Adapted next-smaller half cube size.
    pub smaller: i32,
    /// Emission state after the group.
    pub st: EmitSt,
    /// Encoded atoms consumed by the group.
    pub reads: nat,
    /// Whether the selection returned its terminal verdict.
    pub stopped: bool,
}

/// Decode the header triple of one atom group: three independent fields in
/// large mode, one packed field otherwise; `minint` added to each axis.
pub open spec fn spec_header_triple(d: Seq<u8>, cfg: DecodeCfg, pos: int) -> Option<
    ((i32, i32, i32), int),
> {
    if cfg.bitsize == 0 {
        if pos + cfg.bsi.0 + cfg.bsi.1 + cfg.bsi.2 > 8 * d.len() {
            None
        } else {
            let v0 = stream_val(d, pos, cfg.bsi.0);
            let v1 = stream_val(d, pos + cfg.bsi.0, cfg.bsi.1);
            let v2 = stream_val(d, pos + cfg.bsi.0 + cfg.bsi.1, cfg.bsi.2);
            Some(
                (
                    (
                        spec_wrap_i32(v0 as int),
                        spec_wrap_i32(v1 as int),
                        spec_wrap_i32(v2 as int),
                    ),
                    pos + cfg.bsi.0 + cfg.bsi.1 + cfg.bsi.2,
                ),
            )
        }
    } else {
        if pos + cfg.bitsize > 8 * d.len() {
            None
        } else {
            Some(
                (
                    spec_decodeints(d, pos, cfg.bitsize, cfg.sizeint.1, cfg.sizeint.2),
                    pos + cfg.bitsize,
                ),
            )
        }
    }
}

/// Decode one atom group: the header triple, the run flag, the optional
/// five-bit run descriptor, the run itself, and the scale adaptation.
#[verifier::opaque]
pub open spec fn spec_group(
    d: Seq<u8>,
    cfg: DecodeCfg,
    pos: int,
    smallidx: nat,
    smallnum: i32,
    smaller: i32,
    st: EmitSt,
) -> Option<GroupOut> {
    match spec_header_triple(d, cfg, pos) {
        None => None,
        Some((t, pos1)) => {
            let coord = (
                wadd(t.0, cfg.minint.0),
                wadd(t.1, cfg.minint.1),
                wadd(t.2, cfg.minint.2),
            );
            if pos1 + 1 > 8 * d.len() {
                None
            } else {
                let flag = stream_val(d, pos1, 1);
                if flag == 1 {
                    if pos1 + 6 > 8 * d.len() {
                        None
                    } else {
                        let runraw = stream_val(d, pos1 + 1, 5);
                        let is_smaller = runraw % 3 - 1;
                        let run = (runraw - runraw % 3) as nat;
                        let pos2 = pos1 + 6;
                        if run > 0 {
                            match spec_run(
                                d,
                                cfg,
                                pos2,
                                smallidx,
                                smallnum,
                                coord,
                                st,
                                run / 3,
                                true,
                            ) {
                                None => None,
                                Some(r) => {
                                    if r.stopped {
                                        Some(
                                            GroupOut {
                                                pos: r.pos,
                                                smallidx,
                                                smallnum,
                                                smaller,
                                                st: r.st,
                                                reads: r.reads,
                                                stopped: true,
                                            },
                                        )
                                    } else {
                                        match spec_adapt(smallidx, smallnum, smaller, is_smaller as int) {
                                            None => None,
                                            Some((si, sn, sm)) => Some(
                                                GroupOut {
                                                    pos: r.pos,
                                                    smallidx: si,
                                                    smallnum: sn,
                                                    smaller: sm,
                                                    st: r.st,
                                                    reads: r.reads + 1,
                                                    stopped: false,
                                                },
                                            ),
                                        }
                                    }
                                },
                            }
                        } else {
                            let (st1, stop1) = spec_emit(cfg.sel, st, coord);
                            if stop1 {
                                Some(
                                    GroupOut {
                                        pos: pos2,
                                        smallidx,
                                        smallnum,
                                        smaller,
                                        st: st1,
                                        reads: 0,
                                        stopped: true,
                                    },
                                )
                            } else {
                                match spec_adapt(smallidx, smallnum, smaller, is_smaller as int) {
                                    None => None,
                                    Some((si, sn, sm)) => Some(
                                        GroupOut {
                                            pos: pos2,
                                            smallidx: si,
                                            smallnum: sn,
                                            smaller: sm,
                                            st: st1,
                                            reads: 1,
                                            stopped: false,
                                        },
                                    ),
                                }
                            }
                        }
                    }
                } else {
                    let (st1, stop1) = spec_emit(cfg.sel, st, coord);
                    if stop1 {
                        Some(
                            GroupOut {
                                pos: pos1 + 1,
                                smallidx,
                                smallnum,
                                smaller,
                                st: st1,
                                reads: 0,
                                stopped: true,
                            },
                        )
                    } else {
                        match spec_adapt(smallidx, smallnum, smaller, 0) {
                            None => None,
                            Some((si, sn, sm)) => Some(
                                GroupOut {
                                    pos: pos1 + 1,
                                    smallidx: si,
                                    smallnum: sn,
                                    smaller: sm,
                                    st: st1,
                                    reads: 1,
                                    stopped: false,
                                },
                            ),
                        }
                    }
                }
            }
        },
    }
}

/// The decode loop: atom groups until `budget` encoded atoms have been
/// consumed, or the selection stops the decode.
#[verifier::opaque]
pub open spec fn spec_decode_loop(
    d: Seq<u8>,
    cfg: DecodeCfg,
    pos: int,
    smallidx: nat,
    smallnum: i32,
    smaller: i32,
    st: EmitSt,
    budget: nat,
) -> Option<EmitSt>
    decreases budget,
{
    if budget == 0 {
        Some(st)
    } else {
        match spec_group(d, cfg, pos, smallidx, smallnum, smaller, st) {
            None => None,
            Some(g) => {
                if g.stopped {
                    Some(g.st)
                } else if g.reads == 0 {
                    None
                } else {
                    let used = if g.reads >= budget {
                        budget
                    } else {
                        g.reads
                    };
                    spec_decode_loop(
                        d,
                        cfg,
                        g.pos,
                        g.smallidx,
                        g.smallnum,
                        g.smaller,
                        g.st,
                        (budget - used) as nat,
                    )
                }
            },
        }
    }
}

/// Subtraction clamped at zero.
pub open spec fn nat_sub(a: int, b: int) -> nat {
    if a >= b {
        (a - b) as nat
    } else {
        0
    }
}

/// The written coordinates padded out with zeros to the full `3 * n`
/// output slots; a decode that stops early leaves the rest of the buffer
/// zeroed.
pub open spec fn spec_pad_zeros(out: Seq<i32>, n: nat) -> Seq<i32> {
    out + Seq::new(nat_sub(3 * n as int, out.len() as int), |i: int| 0i32)
}

/// The initial table index taken from the wire is valid when the table
/// holds a nonzero cube size for it.
pub open spec fn spec_smallidx_ok(sidx: u32) -> bool {
    sidx < 73 && MAGICINTS[sidx as int] != 0
}

/// What decoding one compressed-position section at position `p` of the
/// stream `d` yields, for an output buffer of `n` atom slots filtered by
/// `sel`: the written (and zero-padded) coordinate components and the
/// stream position just past the section, or the error that stops it.
///
/// The section holds `minint`, `maxint`, the starting table index, and the
/// opaque payload; a missing byte is [`XTCError::UnexpectedEof`], while a
/// bad table index, an overrun of the payload's bits, or an adaptation
/// that walks off the table is [`XTCError::CorruptCompressedStream`].
#[verifier::opaque]
pub open spec fn spec_decode_positions(d: Seq<u8>, p: int, n: nat, sel: AtomSelection) -> Result<
    (Seq<i32>, int),
    XTCError,
> {
    if d.len() - p < 28 {
        Err(XTCError::UnexpectedEof)
    } else {
        let minint = (spec_be_i32(d, p), spec_be_i32(d, p + 4), spec_be_i32(d, p + 8));
        let maxint = (spec_be_i32(d, p + 12), spec_be_i32(d, p + 16), spec_be_i32(d, p + 20));
        let sidx = spec_be_u32(d, p + 24);
        if !spec_smallidx_ok(sidx) {
            Err(XTCError::CorruptCompressedStream)
        } else {
            let s0 = spec_sizeint(minint.0, maxint.0);
            let s1 = spec_sizeint(minint.1, maxint.1);
            let s2 = spec_sizeint(minint.2, maxint.2);
            match crate::buffer::spec_payload_len(d, p + 28) {
                None => Err(XTCError::UnexpectedEof),
                Some(padded) => {
                    let payload = d.subrange(p + 32, p + 32 + padded);
                    let end = p + 32 + padded;
                    let cfg = DecodeCfg {
                        n,
                        minint,
                        bitsize: if spec_is_large(s0, s1, s2) {
                            0
                        } else {
                            spec_bitlen((s0 * s1 * s2) as nat)
                        },
                        bsi: if spec_is_large(s0, s1, s2) {
                            (spec_bitlen(s0 as nat), spec_bitlen(s1 as nat), spec_bitlen(s2 as nat))
                        } else {
                            (0, 0, 0)
                        },
                        sizeint: (s0, s1, s2),
                        sel,
                    };
                    let si = sidx as nat;
                    let sn0 = (MAGICINTS[sidx as int] / 2) as i32;
                    let tmp = if si <= 9 {
                        9
                    } else {
                        (si - 1) as nat
                    };
                    let sm0 = (MAGICINTS[tmp as int] / 2) as i32;
                    match spec_decode_loop(
                        payload,
                        cfg,
                        0,
                        si,
                        sn0,
                        sm0,
                        EmitSt { out: Seq::empty(), sel_idx: 0 },
                        n,
                    ) {
                        None => Err(XTCError::CorruptCompressedStream),
                        Some(st) => Ok((spec_pad_zeros(st.out, n), end)),
                    }
                },
            }
        }
    }
}

/// A bound on the input bounds its bit length: `n < 2^k` means at most `k`
/// bits.
pub proof fn lemma_bitlen_le(n: nat, k: nat)
    requires
        n < pow2(k),
    ensures
        spec_bitlen(n) <= k,
{
    lemma_bitlen_bounds(n);
    let b = spec_bitlen(n);
    if b > k {
        if k < b - 1 {
            lemma_pow2_strictly_increases(k, (b - 1) as nat);
        }
        assert(pow2((b - 1) as nat) <= n < pow2(k));
        assert(false);
    }
}

/// Half of a table entry, as the scale adaptation computes it.
fn magicints_half(i: usize) -> (r: i32)
    requires
        i < 73,
    ensures
        r == (MAGICINTS@[i as int] / 2) as i32,
        0 <= r <= 8388608,
{
    proof {
        lemma_magicints_facts();
    }
    let mv = MAGICINTS[i];
    ((mv as u32) / 2) as i32
}

/// Offer one decoded atom to the selection and write it into its output
/// slot if it is included: the executable mirror of [`spec_emit`].
fn emit_position(
    positions: &mut Vec<i32>,
    sel: &AtomSelection,
    sel_idx: &mut usize,
    write_idx: &mut usize,
    c: [i32; 3],
    n: usize,
) -> (stop: bool)
    requires
        old(positions)@.len() == 3 * n,
        *old(write_idx) < n,
        *old(sel_idx) < usize::MAX,
        forall|i: int|
            3 * *old(write_idx) <= i < 3 * n ==> old(positions)@[i] == 0,
    ensures
        final(positions)@.len() == 3 * n,
        *final(write_idx) <= *old(write_idx) + 1,
        ({
            let r = spec_emit(
                *sel,
                EmitSt {
                    out: old(positions)@.take(3 * *old(write_idx) as int),
                    sel_idx: *old(sel_idx) as nat,
                },
                (c[0], c[1], c[2]),
            );
            &&& stop == r.1
            &&& *final(sel_idx) == r.0.sel_idx
            &&& 3 * *final(write_idx) == r.0.out.len()
            &&& final(positions)@.take(3 * *final(write_idx) as int) == r.0.out
            &&& forall|i: int|
                3 * *final(write_idx) <= i < 3 * n ==> final(positions)@[i] == 0
        }),
{
    match sel.is_included(*sel_idx) {
        None => true,
        Some(false) => {
            *sel_idx = *sel_idx + 1;
            false
        },
        Some(true) => {
            let w = *write_idx;
            let plen = positions.len();
            proof {
                assert(3 * w + 2 < plen);
            }
            positions.set(3 * w, c[0]);
            positions.set(3 * w + 1, c[1]);
            positions.set(3 * w + 2, c[2]);
            *write_idx = w + 1;
            *sel_idx = *sel_idx + 1;
            proof {
                assert(positions@.take(3 * (w + 1) as int) =~= old(positions)@.take(3 * w as int)
                    + seq![c[0], c[1], c[2]]);
            }
            false
        },
    }
}

/// Decode the `items` small triples of one run: the executable mirror of
/// [`spec_run`].  Returns whether the selection stopped the decode.
#[verifier::loop_isolation(false)]
fn decode_run(
    buf: &[u8],
    state: &mut DecodeState,
    positions: &mut Vec<i32>,
    sel: &AtomSelection,
    sel_idx: &mut usize,
    write_idx: &mut usize,
    read_idx: &mut usize,
    smallidx: usize,
    smallnum: i32,
    header: [i32; 3],
    items: usize,
    n: usize,
    Ghost(cfg): Ghost<DecodeCfg>,
) -> (r: Result<bool, XTCError>)
    requires
        cfg.n == n,
        cfg.sel == *sel,
        9 <= smallidx <= 72,
        MAGICINTS@[smallidx as int] != 0,
        1 <= items <= 10,
        old(state).wf(buf@),
        old(positions)@.len() == 3 * n,
        *old(write_idx) < n,
        *old(sel_idx) + 22 <= usize::MAX,
        *old(read_idx) + items <= usize::MAX,
        forall|i: int|
            3 * *old(write_idx) <= i < 3 * n ==> old(positions)@[i] == 0,
    ensures
        final(state).wf(buf@),
        final(positions)@.len() == 3 * n,
        3 * *final(write_idx) <= 3 * n,
        forall|i: int|
            3 * *final(write_idx) <= i < 3 * n ==> final(positions)@[i] == 0,
        *old(read_idx) <= *final(read_idx) <= *old(read_idx) + items,
        *final(sel_idx) <= *old(sel_idx) + 2 * (*final(read_idx) - *old(read_idx)),
        *final(write_idx) <= *old(write_idx) + (*final(read_idx) - *old(read_idx)) + 1,
        match r {
            Ok(stopped) => spec_run(
                buf@,
                cfg,
                old(state).spec_pos(),
                smallidx as nat,
                smallnum,
                (header[0], header[1], header[2]),
                EmitSt {
                    out: old(positions)@.take(3 * *old(write_idx) as int),
                    sel_idx: *old(sel_idx) as nat,
                },
                items as nat,
                true,
            ) == Some(
                RunOut {
                    pos: final(state).spec_pos(),
                    st: EmitSt {
                        out: final(positions)@.take(3 * *final(write_idx) as int),
                        sel_idx: *final(sel_idx) as nat,
                    },
                    reads: (*final(read_idx) - *old(read_idx)) as nat,
                    stopped,
                },
            ),
            Err(e) => {
                &&& e == XTCError::CorruptCompressedStream
                &&& spec_run(
                    buf@,
                    cfg,
                    old(state).spec_pos(),
                    smallidx as nat,
                    smallnum,
                    (header[0], header[1], header[2]),
                    EmitSt {
                        out: old(positions)@.take(3 * *old(write_idx) as int),
                        sel_idx: *old(sel_idx) as nat,
                    },
                    items as nat,
                    true,
                ) is None
            },
        },
{
    let ghost d = buf@;
    let ghost pos_e = old(state).spec_pos();
    let ghost st_e = EmitSt {
        out: old(positions)@.take(3 * *old(write_idx) as int),
        sel_idx: *old(sel_idx) as nat,
    };
    let ghost prev_e = (header[0], header[1], header[2]);
    proof {
        reveal(spec_run);
        lemma_magicints_facts();
    }
    let mval = MAGICINTS[smallidx];
    let msize = mval as u32;
    let sizes = [msize, msize, msize];
    let avail: u128 = (buf.len() as u128) * 8;
    let mut prevcoord = header;
    let mut k: usize = 0;
    let mut stopped = false;
    let mut broke = false;
    while k < items && !stopped && !broke
        invariant
            k <= items,
            state.wf(d),
            positions@.len() == 3 * n,
            3 * *write_idx <= 3 * n,
            (!stopped && !broke) ==> *write_idx < n,
            forall|i: int|
                3 * *write_idx <= i < 3 * n ==> positions@[i] == 0,
            *read_idx == *old(read_idx) + k,
            *sel_idx <= *old(sel_idx) + 2 * k,
            *write_idx <= *old(write_idx) + k + 1,
            k == 0 ==> *write_idx == *old(write_idx),
            (!stopped && !broke) ==> spec_run(d, cfg, pos_e, smallidx as nat, smallnum, prev_e, st_e, items as nat, true)
                == (match spec_run(
                d,
                cfg,
                state.spec_pos(),
                smallidx as nat,
                smallnum,
                (prevcoord[0], prevcoord[1], prevcoord[2]),
                EmitSt {
                    out: positions@.take(3 * *write_idx as int),
                    sel_idx: *sel_idx as nat,
                },
                (items - k) as nat,
                k == 0,
            ) {
                None => None,
                Some(rr) => Some(
                    RunOut {
                        pos: rr.pos,
                        st: rr.st,
                        reads: (rr.reads + k) as nat,
                        stopped: rr.stopped,
                    },
                ),
            }),
            (stopped || broke) ==> spec_run(d, cfg, pos_e, smallidx as nat, smallnum, prev_e, st_e, items as nat, true)
                == Some(
                RunOut {
                    pos: state.spec_pos(),
                    st: EmitSt {
                        out: positions@.take(3 * *write_idx as int),
                        sel_idx: *sel_idx as nat,
                    },
                    reads: k as nat,
                    stopped,
                },
            ),
        decreases items - k,
    {
        proof {
            reveal(spec_run);
        }
        let ghost pos_k = state.spec_pos();
        let ghost st_k = EmitSt {
            out: positions@.take(3 * *write_idx as int),
            sel_idx: *sel_idx as nat,
        };
        let ghost prev_k = (prevcoord[0], prevcoord[1], prevcoord[2]);
        let ghost first = k == 0;
        let cur: u128 = 8 * (state.count as u128) - (state.lastbits as u128);
        proof {
            assert(cur == state.spec_pos());
        }
        if cur + (smallidx as u128) > avail {
            proof {
                assert(spec_run(
                    d,
                    cfg,
                    pos_k,
                    smallidx as nat,
                    smallnum,
                    prev_k,
                    st_k,
                    (items - k) as nat,
                    first,
                ) is None);
            }
            return Err(XTCError::CorruptCompressedStream);
        }
        proof {
            if smallidx <= 32 {
                assert(MAGICINTS@[smallidx as int] <= 1625);
                assert((sizes[1] as int) * (sizes[2] as int) <= 1625 * 1625) by (nonlinear_arith)
                    requires
                        0 <= sizes[1] <= 1625 && 0 <= sizes[2] <= 1625,
                ;
            }
        }
        let tt = decodeints(buf, state, smallidx, sizes);
        *read_idx = *read_idx + 1;
        let c = [
            tt[0].wrapping_add(prevcoord[0].wrapping_sub(smallnum)),
            tt[1].wrapping_add(prevcoord[1].wrapping_sub(smallnum)),
            tt[2].wrapping_add(prevcoord[2].wrapping_sub(smallnum)),
        ];
        let ghost c_spec = (
            wadd(
                spec_decodeints(d, pos_k, smallidx as nat, msize, msize).0,
                wsub(prev_k.0, smallnum),
            ),
            wadd(
                spec_decodeints(d, pos_k, smallidx as nat, msize, msize).1,
                wsub(prev_k.1, smallnum),
            ),
            wadd(
                spec_decodeints(d, pos_k, smallidx as nat, msize, msize).2,
                wsub(prev_k.2, smallnum),
            ),
        );
        proof {
            assert((c[0], c[1], c[2]) == c_spec);
        }
        if k == 0 {
            let stop1 = emit_position(positions, sel, sel_idx, write_idx, c, n);
            if stop1 {
                stopped = true;
                prevcoord = c;
            } else if *write_idx == n {
                broke = true;
                prevcoord = c;
            } else {
                let stop2 = emit_position(positions, sel, sel_idx, write_idx, prevcoord, n);
                if stop2 {
                    stopped = true;
                } else if *write_idx == n {
                    broke = true;
                }
                prevcoord = c;
            }
        } else {
            prevcoord = c;
            let stop = emit_position(positions, sel, sel_idx, write_idx, c, n);
            if stop {
                stopped = true;
            } else if *write_idx == n {
                broke = true;
            }
        }
        k += 1;
    }
    proof {
        reveal(spec_run);
        if !stopped && !broke {
            assert(k == items);
            assert(spec_run(
                d,
                cfg,
                state.spec_pos(),
                smallidx as nat,
                smallnum,
                (prevcoord[0], prevcoord[1], prevcoord[2]),
                EmitSt {
                    out: positions@.take(3 * *write_idx as int),
                    sel_idx: *sel_idx as nat,
                },
                0,
                false,
            ) == Some(
                RunOut {
                    pos: state.spec_pos(),
                    st: EmitSt {
                        out: positions@.take(3 * *write_idx as int),
                        sel_idx: *sel_idx as nat,
                    },
                    reads: 0nat,
                    stopped: false,
                },
            ));
        }
    }
    Ok(stopped)
}

/// Decode one atom group: the header triple, the run flag and
/// descriptor, the optional run, and the scale adaptation.  The
/// executable mirror of [`spec_group`]; returns whether the selection
/// stopped the decode.
#[verifier::loop_isolation(false)]
#[verifier::rlimit(60)]
fn decode_group(
    buf: &[u8],
    state: &mut DecodeState,
    positions: &mut Vec<i32>,
    sel: &AtomSelection,
    sel_idx: &mut usize,
    write_idx: &mut usize,
    read_idx: &mut usize,
    smallidx: &mut usize,
    smallnum: &mut i32,
    smaller: &mut i32,
    info: &SizeInfo,
    minarr: [i32; 3],
    n: usize,
    Ghost(cfg): Ghost<DecodeCfg>,
) -> (r: Result<bool, XTCError>)
    requires
        cfg.n == n,
        cfg.sel == *sel,
        cfg.bitsize == info.bitsize,
        cfg.bsi == (
            info.bitsizeint@[0] as nat,
            info.bitsizeint@[1] as nat,
            info.bitsizeint@[2] as nat,
        ),
        cfg.sizeint == (info.sizeint@[0], info.sizeint@[1], info.sizeint@[2]),
        cfg.minint == (minarr[0], minarr[1], minarr[2]),
        info.bitsize <= 96,
        info.bitsize != 0 ==> 1 <= info.sizeint@[1] && 1 <= info.sizeint@[2],
        info.bitsize != 0 && info.bitsize <= 32 ==> (info.sizeint@[1] as int) * (
        info.sizeint@[2] as int) <= u32::MAX,
        info.bitsizeint@[0] <= 32,
        info.bitsizeint@[1] <= 32,
        info.bitsizeint@[2] <= 32,
        9 <= *old(smallidx) <= 72,
        MAGICINTS@[*old(smallidx) as int] != 0,
        old(state).wf(buf@),
        old(positions)@.len() == 3 * n,
        *old(write_idx) <= *old(read_idx) < n,
        *old(sel_idx) + 22 <= usize::MAX,
        *old(read_idx) + 11 <= usize::MAX,
        forall|i: int|
            3 * *old(write_idx) <= i < 3 * n ==> old(positions)@[i] == 0,
    ensures
        final(state).wf(buf@),
        final(positions)@.len() == 3 * n,
        3 * *final(write_idx) <= 3 * n,
        forall|i: int|
            3 * *final(write_idx) <= i < 3 * n ==> final(positions)@[i] == 0,
        *old(read_idx) <= *final(read_idx) <= *old(read_idx) + 11,
        r is Ok ==> *final(sel_idx) <= *old(sel_idx) + 2 * (*final(read_idx) - *old(
            read_idx,
        )),
        match r {
            Ok(stopped) => {
                &&& spec_group(
                    buf@,
                    cfg,
                    old(state).spec_pos(),
                    *old(smallidx) as nat,
                    *old(smallnum),
                    *old(smaller),
                    EmitSt {
                        out: old(positions)@.take(3 * *old(write_idx) as int),
                        sel_idx: *old(sel_idx) as nat,
                    },
                ) == Some(
                    GroupOut {
                        pos: final(state).spec_pos(),
                        smallidx: *final(smallidx) as nat,
                        smallnum: *final(smallnum),
                        smaller: *final(smaller),
                        st: EmitSt {
                            out: final(positions)@.take(3 * *final(write_idx) as int),
                            sel_idx: *final(sel_idx) as nat,
                        },
                        reads: (*final(read_idx) - *old(read_idx)) as nat,
                        stopped,
                    },
                )
                &&& (!stopped ==> *final(read_idx) > *old(read_idx))
                &&& 9 <= *final(smallidx) <= 72
                &&& MAGICINTS@[*final(smallidx) as int] != 0
                &&& (!stopped ==> *final(write_idx) <= *final(read_idx))
            },
            Err(e) => {
                &&& e == XTCError::CorruptCompressedStream
                &&& spec_group(
                    buf@,
                    cfg,
                    old(state).spec_pos(),
                    *old(smallidx) as nat,
                    *old(smallnum),
                    *old(smaller),
                    EmitSt {
                        out: old(positions)@.take(3 * *old(write_idx) as int),
                        sel_idx: *old(sel_idx) as nat,
                    },
                ) is None
            },
        },
{
    proof {
        reveal(spec_group);
    }
    let ghost pd = buf@;
    let ghost pos_g = old(state).spec_pos();
    let ghost st_g = EmitSt {
        out: old(positions)@.take(3 * *old(write_idx) as int),
        sel_idx: *old(sel_idx) as nat,
    };
    let ghost si_g = *old(smallidx) as nat;
    let ghost sn_g = *old(smallnum);
    let ghost sm_g = *old(smaller);
    let n_slots = positions.len();
    let avail: u128 = (buf.len() as u128) * 8;
    // --- the header triple of this atom group
    let t: [i32; 3];
    let cur: u128 = 8 * (state.count as u128) - (state.lastbits as u128);
    proof {
        assert(cur == state.spec_pos());
    }
    if info.bitsize == 0 {
        let b0 = info.bitsizeint[0];
        let b1 = info.bitsizeint[1];
        let b2 = info.bitsizeint[2];
        if cur + (b0 + b1 + b2) as u128 > avail {
            proof {
                assert(spec_header_triple(pd, cfg, pos_g) is None);
            }
            return Err(XTCError::CorruptCompressedStream);
        }
        let v0 = decodebits(buf, state, b0 as usize);
        let v1 = decodebits(buf, state, b1 as usize);
        let v2 = decodebits(buf, state, b2 as usize);
        t = [u32_as_i32(v0), u32_as_i32(v1), u32_as_i32(v2)];
        proof {
            lemma_small_mod(v0 as nat, 0x100000000);
            lemma_small_mod(v1 as nat, 0x100000000);
            lemma_small_mod(v2 as nat, 0x100000000);
            assert(spec_header_triple(pd, cfg, pos_g) == Some(
                ((t[0], t[1], t[2]), state.spec_pos()),
            ));
        }
    } else {
        if cur + info.bitsize as u128 > avail {
            proof {
                assert(spec_header_triple(pd, cfg, pos_g) is None);
            }
            return Err(XTCError::CorruptCompressedStream);
        }
        t = decodeints(buf, state, info.bitsize as usize, info.sizeint);
        proof {
            assert(spec_header_triple(pd, cfg, pos_g) == Some(
                ((t[0], t[1], t[2]), state.spec_pos()),
            ));
        }
    }
    let coord = [
        t[0].wrapping_add(minarr[0]),
        t[1].wrapping_add(minarr[1]),
        t[2].wrapping_add(minarr[2]),
    ];
    // --- the run flag and descriptor
    let cur1: u128 = 8 * (state.count as u128) - (state.lastbits as u128);
    if cur1 + 1 > avail {
        return Err(XTCError::CorruptCompressedStream);
    }
    let flag = decodebits(buf, state, 1);
    let mut is_smaller: i32 = 0;
    let mut items: usize = 0;
    if flag == 1 {
        let cur2: u128 = 8 * (state.count as u128) - (state.lastbits as u128);
        if cur2 + 5 > avail {
            return Err(XTCError::CorruptCompressedStream);
        }
        let rr = decodebits(buf, state, 5);
        proof {
            lemma2_to64();
        }
        is_smaller = (rr % 3) as i32 - 1;
        let run = rr - rr % 3;
        items = (run / 3) as usize;
    }
    if items > 0 {
        let stop = match decode_run(
            buf,
            state,
            positions,
            sel,
            sel_idx,
            write_idx,
            read_idx,
            *smallidx,
            *smallnum,
            coord,
            items,
            n,
            Ghost(cfg),
        ) {
            Ok(s) => s,
            Err(e) => {
                return Err(e);
            },
        };
        if stop {
            return Ok(true);
        }
        if !adapt(smallidx, smallnum, smaller, is_smaller) {
            return Err(XTCError::CorruptCompressedStream);
        }
        *read_idx = *read_idx + 1;
        Ok(false)
    } else {
        proof {
            assert(*write_idx < n);
        }
        let stop = emit_position(positions, sel, sel_idx, write_idx, coord, n);
        if stop {
            return Ok(true);
        }
        if !adapt(smallidx, smallnum, smaller, is_smaller) {
            return Err(XTCError::CorruptCompressedStream);
        }
        *read_idx = *read_idx + 1;
        Ok(false)
    }
}

/// The fixed preamble of a compressed-position section, decoded and
/// validated.
struct Preamble {
    /// Per-axis minimum integer coordinates.
    minarr: [i32; 3],
    /// Field widths and ranges derived from the coordinate bounds.
    info: SizeInfo,
    /// The validated starting table index.
    smallidx: usize,
    /// Half the starting cube size.
    smallnum: i32,
    /// Half the next-smaller cube size.
    smaller: i32,
}

/// Read and validate the `minint` / `maxint` bounds and the starting table
/// index of a compressed-position section.
#[verifier::rlimit(30)]
fn read_pos_preamble(file: &mut ByteReader) -> (r: Result<Preamble, XTCError>)
    ensures
        final(file).data@ == old(file).data@,
        match r {
            Ok(pre) => {
                let d = old(file).data@;
                let p = old(file).pos as int;
                let sidx = spec_be_u32(d, p + 24);
                &&& old(file).spec_remaining() >= 28
                &&& final(file).pos == old(file).pos + 28
                &&& pre.minarr@ == seq![
                    spec_be_i32(d, p),
                    spec_be_i32(d, p + 4),
                    spec_be_i32(d, p + 8),
                ]
                &&& pre.info.spec_matches(
                    [spec_be_i32(d, p), spec_be_i32(d, p + 4), spec_be_i32(d, p + 8)],
                    [spec_be_i32(d, p + 12), spec_be_i32(d, p + 16), spec_be_i32(d, p + 20)],
                )
                &&& spec_smallidx_ok(sidx)
                &&& pre.smallidx == sidx
                &&& 9 <= pre.smallidx <= 72
                &&& pre.smallnum == (MAGICINTS@[pre.smallidx as int] / 2) as i32
                &&& pre.smaller == (MAGICINTS@[(if pre.smallidx <= 9 {
                    9int
                } else {
                    pre.smallidx - 1
                })] / 2) as i32
                &&& pre.info.bitsize <= 96
                &&& (pre.info.bitsize != 0 ==> 1 <= pre.info.sizeint@[1] && 1
                    <= pre.info.sizeint@[2])
                &&& (pre.info.bitsize != 0 && pre.info.bitsize <= 32 ==> (
                pre.info.sizeint@[1] as int) * (pre.info.sizeint@[2] as int) <= u32::MAX)
                &&& pre.info.bitsizeint@[0] <= 32
                &&& pre.info.bitsizeint@[1] <= 32
                &&& pre.info.bitsizeint@[2] <= 32
            },
            Err(e) => {
                &&& final(file).pos == old(file).pos + 28 || final(file).pos <= old(
                    file,
                ).pos + 28
                &&& (e == XTCError::UnexpectedEof ==> old(file).spec_remaining() < 28)
                &&& (e == XTCError::CorruptCompressedStream ==> old(file).spec_remaining() >= 28
                    && !spec_smallidx_ok(spec_be_u32(old(file).data@, old(file).pos + 24)))
                &&& (e == XTCError::UnexpectedEof || e == XTCError::CorruptCompressedStream)
            },
        },
{
    let m0 = read_i32(file)?;
    let m1 = read_i32(file)?;
    let m2 = read_i32(file)?;
    let x0 = read_i32(file)?;
    let x1 = read_i32(file)?;
    let x2 = read_i32(file)?;
    let sidx_raw = read_u32(file)?;
    if !(sidx_raw < 73) {
        return Err(XTCError::CorruptCompressedStream);
    }
    let smallidx: usize = sidx_raw as usize;
    proof {
        lemma_magicints_facts();
    }
    if MAGICINTS[smallidx] == 0 {
        return Err(XTCError::CorruptCompressedStream);
    }
    let minarr = [m0, m1, m2];
    let maxarr = [x0, x1, x2];
    let info = calc_sizeint(minarr, maxarr);
    proof {
        // The packed width is at most 73 bits; in the 32-bit case the
        // middle radix product fits a word; large-mode widths fit 32 bits.
        let s0 = info.sizeint@[0];
        let s1 = info.sizeint@[1];
        let s2 = info.sizeint@[2];
        lemma2_to64();
        lemma_pow2_adds(24, 24);
        lemma_pow2_adds(48, 24);
        lemma_bitlen_le(s0 as nat, 32);
        lemma_bitlen_le(s1 as nat, 32);
        lemma_bitlen_le(s2 as nat, 32);
        if !spec_is_large(s0, s1, s2) {
            assert((s0 as nat) * (s1 as nat) * (s2 as nat) < pow2(72)) by (nonlinear_arith)
                requires
                    s0 <= 0xffffff && s1 <= 0xffffff && s2 <= 0xffffff && pow2(72) == pow2(24)
                        * pow2(24) * pow2(24) && pow2(24) == 0x1000000,
            ;
            lemma_bitlen_le(((s0 * s1) * s2) as nat, 72);
            lemma_bitlen_bounds(((s0 * s1) * s2) as nat);
            if info.bitsize != 0 {
                assert(s0 >= 1 && s1 >= 1 && s2 >= 1) by (nonlinear_arith)
                    requires
                        (s0 as nat) * (s1 as nat) * (s2 as nat) != 0,
                ;
                if info.bitsize <= 32 {
                    assert(pow2(info.bitsize as nat) <= pow2(32)) by {
                        if info.bitsize < 32 {
                            lemma_pow2_strictly_increases(info.bitsize as nat, 32);
                        }
                    }
                    assert((s1 as int) * (s2 as int) <= (s0 as nat) * (s1 as nat) * (
                    s2 as nat)) by (nonlinear_arith)
                        requires
                            s0 >= 1 && s1 >= 0 && s2 >= 0,
                    ;
                }
            }
        }
    }
    let tmpidx = if smallidx - 1 < FIRSTIDX {
        FIRSTIDX
    } else {
        smallidx - 1
    };
    let smaller: i32 = magicints_half(tmpidx);
    let smallnum: i32 = magicints_half(smallidx);
    Ok(Preamble { minarr, info, smallidx, smallnum, smaller })
}

/// Unfold one group step of [`spec_decode_loop`].
proof fn lemma_decode_loop_group(
    d: Seq<u8>,
    cfg: DecodeCfg,
    pos: int,
    si: nat,
    sn: i32,
    sm: i32,
    st: EmitSt,
    budget: nat,
)
    requires
        budget >= 1,
    ensures
        match spec_group(d, cfg, pos, si, sn, sm, st) {
            None => spec_decode_loop(d, cfg, pos, si, sn, sm, st, budget) is None,
            Some(g) => spec_decode_loop(d, cfg, pos, si, sn, sm, st, budget) == (if g.stopped {
                Some(g.st)
            } else if g.reads == 0 {
                None
            } else {
                spec_decode_loop(
                    d,
                    cfg,
                    g.pos,
                    g.smallidx,
                    g.smallnum,
                    g.smaller,
                    g.st,
                    nat_sub(budget as int, g.reads as int),
                )
            }),
        },
{
    reveal(spec_decode_loop);
    match spec_group(d, cfg, pos, si, sn, sm, st) {
        None => {},
        Some(g) => {
            if !g.stopped && g.reads >= 1 {
                let used = if g.reads >= budget {
                    budget
                } else {
                    g.reads
                };
                assert((budget - used) as nat == nat_sub(budget as int, g.reads as int));
            }
        },
    }
}

/// The decode loop with no atom budget left yields its state unchanged.
proof fn lemma_decode_loop_base(
    d: Seq<u8>,
    cfg: DecodeCfg,
    pos: int,
    si: nat,
    sn: i32,
    sm: i32,
    st: EmitSt,
)
    ensures
        spec_decode_loop(d, cfg, pos, si, sn, sm, st, 0) == Some(st),
{
    reveal(spec_decode_loop);
}

/// Unfold [`spec_decode_positions`] down to its decode loop, once the
/// preamble and the payload are known to be present and valid.
#[verifier::rlimit(30)]
proof fn lemma_decode_positions_unfold(d: Seq<u8>, p: int, n: nat, sel: AtomSelection)
    requires
        d.len() - p >= 28,
        spec_smallidx_ok(spec_be_u32(d, p + 24)),
        crate::buffer::spec_payload_len(d, p + 28) is Some,
    ensures
        ({
            let minint = (spec_be_i32(d, p), spec_be_i32(d, p + 4), spec_be_i32(d, p + 8));
            let maxint = (
                spec_be_i32(d, p + 12),
                spec_be_i32(d, p + 16),
                spec_be_i32(d, p + 20),
            );
            let sidx = spec_be_u32(d, p + 24);
            let s0 = spec_sizeint(minint.0, maxint.0);
            let s1 = spec_sizeint(minint.1, maxint.1);
            let s2 = spec_sizeint(minint.2, maxint.2);
            let padded = crate::buffer::spec_payload_len(d, p + 28)->Some_0;
            let cfg = DecodeCfg {
                n,
                minint,
                bitsize: if spec_is_large(s0, s1, s2) {
                    0
                } else {
                    spec_bitlen((s0 * s1 * s2) as nat)
                },
                bsi: if spec_is_large(s0, s1, s2) {
                    (spec_bitlen(s0 as nat), spec_bitlen(s1 as nat), spec_bitlen(s2 as nat))
                } else {
                    (0, 0, 0)
                },
                sizeint: (s0, s1, s2),
                sel,
            };
            let si = sidx as nat;
            let sn0 = (MAGICINTS[sidx as int] / 2) as i32;
            let tmp: int = if si <= 9 {
                9
            } else {
                si - 1
            };
            let sm0 = (MAGICINTS[tmp] / 2) as i32;
            spec_decode_positions(d, p, n, sel) == (match spec_decode_loop(
                d.subrange(p + 32, p + 32 + padded),
                cfg,
                0,
                si,
                sn0,
                sm0,
                EmitSt { out: Seq::empty(), sel_idx: 0 },
                n,
            ) {
                None => Err::<(Seq<i32>, int), XTCError>(XTCError::CorruptCompressedStream),
                Some(st) => Ok::<(Seq<i32>, int), XTCError>(
                    (spec_pad_zeros(st.out, n), p + 32 + padded),
                ),
            })
        }),
{
    reveal(spec_decode_positions);
}

/// The failure cases of [`spec_decode_positions`] that stop it before the
/// decode loop.
proof fn lemma_decode_positions_err(d: Seq<u8>, p: int, n: nat, sel: AtomSelection)
    ensures
        d.len() - p < 28 ==> spec_decode_positions(d, p, n, sel) == Err::<
            (Seq<i32>, int),
            XTCError,
        >(XTCError::UnexpectedEof),
        d.len() - p >= 28 && !spec_smallidx_ok(spec_be_u32(d, p + 24))
            ==> spec_decode_positions(d, p, n, sel) == Err::<(Seq<i32>, int), XTCError>(
            XTCError::CorruptCompressedStream,
        ),
        d.len() - p >= 28 && spec_smallidx_ok(spec_be_u32(d, p + 24))
            && crate::buffer::spec_payload_len(d, p + 28) is None ==> spec_decode_positions(
            d,
            p,
            n,
            sel,
        ) == Err::<(Seq<i32>, int), XTCError>(XTCError::UnexpectedEof),
{
    reveal(spec_decode_positions);
}

/// Read one compressed-position section from the stream: the `minint` /
/// `maxint` bounds, the starting table index, and the opaque bit-packed
/// payload, decoding integer coordinate triples into `positions` through
/// the atom selection.  The caller hands in `positions` zeroed and sized
/// to three slots per wanted atom; on success it holds exactly what
/// [`spec_decode_positions`] says, and the stream stands at the first byte
/// after the payload.  Returns the padded payload size in bytes.
#[verifier::loop_isolation(false)]
#[verifier::rlimit(100)]
pub(crate) fn read_compressed_positions<B: crate::buffer::Buffered>(
    file: &mut ByteReader,
    positions: &mut Vec<i32>,
    scratch: &mut Vec<u8>,
    atom_selection: &AtomSelection,
) -> (r: Result<usize, XTCError>)
    requires
        old(positions)@.len() % 3 == 0,
        forall|i: int| 0 <= i < old(positions)@.len() ==> old(positions)@[i] == 0,
    ensures
        final(file).data@ == old(file).data@,
        final(positions)@.len() == old(positions)@.len(),
        match r {
            Ok(nbytes) => spec_decode_positions(
                old(file).data@,
                old(file).pos as int,
                (old(positions)@.len() / 3) as nat,
                *atom_selection,
            ) matches Ok(pr) && final(positions)@ == pr.0 && final(file).pos == pr.1 && nbytes
                == pr.1 - old(file).pos - 32,
            Err(e) => spec_decode_positions(
                old(file).data@,
                old(file).pos as int,
                (old(positions)@.len() / 3) as nat,
                *atom_selection,
            ) == Err::<(Seq<i32>, int), XTCError>(e),
        },
{
    let ghost d0 = old(file).data@;
    let ghost p0 = old(file).pos as int;
    let n = positions.len() / 3;
    proof {
        assert(3 * n == positions@.len());
    }
    proof {
        lemma_decode_positions_err(d0, p0, n as nat, *atom_selection);
    }
    let pre = read_pos_preamble(file)?;
    let minarr = pre.minarr;
    let info = pre.info;
    let smallidx0 = pre.smallidx;
    let mut smallidx = pre.smallidx;
    let mut smallnum = pre.smallnum;
    let mut smaller = pre.smaller;
    proof {
        lemma_magicints_facts();
    }
    let buffer = match B::new(scratch, file) {
        Ok(b) => b,
        Err(e) => {
            return Err(e);
        },
    };
    let buf: &[u8] = scratch.as_slice();
    let ghost pd = buf@;
    let ghost cfg = DecodeCfg {
        n: n as nat,
        minint: (minarr[0], minarr[1], minarr[2]),
        bitsize: info.bitsize as nat,
        bsi: (
            info.bitsizeint@[0] as nat,
            info.bitsizeint@[1] as nat,
            info.bitsizeint@[2] as nat,
        ),
        sizeint: (info.sizeint@[0], info.sizeint@[1], info.sizeint@[2]),
        sel: *atom_selection,
    };
    let ghost total = spec_decode_loop(
        pd,
        cfg,
        0,
        smallidx0 as nat,
        pre.smallnum,
        pre.smaller,
        EmitSt { out: Seq::empty(), sel_idx: 0 },
        n as nat,
    );
    let ghost spec_result = spec_decode_positions(d0, p0, n as nat, *atom_selection);
    proof {
        lemma_decode_positions_unfold(d0, p0, n as nat, *atom_selection);
        let minint = (spec_be_i32(d0, p0), spec_be_i32(d0, p0 + 4), spec_be_i32(d0, p0 + 8));
        let maxint = (
            spec_be_i32(d0, p0 + 12),
            spec_be_i32(d0, p0 + 16),
            spec_be_i32(d0, p0 + 20),
        );
        let sidx = spec_be_u32(d0, p0 + 24);
        let s0 = spec_sizeint(minint.0, maxint.0);
        let s1 = spec_sizeint(minint.1, maxint.1);
        let s2 = spec_sizeint(minint.2, maxint.2);
        let padded = crate::buffer::spec_payload_len(d0, p0 + 28)->Some_0;
        assert(info.sizeint@[0] == s0 && info.sizeint@[1] == s1 && info.sizeint@[2] == s2);
        assert(minarr@[0] == minint.0 && minarr@[1] == minint.1 && minarr@[2] == minint.2);
        if spec_is_large(s0, s1, s2) {
            assert(info.bitsize == 0);
            lemma2_to64();
            lemma_bitlen_le(s0 as nat, 32);
            lemma_bitlen_le(s1 as nat, 32);
            lemma_bitlen_le(s2 as nat, 32);
            assert(info.bitsizeint@[0] == spec_bitlen(s0 as nat) as u32);
            assert((spec_bitlen(s0 as nat) as u32) as nat == spec_bitlen(s0 as nat));
            assert(info.bitsizeint@[1] == spec_bitlen(s1 as nat) as u32);
            assert((spec_bitlen(s1 as nat) as u32) as nat == spec_bitlen(s1 as nat));
            assert(info.bitsizeint@[2] == spec_bitlen(s2 as nat) as u32);
            assert((spec_bitlen(s2 as nat) as u32) as nat == spec_bitlen(s2 as nat));
        } else {
            assert(info.bitsize == spec_bitlen((s0 * s1 * s2) as nat));
            assert(info.bitsizeint@[0] == 0 && info.bitsizeint@[1] == 0 && info.bitsizeint@[2]
                == 0);
        }
        assert(cfg == DecodeCfg {
            n: n as nat,
            minint,
            bitsize: if spec_is_large(s0, s1, s2) {
                0nat
            } else {
                spec_bitlen((s0 * s1 * s2) as nat)
            },
            bsi: if spec_is_large(s0, s1, s2) {
                (spec_bitlen(s0 as nat), spec_bitlen(s1 as nat), spec_bitlen(s2 as nat))
            } else {
                (0nat, 0nat, 0nat)
            },
            sizeint: (s0, s1, s2),
            sel: *atom_selection,
        });
        assert(padded == buffer.spec_len());
        assert(pd =~= d0.subrange(p0 + 32, p0 + 32 + buffer.spec_len()));
        assert(pd == d0.subrange(p0 + 32, p0 + 32 + padded));
        assert(smallidx0 as nat == sidx as nat);
        assert(pre.smallnum == (MAGICINTS[sidx as int] / 2) as i32);
        assert(pre.smaller == (MAGICINTS[(if sidx as nat <= 9 {
            9int
        } else {
            sidx as nat - 1
        })] / 2) as i32);
        assert(spec_result == (match total {
            None => Err::<(Seq<i32>, int), XTCError>(XTCError::CorruptCompressedStream),
            Some(st) => Ok::<(Seq<i32>, int), XTCError>(
                (spec_pad_zeros(st.out, n as nat), p0 + 32 + buffer.spec_len() as int),
            ),
        }));
    }
    match run_decode_loop(
        buf,
        positions,
        atom_selection,
        smallidx0,
        pre.smallnum,
        pre.smaller,
        &info,
        minarr,
        n,
        Ghost(cfg),
    ) {
        Ok(()) => {},
        Err(e) => {
            return Err(e);
        },
    }
    let nbytes = buffer.tell();
    buffer.finish(file);
    Ok(nbytes)
}

/// Run the decode loop over one payload: atom groups until the wanted
/// number of encoded atoms is consumed or the selection stops the decode.
#[verifier::loop_isolation(false)]
#[verifier::rlimit(100)]
fn run_decode_loop(
    buf: &[u8],
    positions: &mut Vec<i32>,
    sel: &AtomSelection,
    smallidx0: usize,
    smallnum0: i32,
    smaller0: i32,
    info: &SizeInfo,
    minarr: [i32; 3],
    n: usize,
    Ghost(cfg): Ghost<DecodeCfg>,
) -> (r: Result<(), XTCError>)
    requires
        cfg.n == n,
        cfg.sel == *sel,
        cfg.bitsize == info.bitsize,
        cfg.bsi == (
            info.bitsizeint@[0] as nat,
            info.bitsizeint@[1] as nat,
            info.bitsizeint@[2] as nat,
        ),
        cfg.sizeint == (info.sizeint@[0], info.sizeint@[1], info.sizeint@[2]),
        cfg.minint == (minarr[0], minarr[1], minarr[2]),
        info.bitsize <= 96,
        info.bitsize != 0 ==> 1 <= info.sizeint@[1] && 1 <= info.sizeint@[2],
        info.bitsize != 0 && info.bitsize <= 32 ==> (info.sizeint@[1] as int) * (
        info.sizeint@[2] as int) <= u32::MAX,
        info.bitsizeint@[0] <= 32,
        info.bitsizeint@[1] <= 32,
        info.bitsizeint@[2] <= 32,
        9 <= smallidx0 <= 72,
        MAGICINTS@[smallidx0 as int] != 0,
        old(positions)@.len() == 3 * n,
        forall|i: int| 0 <= i < old(positions)@.len() ==> old(positions)@[i] == 0,
    ensures
        final(positions)@.len() == 3 * n,
        match r {
            Ok(u) => spec_decode_loop(
                buf@,
                cfg,
                0,
                smallidx0 as nat,
                smallnum0,
                smaller0,
                EmitSt { out: Seq::empty(), sel_idx: 0 },
                n as nat,
            ) matches Some(st) && final(positions)@ == spec_pad_zeros(st.out, n as nat),
            Err(e) => {
                &&& e == XTCError::CorruptCompressedStream
                &&& spec_decode_loop(
                    buf@,
                    cfg,
                    0,
                    smallidx0 as nat,
                    smallnum0,
                    smaller0,
                    EmitSt { out: Seq::empty(), sel_idx: 0 },
                    n as nat,
                ) is None
            },
        },
{
    let ghost pd = buf@;
    let mut smallidx = smallidx0;
    let mut smallnum = smallnum0;
    let mut smaller = smaller0;
    let mut state = crate::bits::DecodeState::new();
    let mut read_idx: usize = 0;
    let mut sel_idx: usize = 0;
    let mut write_idx: usize = 0;
    let mut stopped = false;
    let ghost total = spec_decode_loop(
        pd,
        cfg,
        0,
        smallidx0 as nat,
        smallnum0,
        smaller0,
        EmitSt { out: Seq::empty(), sel_idx: 0 },
        n as nat,
    );
    let plen = positions.len();
    proof {
        assert(plen == 3 * n && plen <= usize::MAX);
        assert(positions@.take(0) =~= Seq::<i32>::empty());
        assert(nat_sub(n as int, 0) == n as nat);
    }
    while read_idx < n && !stopped
        invariant
            buf@ == pd,
            state.wf(pd),
            positions@.len() == 3 * n,
            !stopped ==> write_idx <= read_idx,
            read_idx <= n + 10,
            !stopped ==> sel_idx <= 2 * read_idx,
            3 * write_idx <= 3 * n,
            9 <= smallidx <= 72,
            MAGICINTS@[smallidx as int] != 0,
            forall|i: int| 3 * write_idx <= i < 3 * n ==> positions@[i] == 0,
            stopped ==> total == Some(
                EmitSt {
                    out: positions@.take(3 * write_idx as int),
                    sel_idx: sel_idx as nat,
                },
            ),
            !stopped ==> spec_decode_loop(
                pd,
                cfg,
                state.spec_pos(),
                smallidx as nat,
                smallnum,
                smaller,
                EmitSt {
                    out: positions@.take(3 * write_idx as int),
                    sel_idx: sel_idx as nat,
                },
                nat_sub(n as int, read_idx as int),
            ) == total,
        decreases nat_sub(n as int, read_idx as int) + (if stopped {
            0int
        } else {
            1int
        }),
    {
        let ghost pos_g = state.spec_pos();
        let ghost st_g = EmitSt {
            out: positions@.take(3 * write_idx as int),
            sel_idx: sel_idx as nat,
        };
        let ghost si_g = smallidx as nat;
        let ghost sn_g = smallnum;
        let ghost sm_g = smaller;
        let ghost budget_g = nat_sub(n as int, read_idx as int);
        let res = decode_group(
            buf,
            &mut state,
            positions,
            sel,
            &mut sel_idx,
            &mut write_idx,
            &mut read_idx,
            &mut smallidx,
            &mut smallnum,
            &mut smaller,
            info,
            minarr,
            n,
            Ghost(cfg),
        );
        match res {
            Err(e) => {
                proof {
                    lemma_decode_loop_group(pd, cfg, pos_g, si_g, sn_g, sm_g, st_g, budget_g);
                }
                return Err(e);
            },
            Ok(stop) => {
                proof {
                    lemma_decode_loop_group(pd, cfg, pos_g, si_g, sn_g, sm_g, st_g, budget_g);
                }
                if stop {
                    stopped = true;
                } else {
                    proof {
                        let g = spec_group(pd, cfg, pos_g, si_g, sn_g, sm_g, st_g)->Some_0;
                        assert(nat_sub(budget_g as int, g.reads as int) == nat_sub(
                            n as int,
                            read_idx as int,
                        ));
                    }
                }
            },
        }
    }
    proof {
        if !stopped {
            assert(nat_sub(n as int, read_idx as int) == 0);
            lemma_decode_loop_base(
                pd,
                cfg,
                state.spec_pos(),
                smallidx as nat,
                smallnum,
                smaller,
                EmitSt {
                    out: positions@.take(3 * write_idx as int),
                    sel_idx: sel_idx as nat,
                },
            );
        }
        assert(total == Some(
            EmitSt { out: positions@.take(3 * write_idx as int), sel_idx: sel_idx as nat },
        ));
        assert(positions@ =~= spec_pad_zeros(positions@.take(3 * write_idx as int), n as nat));
    }
    Ok(())
}


/// Adapt the small-integer scale after one atom group: the executable
/// mirror of [`spec_adapt`].  Returns `false` when the stream is corrupt.
fn adapt(smallidx: &mut usize, smallnum: &mut i32, smaller: &mut i32, is_smaller: i32) -> (ok:
    bool)
    requires
        9 <= *old(smallidx) <= 72,
        MAGICINTS@[*old(smallidx) as int] != 0,
    ensures
        ok == (spec_adapt(
            *old(smallidx) as nat,
            *old(smallnum),
            *old(smaller),
            is_smaller as int,
        ) is Some),
        ok ==> spec_adapt(
            *old(smallidx) as nat,
            *old(smallnum),
            *old(smaller),
            is_smaller as int,
        ) == Some((*final(smallidx) as nat, *final(smallnum), *final(smaller))),
        ok ==> 9 <= *final(smallidx) <= 72 && MAGICINTS@[*final(smallidx) as int] != 0,
        is_smaller == 0 ==> *final(smallidx) == *old(smallidx) && *final(smallnum) == *old(
            smallnum,
        ) && *final(smaller) == *old(smaller),
{
    proof {
        lemma_magicints_facts();
    }
    if is_smaller < 0 {
        let si = *smallidx - 1;
        if MAGICINTS[si] == 0 {
            return false;
        }
        *smallidx = si;
        *smallnum = *smaller;
        *smaller = if si > FIRSTIDX {
            magicints_half(si - 1)
        } else {
            0
        };
        true
    } else if is_smaller > 0 {
        let si = *smallidx + 1;
        if si >= 73 {
            return false;
        }
        if MAGICINTS[si] == 0 {
            return false;
        }
        *smaller = *smallnum;
        *smallnum = magicints_half(si);
        *smallidx = si;
        true
    } else {
        true
    }
}

/// Read the nine box-vector words of a frame header, in wire order.
pub(crate) fn read_boxvec(file: &mut ByteReader) -> (r: Result<[u32; 9], XTCError>)
    ensures
        final(file).data@ == old(file).data@,
        match r {
            Ok(b) => {
                &&& old(file).spec_remaining() >= 36
                &&& final(file).pos == old(file).pos + 36
                &&& forall|i: int|
                    0 <= i < 9 ==> b@[i] == spec_be_u32(
                        old(file).data@,
                        old(file).pos + 4 * i,
                    )
            },
            Err(e) => e == XTCError::UnexpectedEof && old(file).spec_remaining() < 36,
        },
{
    let w0 = read_u32(file)?;
    let w1 = read_u32(file)?;
    let w2 = read_u32(file)?;
    let w3 = read_u32(file)?;
    let w4 = read_u32(file)?;
    let w5 = read_u32(file)?;
    let w6 = read_u32(file)?;
    let w7 = read_u32(file)?;
    let w8 = read_u32(file)?;
    let out = [w0, w1, w2, w3, w4, w5, w6, w7, w8];
    Ok(out)
}

} // verus!
