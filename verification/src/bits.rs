//! The bit-level cursor over a compressed payload.
//!
//! The compressed position stream packs unsigned integers of arbitrary width
//! into a byte sequence, most significant bit first.  [`stream_val`] gives
//! the mathematical value of any such bit field, and [`DecodeState`] is the
//! rolling cursor ([`decodebits`] / [`decodebyte`]) that extracts fields one
//! after the other, proven to return exactly [`stream_val`] of the bits it
//! consumes.
use vstd::prelude::*;

use vstd::arithmetic::div_mod::{
    lemma_breakdown, lemma_div_denominator, lemma_hoist_over_denominator,
    lemma_basic_div, lemma_mod_multiples_vanish, lemma_multiply_divide_lt, lemma_small_mod,
};
use vstd::arithmetic::power2::{
    lemma2_to64, lemma_pow2_adds, lemma_pow2_pos, lemma_pow2_strictly_increases,
    lemma_pow2_unfold, pow2,
};
use vstd::bits::{lemma_u32_low_bits_mask_is_mod, lemma_u32_shl_is_mul, lemma_u32_shr_is_div};

verus! {

/// Bit `i` of the byte sequence `d`, counting from the most significant bit
/// of `d[0]` on: either 0 or 1.
pub open spec fn spec_bit(d: Seq<u8>, i: int) -> nat {
    ((d[i / 8] as nat) / pow2((7 - (i % 8)) as nat)) % 2
}

/// The value of the `n` bits of `d` that start at bit position `p`, read
/// most significant first.
pub open spec fn stream_val(d: Seq<u8>, p: int, n: nat) -> nat
    decreases n,
{
    if n == 0 {
        0
    } else {
        stream_val(d, p, (n - 1) as nat) * 2 + spec_bit(d, p + n - 1)
    }
}

/// An `n`-bit field is smaller than `2^n`.
pub proof fn lemma_stream_val_bound(d: Seq<u8>, p: int, n: nat)
    ensures
        stream_val(d, p, n) < pow2(n),
    decreases n,
{
    if n == 0 {
        lemma2_to64();
    } else {
        lemma_stream_val_bound(d, p, (n - 1) as nat);
        lemma_pow2_unfold(n);
        assert(spec_bit(d, p + n - 1) < 2) by {
            lemma_small_mod((((d[(p + n - 1) / 8] as nat) / pow2(
                (7 - ((p + n - 1) % 8)) as nat,
            )) % 2), 2);
        }
    }
}

/// Reading `m + n` bits is the same as reading `m` bits and then `n` bits:
/// the first field carries the high part of the value.
pub proof fn lemma_stream_val_concat(d: Seq<u8>, p: int, m: nat, n: nat)
    ensures
        stream_val(d, p, m + n) == stream_val(d, p, m) * pow2(n) + stream_val(d, p + m, n),
    decreases n,
{
    if n == 0 {
        lemma2_to64();
    } else {
        lemma_stream_val_concat(d, p, m, (n - 1) as nat);
        lemma_pow2_unfold(n);
        let a = stream_val(d, p, m);
        let b = stream_val(d, p + m, (n - 1) as nat);
        let bit = spec_bit(d, p + m + n - 1);
        assert(stream_val(d, p, (m + n - 1) as nat) == a * pow2((n - 1) as nat) + b);
        assert(stream_val(d, p, m + n) == (a * pow2((n - 1) as nat) + b) * 2 + bit);
        assert((a * pow2((n - 1) as nat) + b) * 2 + bit == a * (2 * pow2((n - 1) as nat)) + (b * 2
            + bit)) by (nonlinear_arith);
    }
}

/// A bit field that lies inside the single byte `d[k]` is a div/mod
/// selection from that byte's value.
pub proof fn lemma_stream_val_in_byte(d: Seq<u8>, k: int, j: nat, n: nat)
    requires
        j + n <= 8,
    ensures
        stream_val(d, 8 * k + j, n) == ((d[k] as nat) / pow2((8 - j - n) as nat)) % pow2(n),
    decreases n,
{
    let b = d[k] as nat;
    if n == 0 {
        lemma2_to64();
    } else {
        lemma_stream_val_in_byte(d, k, j, (n - 1) as nat);
        let e = (8 - j - n) as nat;
        let i = 8 * k + j + n - 1;
        assert(i / 8 == k && i % 8 == j + n - 1) by (nonlinear_arith)
            requires
                i == 8 * k + j + n - 1 && 0 <= j + n - 1 < 8,
        ;
        assert(spec_bit(d, 8 * k + j + n - 1) == (b / pow2(e)) % 2);
        let dd = b / pow2(e);
        assert(b / pow2((e + 1) as nat) == dd / 2) by {
            lemma_pow2_adds(e, 1);
            lemma2_to64();
            lemma_pow2_pos(e);
            lemma_div_denominator(b as int, pow2(e) as int, 2);
        }
        assert(stream_val(d, 8 * k + j, n) == (dd / 2 % pow2((n - 1) as nat)) * 2 + dd % 2);
        lemma_pow2_pos((n - 1) as nat);
        lemma_pow2_pos(e);
        vstd::arithmetic::div_mod::lemma_div_pos_is_pos(b as int, pow2(e) as int);
        assert(0 <= dd as int);
        assert(0 < pow2((n - 1) as nat) as int);
        lemma_breakdown(dd as int, 2, pow2((n - 1) as nat) as int);
        lemma_pow2_unfold(n);
    }
}

/// The rolling cursor state of the bit decoder: `count` bytes of the payload
/// have been pulled into the register so far, of which the low `lastbits`
/// bits of the last one (`lastbyte`) are not yet consumed.
pub struct DecodeState {
    /// Number of payload bytes pulled so far.
    pub count: usize,
    /// Number of still-unconsumed bits of the last pulled byte.
    pub lastbits: usize,
    /// The last pulled byte.
    pub lastbyte: u8,
}

impl DecodeState {
    /// The cursor is well formed over the payload `d`.
    pub open spec fn wf(&self, d: Seq<u8>) -> bool {
        &&& self.lastbits < 8
        &&& self.count <= d.len()
        &&& self.lastbits <= 8 * self.count
        &&& (self.count > 0 ==> self.lastbyte == d[self.count - 1])
        &&& (self.count == 0 ==> self.lastbyte == 0)
    }

    /// The bit position of the cursor: everything before it has been
    /// consumed.
    pub open spec fn spec_pos(&self) -> int {
        8 * self.count - self.lastbits
    }

    /// A fresh cursor at the start of a payload.
    pub fn new() -> (r: Self)
        ensures
            r.count == 0 && r.lastbits == 0 && r.lastbyte == 0,
    {
        DecodeState { count: 0, lastbits: 0, lastbyte: 0 }
    }
}

/// Extract the next `n <= 8` bits from the stream, pulling one more byte
/// into the register when the unconsumed part of the last one is too short.
fn pull_bits(buf: &[u8], state: &mut DecodeState, n: usize) -> (c: u8)
    requires
        1 <= n <= 8,
        old(state).wf(buf@),
        old(state).spec_pos() + n <= 8 * buf@.len(),
    ensures
        final(state).wf(buf@),
        final(state).spec_pos() == old(state).spec_pos() + n,
        c == stream_val(buf@, old(state).spec_pos(), n as nat),
{
    let ghost d = buf@;
    let ghost c0 = old(state).count as int;
    let ghost ll = old(state).lastbits as nat;
    let ghost p = old(state).spec_pos();
    let ghost b1 = old(state).lastbyte as nat;
    proof {
        lemma2_to64();
    }
    let reg: u32;
    if state.lastbits < n {
        // The register runs short: pull the next byte in.
        proof {
            assert(8 * c0 + (8 - ll) <= 8 * d.len());
            assert(c0 < d.len());
        }
        let next = buf[state.count];
        reg = (state.lastbyte as u32) * 256 + (next as u32);
        state.lastbyte = next;
        state.count += 1;
        state.lastbits = state.lastbits + 8 - n;
        let ghost b2 = next as nat;
        let c = extract(reg, state.lastbits, n);
        proof {
            let nl = (n - ll) as nat;
            // The field spans the unconsumed bits of the old byte and the
            // high bits of the new one.
            lemma_stream_val_concat(d, p, ll, nl);
            if ll > 0 {
                lemma_stream_val_in_byte(d, c0 - 1, (8 - ll) as nat, ll);
                assert(8 * (c0 - 1) + (8 - ll) == p);
                assert(pow2(0) == 1);
                lemma_small_mod(b1 % pow2(ll), pow2(ll));
                assert(b1 / 1 == b1);
                lemma_pow2_pos(ll);
                vstd::arithmetic::div_mod::lemma_mod_division_less_than_divisor(
                    b1 as int,
                    pow2(ll) as int,
                );
                assert(stream_val(d, p, ll) == b1 % pow2(ll));
            } else {
                assert(stream_val(d, p, ll) == 0);
            }
            lemma_stream_val_in_byte(d, c0, 0, nl);
            assert(8 * c0 == p + ll);
            let e = (8 - nl) as nat;  // == lastbits after the update
            assert(e == ll + 8 - n);
            // reg / 2^e == b1 * 2^(n - ll) + b2 / 2^e, and taking it mod 2^n
            // selects exactly the field.
            lemma_pow2_pos(e);
            lemma_pow2_pos(nl);
            lemma_pow2_pos(ll);
            lemma_pow2_adds(e, nl);
            assert(pow2(e) * pow2(nl) == 256);
            assert(reg == b1 * 256 + b2);
            assert((b1 * 256 + b2) as int / pow2(e) as int == b1 * pow2(nl) + b2 as int / pow2(
                e,
            ) as int) by {
                lemma_hoist_over_denominator(b2 as int, (b1 * pow2(nl)) as int, pow2(e));
                assert(b1 * pow2(nl) * pow2(e) == b1 * (pow2(e) * pow2(nl))) by (nonlinear_arith);
            }
            let r2 = b2 as int / pow2(e) as int;
            assert(0 <= r2 < pow2(nl)) by {
                lemma_multiply_divide_lt(b2 as int, pow2(e) as int, pow2(nl) as int);
                vstd::arithmetic::div_mod::lemma_div_pos_is_pos(b2 as int, pow2(e) as int);
            }
            let x = b1 * pow2(nl) + r2;
            lemma_breakdown(x, pow2(nl) as int, pow2(ll) as int);
            lemma_pow2_adds(nl, ll);
            assert(pow2(nl) * pow2(ll) == pow2(n as nat));
            assert(x / pow2(nl) as int == b1) by {
                lemma_hoist_over_denominator(r2, b1 as int, pow2(nl));
                lemma_basic_div(r2, pow2(nl) as int);
            }
            assert(x % pow2(nl) as int == r2) by {
                lemma_mod_multiples_vanish(b1 as int, r2, pow2(nl) as int);
                lemma_small_mod(r2 as nat, pow2(nl));
            }
            assert(c == (b1 % pow2(ll)) * pow2(nl) + r2) by {
                assert(pow2(nl) as int * ((b1 as int) % (pow2(ll) as int)) == ((b1 as int) % (pow2(
                    ll,
                ) as int)) * (pow2(nl) as int)) by (nonlinear_arith);
            }
            lemma_small_mod((b2 as int / pow2(e) as int) as nat, pow2(nl));
            assert(stream_val(d, p + ll, nl) == r2);
        }
        c
    } else {
        // The field lies inside the unconsumed bits of the last byte.
        reg = state.lastbyte as u32;
        state.lastbits = state.lastbits - n;
        let c = extract(reg, state.lastbits, n);
        proof {
            assert(ll >= n >= 1 && c0 > 0);
            lemma_stream_val_in_byte(d, c0 - 1, (8 - ll) as nat, n as nat);
            assert(8 * (c0 - 1) + (8 - ll) == p);
            assert((8 - (8 - ll) - n) as nat == (ll - n) as nat);
        }
        c
    }
}

/// Shift-and-mask extraction of an `n`-bit field whose low end sits `low`
/// bits up in `reg`: the value is `(reg / 2^low) % 2^n`.
fn extract(reg: u32, low: usize, n: usize) -> (c: u8)
    requires
        n <= 8,
        low < 32,
    ensures
        c == ((reg as nat) / pow2(low as nat)) % pow2(n as nat),
{
    proof {
        lemma2_to64();
        lemma_u32_shr_is_div(reg, low as u32);
        lemma_u32_shl_is_mul(1u32, n as u32);
        vstd::bits::lemma_low_bits_mask_values();
        lemma_u32_low_bits_mask_is_mod(reg >> (low as u32), n as nat);
        lemma_pow2_pos(low as nat);
        lemma_pow2_pos(n as nat);
        vstd::arithmetic::div_mod::lemma_mod_division_less_than_divisor(
            (reg >> (low as u32)) as int,
            pow2(n as nat) as int,
        );
        assert(pow2(n as nat) <= 256) by {
            if n < 8 {
                lemma_pow2_strictly_increases(n as nat, 8);
            }
        }
        assert((1u32 << (n as u32)) == pow2(n as nat));
        assert(vstd::bits::low_bits_mask(n as nat) == pow2(n as nat) - 1);
    }
    (((reg >> (low as u32)) & ((1u32 << (n as u32)) - 1)) as u8)
}

/// Read the next whole byte (eight bits) from the stream.
pub fn decodebyte(buf: &[u8], state: &mut DecodeState) -> (b: u8)
    requires
        old(state).wf(buf@),
        old(state).spec_pos() + 8 <= 8 * buf@.len(),
    ensures
        final(state).wf(buf@),
        final(state).spec_pos() == old(state).spec_pos() + 8,
        b == stream_val(buf@, old(state).spec_pos(), 8),
{
    pull_bits(buf, state, 8)
}

/// Read the next `nbits`-wide unsigned integer from the stream, most
/// significant bits first.
pub fn decodebits(buf: &[u8], state: &mut DecodeState, nbits: usize) -> (num: u32)
    requires
        nbits <= 32,
        old(state).wf(buf@),
        old(state).spec_pos() + nbits <= 8 * buf@.len(),
    ensures
        final(state).wf(buf@),
        final(state).spec_pos() == old(state).spec_pos() + nbits,
        num == stream_val(buf@, old(state).spec_pos(), nbits as nat),
        num < pow2(nbits as nat),
{
    let ghost d = buf@;
    let ghost p0 = old(state).spec_pos();
    let mut n = nbits;
    let mut num: u32 = 0;
    proof {
        lemma2_to64();
    }
    while n >= 8
        invariant
            n <= nbits <= 32,
            state.wf(d),
            buf@ == d,
            state.spec_pos() == p0 + (nbits - n),
            state.spec_pos() + n <= 8 * d.len(),
            num == stream_val(d, p0, (nbits - n) as nat),
            num < pow2((nbits - n) as nat),
        decreases n,
    {
        let ghost consumed = (nbits - n) as nat;
        let b = pull_bits(buf, state, 8);
        proof {
            lemma_stream_val_concat(d, p0, consumed, 8);
            lemma_stream_val_bound(d, p0 + consumed, 8);
            lemma_pow2_adds(consumed, 8);
            lemma2_to64();
            assert(pow2(consumed + 8) <= pow2(32)) by {
                if consumed + 8 < 32 {
                    lemma_pow2_strictly_increases(consumed + 8, 32);
                }
            }
            assert(num * pow2(8) + b < pow2(consumed) * pow2(8)) by (nonlinear_arith)
                requires
                    num < pow2(consumed) && b < pow2(8) && pow2(8) > 0,
            ;
        }
        num = num * 256 + (b as u32);
        n -= 8;
    }
    if n > 0 {
        let ghost consumed = (nbits - n) as nat;
        let b = pull_bits(buf, state, n);
        proof {
            lemma_stream_val_concat(d, p0, consumed, n as nat);
            lemma_stream_val_bound(d, p0 + consumed, n as nat);
            lemma_pow2_adds(consumed, n as nat);
            lemma2_to64();
            assert(pow2(consumed + n as nat) <= pow2(32)) by {
                if consumed + n < 32 {
                    lemma_pow2_strictly_increases(consumed + n as nat, 32);
                }
            }
            assert(num * pow2(n as nat) + b < pow2(consumed) * pow2(n as nat)) by (nonlinear_arith)
                requires
                    num < pow2(consumed) && b < pow2(n as nat) && pow2(n as nat) > 0,
            ;
            assert(pow2(n as nat) <= pow2(8)) by {
                if n < 8 {
                    lemma_pow2_strictly_increases(n as nat, 8);
                }
            }
            lemma_u32_shl_is_mul(1u32, n as u32);
        }
        num = num * (1u32 << (n as u32)) + (b as u32);
    }
    proof {
        lemma_stream_val_bound(d, p0, nbits as nat);
    }
    num
}

} // verus!
