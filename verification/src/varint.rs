//! Base-128 variable-length integers as the delta stream stores them:
//! most-significant group first, continuation marked by the high bit of every
//! byte but the last.
//!
//! These decoders are plain functions over a byte slice and a start
//! position; the stream engine handles buffering, so an incomplete result
//! here only means that more input has to arrive.

use vstd::prelude::*;
use vstd::arithmetic::power2::lemma2_to64;
use vstd::arithmetic::power2::lemma2_to64_rest;
use vstd::arithmetic::power2::lemma_pow2_adds;
use vstd::arithmetic::power2::lemma_pow2_pos;
use vstd::arithmetic::power2::pow2;

verus! {

/// Result of parsing one item that starts at some position of the input:
/// done at the next position, in need of more input, or malformed.
#[derive(Debug, PartialEq)]
pub enum ParseResult<T> {
    Done(usize, T),
    Incomplete,
    Error,
}

/// Ghost-level outcome of the decoder below.
pub enum ScanOutcome {
    Done { next: nat, value: nat },
    Incomplete,
    Error,
}

/// The largest value of a `width`-bit unsigned integer.
pub open spec fn max_of(width: nat) -> nat {
    (pow2(width) - 1) as nat
}

/// Groups of 7 bits, most significant first: each byte's low bits are added
/// below the accumulator, which shifts up by 7 while a continuation bit is
/// set; a value that would pass `width` bits is an error.
pub open spec fn msb_decode(s: Seq<u8>, i: nat, acc: nat, width: nat) -> ScanOutcome
    decreases s.len() - i,
    when i <= s.len()
{
    if i >= s.len() {
        ScanOutcome::Incomplete
    } else {
        let b = s[i as int];
        let v = acc + (b % 128) as nat;
        if b < 128 {
            ScanOutcome::Done { next: i + 1, value: v }
        } else if v > max_of(width) / 128 {
            ScanOutcome::Error
        } else {
            msb_decode(s, i + 1, v * 128, width)
        }
    }
}

/// A finished decode lands inside the input and inside `width` bits; the
/// accumulator stays low enough for the next group.
pub proof fn lemma_msb_decode_wf(s: Seq<u8>, i: nat, acc: nat, width: nat)
    requires
        i <= s.len(),
        7 <= width,
        acc + 127 <= max_of(width),
    ensures
        match msb_decode(s, i, acc, width) {
            ScanOutcome::Done { next, value } => i < next <= s.len() && value <= max_of(width),
            _ => true,
        },
    decreases s.len() - i,
{
    if i < s.len() {
        let b = s[i as int];
        let v = acc + (b % 128) as nat;
        if b >= 128 && v <= max_of(width) / 128 {
            assert(v * 128 <= (max_of(width) / 128) * 128) by (nonlinear_arith)
                requires
                    v <= max_of(width) / 128,
            ;
            lemma2_to64();
            lemma_pow2_adds((width - 7) as nat, 7);
            lemma_pow2_pos((width - 7) as nat);
            lemma_pow2_pos(width);
            assert((max_of(width) / 128) * 128 + 127 == max_of(width)) by (nonlinear_arith)
                requires
                    pow2(width) == pow2((width - 7) as nat) * 128,
                    pow2((width - 7) as nat) >= 1,
                    max_of(width) == pow2(width) - 1,
            ;
            lemma_msb_decode_wf(s, i + 1, v * 128, width);
        }
    }
}

/// A decode that finished or failed is unchanged by bytes appended after the
/// input it saw.
pub proof fn lemma_msb_decode_extend(s: Seq<u8>, ext: Seq<u8>, i: nat, acc: nat, width: nat)
    requires
        i <= s.len(),
    ensures
        match msb_decode(s, i, acc, width) {
            ScanOutcome::Incomplete => true,
            o => msb_decode(s + ext, i, acc, width) == o,
        },
    decreases s.len() - i,
{
    if i < s.len() {
        assert((s + ext)[i as int] == s[i as int]);
        let b = s[i as int];
        let v = acc + (b % 128) as nat;
        if b >= 128 && v <= max_of(width) / 128 {
            lemma_msb_decode_extend(s, ext, i + 1, v * 128, width);
        }
    }
}

/// The `u64` outcome as a caller sees it.
pub open spec fn scan_result_u64(o: ScanOutcome) -> ParseResult<u64> {
    match o {
        ScanOutcome::Done { next, value } => ParseResult::Done(next as usize, value as u64),
        ScanOutcome::Incomplete => ParseResult::Incomplete,
        ScanOutcome::Error => ParseResult::Error,
    }
}

/// The `u32` outcome as a caller sees it.
pub open spec fn scan_result_u32(o: ScanOutcome) -> ParseResult<u32> {
    match o {
        ScanOutcome::Done { next, value } => ParseResult::Done(next as usize, value as u32),
        ScanOutcome::Incomplete => ParseResult::Incomplete,
        ScanOutcome::Error => ParseResult::Error,
    }
}

/// The decoding loop, shared by the widths: `max` is the largest value of
/// the integer being decoded.
#[verifier::loop_isolation(false)]
fn msb_decode_exec(src: &[u8], from: usize, width: u32, max: u64) -> (r: ParseResult<u64>)
    requires
        from <= src@.len(),
        7 <= width,
        max == max_of(width as nat),
        max % 128 == 127,
    ensures
        r == scan_result_u64(msb_decode(src@, from as nat, 0, width as nat)),
{
    let ghost full = msb_decode(src@, from as nat, 0, width as nat);
    let mut acc: u64 = 0;
    let mut i: usize = from;
    while i < src.len()
        invariant
            from <= i <= src@.len(),
            acc + 127 <= max,
            full == msb_decode(src@, i as nat, acc as nat, width as nat),
        decreases src@.len() - i,
    {
        let b = src[i];
        let v: u64 = acc + (b % 128) as u64;
        if b < 128 {
            return ParseResult::Done(i + 1, v);
        }
        if v > max / 128 {
            return ParseResult::Error;
        }
        proof {
            assert(v * 128 <= (max as nat / 128) * 128) by (nonlinear_arith)
                requires
                    v as nat <= max as nat / 128,
            ;
            assert((max as nat / 128) * 128 + 127 <= max as nat) by (nonlinear_arith)
                requires
                    max as nat % 128 == 127,
            ;
        }
        acc = v * 128;
        i = i + 1;
    }
    ParseResult::Incomplete
}

/// The number of base-128 digits of `v`; one even for zero.
pub open spec fn msb_digits(v: nat) -> nat
    decreases v,
{
    if v < 128 {
        1
    } else {
        proof {
            assert(v / 128 < v) by (nonlinear_arith)
                requires
                    v >= 128,
            ;
        }
        1 + msb_digits(v / 128)
    }
}

/// The last `remain` bytes of the encoding of `value`: each byte holds one
/// base-128 digit, most significant first, the high bit set on all but the
/// last.
pub open spec fn msb_tail(value: nat, remain: nat) -> Seq<u8>
    decreases remain,
{
    if remain == 0 {
        Seq::empty()
    } else if remain == 1 {
        seq![(value % 128) as u8]
    } else {
        seq![(128 + (value / pow2(7 * (remain - 1) as nat)) % 128) as u8] + msb_tail(
            value,
            (remain - 1) as nat,
        )
    }
}

/// The encoding of `v`: its digits, most significant first.
pub open spec fn msb_encode(v: nat) -> Seq<u8> {
    msb_tail(v, msb_digits(v))
}

/// A value of `7 * k` bits has at most `k` digits.
proof fn lemma_msb_digits_le(v: nat, k: nat)
    requires
        1 <= k,
        v < pow2(7 * k),
    ensures
        msb_digits(v) <= k,
    decreases v,
{
    lemma2_to64();
    if v >= 128 {
        if k < 2 {
            assert(false);
        } else {
            lemma_pow2_adds(7 * (k - 1) as nat, 7);
            assert(v / 128 < pow2(7 * (k - 1) as nat)) by (nonlinear_arith)
                requires
                    v < pow2(7 * (k - 1) as nat) * 128,
            ;
            lemma_msb_digits_le(v / 128, (k - 1) as nat);
        }
    }
}

/// A lazy encoder for the delta stream's varints: each call to `next`
/// emits the next byte of the encoding, most significant group first.
#[derive(Debug, PartialEq)]
pub struct VarIntEncoder {
    value: u64,
    remain: u8,
}

impl VarIntEncoder {
    /// The bytes this encoder has still to emit.
    pub closed spec fn pending(&self) -> Seq<u8> {
        msb_tail(self.value as nat, self.remain as nat)
    }

    /// The counter never passes the widest encoding.
    pub closed spec fn wf(&self) -> bool {
        self.remain <= 10
    }

    /// An encoder that will emit the encoding of `value`.
    pub fn new(value: u64) -> (e: VarIntEncoder)
        ensures
            e.wf(),
            e.pending() == msb_encode(value as nat),
    {
        proof {
            lemma2_to64();
            lemma2_to64_rest();
            assert((value as nat) < pow2(70)) by {
                vstd::arithmetic::power2::lemma_pow2_strictly_increases(64, 70);
            }
            lemma_msb_digits_le(value as nat, 10);
        }
        let mut v: u64 = value;
        let mut remain: u8 = 1;
        while v >= 128
            invariant
                1 <= remain,
                msb_digits(value as nat) == remain - 1 + msb_digits(v as nat),
                msb_digits(value as nat) <= 10,
                1 <= msb_digits(v as nat),
            decreases v,
        {
            v = v / 128;
            remain = remain + 1;
        }
        VarIntEncoder { value, remain }
    }

    /// Emit the next byte of the encoding, or nothing when it is finished.
    pub fn next(&mut self) -> (b: Option<u8>)
        requires
            old(self).wf(),
        ensures
            final(self).wf(),
            match b {
                Some(x) => old(self).pending().len() > 0 && x == old(self).pending()[0]
                    && final(self).pending() == old(self).pending().drop_first(),
                None => old(self).pending().len() == 0
                    && final(self).pending() == old(self).pending(),
            },
    {
        if self.remain == 0 {
            None
        } else if self.remain == 1 {
            let out: u8 = (self.value % 128) as u8;
            self.remain = 0;
            proof {
                assert(old(self).pending().drop_first() =~= Seq::<u8>::empty());
            }
            Some(out)
        } else {
            proof {
                lemma2_to64();
                lemma2_to64_rest();
            }
            let p = pow2_u64(7 * ((self.remain - 1) as u32));
            let out: u8 = ((self.value / p) % 128) as u8 + 128;
            self.remain = self.remain - 1;
            proof {
                assert(old(self).pending().drop_first() =~= msb_tail(
                    self.value as nat,
                    self.remain as nat,
                ));
            }
            Some(out)
        }
    }
}

/// `pow2` as an executable function.
fn pow2_u64(e: u32) -> (r: u64)
    requires
        e < 64,
    ensures
        r == pow2(e as nat),
{
    proof {
        lemma2_to64();
    }
    let mut r: u64 = 1;
    let mut k: u32 = 0;
    while k < e
        invariant
            k <= e < 64,
            r == pow2(k as nat),
        decreases e - k,
    {
        proof {
            lemma2_to64();
            lemma2_to64_rest();
            vstd::arithmetic::power2::lemma_pow2_strictly_increases(k as nat, 63);
            lemma_pow2_adds(k as nat, 1);
        }
        r = r * 2;
        k = k + 1;
    }
    r
}

/// The same outcome with `k` more positions behind it.
pub open spec fn outcome_shift(o: ScanOutcome, k: nat) -> ScanOutcome {
    match o {
        ScanOutcome::Done { next, value } => ScanOutcome::Done { next: next + k, value },
        ScanOutcome::Incomplete => ScanOutcome::Incomplete,
        ScanOutcome::Error => ScanOutcome::Error,
    }
}

/// Decoding after a prefix only moves the positions by its length.
proof fn lemma_msb_decode_prepend(h: Seq<u8>, t: Seq<u8>, i: nat, acc: nat, width: nat)
    requires
        i <= t.len(),
    ensures
        msb_decode(h + t, h.len() + i, acc, width) == outcome_shift(
            msb_decode(t, i, acc, width),
            h.len(),
        ),
    decreases t.len() - i,
{
    if i < t.len() {
        assert((h + t)[(h.len() + i) as int] == t[i as int]);
        let b = t[i as int];
        let v = acc + (b % 128) as nat;
        if b >= 128 && v <= max_of(width) / 128 {
            lemma_msb_decode_prepend(h, t, i + 1, v * 128, width);
        }
    }
}

/// Decoding the digit tail of `v` from an accumulator recovers the low
/// `7 * k` bits of `v` above it.
proof fn lemma_msb_tail_decode(v: nat, k: nat, acc: nat, width: nat)
    requires
        1 <= k,
        7 <= width,
        acc * pow2(7 * (k - 1) as nat) + (v % pow2(7 * k)) <= max_of(width),
    ensures
        msb_decode(msb_tail(v, k), 0, acc, width) == (ScanOutcome::Done {
            next: k,
            value: acc * pow2(7 * (k - 1) as nat) + (v % pow2(7 * k)),
        }),
    decreases k,
{
    lemma2_to64();
    lemma_pow2_pos(7 * k);
    let s = msb_tail(v, k);
    if k == 1 {
        assert(s[0] == (v % 128) as u8);
        assert(s.len() == 1);
        assert(s[0] < 128);
        assert((s[0] % 128) as nat == v % 128);
        assert(v % pow2(7) == v % 128);
        assert(acc * pow2(0) == acc);
        assert(msb_decode(s, 0, acc, width) == (ScanOutcome::Done { next: 1, value: acc + v % 128 }));
    } else {
        let p = pow2(7 * (k - 1) as nat);
        let q = pow2(7 * (k - 2) as nat);
        lemma_pow2_adds(7 * (k - 2) as nat, 7);
        lemma_pow2_adds(7 * (k - 1) as nat, 7);
        lemma_pow2_pos(7 * (k - 2) as nat);
        lemma_pow2_pos(7 * (k - 1) as nat);
        let d1 = (v / p) % 128;
        vstd::arithmetic::div_mod::lemma_mod_breakdown(v as int, p as int, 128);
        let val = acc + d1;
        let vk = (v % pow2(7 * k)) as nat;
        let rest = (v % p) as nat;
        assert(vk == p * d1 + rest);
        assert((val * 128) * q + rest == acc * p + vk) by (nonlinear_arith)
            requires
                vk == p * d1 + rest,
                p == q * 128,
                val == acc + d1,
        ;
        assert(val <= max_of(width) / 128) by (nonlinear_arith)
            requires
                (val * 128) * q + rest <= max_of(width),
                q >= 1,
                rest >= 0,
                val >= 0,
        ;
        lemma_msb_tail_decode(v, (k - 1) as nat, val * 128, width);
        lemma_msb_decode_prepend(
            seq![(128 + d1) as u8],
            msb_tail(v, (k - 1) as nat),
            0,
            val * 128,
            width,
        );
        assert(s =~= seq![(128 + d1) as u8] + msb_tail(v, (k - 1) as nat));
        assert(s[0] == (128 + d1) as u8);
        assert(s[0] >= 128);
        assert((s[0] % 128) as nat == d1);
        assert(msb_decode(s, 1, val * 128, width) == (ScanOutcome::Done {
            next: k,
            value: (val * 128) * q + rest,
        }));
        assert(msb_decode(s, 0, acc, width) == msb_decode(s, 1, val * 128, width));
    }
}

/// Round trip: decoding the encoding of any value yields it back,
/// consuming exactly its digits.
pub proof fn lemma_msb_round_trip(v: u64)
    ensures
        msb_decode(msb_encode(v as nat), 0, 0, 64) == (ScanOutcome::Done {
            next: msb_digits(v as nat),
            value: v as nat,
        }),
{
    lemma2_to64();
    lemma2_to64_rest();
    lemma_msb_digits_pow(v as nat);
    let k = msb_digits(v as nat);
    vstd::arithmetic::power2::lemma_pow2_pos(7 * k);
    vstd::arithmetic::div_mod::lemma_small_mod(v as nat, pow2(7 * k));
    lemma_msb_tail_decode(v as nat, k, 0, 64);
}

/// A value fits in its own digits.
proof fn lemma_msb_digits_pow(v: nat)
    ensures
        1 <= msb_digits(v),
        v < pow2(7 * msb_digits(v)),
    decreases v,
{
    lemma2_to64();
    if v < 128 {
        lemma_pow2_adds(0, 7);
    } else {
        lemma_msb_digits_pow(v / 128);
        let k = msb_digits(v / 128);
        lemma_pow2_adds(7 * k, 7);
        assert(v < pow2(7 * k) * 128) by (nonlinear_arith)
            requires
                v / 128 < pow2(7 * k),
                v >= 128,
        ;
    }
}

/// Decode an unsigned 64-bit integer at position `from` of `src`.
pub fn decode_varint_u64(src: &[u8], from: usize) -> (r: ParseResult<u64>)
    requires
        from <= src@.len(),
    ensures
        r == scan_result_u64(msb_decode(src@, from as nat, 0, 64)),
{
    proof {
        lemma2_to64();
        lemma2_to64_rest();
    }
    msb_decode_exec(src, from, 64, u64::MAX)
}

/// Decode an unsigned 32-bit integer at position `from` of `src`.
pub fn decode_varint_u32(src: &[u8], from: usize) -> (r: ParseResult<u32>)
    requires
        from <= src@.len(),
    ensures
        r == scan_result_u32(msb_decode(src@, from as nat, 0, 32)),
{
    proof {
        lemma2_to64();
        lemma2_to64_rest();
        lemma_msb_decode_wf(src@, from as nat, 0, 32);
    }
    match msb_decode_exec(src, from, 32, u32::MAX as u64) {
        ParseResult::Done(next, v) => ParseResult::Done(next, v as u32),
        ParseResult::Incomplete => ParseResult::Incomplete,
        ParseResult::Error => ParseResult::Error,
    }
}

} // verus!
