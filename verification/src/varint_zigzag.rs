//! Resumable base-128 variable-length integer codec, least-significant group
//! first, with a zigzag mapping for signed integers.
//!
//! Decoding may be given only a prefix of an encoding: it then returns an
//! incomplete result carrying the accumulated value and bit shift, from which
//! a later call resumes with the continuation bytes.

use vstd::prelude::*;
use vstd::arithmetic::power2::lemma2_to64;
use vstd::arithmetic::power2::lemma2_to64_rest;
use vstd::arithmetic::power2::lemma_pow2_adds;
use vstd::arithmetic::power2::lemma_pow2_pos;
use vstd::arithmetic::power2::lemma_pow2_strictly_increases;
use vstd::arithmetic::power2::pow2;

verus! {

/// Number of significant bits of `n`: the least `k` with `n < pow2(k)`.
pub open spec fn bit_width(n: nat) -> nat
    decreases n,
{
    if n == 0 {
        0
    } else {
        1 + bit_width(n / 2)
    }
}

/// Outcome of running the decoder from an accumulated `value` and bit
/// `shift` over a byte sequence, for an integer of `width` bits.
pub enum DecodeOutcome {
    Complete { value: nat, read: nat },
    Incomplete { value: nat, shift: nat, read: nat },
    Overflow { read: nat },
}

/// The same outcome with `k` more bytes counted as read.
pub open spec fn outcome_after(o: DecodeOutcome, k: nat) -> DecodeOutcome {
    match o {
        DecodeOutcome::Complete { value, read } => DecodeOutcome::Complete {
            value,
            read: read + k,
        },
        DecodeOutcome::Incomplete { value, shift, read } => DecodeOutcome::Incomplete {
            value,
            shift,
            read: read + k,
        },
        DecodeOutcome::Overflow { read } => DecodeOutcome::Overflow { read: read + k },
    }
}

/// One low-order group of 7 bits per byte, high bit set on every byte but the
/// last: the decoder adds each group at the current shift, and reports an
/// overflow as soon as a group would not fit inside `width` bits.
pub open spec fn lsb_decode(value: nat, shift: nat, width: nat, src: Seq<u8>) -> DecodeOutcome
    decreases src.len(),
{
    if src.len() == 0 {
        DecodeOutcome::Incomplete { value, shift, read: 0 }
    } else {
        let b = src[0];
        let group = (b % 128) as nat;
        if b < 128 {
            if shift + bit_width(group) > width {
                DecodeOutcome::Overflow { read: 1 }
            } else {
                DecodeOutcome::Complete { value: value + group * pow2(shift), read: 1 }
            }
        } else if shift + 7 >= width {
            DecodeOutcome::Overflow { read: 1 }
        } else {
            outcome_after(
                lsb_decode(value + group * pow2(shift), shift + 7, width, src.drop_first()),
                1,
            )
        }
    }
}

/// A partial decode is well formed when the accumulated value sits strictly
/// below the next group's position.
pub open spec fn partial_wf(value: nat, shift: nat, width: nat) -> bool {
    shift < width && value < pow2(shift)
}

/// Result of one decoding call.
#[derive(Debug, PartialEq)]
pub enum VarIntResult<I> {
    Complete((I, usize)),
    Incomplete((VarIntIncomplete<I>, usize)),
    Overflow(usize),
}

/// The partial state of an interrupted decode: pass more bytes to `decode`
/// to resume where the previous call stopped.
#[derive(Copy, Clone, Debug, PartialEq)]
pub struct VarIntIncomplete<I> {
    pub value: I,
    pub shift: u32,
}

/// The `u64` outcome as a caller sees it.
pub open spec fn result_u64(o: DecodeOutcome) -> VarIntResult<u64> {
    match o {
        DecodeOutcome::Complete { value, read } => VarIntResult::Complete(
            (value as u64, read as usize),
        ),
        DecodeOutcome::Incomplete { value, shift, read } => VarIntResult::Incomplete(
            (VarIntIncomplete { value: value as u64, shift: shift as u32 }, read as usize),
        ),
        DecodeOutcome::Overflow { read } => VarIntResult::Overflow(read as usize),
    }
}

/// `pow2` as an executable function.
fn pow2_u64(e: u32) -> (r: u64)
    requires
        e < 64,
    ensures
        r == pow2(e as nat),
{
    proof {
        lemma2_to64();
    }
    let mut r: u64 = 1;
    let mut k: u32 = 0;
    while k < e
        invariant
            k <= e < 64,
            r == pow2(k as nat),
        decreases e - k,
    {
        proof {
            lemma2_to64();
            lemma2_to64_rest();
            lemma_pow2_strictly_increases(k as nat, 63);
            lemma_pow2_adds(k as nat, 1);
        }
        r = r * 2;
        k = k + 1;
    }
    r
}

/// `bit_width` as an executable function.
fn bit_width_u8(r: u8) -> (n: u8)
    ensures
        n == bit_width(r as nat),
        n <= 8,
{
    proof {
        lemma2_to64();
        lemma_bit_width_le(r as nat, 8);
    }
    let mut v: u8 = r;
    let mut n: u8 = 0;
    while v > 0
        invariant
            bit_width(r as nat) == n + bit_width(v as nat),
            bit_width(r as nat) <= 8,
            n <= 8,
        decreases v,
    {
        v = v / 2;
        n = n + 1;
        proof {
            if v > 0 {
                assert(bit_width(v as nat) == 1 + bit_width((v / 2) as nat));
            }
        }
    }
    n
}

/// `n` needs exactly `bit_width(n)` bits.
proof fn lemma_bit_width_bound(n: nat)
    ensures
        n < pow2(bit_width(n)),
    decreases n,
{
    lemma2_to64();
    if n == 0 {
        lemma_pow2_pos(0);
    } else {
        lemma_bit_width_bound(n / 2);
        lemma_pow2_adds(bit_width(n / 2), 1);
        assert(pow2(bit_width(n / 2) + 1) == pow2(bit_width(n / 2)) * 2);
    }
}

/// Everything below `pow2(k)` fits in `k` bits.
proof fn lemma_bit_width_le(n: nat, k: nat)
    requires
        n < pow2(k),
    ensures
        bit_width(n) <= k,
    decreases n,
{
    lemma2_to64();
    if n > 0 {
        if k == 0 {
            assert(false);
        } else {
            lemma_pow2_adds((k - 1) as nat, 1);
            assert(pow2(k) == pow2((k - 1) as nat) * 2);
            lemma_bit_width_le(n / 2, (k - 1) as nat);
        }
    }
}

/// Adding a `bits`-bit group at `shift` stays below `pow2(shift + bits)`.
proof fn lemma_group_bound(value: nat, group: nat, shift: nat, bits: nat)
    requires
        value < pow2(shift),
        group < pow2(bits),
    ensures
        value + group * pow2(shift) < pow2(shift + bits),
{
    lemma_pow2_adds(shift, bits);
    lemma_pow2_pos(shift);
    lemma_pow2_pos(bits);
    assert(value + group * pow2(shift) < pow2(shift) * pow2(bits)) by (nonlinear_arith)
        requires
            value < pow2(shift),
            group < pow2(bits),
            pow2(shift) > 0,
            pow2(bits) > 0,
    ;
}

/// The decoding loop, shared by every width: `width` counts the bits of the
/// integer being decoded.
#[verifier::loop_isolation(false)]
fn lsb_decode_exec(value0: u64, shift0: u32, width: u32, src: &[u8]) -> (res: VarIntResult<u64>)
    requires
        7 <= width <= 64,
        partial_wf(value0 as nat, shift0 as nat, width as nat),
    ensures
        res == result_u64(lsb_decode(value0 as nat, shift0 as nat, width as nat, src@)),
{
    let ghost full = lsb_decode(value0 as nat, shift0 as nat, width as nat, src@);
    let mut value: u64 = value0;
    let mut shift: u32 = shift0;
    let mut i: usize = 0;
    proof {
        assert(src@.skip(0) =~= src@);
    }
    while i < src.len()
        invariant
            i <= src@.len(),
            partial_wf(value as nat, shift as nat, width as nat),
            full == outcome_after(
                lsb_decode(value as nat, shift as nat, width as nat, src@.skip(i as int)),
                i as nat,
            ),
        decreases src@.len() - i,
    {
        let ghost rest = src@.skip(i as int);
        proof {
            assert(rest[0] == src@[i as int]);
            assert(rest.drop_first() =~= src@.skip(i as int + 1));
        }
        let b = src[i];
        let group: u64 = (b % 128) as u64;
        proof {
            lemma2_to64();
            lemma2_to64_rest();
        }
        if b < 128 {
            let bits = bit_width_u8(b % 128);
            if shift as u64 + bits as u64 > width as u64 {
                return VarIntResult::Overflow(i + 1);
            }
            proof {
                lemma_bit_width_bound(group as nat);
                lemma_group_bound(value as nat, group as nat, shift as nat, bits as nat);
                if (shift as nat + bits as nat) < 64 {
                    lemma_pow2_strictly_increases(shift as nat + bits as nat, 64);
                }
            }
            let p = pow2_u64(shift);
            return VarIntResult::Complete((value + group * p, i + 1));
        } else if shift + 7 >= width {
            return VarIntResult::Overflow(i + 1);
        } else {
            proof {
                lemma_bit_width_bound(group as nat);
                lemma_bit_width_le(group as nat, 7);
                lemma_group_bound(value as nat, group as nat, shift as nat, 7);
                lemma_pow2_strictly_increases(shift as nat + 7, 64);
            }
            let p = pow2_u64(shift);
            value = value + group * p;
            shift = shift + 7;
            i = i + 1;
        }
    }
    proof {
        assert(src@.skip(i as int) =~= Seq::<u8>::empty());
    }
    VarIntResult::Incomplete((VarIntIncomplete { value, shift }, i))
}

impl VarIntIncomplete<u64> {
    /// Resume decoding with the continuation bytes in `src`.
    pub fn decode(&self, src: &[u8]) -> (res: VarIntResult<u64>)
        requires
            partial_wf(self.value as nat, self.shift as nat, 64),
        ensures
            res == result_u64(lsb_decode(self.value as nat, self.shift as nat, 64, src@)),
    {
        lsb_decode_exec(self.value, self.shift, 64, src)
    }
}

/// Every outcome of `lsb_decode` stays inside `width` bits, and the read
/// count never passes the end of the input; an incomplete outcome has read
/// all of it.
pub proof fn lemma_lsb_decode_wf(value: nat, shift: nat, width: nat, src: Seq<u8>)
    requires
        partial_wf(value, shift, width),
    ensures
        match lsb_decode(value, shift, width, src) {
            DecodeOutcome::Complete { value: v, read } => v < pow2(width) && 1 <= read
                <= src.len(),
            DecodeOutcome::Incomplete { value: v, shift: s, read } => partial_wf(v, s, width)
                && read == src.len(),
            DecodeOutcome::Overflow { read } => 1 <= read <= src.len(),
        },
    decreases src.len(),
{
    lemma2_to64();
    if src.len() > 0 {
        let b = src[0];
        let group = (b % 128) as nat;
        if b < 128 {
            if shift + bit_width(group) <= width {
                lemma_bit_width_bound(group);
                lemma_group_bound(value, group, shift, bit_width(group));
                if shift + bit_width(group) < width {
                    lemma_pow2_strictly_increases(shift + bit_width(group), width);
                }
            }
        } else if shift + 7 < width {
            lemma_bit_width_le(group, 7);
            lemma_group_bound(value, group, shift, 7);
            lemma_lsb_decode_wf(value + group * pow2(shift), shift + 7, width, src.drop_first());
        }
    }
}

/// The `u32` outcome as a caller sees it.
pub open spec fn result_u32(o: DecodeOutcome) -> VarIntResult<u32> {
    match o {
        DecodeOutcome::Complete { value, read } => VarIntResult::Complete(
            (value as u32, read as usize),
        ),
        DecodeOutcome::Incomplete { value, shift, read } => VarIntResult::Incomplete(
            (VarIntIncomplete { value: value as u32, shift: shift as u32 }, read as usize),
        ),
        DecodeOutcome::Overflow { read } => VarIntResult::Overflow(read as usize),
    }
}

/// The `u16` outcome as a caller sees it.
pub open spec fn result_u16(o: DecodeOutcome) -> VarIntResult<u16> {
    match o {
        DecodeOutcome::Complete { value, read } => VarIntResult::Complete(
            (value as u16, read as usize),
        ),
        DecodeOutcome::Incomplete { value, shift, read } => VarIntResult::Incomplete(
            (VarIntIncomplete { value: value as u16, shift: shift as u32 }, read as usize),
        ),
        DecodeOutcome::Overflow { read } => VarIntResult::Overflow(read as usize),
    }
}

impl VarIntIncomplete<u32> {
    /// Resume decoding with the continuation bytes in `src`.
    pub fn decode(&self, src: &[u8]) -> (res: VarIntResult<u32>)
        requires
            partial_wf(self.value as nat, self.shift as nat, 32),
        ensures
            res == result_u32(lsb_decode(self.value as nat, self.shift as nat, 32, src@)),
    {
        proof {
            lemma_lsb_decode_wf(self.value as nat, self.shift as nat, 32, src@);
            lemma2_to64();
            lemma2_to64_rest();
            match lsb_decode(self.value as nat, self.shift as nat, 32, src@) {
                DecodeOutcome::Incomplete { value: v, shift: s, read } => {
                    if s < 32 {
                        lemma_pow2_strictly_increases(s, 32);
                    }
                },
                _ => {},
            }
        }
        match lsb_decode_exec(self.value as u64, self.shift, 32, src) {
            VarIntResult::Complete((v, n)) => VarIntResult::Complete((v as u32, n)),
            VarIntResult::Incomplete((inc, n)) => VarIntResult::Incomplete(
                (VarIntIncomplete { value: inc.value as u32, shift: inc.shift }, n),
            ),
            VarIntResult::Overflow(n) => VarIntResult::Overflow(n),
        }
    }
}

impl VarIntIncomplete<u16> {
    /// Resume decoding with the continuation bytes in `src`.
    pub fn decode(&self, src: &[u8]) -> (res: VarIntResult<u16>)
        requires
            partial_wf(self.value as nat, self.shift as nat, 16),
        ensures
            res == result_u16(lsb_decode(self.value as nat, self.shift as nat, 16, src@)),
    {
        proof {
            lemma_lsb_decode_wf(self.value as nat, self.shift as nat, 16, src@);
            lemma2_to64();
            match lsb_decode(self.value as nat, self.shift as nat, 16, src@) {
                DecodeOutcome::Incomplete { value: v, shift: s, read } => {
                    if s < 16 {
                        lemma_pow2_strictly_increases(s, 16);
                    }
                },
                _ => {},
            }
        }
        match lsb_decode_exec(self.value as u64, self.shift, 16, src) {
            VarIntResult::Complete((v, n)) => VarIntResult::Complete((v as u16, n)),
            VarIntResult::Incomplete((inc, n)) => VarIntResult::Incomplete(
                (VarIntIncomplete { value: inc.value as u16, shift: inc.shift }, n),
            ),
            VarIntResult::Overflow(n) => VarIntResult::Overflow(n),
        }
    }
}

/// Decode an unsigned 64-bit integer from the start of `src`.
pub fn decode_varint_u64(src: &[u8]) -> (res: VarIntResult<u64>)
    ensures
        res == result_u64(lsb_decode(0, 0, 64, src@)),
{
    proof {
        lemma_pow2_pos(0);
    }
    let start = VarIntIncomplete { value: 0u64, shift: 0u32 };
    start.decode(src)
}

/// Decode an unsigned 32-bit integer from the start of `src`.
pub fn decode_varint_u32(src: &[u8]) -> (res: VarIntResult<u32>)
    ensures
        res == result_u32(lsb_decode(0, 0, 32, src@)),
{
    proof {
        lemma_pow2_pos(0);
    }
    let start = VarIntIncomplete { value: 0u32, shift: 0u32 };
    start.decode(src)
}

/// Decode an unsigned 16-bit integer from the start of `src`.
pub fn decode_varint_u16(src: &[u8]) -> (res: VarIntResult<u16>)
    ensures
        res == result_u16(lsb_decode(0, 0, 16, src@)),
{
    proof {
        lemma_pow2_pos(0);
    }
    let start = VarIntIncomplete { value: 0u16, shift: 0u32 };
    start.decode(src)
}

/// The zigzag image of a signed integer: small magnitudes map to small
/// unsigned values, with the sign in the lowest bit.
pub open spec fn zigzag_enc(v: int) -> nat {
    if v >= 0 {
        (2 * v) as nat
    } else {
        (-2 * v - 1) as nat
    }
}

/// The inverse of `zigzag_enc`.
pub open spec fn zigzag_dec(u: nat) -> int {
    if u % 2 == 0 {
        (u / 2) as int
    } else {
        -((u / 2) as int) - 1
    }
}

/// The two zigzag maps invert each other.
pub proof fn lemma_zigzag_round_trip(v: int)
    ensures
        zigzag_dec(zigzag_enc(v)) == v,
{
}

/// The `i64` outcome as a caller sees it: a completed unsigned value is sent
/// through the zigzag map, and a partial state keeps the raw accumulated bits.
pub open spec fn result_i64(o: DecodeOutcome) -> VarIntResult<i64> {
    match o {
        DecodeOutcome::Complete { value, read } => VarIntResult::Complete(
            (zigzag_dec(value) as i64, read as usize),
        ),
        DecodeOutcome::Incomplete { value, shift, read } => VarIntResult::Incomplete(
            (VarIntIncomplete { value: (value as u64) as i64, shift: shift as u32 }, read as usize),
        ),
        DecodeOutcome::Overflow { read } => VarIntResult::Overflow(read as usize),
    }
}

impl VarIntIncomplete<i64> {
    /// Resume decoding with the continuation bytes in `src`; the stored value
    /// holds the raw accumulated bits of the unsigned image.
    pub fn decode(&self, src: &[u8]) -> (res: VarIntResult<i64>)
        requires
            partial_wf((self.value as u64) as nat, self.shift as nat, 64),
        ensures
            res == result_i64(lsb_decode((self.value as u64) as nat, self.shift as nat, 64, src@)),
    {
        let raw: u64 = self.value as u64;
        let ghost o = lsb_decode(raw as nat, self.shift as nat, 64, src@);
        proof {
            lemma_lsb_decode_wf(raw as nat, self.shift as nat, 64, src@);
            lemma2_to64();
            lemma2_to64_rest();
        }
        match lsb_decode_exec(raw, self.shift, 64, src) {
            VarIntResult::Complete((v, n)) => {
                let signed: i64 = if v % 2 == 0 {
                    (v / 2) as i64
                } else {
                    -((v / 2) as i64) - 1
                };
                VarIntResult::Complete((signed, n))
            },
            VarIntResult::Incomplete((inc, n)) => VarIntResult::Incomplete(
                (VarIntIncomplete { value: inc.value as i64, shift: inc.shift }, n),
            ),
            VarIntResult::Overflow(n) => VarIntResult::Overflow(n),
        }
    }
}

/// Decode a zigzag-encoded signed 64-bit integer from the start of `src`.
pub fn decode_varint_i64(src: &[u8]) -> (res: VarIntResult<i64>)
    ensures
        res == result_i64(lsb_decode(0, 0, 64, src@)),
{
    proof {
        lemma_pow2_pos(0);
    }
    let start = VarIntIncomplete { value: 0i64, shift: 0u32 };
    start.decode(src)
}

/// The canonical encoding of `v`: low-order groups of 7 bits first, the high
/// bit set on every byte but the last.
pub open spec fn lsb_encode(v: nat) -> Seq<u8>
    decreases v,
{
    if v < 128 {
        seq![v as u8]
    } else {
        proof {
            assert(v / 128 < v) by (nonlinear_arith)
                requires
                    v >= 128,
            ;
        }
        seq![(128 + v % 128) as u8] + lsb_encode(v / 128)
    }
}

/// A lazy encoder: each call to `next` emits the next byte of the encoding.
#[derive(Debug, PartialEq)]
pub struct VarIntEncoder<I> {
    value: I,
    done: bool,
}

impl VarIntEncoder<u64> {
    /// The bytes this encoder has still to emit.
    pub closed spec fn pending(&self) -> Seq<u8> {
        if self.done {
            Seq::empty()
        } else {
            lsb_encode(self.value as nat)
        }
    }

    /// An encoder that will emit the encoding of `value`.
    pub fn new(value: u64) -> (e: Self)
        ensures
            e.pending() == lsb_encode(value as nat),
    {
        VarIntEncoder { value, done: false }
    }

    /// An encoder that will emit the encoding of the zigzag image of `value`.
    pub fn new_signed(value: i64) -> (e: Self)
        ensures
            e.pending() == lsb_encode(zigzag_enc(value as int)),
    {
        let raw: u64 = if value >= 0 {
            (value as u64) * 2
        } else {
            ((-(value + 1)) as u64) * 2 + 1
        };
        VarIntEncoder { value: raw, done: false }
    }

    /// Emit the next byte of the encoding, or nothing when it is finished.
    pub fn next(&mut self) -> (b: Option<u8>)
        ensures
            match b {
                Some(x) => old(self).pending().len() > 0 && x == old(self).pending()[0]
                    && final(self).pending() == old(self).pending().drop_first(),
                None => old(self).pending().len() == 0
                    && final(self).pending() == old(self).pending(),
            },
    {
        if self.done {
            None
        } else if self.value >= 128 {
            let out: u8 = ((self.value % 128) + 128) as u8;
            self.value = self.value / 128;
            proof {
                assert(old(self).pending().drop_first() =~= lsb_encode(
                    (old(self).value / 128) as nat,
                ));
            }
            Some(out)
        } else {
            let out: u8 = self.value as u8;
            self.done = true;
            proof {
                assert(old(self).pending().drop_first() =~= Seq::<u8>::empty());
            }
            Some(out)
        }
    }
}

/// Adding nothing to the read count changes nothing.
proof fn lemma_outcome_after_zero(o: DecodeOutcome)
    ensures
        outcome_after(o, 0) == o,
{
}

/// Read counts added in two steps equal one addition.
proof fn lemma_outcome_after_adds(o: DecodeOutcome, m: nat, n: nat)
    ensures
        outcome_after(outcome_after(o, m), n) == outcome_after(o, m + n),
{
}

/// Feeding the decoder a byte sequence in two pieces is the same as feeding
/// it their concatenation: a completed or overflowed prefix is unaffected by
/// what follows, and an incomplete prefix resumes from its partial state.
pub proof fn lemma_lsb_decode_append(value: nat, shift: nat, width: nat, a: Seq<u8>, b: Seq<u8>)
    ensures
        lsb_decode(value, shift, width, a + b) == (match lsb_decode(value, shift, width, a) {
            DecodeOutcome::Incomplete { value: v2, shift: s2, read } => outcome_after(
                lsb_decode(v2, s2, width, b),
                a.len(),
            ),
            o => o,
        }),
    decreases a.len(),
{
    if a.len() == 0 {
        assert(a + b =~= b);
        lemma_outcome_after_zero(lsb_decode(value, shift, width, b));
    } else {
        let h = a[0];
        assert((a + b)[0] == h);
        let group = (h % 128) as nat;
        if h < 128 {
        } else if shift + 7 >= width {
        } else {
            assert((a + b).drop_first() =~= a.drop_first() + b);
            let v2 = value + group * pow2(shift);
            lemma_lsb_decode_append(v2, shift + 7, width, a.drop_first(), b);
            match lsb_decode(v2, shift + 7, width, a.drop_first()) {
                DecodeOutcome::Incomplete { value: v3, shift: s3, read } => {
                    lemma_outcome_after_adds(
                        lsb_decode(v3, s3, width, b),
                        (a.len() - 1) as nat,
                        1,
                    );
                },
                _ => {},
            }
        }
    }
}

/// Resumability: decoding `src` cut at any point `k` and resuming from the
/// partial state equals decoding all of `src` at once, byte counts included.
pub proof fn lemma_resumable_u64(src: Seq<u8>, k: int)
    requires
        0 <= k <= src.len(),
    ensures
        match lsb_decode(0, 0, 64, src.take(k)) {
            DecodeOutcome::Incomplete { value: v2, shift: s2, read } => {
                &&& read == k
                &&& partial_wf(v2, s2, 64)
                &&& lsb_decode(0, 0, 64, src) == outcome_after(
                    lsb_decode(v2, s2, 64, src.skip(k)),
                    k as nat,
                )
            },
            o => lsb_decode(0, 0, 64, src) == o,
        },
{
    lemma_pow2_pos(0);
    assert(src.take(k) + src.skip(k) =~= src);
    lemma_lsb_decode_append(0, 0, 64, src.take(k), src.skip(k));
    lemma_lsb_decode_wf(0, 0, 64, src.take(k));
}

/// Resumability for the signed decoder: the partial state it hands out
/// stores the raw accumulated bits, and resuming from them equals decoding
/// all of `src` at once.
pub proof fn lemma_resumable_i64(src: Seq<u8>, k: int)
    requires
        0 <= k <= src.len() <= usize::MAX,
    ensures
        match result_i64(lsb_decode(0, 0, 64, src.take(k))) {
            VarIntResult::Incomplete((inc, read)) => read == k && partial_wf(
                (inc.value as u64) as nat,
                inc.shift as nat,
                64,
            ) && lsb_decode(0, 0, 64, src) == outcome_after(
                lsb_decode((inc.value as u64) as nat, inc.shift as nat, 64, src.skip(k)),
                k as nat,
            ),
            _ => true,
        },
{
    lemma_pow2_pos(0);
    lemma_resumable_u64(src, k);
    lemma_lsb_decode_wf(0, 0, 64, src.take(k));
    lemma2_to64();
    lemma2_to64_rest();
    match lsb_decode(0, 0, 64, src.take(k)) {
        DecodeOutcome::Incomplete { value: v2, shift: s2, read } => {
            lemma_pow2_strictly_increases(s2, 64);
            let raw = v2 as u64;
            assert(((raw as i64) as u64) == raw) by (bit_vector);
        },
        _ => {},
    }
}

/// An encoding is never empty, and a value of `7 * k` bits takes at most `k`
/// bytes.
proof fn lemma_lsb_encode_len(v: nat, k: nat)
    requires
        1 <= k,
        v < pow2(7 * k),
    ensures
        1 <= lsb_encode(v).len() <= k,
    decreases v,
{
    lemma2_to64();
    if v >= 128 {
        if k < 2 {
            assert(false);
        } else {
            lemma_pow2_adds(7 * (k - 1) as nat, 7);
            assert(v / 128 < pow2(7 * (k - 1) as nat)) by (nonlinear_arith)
                requires
                    v < pow2(7 * (k - 1) as nat) * 128,
            ;
            lemma_lsb_encode_len(v / 128, (k - 1) as nat);
        }
    }
}

/// Decoding the canonical encoding of `v` from a partial state completes
/// with `v` placed at the current shift, consuming the whole encoding.
proof fn lemma_lsb_decode_encode(value: nat, shift: nat, width: nat, v: nat)
    requires
        partial_wf(value, shift, width),
        v < pow2((width - shift) as nat),
    ensures
        lsb_decode(value, shift, width, lsb_encode(v)) == (DecodeOutcome::Complete {
            value: value + v * pow2(shift),
            read: lsb_encode(v).len(),
        }),
    decreases v,
{
    lemma2_to64();
    let e = lsb_encode(v);
    if v < 128 {
        lemma_bit_width_le(v, (width - shift) as nat);
        assert(e[0] == v as u8);
        assert(e.len() == 1);
    } else {
        // the first byte has its high bit set, so the decoder recurses
        if width - shift <= 7 {
            lemma_pow2_strictly_increases((width - shift) as nat, 7);
            if width - shift == 7 {
                assert(pow2(7) == 128);
            }
            assert(false);
        }
        let h = e[0];
        assert(h == (128 + v % 128) as u8);
        assert(h >= 128);
        let group = (h % 128) as nat;
        assert(group == v % 128);
        lemma_group_bound(value, group, shift, 7);
        lemma_pow2_adds(shift, 7);
        lemma_pow2_adds((width - shift - 7) as nat, 7);
        assert(v / 128 < pow2((width - shift - 7) as nat)) by (nonlinear_arith)
            requires
                v < pow2((width - shift - 7) as nat) * 128,
        ;
        let value2 = value + group * pow2(shift);
        lemma_lsb_decode_encode(value2, shift + 7, width, v / 128);
        assert(e.drop_first() =~= lsb_encode(v / 128));
        vstd::arithmetic::div_mod::lemma_fundamental_div_mod(v as int, 128);
        assert(value2 + (v / 128) * pow2(shift + 7) == value + v * pow2(shift))
            by (nonlinear_arith)
            requires
                value2 == value + (v % 128) * pow2(shift),
                v == 128 * (v / 128) + v % 128,
                pow2(shift + 7) == pow2(shift) * 128,
        ;
    }
}

/// Round trip: for every unsigned 64-bit value, decoding the encoding
/// completes with the same value, consuming exactly the encoding.
pub proof fn lemma_round_trip_u64(v: u64)
    ensures
        result_u64(lsb_decode(0, 0, 64, lsb_encode(v as nat))) == VarIntResult::Complete(
            (v, lsb_encode(v as nat).len() as usize),
        ),
{
    lemma_pow2_pos(0);
    lemma2_to64();
    lemma2_to64_rest();
    lemma_lsb_decode_encode(0, 0, 64, v as nat);
    assert((v as nat) < pow2(70)) by {
        lemma_pow2_strictly_increases(64, 70);
    }
    lemma_lsb_encode_len(v as nat, 10);
}

/// Round trip for unsigned 32-bit values.
pub proof fn lemma_round_trip_u32(v: u32)
    ensures
        result_u32(lsb_decode(0, 0, 32, lsb_encode(v as nat))) == VarIntResult::Complete(
            (v, lsb_encode(v as nat).len() as usize),
        ),
{
    lemma_pow2_pos(0);
    lemma2_to64();
    lemma2_to64_rest();
    lemma_lsb_decode_encode(0, 0, 32, v as nat);
    assert((v as nat) < pow2(35)) by {
        lemma_pow2_strictly_increases(32, 35);
    }
    lemma_lsb_encode_len(v as nat, 5);
}

/// Round trip for unsigned 16-bit values.
pub proof fn lemma_round_trip_u16(v: u16)
    ensures
        result_u16(lsb_decode(0, 0, 16, lsb_encode(v as nat))) == VarIntResult::Complete(
            (v, lsb_encode(v as nat).len() as usize),
        ),
{
    lemma_pow2_pos(0);
    lemma2_to64();
    lemma_lsb_decode_encode(0, 0, 16, v as nat);
    assert((v as nat) < pow2(21)) by {
        lemma_pow2_strictly_increases(16, 21);
    }
    lemma_lsb_encode_len(v as nat, 3);
}

/// Round trip for signed 64-bit values through the zigzag map.
pub proof fn lemma_round_trip_i64(v: i64)
    ensures
        result_i64(lsb_decode(0, 0, 64, lsb_encode(zigzag_enc(v as int)))) == VarIntResult::Complete(
            (v, lsb_encode(zigzag_enc(v as int)).len() as usize),
        ),
{
    lemma_pow2_pos(0);
    lemma2_to64();
    lemma2_to64_rest();
    let u = zigzag_enc(v as int);
    assert(u < pow2(64));
    lemma_lsb_decode_encode(0, 0, 64, u);
    assert(u < pow2(70)) by {
        lemma_pow2_strictly_increases(64, 70);
    }
    lemma_lsb_encode_len(u, 10);
    lemma_zigzag_round_trip(v as int);
}

} // verus!
