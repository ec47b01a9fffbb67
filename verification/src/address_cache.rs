//! The COPY-address cache (RFC 3284 §5.3): a near cache of the most recent
//! addresses and a same cache keyed by the address modulo its size let a
//! delta stream encode addresses close to recent ones in one or two bytes.

use vstd::prelude::*;
use crate::decoder::DecodeError;
use crate::varint::ParseResult;
use crate::varint::ScanOutcome;
use crate::varint::decode_varint_u64;
use crate::varint::msb_decode;

verus! {

/// The mathematical content of an address cache.
pub ghost struct CacheModel {
    pub near: Seq<u64>,
    pub same: Seq<u64>,
    pub next: nat,
}

/// The shape every cache keeps: a nonempty near cache, a same cache of
/// whole blocks of 256 slots, and a slot pointer inside the near cache.
pub open spec fn cache_wf(c: CacheModel) -> bool {
    &&& 1 <= c.near.len()
    &&& 256 <= c.same.len()
    &&& c.same.len() % 256 == 0
    &&& c.next < c.near.len()
}

/// Outcome of decoding one COPY address.
pub enum CacheScan {
    Done { next: nat, addr: u64, cache: CacheModel },
    Failed,
}

/// The cache after `addr` has been decoded: the address takes the next near
/// slot, and its slot of the same cache, unconditionally.
pub open spec fn cache_update(c: CacheModel, addr: u64) -> CacheModel {
    CacheModel {
        near: c.near.update(c.next as int, addr),
        same: c.same.update((addr as nat % c.same.len()) as int, addr),
        next: (c.next + 1) % c.near.len(),
    }
}

/// Decode one COPY address at position `i` of the addresses section.
///
/// Mode 0 reads the address as a varint; mode 1 reads a varint distance
/// below `here`; a near mode reads a varint distance above a near slot; a
/// same mode reads one raw byte indexing a block of the same cache. Any
/// other mode, a distance that leaves the address space, or running out of
/// bytes is a format failure.
pub open spec fn addr_decode(c: CacheModel, here: u64, mode: u8, s: Seq<u8>, i: nat) -> CacheScan {
    if mode == 0 {
        match msb_decode(s, i, 0, 64) {
            ScanOutcome::Done { next, value } => CacheScan::Done {
                next,
                addr: value as u64,
                cache: cache_update(c, value as u64),
            },
            _ => CacheScan::Failed,
        }
    } else if mode == 1 {
        match msb_decode(s, i, 0, 64) {
            ScanOutcome::Done { next, value } => if value <= here {
                CacheScan::Done {
                    next,
                    addr: (here - value) as u64,
                    cache: cache_update(c, (here - value) as u64),
                }
            } else {
                CacheScan::Failed
            },
            _ => CacheScan::Failed,
        }
    } else if mode - 2 < c.near.len() {
        match msb_decode(s, i, 0, 64) {
            ScanOutcome::Done { next, value } => if c.near[mode - 2] + value <= u64::MAX {
                CacheScan::Done {
                    next,
                    addr: (c.near[mode - 2] + value) as u64,
                    cache: cache_update(c, (c.near[mode - 2] + value) as u64),
                }
            } else {
                CacheScan::Failed
            },
            _ => CacheScan::Failed,
        }
    } else if mode - 2 - c.near.len() < c.same.len() / 256 {
        if i < s.len() {
            let addr = c.same[(mode - 2 - c.near.len()) * 256 + s[i as int]];
            CacheScan::Done { next: i + 1, addr, cache: cache_update(c, addr) }
        } else {
            CacheScan::Failed
        }
    } else {
        CacheScan::Failed
    }
}

/// Whatever mode produced an address, the address can at once be decoded
/// again through the near-cache slot it now occupies, with a zero distance,
/// and the result is the identical address.
pub proof fn lemma_cached_address_rederivable(
    c: CacheModel,
    here: u64,
    mode: u8,
    s: Seq<u8>,
    i: nat,
    here2: u64,
)
    requires
        cache_wf(c),
        c.near.len() + 2 <= 255,
    ensures
        match addr_decode(c, here, mode, s, i) {
            CacheScan::Done { next, addr, cache } => match addr_decode(
                cache,
                here2,
                (2 + c.next) as u8,
                seq![0u8],
                0,
            ) {
                CacheScan::Done { next: n2, addr: a2, cache: c2 } => a2 == addr,
                CacheScan::Failed => false,
            },
            CacheScan::Failed => true,
        },
{
    match addr_decode(c, here, mode, s, i) {
        CacheScan::Done { next, addr, cache } => {
            assert(cache.near[c.next as int] == addr);
            assert(seq![0u8][0] == 0u8);
            assert(msb_decode(seq![0u8], 0, 0, 64) == (ScanOutcome::Done { next: 1nat, value: 0nat }));
        },
        CacheScan::Failed => {},
    }
}

/// Before any address has been cached — in particular right after a reset —
/// every same-cache mode decodes to the deterministic default address 0.
pub proof fn lemma_same_cache_default(c: CacheModel, here: u64, mode: u8, s: Seq<u8>, i: nat)
    requires
        cache_wf(c),
        forall|j: int| 0 <= j < c.same.len() ==> c.same[j] == 0,
        2 + c.near.len() <= mode,
        mode - 2 - c.near.len() < c.same.len() / 256,
        i < s.len(),
    ensures
        match addr_decode(c, here, mode, s, i) {
            CacheScan::Done { next, addr, cache } => addr == 0,
            CacheScan::Failed => false,
        },
{
    let q = mode - 2 - c.near.len();
    let b = s[i as int];
    assert(q * 256 + b < c.same.len()) by (nonlinear_arith)
        requires
            q < c.same.len() / 256,
            0 <= q,
            b < 256,
            c.same.len() % 256 == 0,
    ;
}

/// The COPY-address cache. It is reset at the start of every window and
/// updated after every decoded address.
#[derive(Debug, PartialEq)]
pub struct AddressCache {
    near: Vec<u64>,
    same: Vec<u64>,
    next_near_slot: usize,
}

impl View for AddressCache {
    type V = CacheModel;

    closed spec fn view(&self) -> CacheModel {
        CacheModel { near: self.near@, same: self.same@, next: self.next_near_slot as nat }
    }
}

impl AddressCache {
    /// A zeroed cache of `near_size` near slots and `256 * same_mult` same
    /// slots.
    pub fn new(near_size: usize, same_mult: usize) -> (c: AddressCache)
        requires
            1 <= near_size,
            1 <= same_mult <= usize::MAX / 256,
        ensures
            cache_wf(c@),
            c@.near.len() == near_size,
            c@.same.len() == 256 * same_mult,
            c@.next == 0,
            forall|j: int| 0 <= j < c@.near.len() ==> c@.near[j] == 0,
            forall|j: int| 0 <= j < c@.same.len() ==> c@.same[j] == 0,
    {
        let mut near: Vec<u64> = Vec::new();
        let mut i: usize = 0;
        while i < near_size
            invariant
                i <= near_size,
                near@.len() == i,
                forall|j: int| 0 <= j < i ==> near@[j] == 0,
            decreases near_size - i,
        {
            near.push(0);
            i = i + 1;
        }
        let same_size = 256 * same_mult;
        let mut same: Vec<u64> = Vec::new();
        let mut k: usize = 0;
        while k < same_size
            invariant
                k <= same_size,
                same@.len() == k,
                forall|j: int| 0 <= j < k ==> same@[j] == 0,
            decreases same_size - k,
        {
            same.push(0);
            k = k + 1;
        }
        proof {
            assert(256 * same_mult % 256 == 0) by (nonlinear_arith);
        }
        AddressCache { near, same, next_near_slot: 0 }
    }

    /// Zero both caches and the slot pointer, keeping their sizes. Invoked
    /// once per window before instruction interpretation begins.
    pub fn reset(&mut self)
        ensures
            final(self)@.near.len() == old(self)@.near.len(),
            final(self)@.same.len() == old(self)@.same.len(),
            final(self)@.next == 0,
            forall|j: int| 0 <= j < final(self)@.near.len() ==> final(self)@.near[j] == 0,
            forall|j: int| 0 <= j < final(self)@.same.len() ==> final(self)@.same[j] == 0,
    {
        let mut i: usize = 0;
        while i < self.near.len()
            invariant
                i <= self.near@.len(),
                self.near@.len() == old(self)@.near.len(),
                self.same@ == old(self)@.same,
                forall|j: int| 0 <= j < i ==> self.near@[j] == 0,
            decreases self.near@.len() - i,
        {
            self.near[i] = 0;
            i = i + 1;
        }
        let mut k: usize = 0;
        while k < self.same.len()
            invariant
                k <= self.same@.len(),
                self.same@.len() == old(self)@.same.len(),
                self.near@.len() == old(self)@.near.len(),
                forall|j: int| 0 <= j < self.near@.len() ==> self.near@[j] == 0,
                forall|j: int| 0 <= j < k ==> self.same@[j] == 0,
            decreases self.same@.len() - k,
        {
            self.same[k] = 0;
            k = k + 1;
        }
        self.next_near_slot = 0;
    }

    /// Decode one COPY address at position `from` of the addresses section,
    /// returning the next position and the address.
    pub fn decode(&mut self, here: u64, mode: u8, src: &[u8], from: usize) -> (r: Result<
        (usize, u64),
        DecodeError,
    >)
        requires
            cache_wf(old(self)@),
            from <= src@.len(),
        ensures
            cache_wf(final(self)@),
            match r {
                Ok((next, addr)) => from <= next <= src@.len() && addr_decode(
                    old(self)@,
                    here,
                    mode,
                    src@,
                    from as nat,
                ) == (CacheScan::Done { next: next as nat, addr, cache: final(self)@ }),
                Err(e) => e == DecodeError::FormatError && final(self)@ == old(self)@
                    && addr_decode(old(self)@, here, mode, src@, from as nat) is Failed,
            },
    {
        proof {
            vstd::arithmetic::power2::lemma2_to64();
            vstd::arithmetic::power2::lemma2_to64_rest();
            crate::varint::lemma_msb_decode_wf(src@, from as nat, 0, 64);
        }
        let src_len = src.len();
        proof {
            assert(src@.len() <= usize::MAX);
        }
        let near_len = self.near.len();
        let addr: u64;
        let next: usize;
        if mode == 0 {
            match decode_varint_u64(src, from) {
                ParseResult::Done(n, v) => {
                    addr = v;
                    next = n;
                },
                _ => {
                    return Err(DecodeError::FormatError);
                },
            }
        } else if mode == 1 {
            match decode_varint_u64(src, from) {
                ParseResult::Done(n, v) => {
                    if v <= here {
                        addr = here - v;
                        next = n;
                    } else {
                        return Err(DecodeError::FormatError);
                    }
                },
                _ => {
                    return Err(DecodeError::FormatError);
                },
            }
        } else if (mode as usize) - 2 < near_len {
            let slot = self.near[(mode as usize) - 2];
            match decode_varint_u64(src, from) {
                ParseResult::Done(n, v) => {
                    if v <= u64::MAX - slot {
                        addr = slot + v;
                        next = n;
                    } else {
                        return Err(DecodeError::FormatError);
                    }
                },
                _ => {
                    return Err(DecodeError::FormatError);
                },
            }
        } else if (mode as usize) - 2 - near_len < self.same.len() / 256 {
            if from < src_len {
                let b = src[from];
                addr = self.same[((mode as usize) - 2 - near_len) * 256 + (b as usize)];
                next = from + 1;
            } else {
                return Err(DecodeError::FormatError);
            }
        } else {
            return Err(DecodeError::FormatError);
        }
        let slot = self.next_near_slot;
        self.near[slot] = addr;
        self.next_near_slot = (slot + 1) % near_len;
        let same_len = self.same.len();
        let same_idx = (addr % (same_len as u64)) as usize;
        self.same[same_idx] = addr;
        proof {
            let c0 = old(self)@;
            assert(self@.near =~= c0.near.update(c0.next as int, addr));
            assert(self@.same =~= c0.same.update((addr as nat % c0.same.len()) as int, addr));
            assert(self@.next == (c0.next + 1) % c0.near.len());
            assert(self@ == cache_update(c0, addr));
            match addr_decode(c0, here, mode, src@, from as nat) {
                CacheScan::Done { next: sn, addr: sa, cache: sc } => {
                    assert(sa == addr);
                    assert(sn == next as nat);
                    assert(sc == self@);
                },
                CacheScan::Failed => {
                    assert(false);
                },
            }
        }
        Ok((next, addr))
    }
}

} // verus!
