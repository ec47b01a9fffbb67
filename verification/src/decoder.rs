//! The streaming decode engine: buffers arbitrarily fragmented input,
//! drives the format parser, and replays each window's instructions against
//! the source document and the target produced so far.

use vstd::prelude::*;
use crate::address_cache::AddressCache;
use crate::address_cache::CacheModel;
use crate::address_cache::CacheScan;
use crate::address_cache::addr_decode;
use crate::address_cache::cache_wf;
use crate::code_table::CodeTable;
use crate::code_table::CodeTableEntry;
use crate::code_table::Instruction;
use crate::code_table::InstructionType;
use crate::varint::ParseResult;
use crate::varint::ScanOutcome;
use crate::varint::decode_varint_u64;
use crate::varint::msb_decode;
use crate::vcdiff::VCD_SOURCE;
use crate::vcdiff::WindowHeader;
use crate::vcdiff::bit_set;

verus! {

/// What a decode call reports when it runs out of input: at a window
/// boundary with nothing buffered the stream may also simply be over.
#[derive(Debug, PartialEq, Eq, Structural, Copy, Clone)]
pub enum DecoderState {
    WantMoreInput,
    WantMoreInputOrDone,
}

/// Why a decode session failed; either way the session cannot continue.
#[derive(Debug, PartialEq, Eq, Structural, Copy, Clone)]
pub enum DecodeError {
    /// The delta stream is malformed.
    FormatError,
    /// The delta stream declares compressed section data, which this decoder
    /// refuses rather than risking wrong output.
    UnsupportedFeature,
}

/// `n` copies of one byte.
pub open spec fn repeat_byte(b: u8, n: nat) -> Seq<u8>
    decreases n,
{
    if n == 0 {
        Seq::empty()
    } else {
        repeat_byte(b, (n - 1) as nat).push(b)
    }
}

/// Copy `n` bytes one at a time from position `from` of `t` to its end.
/// The copied range may run into the bytes being appended: each byte is
/// read only after the bytes before it were written, which is what lets a
/// short seed expand into a long repetition.
pub open spec fn self_copy(t: Seq<u8>, from: nat, n: nat) -> Seq<u8>
    decreases n,
{
    if n == 0 {
        t
    } else if from >= t.len() {
        t  // never reached under the bounds the interpreter checks
    } else {
        self_copy(t.push(t[from as int]), from + 1, (n - 1) as nat)
    }
}

/// What a byte-wise overlapping copy guarantees: the original bytes stay,
/// `n` bytes are appended, and every appended byte equals the byte `n`
/// places earlier than its source position in the final sequence — the
/// defining recurrence, which holds across the overlap.
pub proof fn lemma_self_copy_overlap(t: Seq<u8>, from: nat, n: nat)
    requires
        from < t.len() || n == 0,
    ensures
        self_copy(t, from, n).len() == t.len() + n,
        forall|j: int| 0 <= j < t.len() ==> self_copy(t, from, n)[j] == t[j],
        forall|j: int|
            0 <= j < n ==> #[trigger] self_copy(t, from, n)[t.len() + j] == self_copy(t, from, n)[from
                + j],
    decreases n,
{
    if n > 0 {
        let t2 = t.push(t[from as int]);
        lemma_self_copy_overlap(t2, from + 1, (n - 1) as nat);
        let r = self_copy(t, from, n);
        let r2 = self_copy(t2, from + 1, (n - 1) as nat);
        assert(r == r2);
        assert forall|j: int| 0 <= j < t.len() implies r[j] == t[j] by {
            assert(r2[j] == t2[j]);
        }
        assert forall|j: int| 0 <= j < n implies #[trigger] r[t.len() + j] == r[from + j] by {
            if j == 0 {
                assert(r2[t.len() as int] == t2[t.len() as int]);
                assert(r2[from as int] == t2[from as int]);
            } else {
                assert(r2[t2.len() + (j - 1)] == r2[from + 1 + (j - 1)]);
            }
        }
    }
}

/// A copy whose source region holds one repeated byte appends only that
/// byte — the direct analogue of a run. In particular a copy that starts
/// at the last byte written expands it `n` times.
pub proof fn lemma_self_copy_repeats(t: Seq<u8>, from: nat, n: nat)
    requires
        from < t.len(),
        forall|k: int| from <= k < t.len() ==> t[k] == t[from as int],
    ensures
        forall|j: int|
            0 <= j < n ==> #[trigger] self_copy(t, from, n)[t.len() + j] == t[from as int],
    decreases n,
{
    if n > 0 {
        let t2 = t.push(t[from as int]);
        assert forall|k: int| from + 1 <= k < t2.len() implies #[trigger] t2[k] == t2[from as int
            + 1] by {
            if k < t.len() {
                assert(t2[k] == t[k]);
            }
            if from + 1 < t.len() {
                assert(t2[from as int + 1] == t[from as int + 1]);
            }
        }
        lemma_self_copy_repeats(t2, from + 1, (n - 1) as nat);
        lemma_self_copy_overlap(t2, from + 1, (n - 1) as nat);
        let r = self_copy(t, from, n);
        let r2 = self_copy(t2, from + 1, (n - 1) as nat);
        assert(r == r2);
        assert forall|j: int| 0 <= j < n implies #[trigger] r[t.len() + j] == t[from as int] by {
            if j == 0 {
                assert(r2[t.len() as int] == t2[t.len() as int]);
            } else {
                assert(r2[t2.len() + (j - 1)] == t2[from as int + 1]);
            }
        }
    }
}

/// The length of a window's source segment; zero when it has none.
pub open spec fn segment_length(win: WindowHeader) -> nat {
    match win.source_segment {
        Some((pos, len)) => len as nat,
        None => 0,
    }
}

/// The position of a window's source segment.
pub open spec fn segment_position(win: WindowHeader) -> nat {
    match win.source_segment {
        Some((pos, len)) => pos as nat,
        None => 0,
    }
}

/// The size of one instruction: inline in the code table entry when
/// nonzero, else read as a varint from the instructions section. A size
/// the machine cannot address is refused.
pub open spec fn read_size(insts: Seq<u8>, ip: nat, inline: u8) -> Result<(nat, nat), DecodeError> {
    if inline != 0 {
        Ok((ip, inline as nat))
    } else {
        match msb_decode(insts, ip, 0, 64) {
            ScanOutcome::Done { next, value } => if value <= usize::MAX {
                Ok((next, value))
            } else {
                Err(DecodeError::FormatError)
            },
            _ => Err(DecodeError::FormatError),
        }
    }
}

/// The running state of one window's interpretation: the target bytes
/// built so far, the cursors into the adds/runs and addresses sections,
/// and the address cache.
pub ghost struct WindowState {
    pub target: Seq<u8>,
    pub adds_pos: nat,
    pub addr_pos: nat,
    pub cache: CacheModel,
}

/// Execute one instruction against the window state, yielding the next
/// position of the instructions section and the new state.
///
/// An add takes its bytes from the adds/runs section; a run takes one byte
/// there and repeats it; a copy decodes an address against `here` — the
/// segment length plus the bytes produced so far — and takes its bytes
/// from the external segment when the address falls inside it, and from
/// the window's own output, byte by byte, when it falls after it. Any
/// cursor that would leave its section is a format failure.
pub open spec fn run_inst(
    win: WindowHeader,
    source: Seq<u8>,
    flushed: Seq<u8>,
    adds: Seq<u8>,
    insts: Seq<u8>,
    addrs: Seq<u8>,
    inst: Instruction,
    ip: nat,
    st: WindowState,
) -> Result<(nat, WindowState), DecodeError> {
    match read_size(insts, ip, inst.size) {
        Err(e) => Err(e),
        Ok((ip2, sz)) => match inst.typ {
            InstructionType::Add => if st.adds_pos + sz <= adds.len() {
                Ok(
                    (
                        ip2,
                        WindowState {
                            target: st.target + adds.subrange(
                                st.adds_pos as int,
                                (st.adds_pos + sz) as int,
                            ),
                            adds_pos: st.adds_pos + sz,
                            ..st
                        },
                    ),
                )
            } else {
                Err(DecodeError::FormatError)
            },
            InstructionType::Run => if st.adds_pos < adds.len() {
                Ok(
                    (
                        ip2,
                        WindowState {
                            target: st.target + repeat_byte(adds[st.adds_pos as int], sz),
                            adds_pos: st.adds_pos + 1,
                            ..st
                        },
                    ),
                )
            } else {
                Err(DecodeError::FormatError)
            },
            InstructionType::Copy => {
                let source_length = segment_length(win);
                if st.target.len() + source_length > u64::MAX {
                    Err(DecodeError::FormatError)
                } else {
                    let here = (st.target.len() + source_length) as u64;
                    match addr_decode(st.cache, here, inst.mode, addrs, st.addr_pos) {
                        CacheScan::Failed => Err(DecodeError::FormatError),
                        CacheScan::Done { next, addr, cache } => {
                            let st2 = WindowState { addr_pos: next, cache, ..st };
                            if (addr as nat) < source_length {
                                let start = segment_position(win) + addr;
                                if bit_set(win.win_indicator, VCD_SOURCE) {
                                    if start + sz <= source.len() {
                                        Ok(
                                            (
                                                ip2,
                                                WindowState {
                                                    target: st2.target + source.subrange(
                                                        start as int,
                                                        (start + sz) as int,
                                                    ),
                                                    ..st2
                                                },
                                            ),
                                        )
                                    } else {
                                        Err(DecodeError::FormatError)
                                    }
                                } else {
                                    if start + sz <= flushed.len() {
                                        Ok(
                                            (
                                                ip2,
                                                WindowState {
                                                    target: st2.target + flushed.subrange(
                                                        start as int,
                                                        (start + sz) as int,
                                                    ),
                                                    ..st2
                                                },
                                            ),
                                        )
                                    } else {
                                        Err(DecodeError::FormatError)
                                    }
                                }
                            } else {
                                let off = (addr as nat - source_length) as nat;
                                if sz == 0 || off < st2.target.len() {
                                    Ok(
                                        (
                                            ip2,
                                            WindowState {
                                                target: self_copy(st2.target, off, sz),
                                                ..st2
                                            },
                                        ),
                                    )
                                } else {
                                    Err(DecodeError::FormatError)
                                }
                            }
                        },
                    }
                }
            },
        },
    }
}

/// Walk the instructions section from position `ip`: each selector byte
/// names one or two instructions, executed in order against the same
/// state. At the end, the adds/runs and addresses sections must have been
/// consumed exactly.
pub open spec fn interpret_loop(
    ct: Seq<CodeTableEntry>,
    win: WindowHeader,
    source: Seq<u8>,
    flushed: Seq<u8>,
    adds: Seq<u8>,
    insts: Seq<u8>,
    addrs: Seq<u8>,
    st: WindowState,
    ip: nat,
) -> Result<WindowState, DecodeError>
    decreases insts.len() - ip,
    when ip <= insts.len() && ct.len() == 256
{
    if ip >= insts.len() {
        if st.adds_pos == adds.len() && st.addr_pos == addrs.len() {
            Ok(st)
        } else {
            Err(DecodeError::FormatError)
        }
    } else {
        let entry = ct[insts[ip as int] as int];
        match run_inst(win, source, flushed, adds, insts, addrs, entry.first, ip + 1, st) {
            Err(e) => Err(e),
            Ok((ip2, st2)) => {
                proof {
                    lemma_run_inst_monotone(
                        win,
                        source,
                        flushed,
                        adds,
                        insts,
                        addrs,
                        entry.first,
                        ip + 1,
                        st,
                    );
                }
                if ip2 > insts.len() {
                    Err(DecodeError::FormatError)  // never reached: sizes stay inside the section
                } else {
                    match entry.second {
                        None => interpret_loop(ct, win, source, flushed, adds, insts, addrs, st2, ip2),
                        Some(inst2) => match run_inst(
                            win,
                            source,
                            flushed,
                            adds,
                            insts,
                            addrs,
                            inst2,
                            ip2,
                            st2,
                        ) {
                            Err(e) => Err(e),
                            Ok((ip3, st3)) => {
                                proof {
                                    lemma_run_inst_monotone(
                                        win,
                                        source,
                                        flushed,
                                        adds,
                                        insts,
                                        addrs,
                                        inst2,
                                        ip2,
                                        st2,
                                    );
                                }
                                if ip3 > insts.len() {
                                    Err(DecodeError::FormatError)  // never reached
                                } else {
                                    interpret_loop(
                                        ct,
                                        win,
                                        source,
                                        flushed,
                                        adds,
                                        insts,
                                        addrs,
                                        st3,
                                        ip3,
                                    )
                                }
                            },
                        },
                    }
                }
            },
        }
    }
}

/// An executed instruction moves the instruction cursor forward, and not
/// past the section.
pub proof fn lemma_run_inst_monotone(
    win: WindowHeader,
    source: Seq<u8>,
    flushed: Seq<u8>,
    adds: Seq<u8>,
    insts: Seq<u8>,
    addrs: Seq<u8>,
    inst: Instruction,
    ip: nat,
    st: WindowState,
)
    requires
        ip <= insts.len(),
    ensures
        match run_inst(win, source, flushed, adds, insts, addrs, inst, ip, st) {
            Ok((ip2, st2)) => ip <= ip2 <= insts.len(),
            Err(e) => true,
        },
{
    vstd::arithmetic::power2::lemma2_to64();
    vstd::arithmetic::power2::lemma2_to64_rest();
    if inst.size == 0 {
        crate::varint::lemma_msb_decode_wf(insts, ip, 0, 64);
    }
}

/// A sequence of `n` zeros.
pub open spec fn zero_seq(n: nat) -> Seq<u64>
    decreases n,
{
    if n == 0 {
        Seq::empty()
    } else {
        zero_seq((n - 1) as nat).push(0)
    }
}

/// Every slot of `zero_seq` is zero.
pub proof fn lemma_zero_seq(n: nat)
    ensures
        zero_seq(n).len() == n,
        forall|j: int| 0 <= j < n ==> zero_seq(n)[j] == 0,
    decreases n,
{
    if n > 0 {
        lemma_zero_seq((n - 1) as nat);
    }
}

/// The number of near slots every decoder's cache has.
pub open spec fn near_size() -> nat {
    4
}

/// The number of same slots every decoder's cache has.
pub open spec fn same_size() -> nat {
    768
}

/// The cache at the start of every window: both tables zeroed, the slot
/// pointer at the first slot.
pub open spec fn zeroed_cache() -> CacheModel {
    CacheModel { near: zero_seq(near_size()), same: zero_seq(same_size()), next: 0 }
}

/// Interpret one window: refuse a declared compressed section, then replay
/// the instructions with a fresh address cache, starting from an empty
/// target, which must come out exactly as large as the header declared.
pub open spec fn interpret_window(
    ct: Seq<CodeTableEntry>,
    win: WindowHeader,
    source: Seq<u8>,
    flushed: Seq<u8>,
    adds: Seq<u8>,
    insts: Seq<u8>,
    addrs: Seq<u8>,
) -> Result<Seq<u8>, DecodeError> {
    if win.delta_indicator != 0 {
        Err(DecodeError::UnsupportedFeature)
    } else {
        match interpret_loop(
            ct,
            win,
            source,
            flushed,
            adds,
            insts,
            addrs,
            WindowState { target: Seq::empty(), adds_pos: 0, addr_pos: 0, cache: zeroed_cache() },
            0,
        ) {
            Ok(st) => if st.target.len() == win.target_window_size {
                Ok(st.target)
            } else {
                Err(DecodeError::FormatError)
            },
            Err(e) => Err(e),
        }
    }
}

/// The phase of the decode state machine: the file header is read once,
/// then window headers and window bodies alternate for the life of the
/// stream.
#[derive(Debug, Copy, Clone, PartialEq, Eq, Structural)]
pub enum DecoderInternalState {
    WantHeader,
    WantWindowHeader,
    WantWindowData,
}

/// The mathematical content of a decoder: its phase, the code table in
/// force, the last window header, the unconsumed bytes, the source
/// document, and the target produced so far.
pub ghost struct DecoderModel {
    pub phase: DecoderInternalState,
    pub code_table: Seq<CodeTableEntry>,
    pub window: WindowHeader,
    pub buffer: Seq<u8>,
    pub source: Seq<u8>,
    pub output: Seq<u8>,
}

/// The same decoder with `input` appended to its unconsumed bytes.
pub open spec fn with_input(m: DecoderModel, input: Seq<u8>) -> DecoderModel {
    DecoderModel { buffer: m.buffer + input, ..m }
}

/// Outcome of one attempted step of the state machine.
pub enum StepOutcome {
    Next(DecoderModel),
    NeedMore,
    Failed(DecodeError),
}

/// One step: parse the file header, parse a window header, or — once the
/// three sections of the current window are fully buffered — interpret the
/// window and append its bytes to the output.
pub open spec fn spec_step(m: DecoderModel) -> StepOutcome {
    match m.phase {
        DecoderInternalState::WantHeader => match crate::vcdiff::header_parse(m.buffer, 0) {
            crate::vcdiff::HeaderScan::Done { next, table } => StepOutcome::Next(
                DecoderModel {
                    phase: DecoderInternalState::WantWindowHeader,
                    code_table: match table {
                        Some(t) => t,
                        None => m.code_table,
                    },
                    buffer: m.buffer.skip(next as int),
                    ..m
                },
            ),
            crate::vcdiff::HeaderScan::Incomplete => StepOutcome::NeedMore,
            crate::vcdiff::HeaderScan::Error => StepOutcome::Failed(DecodeError::FormatError),
        },
        DecoderInternalState::WantWindowHeader => match crate::vcdiff::window_parse(m.buffer, 0) {
            crate::vcdiff::WindowScan::Done { next, header } => StepOutcome::Next(
                DecoderModel {
                    phase: DecoderInternalState::WantWindowData,
                    window: header,
                    buffer: m.buffer.skip(next as int),
                    ..m
                },
            ),
            crate::vcdiff::WindowScan::Incomplete => StepOutcome::NeedMore,
            crate::vcdiff::WindowScan::Error => StepOutcome::Failed(DecodeError::FormatError),
        },
        DecoderInternalState::WantWindowData => {
            let s1 = m.window.adds_runs_size as nat;
            let s2 = m.window.instructions_size as nat;
            let s3 = m.window.copy_addresses_size as nat;
            let want = s1 + s2 + s3;
            if m.buffer.len() < want {
                StepOutcome::NeedMore
            } else {
                match interpret_window(
                    m.code_table,
                    m.window,
                    m.source,
                    m.output,
                    m.buffer.subrange(0, s1 as int),
                    m.buffer.subrange(s1 as int, (s1 + s2) as int),
                    m.buffer.subrange((s1 + s2) as int, want as int),
                ) {
                    Ok(target) => StepOutcome::Next(
                        DecoderModel {
                            phase: DecoderInternalState::WantWindowHeader,
                            output: m.output + target,
                            buffer: m.buffer.skip(want as int),
                            ..m
                        },
                    ),
                    Err(e) => StepOutcome::Failed(e),
                }
            }
        },
    }
}

/// A rank that makes the window loop terminate when a step consumes no
/// bytes: the body-to-header transition is the only such step.
pub open spec fn phase_rank(p: DecoderInternalState) -> nat {
    match p {
        DecoderInternalState::WantHeader => 2,
        DecoderInternalState::WantWindowHeader => 0,
        DecoderInternalState::WantWindowData => 1,
    }
}

/// A successful step never grows the buffer, and either consumes at least
/// one byte or lowers the phase rank.
pub proof fn lemma_spec_step_consumes(m: DecoderModel)
    ensures
        match spec_step(m) {
            StepOutcome::Next(m2) => m2.buffer.len() < m.buffer.len() || (m2.buffer.len()
                == m.buffer.len() && phase_rank(m2.phase) < phase_rank(m.phase)),
            _ => true,
        },
{
    match m.phase {
        DecoderInternalState::WantHeader => {
            crate::vcdiff::lemma_header_parse_wf(m.buffer, 0);
        },
        DecoderInternalState::WantWindowHeader => {
            crate::vcdiff::lemma_window_parse_wf(m.buffer, 0);
        },
        DecoderInternalState::WantWindowData => {},
    }
}

/// Run the state machine as far as the buffered bytes allow. The final
/// model keeps the unconsumed bytes; the result reports the stopping
/// condition: more input is needed, the stream may legitimately end here —
/// only at a window boundary with nothing buffered — or the stream is
/// malformed.
pub open spec fn spec_run(m: DecoderModel) -> (DecoderModel, Result<DecoderState, DecodeError>)
    decreases m.buffer.len(), phase_rank(m.phase),
{
    match spec_step(m) {
        StepOutcome::NeedMore => (
            m,
            Ok(
                if m.phase is WantWindowHeader && m.buffer.len() == 0 {
                    DecoderState::WantMoreInputOrDone
                } else {
                    DecoderState::WantMoreInput
                },
            ),
        ),
        StepOutcome::Failed(e) => (m, Err(e)),
        StepOutcome::Next(m2) => {
            proof {
                lemma_spec_step_consumes(m);
            }
            spec_run(m2)
        },
    }
}

/// The cursors of one window's interpretation, as executable state.
struct WindowCursor {
    target: Vec<u8>,
    adds_pos: usize,
    addr_pos: usize,
}

/// The state a cursor and a cache stand for.
pub open spec fn win_state(target: Seq<u8>, adds_pos: nat, addr_pos: nat, c: CacheModel) -> WindowState {
    WindowState { target, adds_pos, addr_pos, cache: c }
}

/// Execute one instruction against the window cursors.
#[verifier::loop_isolation(false)]
#[verifier::rlimit(100)]
fn exec_inst(
    win: &WindowHeader,
    source: &Vec<u8>,
    flushed: &Vec<u8>,
    adds: &[u8],
    insts: &[u8],
    addrs: &[u8],
    inst: Instruction,
    ip: usize,
    cur: &mut WindowCursor,
    cache: &mut AddressCache,
) -> (r: Result<usize, DecodeError>)
    requires
        ip <= insts@.len(),
        old(cur).adds_pos <= adds@.len(),
        old(cur).addr_pos <= addrs@.len(),
        cache_wf(old(cache)@),
    ensures
        cache_wf(final(cache)@),
        final(cache)@.near.len() == old(cache)@.near.len(),
        final(cache)@.same.len() == old(cache)@.same.len(),
        match r {
            Ok(ip2) => ip <= ip2 <= insts@.len() && final(cur).adds_pos <= adds@.len()
                && final(cur).addr_pos <= addrs@.len() && run_inst(
                *win,
                source@,
                flushed@,
                adds@,
                insts@,
                addrs@,
                inst,
                ip as nat,
                win_state(
                    old(cur).target@,
                    old(cur).adds_pos as nat,
                    old(cur).addr_pos as nat,
                    old(cache)@,
                ),
            ) == Ok::<(nat, WindowState), DecodeError>(
                (
                    ip2 as nat,
                    win_state(
                        final(cur).target@,
                        final(cur).adds_pos as nat,
                        final(cur).addr_pos as nat,
                        final(cache)@,
                    ),
                ),
            ),
            Err(e) => run_inst(
                *win,
                source@,
                flushed@,
                adds@,
                insts@,
                addrs@,
                inst,
                ip as nat,
                win_state(
                    old(cur).target@,
                    old(cur).adds_pos as nat,
                    old(cur).addr_pos as nat,
                    old(cache)@,
                ),
            ) == Err::<(nat, WindowState), DecodeError>(e),
        },
{
    let insts_len = insts.len();
    proof {
        assert(ip <= insts_len);
        vstd::arithmetic::power2::lemma2_to64();
        vstd::arithmetic::power2::lemma2_to64_rest();
        crate::varint::lemma_msb_decode_wf(insts@, ip as nat, 0, 64);
    }
    let sz_u: u64;
    let ip2: usize;
    if inst.size != 0 {
        sz_u = inst.size as u64;
        ip2 = ip;
    } else {
        match decode_varint_u64(insts, ip) {
            ParseResult::Done(n, v) => {
                if v > (usize::MAX as u64) {
                    return Err(DecodeError::FormatError);
                }
                ip2 = n;
                sz_u = v;
            },
            _ => {
                return Err(DecodeError::FormatError);
            },
        }
    }
    let sz = sz_u as usize;
    proof {
        if inst.size != 0 {
            assert(sz == inst.size);
            assert(ip2 == ip);
        } else {
            match msb_decode(insts@, ip as nat, 0, 64) {
                ScanOutcome::Done { next, value } => {
                    assert(value <= usize::MAX);
                    assert(sz as nat == value);
                    assert(ip2 as nat == next);
                },
                _ => {
                    assert(false);
                },
            }
        }
    }
    match inst.typ {
        InstructionType::Add => {
            proof {
                assert(read_size(insts@, ip as nat, inst.size) == Ok::<(nat, nat), DecodeError>(
                    (ip2 as nat, sz as nat),
                ));
            }
            if sz > adds.len() - cur.adds_pos {
                return Err(DecodeError::FormatError);
            }
            let piece = vstd::slice::slice_subrange(adds, cur.adds_pos, cur.adds_pos + sz);
            cur.target.extend_from_slice(piece);
            cur.adds_pos = cur.adds_pos + sz;
            proof {
                let st0 = win_state(
                    old(cur).target@,
                    old(cur).adds_pos as nat,
                    old(cur).addr_pos as nat,
                    old(cache)@,
                );
                let r0 = run_inst(
                    *win,
                    source@,
                    flushed@,
                    adds@,
                    insts@,
                    addrs@,
                    inst,
                    ip as nat,
                    st0,
                );
                assert(r0 is Ok);
                assert(r0->Ok_0.0 == ip2 as nat);
                assert(r0->Ok_0.1.target == cur.target@);
                assert(r0->Ok_0.1.adds_pos == cur.adds_pos as nat);
                assert(r0->Ok_0.1.addr_pos == cur.addr_pos as nat);
                assert(r0->Ok_0.1.cache == cache@);
            }
            Ok(ip2)
        },
        InstructionType::Run => {
            if cur.adds_pos >= adds.len() {
                return Err(DecodeError::FormatError);
            }
            let b = adds[cur.adds_pos];
            let mut piece: Vec<u8> = Vec::new();
            let mut k: usize = 0;
            proof {
                assert(piece@ =~= repeat_byte(b, 0));
            }
            while k < sz
                invariant
                    k <= sz,
                    piece@ == repeat_byte(b, k as nat),
                decreases sz - k,
            {
                piece.push(b);
                k = k + 1;
            }
            proof {
                assert(piece@ == repeat_byte(adds@[old(cur).adds_pos as int], sz as nat));
            }
            cur.target.append(&mut piece);
            cur.adds_pos = cur.adds_pos + 1;
            proof {
                assert(cur.target@ == old(cur).target@ + repeat_byte(
                    adds@[old(cur).adds_pos as int],
                    sz as nat,
                ));
            }
            Ok(ip2)
        },
        InstructionType::Copy => {
            let source_length: u64 = match win.source_segment {
                Some((p, l)) => l,
                None => 0,
            };
            let tlen = cur.target.len();
            if source_length > u64::MAX - (tlen as u64) {
                return Err(DecodeError::FormatError);
            }
            let here = (tlen as u64) + source_length;
            match cache.decode(here, inst.mode, addrs, cur.addr_pos) {
                Err(e) => Err(e),
                Ok((next, addr)) => {
                    cur.addr_pos = next;
                    let slen = source.len();
                    let flen = flushed.len();
                    if addr < source_length {
                        let pos: u64 = match win.source_segment {
                            Some((p, l)) => p,
                            None => 0,
                        };
                        if pos > u64::MAX - addr {
                            return Err(DecodeError::FormatError);
                        }
                        let start = pos + addr;
                        if crate::vcdiff::bit_set_exec(win.win_indicator, VCD_SOURCE) {
                            if start > (slen as u64) || (sz as u64) > (slen as u64) - start {
                                return Err(DecodeError::FormatError);
                            }
                            let piece = vstd::slice::slice_subrange(
                                source.as_slice(),
                                start as usize,
                                (start as usize) + sz,
                            );
                            cur.target.extend_from_slice(piece);
                            proof {
                                assert(cur.target@ == old(cur).target@ + source@.subrange(
                                    (segment_position(*win) + addr) as int,
                                    (segment_position(*win) + addr + sz) as int,
                                ));
                            }
                            Ok(ip2)
                        } else {
                            if start > (flen as u64) || (sz as u64) > (flen as u64) - start {
                                return Err(DecodeError::FormatError);
                            }
                            let piece = vstd::slice::slice_subrange(
                                flushed.as_slice(),
                                start as usize,
                                (start as usize) + sz,
                            );
                            cur.target.extend_from_slice(piece);
                            proof {
                                assert(cur.target@ == old(cur).target@ + flushed@.subrange(
                                    (segment_position(*win) + addr) as int,
                                    (segment_position(*win) + addr + sz) as int,
                                ));
                            }
                            Ok(ip2)
                        }
                    } else {
                        let off_u = addr - source_length;
                        if sz > 0 && off_u >= (tlen as u64) {
                            return Err(DecodeError::FormatError);
                        }
                        if sz > 0 {
                            let off = off_u as usize;
                            let ghost t0 = cur.target@;
                            let ghost ap = cur.adds_pos;
                            let ghost cp = cur.addr_pos;
                            let mut k: usize = 0;
                            while k < sz
                                invariant
                                    k <= sz,
                                    off < t0.len(),
                                    cur.target@.len() == t0.len() + k,
                                    self_copy(t0, off as nat, sz as nat) == self_copy(
                                        cur.target@,
                                        (off + k) as nat,
                                        (sz - k) as nat,
                                    ),
                                    cur.adds_pos == ap,
                                    cur.addr_pos == cp,
                                decreases sz - k,
                            {
                                let cl = cur.target.len();
                                proof {
                                    assert(off + k < cl);
                                }
                                let b = cur.target[off + k];
                                cur.target.push(b);
                                k = k + 1;
                            }
                            proof {
                                assert(self_copy(cur.target@, (off + sz) as nat, 0) == cur.target@);
                                assert(cur.target@ == self_copy(
                                    old(cur).target@,
                                    (addr - source_length) as nat,
                                    sz as nat,
                                ));
                            }
                        }
                        Ok(ip2)
                    }
                },
            }
        },
    }
}

/// A step that finished or failed does the same, on the same bytes, when
/// more input stands after the bytes it consumed.
#[verifier::rlimit(60)]
pub proof fn lemma_spec_step_extend(m: DecoderModel, ext: Seq<u8>)
    ensures
        match spec_step(m) {
            StepOutcome::Next(m2) => spec_step(with_input(m, ext)) == StepOutcome::Next(
                with_input(m2, ext),
            ),
            StepOutcome::NeedMore => true,
            StepOutcome::Failed(e) => spec_step(with_input(m, ext)) == StepOutcome::Failed(e),
        },
{
    match m.phase {
        DecoderInternalState::WantHeader => {
            crate::vcdiff::lemma_header_parse_extend(m.buffer, ext, 0);
            crate::vcdiff::lemma_header_parse_wf(m.buffer, 0);
            match crate::vcdiff::header_parse(m.buffer, 0) {
                crate::vcdiff::HeaderScan::Done { next, table } => {
                    assert((m.buffer + ext).skip(next as int) =~= m.buffer.skip(next as int) + ext);
                },
                _ => {},
            }
        },
        DecoderInternalState::WantWindowHeader => {
            crate::vcdiff::lemma_window_parse_extend(m.buffer, ext, 0);
            crate::vcdiff::lemma_window_parse_wf(m.buffer, 0);
            match crate::vcdiff::window_parse(m.buffer, 0) {
                crate::vcdiff::WindowScan::Done { next, header } => {
                    assert((m.buffer + ext).skip(next as int) =~= m.buffer.skip(next as int) + ext);
                },
                _ => {},
            }
        },
        DecoderInternalState::WantWindowData => {
            let s1 = m.window.adds_runs_size as nat;
            let s2 = m.window.instructions_size as nat;
            let s3 = m.window.copy_addresses_size as nat;
            let want = s1 + s2 + s3;
            if m.buffer.len() >= want {
                let e = m.buffer + ext;
                assert(e.subrange(0, s1 as int) =~= m.buffer.subrange(0, s1 as int));
                assert(e.subrange(s1 as int, (s1 + s2) as int) =~= m.buffer.subrange(
                    s1 as int,
                    (s1 + s2) as int,
                ));
                assert(e.subrange((s1 + s2) as int, want as int) =~= m.buffer.subrange(
                    (s1 + s2) as int,
                    want as int,
                ));
                assert(e.skip(want as int) =~= m.buffer.skip(want as int) + ext);
            }
        },
    }
}

/// Running the machine over input given in two pieces equals running it
/// over their concatenation: after a successful first piece the run simply
/// continues from the state it left, and a failure stays a failure with
/// the same state. With `lemma_decode_chunking_invariant` this is what
/// makes `decode` safe to call with chunks of any size.
pub proof fn lemma_spec_run_extend(m: DecoderModel, ext: Seq<u8>)
    ensures
        ({
            let (m1, r1) = spec_run(m);
            match r1 {
                Ok(st) => spec_run(with_input(m, ext)) == spec_run(with_input(m1, ext)),
                Err(e) => spec_run(with_input(m, ext)) == (
                    with_input(m1, ext),
                    Err::<DecoderState, DecodeError>(e),
                ),
            }
        }),
    decreases m.buffer.len(), phase_rank(m.phase),
{
    lemma_spec_step_extend(m, ext);
    lemma_spec_step_consumes(m);
    match spec_step(m) {
        StepOutcome::Next(m2) => {
            lemma_spec_run_extend(m2, ext);
        },
        StepOutcome::NeedMore => {},
        StepOutcome::Failed(e) => {},
    }
}

/// Chunking invariance: what the decoder does with a stream does not
/// depend on where the stream is cut. Feeding `a` and then `b` leaves the
/// decoder exactly as feeding `a + b` at once — the same target output,
/// the same unconsumed bytes, and the same outcome — and a failure on the
/// first piece is the same failure on the whole.
pub proof fn lemma_decode_chunking_invariant(m: DecoderModel, a: Seq<u8>, b: Seq<u8>)
    ensures
        ({
            let (m1, r1) = spec_run(with_input(m, a));
            match r1 {
                Ok(st) => spec_run(with_input(m1, b)) == spec_run(with_input(m, a + b)),
                Err(e) => spec_run(with_input(m, a + b)) == (
                    with_input(m1, b),
                    Err::<DecoderState, DecodeError>(e),
                ),
            }
        }),
{
    assert(with_input(with_input(m, a), b).buffer =~= with_input(m, a + b).buffer);
    assert(with_input(with_input(m, a), b) == with_input(m, a + b));
    lemma_spec_run_extend(with_input(m, a), b);
}

/// The concatenation of a list of chunks.
pub open spec fn concat_all(chunks: Seq<Seq<u8>>) -> Seq<u8>
    decreases chunks.len(),
{
    if chunks.len() == 0 {
        Seq::empty()
    } else {
        chunks[0] + concat_all(chunks.drop_first())
    }
}

/// The decoder's state and last report after feeding each chunk with one
/// call, in order, stopping at the first failing call.
pub open spec fn spec_run_chunks(m: DecoderModel, chunks: Seq<Seq<u8>>) -> (
    DecoderModel,
    Result<DecoderState, DecodeError>,
)
    decreases chunks.len(),
    when chunks.len() >= 1
{
    let (m1, r1) = spec_run(with_input(m, chunks[0]));
    if chunks.len() == 1 || r1 is Err {
        (m1, r1)
    } else {
        spec_run_chunks(m1, chunks.drop_first())
    }
}

/// Chunking invariance for any partition: feeding the chunks of a stream
/// one call at a time ends, when no call fails, exactly as feeding their
/// concatenation in one call — so two decoders given the same source and
/// the same delta bytes, cut anywhere, end with the same target output,
/// the same unconsumed bytes and the same report. A call that fails
/// reports the failure the one-shot feed would.
pub proof fn lemma_chunked_feeding(m: DecoderModel, chunks: Seq<Seq<u8>>)
    requires
        chunks.len() >= 1,
    ensures
        ({
            let (mc, rc) = spec_run_chunks(m, chunks);
            match rc {
                Ok(st) => (mc, rc) == spec_run(with_input(m, concat_all(chunks))),
                Err(e) => spec_run(with_input(m, concat_all(chunks))).1 == Err::<
                    DecoderState,
                    DecodeError,
                >(e),
            }
        }),
    decreases chunks.len(),
{
    let c0 = chunks[0];
    let rest = chunks.drop_first();
    let (m1, r1) = spec_run(with_input(m, c0));
    lemma_decode_chunking_invariant(m, c0, concat_all(rest));
    if chunks.len() == 1 {
        assert(c0 + concat_all(rest) =~= c0);
        assert(with_input(m, concat_all(chunks)) == with_input(m, c0));
    } else {
        match r1 {
            Err(e) => {},
            Ok(st) => {
                lemma_chunked_feeding(m1, rest);
            },
        }
    }
}

/// Interpret one window against the cursors, with a freshly reset cache.
#[verifier::loop_isolation(false)]
fn interpret_window_exec(
    ct: &CodeTable,
    win: &WindowHeader,
    source: &Vec<u8>,
    flushed: &Vec<u8>,
    cache: &mut AddressCache,
    adds: &[u8],
    insts: &[u8],
    addrs: &[u8],
) -> (r: Result<Vec<u8>, DecodeError>)
    requires
        ct.wf(),
        cache_wf(old(cache)@),
        old(cache)@.near.len() == near_size(),
        old(cache)@.same.len() == same_size(),
    ensures
        cache_wf(final(cache)@),
        final(cache)@.near.len() == near_size(),
        final(cache)@.same.len() == same_size(),
        match r {
            Ok(target) => interpret_window(ct.entries@, *win, source@, flushed@, adds@, insts@, addrs@)
                == Ok::<Seq<u8>, DecodeError>(target@),
            Err(e) => interpret_window(ct.entries@, *win, source@, flushed@, adds@, insts@, addrs@)
                == Err::<Seq<u8>, DecodeError>(e),
        },
{
    if win.delta_indicator != 0 {
        return Err(DecodeError::UnsupportedFeature);
    }
    cache.reset();
    proof {
        lemma_zero_seq(near_size());
        lemma_zero_seq(same_size());
        assert(cache@.near =~= zero_seq(near_size()));
        assert(cache@.same =~= zero_seq(same_size()));
        assert(cache@ == zeroed_cache());
    }
    let mut cur = WindowCursor { target: Vec::new(), adds_pos: 0, addr_pos: 0 };
    let ghost full = interpret_loop(
        ct.entries@,
        *win,
        source@,
        flushed@,
        adds@,
        insts@,
        addrs@,
        win_state(Seq::empty(), 0, 0, zeroed_cache()),
        0,
    );
    proof {
        assert(cur.target@ =~= Seq::<u8>::empty());
    }
    let mut ip: usize = 0;
    let insts_len = insts.len();
    while ip < insts_len
        invariant
            ip <= insts@.len(),
            cur.adds_pos <= adds@.len(),
            cur.addr_pos <= addrs@.len(),
            cache_wf(cache@),
            cache@.near.len() == near_size(),
            cache@.same.len() == same_size(),
            full == interpret_loop(
                ct.entries@,
                *win,
                source@,
                flushed@,
                adds@,
                insts@,
                addrs@,
                win_state(cur.target@, cur.adds_pos as nat, cur.addr_pos as nat, cache@),
                ip as nat,
            ),
        decreases insts@.len() - ip,
    {
        let sel = insts[ip];
        let entry = ct.entries[sel as usize];
        match exec_inst(
            win,
            source,
            flushed,
            adds,
            insts,
            addrs,
            entry.first,
            ip + 1,
            &mut cur,
            cache,
        ) {
            Err(e) => {
                return Err(e);
            },
            Ok(ip2) => {
                match entry.second {
                    None => {
                        ip = ip2;
                    },
                    Some(inst2) => {
                        match exec_inst(
                            win,
                            source,
                            flushed,
                            adds,
                            insts,
                            addrs,
                            inst2,
                            ip2,
                            &mut cur,
                            cache,
                        ) {
                            Err(e) => {
                                return Err(e);
                            },
                            Ok(ip3) => {
                                ip = ip3;
                            },
                        }
                    },
                }
            },
        }
    }
    if cur.adds_pos != adds.len() || cur.addr_pos != addrs.len() {
        return Err(DecodeError::FormatError);
    }
    if (cur.target.len() as u64) != (win.target_window_size as u64) {
        return Err(DecodeError::FormatError);
    }
    Ok(cur.target)
}

/// Drop the consumed prefix of the buffer, keeping the rest in place.
#[verifier::loop_isolation(false)]
fn drop_prefix(v: &mut Vec<u8>, n: usize)
    requires
        n <= old(v)@.len(),
    ensures
        final(v)@ == old(v)@.skip(n as int),
{
    let len = v.len();
    let mut i: usize = n;
    while i < len
        invariant
            n <= i <= len,
            v@.len() == len,
            forall|j: int| 0 <= j < i - n ==> v@[j] == old(v)@[n + j],
            forall|j: int| i <= j < len ==> v@[j] == old(v)@[j],
        decreases len - i,
    {
        let b = v[i];
        v[i - n] = b;
        i = i + 1;
    }
    v.truncate(len - n);
    proof {
        assert(v@ =~= old(v)@.skip(n as int));
    }
}

/// A streaming VCDIFF decoder over an in-memory source document. Feed it
/// the delta stream in chunks of any size with `decode`; it accumulates
/// the reconstructed target, which windows with the target bit read back
/// as their segment.
pub struct VCDiffDecoder {
    original: Vec<u8>,
    target: Vec<u8>,
    state: DecoderInternalState,
    code_table: CodeTable,
    window_header: WindowHeader,
    address_cache: AddressCache,
    buffer: Vec<u8>,
}

impl View for VCDiffDecoder {
    type V = DecoderModel;

    closed spec fn view(&self) -> DecoderModel {
        DecoderModel {
            phase: self.state,
            code_table: self.code_table.entries@,
            window: self.window_header,
            buffer: self.buffer@,
            source: self.original@,
            output: self.target@,
        }
    }
}

impl VCDiffDecoder {
    /// The decoder's internal invariant: a full code table and a cache of
    /// the fixed sizes.
    pub closed spec fn wf(&self) -> bool {
        &&& self.code_table.wf()
        &&& cache_wf(self.address_cache@)
        &&& self.address_cache@.near.len() == near_size()
        &&& self.address_cache@.same.len() == same_size()
    }

    /// A fresh decoder over `original`, before any byte of the delta
    /// stream: the default code table is in force, and `buffer_size` only
    /// sizes the initial allocation of the carry-over buffer.
    pub fn new(original: Vec<u8>, buffer_size: usize) -> (d: VCDiffDecoder)
        ensures
            d.wf(),
            d@.phase == DecoderInternalState::WantHeader,
            d@.buffer.len() == 0,
            d@.output.len() == 0,
            d@.source == original@,
            d@.code_table.len() == 256,
            forall|i: int|
                0 <= i < 256 ==> d@.code_table[i] == crate::code_table::default_entry(i as nat),
            d@.window == (WindowHeader {
                win_indicator: 0,
                source_segment: None,
                delta_encoding_size: 0,
                target_window_size: 0,
                delta_indicator: 0,
                adds_runs_size: 0,
                instructions_size: 0,
                copy_addresses_size: 0,
            }),
    {
        VCDiffDecoder {
            original,
            target: Vec::new(),
            state: DecoderInternalState::WantHeader,
            code_table: CodeTable::decode_default(),
            window_header: WindowHeader {
                win_indicator: 0,
                source_segment: None,
                delta_encoding_size: 0,
                target_window_size: 0,
                delta_indicator: 0,
                adds_runs_size: 0,
                instructions_size: 0,
                copy_addresses_size: 0,
            },
            address_cache: AddressCache::new(4, 3),
            buffer: Vec::with_capacity(buffer_size),
        }
    }

    /// The target bytes reconstructed so far: the concatenation of every
    /// fully decoded window, in order.
    pub fn target_bytes(&self) -> (t: &Vec<u8>)
        ensures
            t@ == self@.output,
    {
        &self.target
    }

    /// Feed the next chunk of the delta stream, of any size. The decoder
    /// prepends the bytes left over from the previous call, advances
    /// through as many phases as the bytes allow, appends each fully
    /// decoded window to the target, and keeps what is left for the next
    /// call. The result distinguishes a stop at a window boundary with
    /// nothing buffered — where the stream may legitimately end — from a
    /// stop that needs more input; a malformed or unsupported stream ends
    /// the session.
    #[verifier::loop_isolation(false)]
    #[verifier::rlimit(100)]
    pub fn decode(&mut self, input: &[u8]) -> (r: Result<DecoderState, DecodeError>)
        requires
            old(self).wf(),
        ensures
            final(self).wf(),
            final(self)@ == spec_run(with_input(old(self)@, input@)).0,
            r == spec_run(with_input(old(self)@, input@)).1,
    {
        self.buffer.extend_from_slice(input);
        let ghost m0 = with_input(old(self)@, input@);
        proof {
            assert forall|i: int| 0 <= i < self.buffer@.len() implies self.buffer@[i] == (old(
                self,
            )@.buffer + input@)[i] by {
                if i >= old(self)@.buffer.len() {
                    assert(cloned::<u8>(input@[i - old(self)@.buffer.len()], self.buffer@[i]));
                }
            }
            assert(self.buffer@ =~= old(self)@.buffer + input@);
            assert(self@ == m0);
        }
        loop
            invariant
                self.wf(),
                spec_run(m0) == spec_run(self@),
            decreases self@.buffer.len(), phase_rank(self@.phase),
        {
            let ghost m_before = self@;
            proof {
                lemma_spec_step_consumes(m_before);
            }
            match self.state {
                DecoderInternalState::WantHeader => {
                    match crate::vcdiff::header(self.buffer.as_slice(), 0) {
                        ParseResult::Done(next, h) => {
                            match h.custom_code_table {
                                Some(t) => {
                                    self.code_table = t;
                                },
                                None => {},
                            }
                            self.state = DecoderInternalState::WantWindowHeader;
                            drop_prefix(&mut self.buffer, next);
                            proof {
                                match spec_step(m_before) {
                                    StepOutcome::Next(m2) => {
                                        assert(self@ == m2);
                                    },
                                    _ => {
                                        assert(false);
                                    },
                                }
                            }
                        },
                        ParseResult::Incomplete => {
                            return Ok(DecoderState::WantMoreInput);
                        },
                        ParseResult::Error => {
                            return Err(DecodeError::FormatError);
                        },
                    }
                },
                DecoderInternalState::WantWindowHeader => {
                    match crate::vcdiff::window_header(self.buffer.as_slice(), 0) {
                        ParseResult::Done(next, h) => {
                            self.window_header = h;
                            self.state = DecoderInternalState::WantWindowData;
                            drop_prefix(&mut self.buffer, next);
                            proof {
                                match spec_step(m_before) {
                                    StepOutcome::Next(m2) => {
                                        assert(self@ == m2);
                                    },
                                    _ => {
                                        assert(false);
                                    },
                                }
                            }
                        },
                        ParseResult::Incomplete => {
                            if self.buffer.len() == 0 {
                                return Ok(DecoderState::WantMoreInputOrDone);
                            } else {
                                return Ok(DecoderState::WantMoreInput);
                            }
                        },
                        ParseResult::Error => {
                            return Err(DecodeError::FormatError);
                        },
                    }
                },
                DecoderInternalState::WantWindowData => {
                    let s1u = self.window_header.adds_runs_size as u64;
                    let s2u = self.window_header.instructions_size as u64;
                    let s3u = self.window_header.copy_addresses_size as u64;
                    let want_u = s1u + s2u + s3u;
                    if (self.buffer.len() as u64) < want_u {
                        return Ok(DecoderState::WantMoreInput);
                    }
                    let s1 = s1u as usize;
                    let s12 = (s1u + s2u) as usize;
                    let want = want_u as usize;
                    let adds = vstd::slice::slice_subrange(self.buffer.as_slice(), 0, s1);
                    let insts = vstd::slice::slice_subrange(self.buffer.as_slice(), s1, s12);
                    let addrs = vstd::slice::slice_subrange(self.buffer.as_slice(), s12, want);
                    let outcome = interpret_window_exec(
                        &self.code_table,
                        &self.window_header,
                        &self.original,
                        &self.target,
                        &mut self.address_cache,
                        adds,
                        insts,
                        addrs,
                    );
                    match outcome {
                        Ok(mut wtarget) => {
                            self.target.append(&mut wtarget);
                            self.state = DecoderInternalState::WantWindowHeader;
                            drop_prefix(&mut self.buffer, want);
                            proof {
                                match spec_step(m_before) {
                                    StepOutcome::Next(m2) => {
                                        assert(self@ == m2);
                                    },
                                    _ => {
                                        assert(false);
                                    },
                                }
                            }
                        },
                        Err(e) => {
                            return Err(e);
                        },
                    }
                },
            }
        }
    }
}

} // verus!
