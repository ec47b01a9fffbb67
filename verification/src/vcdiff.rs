//! The outer structure of a delta stream (RFC 3284 §4): the file header
//! with its magic and optional custom code table or application header, and
//! the header of each window.
//!
//! Both parsers are pure functions over a byte slice and a position: they
//! finish, ask for more input, or report a malformed stream, and keep no
//! state of their own between calls.

use vstd::prelude::*;
use crate::code_table::CodeTable;
use crate::code_table::CodeTableEntry;
use crate::code_table::TableScan;
use crate::code_table::lemma_table_decode_extend;
use crate::code_table::lemma_table_decode_wf;
use crate::code_table::table_decode;
use crate::varint::ParseResult;
use crate::varint::ScanOutcome;
use crate::varint::decode_varint_u32;
use crate::varint::decode_varint_u64;
use crate::varint::lemma_msb_decode_extend;
use crate::varint::lemma_msb_decode_wf;
use crate::varint::msb_decode;

verus! {

/// Window indicator bit: the window's segment lies in the source document.
pub const VCD_SOURCE: u8 = 0x01;

/// Window indicator bit: the window's segment lies in the target produced
/// so far.
pub const VCD_TARGET: u8 = 0x02;

/// Window indicator bit: a checksum of four bytes trails the window header.
pub const VCD_ADLER32: u8 = 0x04;

/// Header indicator bit 0: a custom code table follows. Bit 1 is unused.
pub const VCD_CODETABLE: u8 = 0x01;

/// Header indicator bit 2: an opaque application header follows.
pub const VCD_APPHEADER: u8 = 0x04;

/// Whether the bit of weight `w` is set in `b`.
pub open spec fn bit_set(b: u8, w: u8) -> bool {
    (b / w) % 2 == 1
}

/// The result of parsing the file header.
#[derive(Debug, PartialEq)]
pub struct VCDiffHeader {
    pub custom_code_table: Option<CodeTable>,
}

/// The header of one window: where its segment lies, and how large the
/// window and its three data sections are. At most one of the source and
/// target bits is set, and `source_segment` holds `(position, length)`
/// exactly when one of them is.
#[derive(Copy, Clone, Debug, PartialEq)]
pub struct WindowHeader {
    pub win_indicator: u8,
    pub source_segment: Option<(u64, u64)>,
    pub delta_encoding_size: u32,
    pub target_window_size: u32,
    pub delta_indicator: u8,
    pub adds_runs_size: u32,
    pub instructions_size: u32,
    pub copy_addresses_size: u32,
}

/// Ghost-level outcome of parsing the file header.
pub enum HeaderScan {
    Done { next: nat, table: Option<Seq<CodeTableEntry>> },
    Incomplete,
    Error,
}

/// Ghost-level outcome of parsing a window header.
pub enum WindowScan {
    Done { next: nat, header: WindowHeader },
    Incomplete,
    Error,
}

/// Whatever prefix of the four magic bytes is available matches them: a
/// mismatch is reported the moment a wrong byte arrives, before the rest
/// of the magic is in.
pub open spec fn magic_prefix_ok(s: Seq<u8>, i: nat) -> bool {
    &&& (i < s.len() ==> s[i as int] == 0xd6)
    &&& (i + 1 < s.len() ==> s[i as int + 1] == 0xc3)
    &&& (i + 2 < s.len() ==> s[i as int + 2] == 0xc4)
    &&& (i + 3 < s.len() ==> s[i as int + 3] == 0x00)
}

/// Parse the file header at position `i`: the magic, the indicator byte,
/// then the custom code table and the length-prefixed application header
/// where their bits ask for them; the application header is skipped.
pub open spec fn header_parse(s: Seq<u8>, i: nat) -> HeaderScan {
    if !magic_prefix_ok(s, i) {
        HeaderScan::Error
    } else if i + 5 > s.len() {
        HeaderScan::Incomplete
    } else {
        let ind = s[i as int + 4];
        if bit_set(ind, VCD_CODETABLE) {
            match table_decode(s, i + 5, Seq::empty()) {
                TableScan::Done { next, entries } => header_app_parse(s, next, Some(entries), ind),
                TableScan::Incomplete => HeaderScan::Incomplete,
                TableScan::Error => HeaderScan::Error,
            }
        } else {
            header_app_parse(s, i + 5, None, ind)
        }
    }
}

/// The tail of the file header: skip the application header when its bit is
/// set.
pub open spec fn header_app_parse(
    s: Seq<u8>,
    i: nat,
    table: Option<Seq<CodeTableEntry>>,
    ind: u8,
) -> HeaderScan {
    if bit_set(ind, VCD_APPHEADER) {
        match msb_decode(s, i, 0, 32) {
            ScanOutcome::Done { next, value } => if next + value > s.len() {
                HeaderScan::Incomplete
            } else {
                HeaderScan::Done { next: next + value, table }
            },
            ScanOutcome::Incomplete => HeaderScan::Incomplete,
            ScanOutcome::Error => HeaderScan::Error,
        }
    } else {
        HeaderScan::Done { next: i, table }
    }
}

/// Parse a window header at position `i`: the indicator byte, the source
/// segment's length and position where one of the segment bits asks for
/// it, the sizes of the delta encoding and the target window, the delta
/// indicator byte, the three section sizes, and a checksum — skipped here —
/// where the checksum bit is set. Both segment bits at once are malformed.
pub open spec fn window_parse(s: Seq<u8>, i: nat) -> WindowScan {
    if i >= s.len() {
        WindowScan::Incomplete
    } else {
        let ind = s[i as int];
        if bit_set(ind, VCD_SOURCE) && bit_set(ind, VCD_TARGET) {
            WindowScan::Error
        } else if bit_set(ind, VCD_SOURCE) || bit_set(ind, VCD_TARGET) {
            match msb_decode(s, i + 1, 0, 64) {
                ScanOutcome::Done { next: n1, value: seg_len } => match msb_decode(s, n1, 0, 64) {
                    ScanOutcome::Done { next: n2, value: seg_pos } => window_sizes_parse(
                        s,
                        n2,
                        ind,
                        Some(((seg_pos as u64), (seg_len as u64))),
                    ),
                    ScanOutcome::Incomplete => WindowScan::Incomplete,
                    ScanOutcome::Error => WindowScan::Error,
                },
                ScanOutcome::Incomplete => WindowScan::Incomplete,
                ScanOutcome::Error => WindowScan::Error,
            }
        } else {
            window_sizes_parse(s, i + 1, ind, None)
        }
    }
}

/// The sizes of a window header, after the indicator and segment: four
/// varints around the delta indicator byte, then the checksum where asked.
pub open spec fn window_sizes_parse(
    s: Seq<u8>,
    i: nat,
    ind: u8,
    segment: Option<(u64, u64)>,
) -> WindowScan {
    match msb_decode(s, i, 0, 32) {
        ScanOutcome::Done { next: n1, value: delta_size } => match msb_decode(s, n1, 0, 32) {
            ScanOutcome::Done { next: n2, value: target_size } => if n2 >= s.len() {
                WindowScan::Incomplete
            } else {
                let delta_ind = s[n2 as int];
                match msb_decode(s, n2 + 1, 0, 32) {
                    ScanOutcome::Done { next: n3, value: adds_size } => match msb_decode(
                        s,
                        n3,
                        0,
                        32,
                    ) {
                        ScanOutcome::Done { next: n4, value: inst_size } => match msb_decode(
                            s,
                            n4,
                            0,
                            32,
                        ) {
                            ScanOutcome::Done { next: n5, value: copy_size } => if bit_set(
                                ind,
                                VCD_ADLER32,
                            ) {
                                if n5 + 4 > s.len() {
                                    WindowScan::Incomplete
                                } else {
                                    WindowScan::Done {
                                        next: n5 + 4,
                                        header: WindowHeader {
                                            win_indicator: ind,
                                            source_segment: segment,
                                            delta_encoding_size: delta_size as u32,
                                            target_window_size: target_size as u32,
                                            delta_indicator: delta_ind,
                                            adds_runs_size: adds_size as u32,
                                            instructions_size: inst_size as u32,
                                            copy_addresses_size: copy_size as u32,
                                        },
                                    }
                                }
                            } else {
                                WindowScan::Done {
                                    next: n5,
                                    header: WindowHeader {
                                        win_indicator: ind,
                                        source_segment: segment,
                                        delta_encoding_size: delta_size as u32,
                                        target_window_size: target_size as u32,
                                        delta_indicator: delta_ind,
                                        adds_runs_size: adds_size as u32,
                                        instructions_size: inst_size as u32,
                                        copy_addresses_size: copy_size as u32,
                                    },
                                }
                            },
                            ScanOutcome::Incomplete => WindowScan::Incomplete,
                            ScanOutcome::Error => WindowScan::Error,
                        },
                        ScanOutcome::Incomplete => WindowScan::Incomplete,
                        ScanOutcome::Error => WindowScan::Error,
                    },
                    ScanOutcome::Incomplete => WindowScan::Incomplete,
                    ScanOutcome::Error => WindowScan::Error,
                }
            },
            ScanOutcome::Incomplete => WindowScan::Incomplete,
            ScanOutcome::Error => WindowScan::Error,
        },
        ScanOutcome::Incomplete => WindowScan::Incomplete,
        ScanOutcome::Error => WindowScan::Error,
    }
}

/// The invariant of a parsed window header: never both segment bits, and a
/// segment exactly when one of them is set.
pub open spec fn window_header_wf(h: WindowHeader) -> bool {
    &&& !(bit_set(h.win_indicator, VCD_SOURCE) && bit_set(h.win_indicator, VCD_TARGET))
    &&& (h.source_segment is Some <==> (bit_set(h.win_indicator, VCD_SOURCE) || bit_set(
        h.win_indicator,
        VCD_TARGET,
    )))
}

/// A parsed file header consumed at least its magic and indicator, ends
/// inside the input, and any custom table it carries is full.
pub proof fn lemma_header_parse_wf(s: Seq<u8>, i: nat)
    requires
        i <= s.len(),
    ensures
        match header_parse(s, i) {
            HeaderScan::Done { next, table } => i + 5 <= next <= s.len() && (table matches Some(t)
                ==> t.len() == 256),
            _ => true,
        },
{
    vstd::arithmetic::power2::lemma2_to64();
    vstd::arithmetic::power2::lemma2_to64_rest();
    if magic_prefix_ok(s, i) && i + 5 <= s.len() {
        let ind = s[i as int + 4];
        if bit_set(ind, VCD_CODETABLE) {
            lemma_table_decode_wf(s, i + 5, Seq::empty());
            match table_decode(s, i + 5, Seq::empty()) {
                TableScan::Done { next, entries } => {
                    lemma_msb_decode_wf(s, next, 0, 32);
                },
                _ => {},
            }
        } else {
            lemma_msb_decode_wf(s, i + 5, 0, 32);
        }
    }
}

/// A parsed window header consumed at least one byte, ends inside the
/// input, and satisfies the window header invariant.
pub proof fn lemma_window_parse_wf(s: Seq<u8>, i: nat)
    requires
        i <= s.len(),
    ensures
        match window_parse(s, i) {
            WindowScan::Done { next, header } => i < next <= s.len() && window_header_wf(header),
            _ => true,
        },
{
    vstd::arithmetic::power2::lemma2_to64();
    vstd::arithmetic::power2::lemma2_to64_rest();
    if i < s.len() {
        let ind = s[i as int];
        if bit_set(ind, VCD_SOURCE) && bit_set(ind, VCD_TARGET) {
        } else if bit_set(ind, VCD_SOURCE) || bit_set(ind, VCD_TARGET) {
            lemma_msb_decode_wf(s, i + 1, 0, 64);
            match msb_decode(s, i + 1, 0, 64) {
                ScanOutcome::Done { next: n1, value: seg_len } => {
                    lemma_msb_decode_wf(s, n1, 0, 64);
                    match msb_decode(s, n1, 0, 64) {
                        ScanOutcome::Done { next: n2, value: seg_pos } => {
                            lemma_window_sizes_parse_wf(
                                s,
                                n2,
                                ind,
                                Some(((seg_pos as u64), (seg_len as u64))),
                            );
                        },
                        _ => {},
                    }
                },
                _ => {},
            }
        } else {
            lemma_window_sizes_parse_wf(s, i + 1, ind, None);
        }
    }
}

/// The size fields of a window header end inside the input.
proof fn lemma_window_sizes_parse_wf(s: Seq<u8>, i: nat, ind: u8, segment: Option<(u64, u64)>)
    requires
        i <= s.len(),
    ensures
        match window_sizes_parse(s, i, ind, segment) {
            WindowScan::Done { next, header } => i < next <= s.len() && header.win_indicator == ind
                && header.source_segment == segment,
            _ => true,
        },
{
    vstd::arithmetic::power2::lemma2_to64();
    vstd::arithmetic::power2::lemma2_to64_rest();
    lemma_msb_decode_wf(s, i, 0, 32);
    match msb_decode(s, i, 0, 32) {
        ScanOutcome::Done { next: n1, value: v1 } => {
            lemma_msb_decode_wf(s, n1, 0, 32);
            match msb_decode(s, n1, 0, 32) {
                ScanOutcome::Done { next: n2, value: v2 } => {
                    if n2 < s.len() {
                        lemma_msb_decode_wf(s, n2 + 1, 0, 32);
                        match msb_decode(s, n2 + 1, 0, 32) {
                            ScanOutcome::Done { next: n3, value: v3 } => {
                                lemma_msb_decode_wf(s, n3, 0, 32);
                                match msb_decode(s, n3, 0, 32) {
                                    ScanOutcome::Done { next: n4, value: v4 } => {
                                        lemma_msb_decode_wf(s, n4, 0, 32);
                                    },
                                    _ => {},
                                }
                            },
                            _ => {},
                        }
                    }
                },
                _ => {},
            }
        },
        _ => {},
    }
}

/// A file header that parsed or failed is unchanged by bytes appended
/// after the input it saw.
pub proof fn lemma_header_parse_extend(s: Seq<u8>, ext: Seq<u8>, i: nat)
    requires
        i <= s.len(),
    ensures
        match header_parse(s, i) {
            HeaderScan::Incomplete => true,
            o => header_parse(s + ext, i) == o,
        },
{
    assert forall|k: int| 0 <= k < s.len() implies (s + ext)[k] == s[k] by {}
    if !magic_prefix_ok(s, i) {
        assert(!magic_prefix_ok(s + ext, i));
    } else if i + 5 <= s.len() {
        assert(magic_prefix_ok(s + ext, i));
        {
            let ind = s[i as int + 4];
            if bit_set(ind, VCD_CODETABLE) {
                lemma_table_decode_extend(s, ext, i + 5, Seq::empty());
                lemma_table_decode_wf(s, i + 5, Seq::empty());
                match table_decode(s, i + 5, Seq::empty()) {
                    TableScan::Done { next, entries } => {
                        lemma_header_app_extend(s, ext, next, Some(entries), ind);
                    },
                    _ => {},
                }
            } else {
                lemma_header_app_extend(s, ext, i + 5, None, ind);
            }
        }
    }
}

/// The application-header tail of the file header is stable under appended
/// bytes in the same way.
proof fn lemma_header_app_extend(
    s: Seq<u8>,
    ext: Seq<u8>,
    i: nat,
    table: Option<Seq<CodeTableEntry>>,
    ind: u8,
)
    requires
        i <= s.len(),
    ensures
        match header_app_parse(s, i, table, ind) {
            HeaderScan::Incomplete => true,
            o => header_app_parse(s + ext, i, table, ind) == o,
        },
{
    if bit_set(ind, VCD_APPHEADER) {
        lemma_msb_decode_extend(s, ext, i, 0, 32);
    }
}

/// A window header that parsed or failed is unchanged by bytes appended
/// after the input it saw.
pub proof fn lemma_window_parse_extend(s: Seq<u8>, ext: Seq<u8>, i: nat)
    requires
        i <= s.len(),
    ensures
        match window_parse(s, i) {
            WindowScan::Incomplete => true,
            o => window_parse(s + ext, i) == o,
        },
{
    vstd::arithmetic::power2::lemma2_to64();
    vstd::arithmetic::power2::lemma2_to64_rest();
    if i < s.len() {
        assert((s + ext)[i as int] == s[i as int]);
        let ind = s[i as int];
        if bit_set(ind, VCD_SOURCE) && bit_set(ind, VCD_TARGET) {
        } else if bit_set(ind, VCD_SOURCE) || bit_set(ind, VCD_TARGET) {
            lemma_msb_decode_extend(s, ext, i + 1, 0, 64);
            lemma_msb_decode_wf(s, i + 1, 0, 64);
            match msb_decode(s, i + 1, 0, 64) {
                ScanOutcome::Done { next: n1, value: seg_len } => {
                    lemma_msb_decode_extend(s, ext, n1, 0, 64);
                    lemma_msb_decode_wf(s, n1, 0, 64);
                    match msb_decode(s, n1, 0, 64) {
                        ScanOutcome::Done { next: n2, value: seg_pos } => {
                            lemma_window_sizes_extend(
                                s,
                                ext,
                                n2,
                                ind,
                                Some(((seg_pos as u64), (seg_len as u64))),
                            );
                        },
                        _ => {},
                    }
                },
                _ => {},
            }
        } else {
            lemma_window_sizes_extend(s, ext, i + 1, ind, None);
        }
    }
}

/// The size fields of a window header are stable under appended bytes in
/// the same way.
proof fn lemma_window_sizes_extend(
    s: Seq<u8>,
    ext: Seq<u8>,
    i: nat,
    ind: u8,
    segment: Option<(u64, u64)>,
)
    requires
        i <= s.len(),
    ensures
        match window_sizes_parse(s, i, ind, segment) {
            WindowScan::Incomplete => true,
            o => window_sizes_parse(s + ext, i, ind, segment) == o,
        },
{
    vstd::arithmetic::power2::lemma2_to64();
    vstd::arithmetic::power2::lemma2_to64_rest();
    lemma_msb_decode_extend(s, ext, i, 0, 32);
    lemma_msb_decode_wf(s, i, 0, 32);
    match msb_decode(s, i, 0, 32) {
        ScanOutcome::Done { next: n1, value: v1 } => {
            lemma_msb_decode_extend(s, ext, n1, 0, 32);
            lemma_msb_decode_wf(s, n1, 0, 32);
            match msb_decode(s, n1, 0, 32) {
                ScanOutcome::Done { next: n2, value: v2 } => {
                    if n2 < s.len() {
                        assert((s + ext)[n2 as int] == s[n2 as int]);
                        lemma_msb_decode_extend(s, ext, n2 + 1, 0, 32);
                        lemma_msb_decode_wf(s, n2 + 1, 0, 32);
                        match msb_decode(s, n2 + 1, 0, 32) {
                            ScanOutcome::Done { next: n3, value: v3 } => {
                                lemma_msb_decode_extend(s, ext, n3, 0, 32);
                                lemma_msb_decode_wf(s, n3, 0, 32);
                                match msb_decode(s, n3, 0, 32) {
                                    ScanOutcome::Done { next: n4, value: v4 } => {
                                        lemma_msb_decode_extend(s, ext, n4, 0, 32);
                                        lemma_msb_decode_wf(s, n4, 0, 32);
                                    },
                                    _ => {},
                                }
                            },
                            _ => {},
                        }
                    }
                },
                _ => {},
            }
        },
        _ => {},
    }
}

/// Whether the bit of weight `w` is set in `b`.
pub fn bit_set_exec(b: u8, w: u8) -> (r: bool)
    requires
        w == 1 || w == 2 || w == 4,
    ensures
        r == bit_set(b, w),
{
    (b / w) % 2 == 1
}

/// Parse the file header at position `from` of `src`.
pub fn header(src: &[u8], from: usize) -> (r: ParseResult<VCDiffHeader>)
    requires
        from <= src@.len(),
    ensures
        match r {
            ParseResult::Done(next, h) => (match header_parse(src@, from as nat) {
                HeaderScan::Done { next: n2, table } => {
                    &&& n2 == next as nat
                    &&& next <= src@.len()
                    &&& (match (h.custom_code_table, table) {
                        (Some(t), Some(te)) => t.wf() && t.entries@ == te,
                        (None, None) => true,
                        _ => false,
                    })
                },
                _ => false,
            }),
            ParseResult::Incomplete => header_parse(src@, from as nat) is Incomplete,
            ParseResult::Error => header_parse(src@, from as nat) is Error,
        },
{
    let len = src.len();
    let avail = len - from;
    if avail >= 1 && src[from] != 0xd6 {
        return ParseResult::Error;
    }
    if avail >= 2 && src[from + 1] != 0xc3 {
        return ParseResult::Error;
    }
    if avail >= 3 && src[from + 2] != 0xc4 {
        return ParseResult::Error;
    }
    if avail >= 4 && src[from + 3] != 0x00 {
        return ParseResult::Error;
    }
    if avail < 5 {
        return ParseResult::Incomplete;
    }
    let ind = src[from + 4];
    let mut table: Option<CodeTable> = None;
    let mut pos: usize = from + 5;
    if bit_set_exec(ind, VCD_CODETABLE) {
        match CodeTable::decode(src, pos) {
            ParseResult::Done(next, t) => {
                table = Some(t);
                pos = next;
                proof {
                    crate::code_table::lemma_table_decode_wf(src@, from as nat + 5, Seq::empty());
                }
            },
            ParseResult::Incomplete => {
                return ParseResult::Incomplete;
            },
            ParseResult::Error => {
                return ParseResult::Error;
            },
        }
    }
    if bit_set_exec(ind, VCD_APPHEADER) {
        proof {
            vstd::arithmetic::power2::lemma2_to64();
            vstd::arithmetic::power2::lemma2_to64_rest();
            lemma_msb_decode_wf(src@, pos as nat, 0, 32);
        }
        match decode_varint_u32(src, pos) {
            ParseResult::Done(next, sz) => {
                if (sz as u64) > ((len - next) as u64) {
                    return ParseResult::Incomplete;
                }
                pos = next + (sz as usize);
            },
            ParseResult::Incomplete => {
                return ParseResult::Incomplete;
            },
            ParseResult::Error => {
                return ParseResult::Error;
            },
        }
    }
    ParseResult::Done(pos, VCDiffHeader { custom_code_table: table })
}

/// Parse a window header at position `from` of `src`.
pub fn window_header(src: &[u8], from: usize) -> (r: ParseResult<WindowHeader>)
    requires
        from <= src@.len(),
    ensures
        match r {
            ParseResult::Done(next, h) => next <= src@.len() && window_parse(src@, from as nat)
                == (WindowScan::Done { next: next as nat, header: h }),
            ParseResult::Incomplete => window_parse(src@, from as nat) is Incomplete,
            ParseResult::Error => window_parse(src@, from as nat) is Error,
        },
{
    proof {
        vstd::arithmetic::power2::lemma2_to64();
        vstd::arithmetic::power2::lemma2_to64_rest();
    }
    let len = src.len();
    if from >= len {
        return ParseResult::Incomplete;
    }
    let ind = src[from];
    let from_source = bit_set_exec(ind, VCD_SOURCE);
    let from_target = bit_set_exec(ind, VCD_TARGET);
    if from_source && from_target {
        return ParseResult::Error;
    }
    let mut segment: Option<(u64, u64)> = None;
    let mut pos: usize = from + 1;
    if from_source || from_target {
        proof {
            lemma_msb_decode_wf(src@, from as nat + 1, 0, 64);
        }
        match decode_varint_u64(src, pos) {
            ParseResult::Done(n1, seg_len) => {
                proof {
                    lemma_msb_decode_wf(src@, n1 as nat, 0, 64);
                }
                match decode_varint_u64(src, n1) {
                    ParseResult::Done(n2, seg_pos) => {
                        segment = Some((seg_pos, seg_len));
                        pos = n2;
                    },
                    ParseResult::Incomplete => {
                        return ParseResult::Incomplete;
                    },
                    ParseResult::Error => {
                        return ParseResult::Error;
                    },
                }
            },
            ParseResult::Incomplete => {
                return ParseResult::Incomplete;
            },
            ParseResult::Error => {
                return ParseResult::Error;
            },
        }
    }
    proof {
        lemma_msb_decode_wf(src@, pos as nat, 0, 32);
    }
    let delta_encoding_size: u32;
    let target_window_size: u32;
    match decode_varint_u32(src, pos) {
        ParseResult::Done(n, v) => {
            delta_encoding_size = v;
            pos = n;
        },
        ParseResult::Incomplete => {
            return ParseResult::Incomplete;
        },
        ParseResult::Error => {
            return ParseResult::Error;
        },
    }
    proof {
        lemma_msb_decode_wf(src@, pos as nat, 0, 32);
    }
    match decode_varint_u32(src, pos) {
        ParseResult::Done(n, v) => {
            target_window_size = v;
            pos = n;
        },
        ParseResult::Incomplete => {
            return ParseResult::Incomplete;
        },
        ParseResult::Error => {
            return ParseResult::Error;
        },
    }
    if pos >= len {
        return ParseResult::Incomplete;
    }
    let delta_indicator = src[pos];
    pos = pos + 1;
    proof {
        lemma_msb_decode_wf(src@, pos as nat, 0, 32);
    }
    let adds_runs_size: u32;
    let instructions_size: u32;
    let copy_addresses_size: u32;
    match decode_varint_u32(src, pos) {
        ParseResult::Done(n, v) => {
            adds_runs_size = v;
            pos = n;
        },
        ParseResult::Incomplete => {
            return ParseResult::Incomplete;
        },
        ParseResult::Error => {
            return ParseResult::Error;
        },
    }
    proof {
        lemma_msb_decode_wf(src@, pos as nat, 0, 32);
    }
    match decode_varint_u32(src, pos) {
        ParseResult::Done(n, v) => {
            instructions_size = v;
            pos = n;
        },
        ParseResult::Incomplete => {
            return ParseResult::Incomplete;
        },
        ParseResult::Error => {
            return ParseResult::Error;
        },
    }
    proof {
        lemma_msb_decode_wf(src@, pos as nat, 0, 32);
    }
    match decode_varint_u32(src, pos) {
        ParseResult::Done(n, v) => {
            copy_addresses_size = v;
            pos = n;
        },
        ParseResult::Incomplete => {
            return ParseResult::Incomplete;
        },
        ParseResult::Error => {
            return ParseResult::Error;
        },
    }
    if bit_set_exec(ind, VCD_ADLER32) {
        if len - pos < 4 {
            return ParseResult::Incomplete;
        }
        pos = pos + 4;
    }
    ParseResult::Done(
        pos,
        WindowHeader {
            win_indicator: ind,
            source_segment: segment,
            delta_encoding_size,
            target_window_size,
            delta_indicator,
            adds_runs_size,
            instructions_size,
            copy_addresses_size,
        },
    )
}

} // verus!
