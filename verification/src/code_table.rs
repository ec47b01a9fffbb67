//! The instruction code table: maps each selector byte of the instruction
//! stream to one or two logical instructions (RFC 3284, appendix A).
//!
//! A delta stream normally uses the default table; a header may instead
//! carry a custom table, encoded as a run-length list of entries.

use vstd::prelude::*;
use crate::varint::ParseResult;

verus! {

/// What one logical instruction does.
#[derive(Copy, Clone, Debug, PartialEq, Eq, Structural)]
pub enum InstructionType {
    Add,
    Copy,
    Run,
}

/// One logical instruction of a code table entry: a size of zero means that
/// the actual size follows the selector byte as a varint, and the mode is
/// meaningful only for a copy.
#[derive(Copy, Clone, Debug, PartialEq, Eq, Structural)]
pub struct Instruction {
    pub typ: InstructionType,
    pub size: u8,
    pub mode: u8,
}

/// What one selector byte stands for: an instruction, possibly followed by
/// a second one sharing the same data sections.
#[derive(Copy, Clone, Debug, PartialEq, Eq, Structural)]
pub struct CodeTableEntry {
    pub first: Instruction,
    pub second: Option<Instruction>,
}

/// The mapping from each of the 256 selector bytes to its entry.
#[derive(Debug, PartialEq)]
pub struct CodeTable {
    pub entries: Vec<CodeTableEntry>,
}

/// A single instruction without a successor.
pub open spec fn single_entry(typ: InstructionType, size: u8, mode: u8) -> CodeTableEntry {
    CodeTableEntry { first: Instruction { typ, size, mode }, second: None }
}

/// A pair of instructions packed behind one selector byte.
pub open spec fn double_entry(
    t1: InstructionType,
    s1: u8,
    m1: u8,
    t2: InstructionType,
    s2: u8,
    m2: u8,
) -> CodeTableEntry {
    CodeTableEntry {
        first: Instruction { typ: t1, size: s1, mode: m1 },
        second: Some(Instruction { typ: t2, size: s2, mode: m2 }),
    }
}

/// The default code table of RFC 3284, appendix A, entry by entry.
pub open spec fn default_entry(i: nat) -> CodeTableEntry {
    if i == 0 {
        single_entry(InstructionType::Run, 0, 0)
    } else if i <= 18 {
        single_entry(InstructionType::Add, (i - 1) as u8, 0)
    } else if i <= 162 {
        // 16 sizes for each of the 9 copy modes
        let m = ((i - 19) / 16) as u8;
        let s = ((i - 19) % 16) as nat;
        single_entry(InstructionType::Copy, if s == 0 { 0u8 } else { (s + 3) as u8 }, m)
    } else if i <= 234 {
        // add of size 1..4 then copy of size 4..6, modes 0..5
        let j = (i - 163) as nat;
        let m = (j / 12) as u8;
        let a = ((j % 12) / 3 + 1) as u8;
        let c = (j % 3 + 4) as u8;
        double_entry(InstructionType::Add, a, 0, InstructionType::Copy, c, m)
    } else if i <= 246 {
        // add of size 1..4 then copy of size 4, modes 6..8
        let j = (i - 235) as nat;
        let m = (6 + j / 4) as u8;
        let a = (j % 4 + 1) as u8;
        double_entry(InstructionType::Add, a, 0, InstructionType::Copy, 4, m)
    } else {
        // copy of size 4, any mode, then add of size 1
        double_entry(InstructionType::Copy, 4, (i - 247) as u8, InstructionType::Add, 1, 0)
    }
}

impl CodeTable {
    /// A usable table has exactly one entry per selector byte.
    pub open spec fn wf(&self) -> bool {
        self.entries@.len() == 256
    }

    /// The default code table of RFC 3284, appendix A.
    pub fn decode_default() -> (table: CodeTable)
        ensures
            table.wf(),
            forall|i: int| 0 <= i < 256 ==> table.entries@[i] == default_entry(i as nat),
    {
        let mut entries: Vec<CodeTableEntry> = Vec::new();
        let mut i: usize = 0;
        while i < 256
            invariant
                i <= 256,
                entries@.len() == i,
                forall|j: int| 0 <= j < i ==> entries@[j] == default_entry(j as nat),
            decreases 256 - i,
        {
            entries.push(default_entry_exec(i));
            i = i + 1;
        }
        CodeTable { entries }
    }
}

/// One entry of the default table.
fn default_entry_exec(i: usize) -> (e: CodeTableEntry)
    requires
        i < 256,
    ensures
        e == default_entry(i as nat),
{
    if i == 0 {
        CodeTableEntry {
            first: Instruction { typ: InstructionType::Run, size: 0, mode: 0 },
            second: None,
        }
    } else if i <= 18 {
        CodeTableEntry {
            first: Instruction { typ: InstructionType::Add, size: (i - 1) as u8, mode: 0 },
            second: None,
        }
    } else if i <= 162 {
        let m = ((i - 19) / 16) as u8;
        let s = (i - 19) % 16;
        let size: u8 = if s == 0 {
            0
        } else {
            (s + 3) as u8
        };
        CodeTableEntry {
            first: Instruction { typ: InstructionType::Copy, size, mode: m },
            second: None,
        }
    } else if i <= 234 {
        let j = i - 163;
        let m = (j / 12) as u8;
        let a = ((j % 12) / 3 + 1) as u8;
        let c = (j % 3 + 4) as u8;
        CodeTableEntry {
            first: Instruction { typ: InstructionType::Add, size: a, mode: 0 },
            second: Some(Instruction { typ: InstructionType::Copy, size: c, mode: m }),
        }
    } else if i <= 246 {
        let j = i - 235;
        let m = (6 + j / 4) as u8;
        let a = (j % 4 + 1) as u8;
        CodeTableEntry {
            first: Instruction { typ: InstructionType::Add, size: a, mode: 0 },
            second: Some(Instruction { typ: InstructionType::Copy, size: 4, mode: m }),
        }
    } else {
        CodeTableEntry {
            first: Instruction { typ: InstructionType::Copy, size: 4, mode: (i - 247) as u8 },
            second: Some(Instruction { typ: InstructionType::Add, size: 1, mode: 0 }),
        }
    }
}

impl Default for CodeTable {
    /// The default table, as `decode_default` builds it.
    fn default() -> (table: CodeTable)
        ensures
            table.wf(),
            forall|i: int| 0 <= i < 256 ==> table.entries@[i] == default_entry(i as nat),
    {
        CodeTable::decode_default()
    }
}

/// Ghost-level outcome of decoding a custom table.
pub enum TableScan {
    Done { next: nat, entries: Seq<CodeTableEntry> },
    Incomplete,
    Error,
}

/// The instruction a record byte names, if any: a leading instruction may
/// not be absent.
pub open spec fn record_type(t: u8) -> Option<InstructionType> {
    if t == 1 {
        Some(InstructionType::Add)
    } else if t == 2 {
        Some(InstructionType::Run)
    } else if t == 3 {
        Some(InstructionType::Copy)
    } else {
        None
    }
}

/// `n` copies of one entry.
pub open spec fn repeat_entry(e: CodeTableEntry, n: nat) -> Seq<CodeTableEntry>
    decreases n,
{
    if n == 0 {
        Seq::empty()
    } else {
        repeat_entry(e, (n - 1) as nat).push(e)
    }
}

/// The entry the record at `i` describes, when it is well formed.
pub open spec fn table_record_entry(s: Seq<u8>, i: nat) -> CodeTableEntry {
    let t2 = s[i as int + 4];
    CodeTableEntry {
        first: Instruction {
            typ: record_type(s[i as int + 1])->0,
            size: s[i as int + 2],
            mode: s[i as int + 3],
        },
        second: if t2 == 0 {
            None
        } else {
            Some(Instruction { typ: record_type(t2)->0, size: s[i as int + 5], mode: s[i as int + 6] })
        },
    }
}

/// Whether the seven-byte record at `i` is well formed.
pub open spec fn table_record_ok(s: Seq<u8>, i: nat) -> bool {
    let t2 = s[i as int + 4];
    s[i as int] != 0 && record_type(s[i as int + 1]) is Some && (t2 == 0 || record_type(t2) is Some)
}

/// A custom table is a list of records of seven bytes each — a repeat count
/// followed by two type/size/mode triples, the second triple's type zero
/// when the selector holds a single instruction — until exactly 256 entries
/// have been produced. A zero count, an unknown type, a count that passes
/// 256 entries, or an input that ends early is malformed.
pub open spec fn table_decode(s: Seq<u8>, i: nat, acc: Seq<CodeTableEntry>) -> TableScan
    decreases s.len() - i,
    when i <= s.len()
{
    if acc.len() >= 256 {
        if acc.len() == 256 {
            TableScan::Done { next: i, entries: acc }
        } else {
            TableScan::Error
        }
    } else if i + 7 > s.len() {
        TableScan::Incomplete
    } else if !table_record_ok(s, i) {
        TableScan::Error
    } else {
        table_decode(s, i + 7, acc + repeat_entry(table_record_entry(s, i), s[i as int] as nat))
    }
}

/// A finished custom table has exactly 256 entries and ends inside the
/// input.
pub proof fn lemma_table_decode_wf(s: Seq<u8>, i: nat, acc: Seq<CodeTableEntry>)
    requires
        i <= s.len(),
    ensures
        match table_decode(s, i, acc) {
            TableScan::Done { next, entries } => i <= next <= s.len() && entries.len() == 256,
            _ => true,
        },
    decreases s.len() - i,
{
    if acc.len() < 256 && i + 7 <= s.len() && table_record_ok(s, i) {
        lemma_table_decode_wf(
            s,
            i + 7,
            acc + repeat_entry(table_record_entry(s, i), s[i as int] as nat),
        );
    }
}

/// A custom table decode that finished or failed is unchanged by bytes
/// appended after the input it saw.
pub proof fn lemma_table_decode_extend(s: Seq<u8>, ext: Seq<u8>, i: nat, acc: Seq<CodeTableEntry>)
    requires
        i <= s.len(),
    ensures
        match table_decode(s, i, acc) {
            TableScan::Incomplete => true,
            o => table_decode(s + ext, i, acc) == o,
        },
    decreases s.len() - i,
{
    if acc.len() < 256 && i + 7 <= s.len() {
        assert forall|k: int| i <= k < i + 7 implies (s + ext)[k] == s[k] by {}
        if table_record_ok(s, i) {
            lemma_table_decode_extend(
                s,
                ext,
                i + 7,
                acc + repeat_entry(table_record_entry(s, i), s[i as int] as nat),
            );
        }
    }
}

impl CodeTable {
    /// Decode a custom code table at position `from` of `src`.
    #[verifier::loop_isolation(false)]
    pub fn decode(src: &[u8], from: usize) -> (r: ParseResult<CodeTable>)
        requires
            from <= src@.len(),
        ensures
            match r {
                ParseResult::Done(next, table) => table.wf() && table_decode(
                    src@,
                    from as nat,
                    Seq::empty(),
                ) == (TableScan::Done { next: next as nat, entries: table.entries@ }),
                ParseResult::Incomplete => table_decode(src@, from as nat, Seq::empty())
                    is Incomplete,
                ParseResult::Error => table_decode(src@, from as nat, Seq::empty()) is Error,
            },
    {
        let ghost full = table_decode(src@, from as nat, Seq::empty());
        let mut entries: Vec<CodeTableEntry> = Vec::new();
        let mut i: usize = from;
        proof {
            assert(entries@ =~= Seq::<CodeTableEntry>::empty());
        }
        loop
            invariant
                from <= i <= src@.len(),
                entries@.len() <= 510,
                full == table_decode(src@, i as nat, entries@),
            decreases src@.len() - i + 511 - entries@.len(),
        {
            if entries.len() >= 256 {
                if entries.len() == 256 {
                    proof {
                        lemma_table_decode_wf(src@, from as nat, Seq::empty());
                    }
                    return ParseResult::Done(i, CodeTable { entries });
                } else {
                    return ParseResult::Error;
                }
            }
            if src.len() - i < 7 {
                return ParseResult::Incomplete;
            }
            let count = src[i];
            let t1 = src[i + 1];
            let t2 = src[i + 4];
            if count == 0 || t1 == 0 || t1 > 3 || t2 > 3 {
                return ParseResult::Error;
            }
            let first = Instruction {
                typ: record_type_exec(t1),
                size: src[i + 2],
                mode: src[i + 3],
            };
            let second: Option<Instruction> = if t2 == 0 {
                None
            } else {
                Some(Instruction { typ: record_type_exec(t2), size: src[i + 5], mode: src[i + 6] })
            };
            let entry = CodeTableEntry { first, second };
            proof {
                assert(entry == table_record_entry(src@, i as nat));
                assert(table_record_ok(src@, i as nat));
            }
            let ghost before = entries@;
            let mut k: u8 = 0;
            proof {
                assert(before + repeat_entry(entry, 0) =~= entries@);
            }
            while k < count
                invariant
                    k <= count,
                    entries@.len() == before.len() + k,
                    entries@ == before + repeat_entry(entry, k as nat),
                decreases count - k,
            {
                entries.push(entry);
                k = k + 1;
                proof {
                    assert(entries@ =~= before + repeat_entry(entry, k as nat));
                }
            }
            i = i + 7;
        }
    }
}

/// The instruction type a nonzero record byte names.
fn record_type_exec(t: u8) -> (r: InstructionType)
    requires
        1 <= t <= 3,
    ensures
        record_type(t) == Some(r),
{
    if t == 1 {
        InstructionType::Add
    } else if t == 2 {
        InstructionType::Run
    } else {
        InstructionType::Copy
    }
}

} // verus!
