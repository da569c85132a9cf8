//! The instruction vocabulary and the fixed code table that maps each opcode
//! to an instruction kind, a size and an address mode.

use vstd::prelude::*;

verus! {

/// The three kinds of instruction.
#[derive(Clone, Copy, Debug, PartialEq, Eq, Structural)]
pub enum InstructionKind {
    /// Literal bytes follow in the data section.
    Add,
    /// Bytes are copied from an address in the source or in the target
    /// written so far.
    Copy,
    /// One byte of the data section is repeated.
    Run,
}

/// One entry of the code table. Size 0 means that the size follows the
/// opcode as an explicit integer. The mode is 0 for ADD and RUN.
#[derive(Clone, Copy, Debug, PartialEq, Eq, Structural)]
pub struct TableEntry {
    pub kind: InstructionKind,
    pub size: u8,
    pub mode: u8,
}

/// The entry of `opcode`, or `None` for an opcode that the table leaves
/// unassigned. Opcode 0 is RUN; 1 is ADD with an explicit size, 2 to 18 are
/// ADD of 1 to 17 bytes; from 19 on each of the nine address modes has
/// sixteen opcodes, COPY with an explicit size and COPY of 4 to 18 bytes;
/// 163 and above are unassigned.
pub open spec fn table_entry(opcode: u8) -> Option<TableEntry> {
    if opcode == 0 {
        Some(TableEntry { kind: InstructionKind::Run, size: 0, mode: 0 })
    } else if opcode <= 18 {
        Some(TableEntry { kind: InstructionKind::Add, size: (opcode - 1) as u8, mode: 0 })
    } else if opcode <= 162 {
        let r = (opcode - 19) % 16;
        Some(
            TableEntry {
                kind: InstructionKind::Copy,
                size: if r == 0 { 0u8 } else { (r + 3) as u8 },
                mode: ((opcode - 19) / 16) as u8,
            },
        )
    } else {
        None
    }
}

/// The size that the opcode of an instruction implies: the size itself where
/// the table has an entry for it, else 0.
pub open spec fn implied_size(kind: InstructionKind, size: int) -> u8 {
    match kind {
        InstructionKind::Run => 0,
        InstructionKind::Add => if 1 <= size <= 17 { size as u8 } else { 0 },
        InstructionKind::Copy => if 4 <= size <= 18 { size as u8 } else { 0 },
    }
}

/// The opcode of an instruction of the given kind, size and mode.
pub open spec fn opcode_of(kind: InstructionKind, size: int, mode: u8) -> u8 {
    match kind {
        InstructionKind::Run => 0,
        InstructionKind::Add => (1 + implied_size(kind, size)) as u8,
        InstructionKind::Copy => if implied_size(kind, size) == 0 {
            (19 + 16 * mode) as u8
        } else {
            (19 + 16 * mode + implied_size(kind, size) - 3) as u8
        },
    }
}

/// Whether a mode suits a kind: any of the nine for COPY, 0 for the others.
pub open spec fn mode_fits(kind: InstructionKind, mode: u8) -> bool {
    if kind == InstructionKind::Copy {
        mode <= 8
    } else {
        mode == 0
    }
}

/// The table gives back what an opcode was made from.
pub proof fn lemma_entry_of_opcode(kind: InstructionKind, size: int, mode: u8)
    requires
        mode_fits(kind, mode),
    ensures
        table_entry(opcode_of(kind, size, mode)) == Some(
            TableEntry { kind, size: implied_size(kind, size), mode },
        ),
{
}

/// Every assigned opcode is the opcode of its own entry.
pub proof fn lemma_opcode_of_entry(opcode: u8)
    requires
        table_entry(opcode) is Some,
    ensures
        mode_fits(table_entry(opcode)->0.kind, table_entry(opcode)->0.mode),
        opcode_of(
            table_entry(opcode)->0.kind,
            table_entry(opcode)->0.size as int,
            table_entry(opcode)->0.mode,
        ) == opcode,
{
}

/// Looks `opcode` up in the code table.
pub fn instruction_for(opcode: u8) -> (entry: Option<TableEntry>)
    ensures
        entry == table_entry(opcode),
{
    if opcode == 0 {
        Some(TableEntry { kind: InstructionKind::Run, size: 0, mode: 0 })
    } else if opcode <= 18 {
        Some(TableEntry { kind: InstructionKind::Add, size: opcode - 1, mode: 0 })
    } else if opcode <= 162 {
        let r = (opcode - 19) % 16;
        Some(
            TableEntry {
                kind: InstructionKind::Copy,
                size: if r == 0 { 0 } else { r + 3 },
                mode: (opcode - 19) / 16,
            },
        )
    } else {
        None
    }
}

/// The opcode for an instruction. Where the result's entry has size 0, the
/// size is to follow as an explicit integer.
pub fn opcode_for(kind: InstructionKind, size: u64, mode: u8) -> (opcode: u8)
    requires
        mode_fits(kind, mode),
    ensures
        opcode == opcode_of(kind, size as int, mode),
        table_entry(opcode) == Some(TableEntry { kind, size: implied_size(kind, size as int), mode }),
{
    match kind {
        InstructionKind::Run => 0,
        InstructionKind::Add => if 1 <= size && size <= 17 {
            1 + size as u8
        } else {
            1
        },
        InstructionKind::Copy => if 4 <= size && size <= 18 {
            19 + 16 * mode + (size as u8 - 3)
        } else {
            19 + 16 * mode
        },
    }
}

} // verus!
