//! Compiled code units: a byte-encoded instruction stream, a constant
//! pool, and a source-line table kept only for diagnostics.
//!
//! Operands are encoded per instruction either narrow (one byte each) or
//! wide (two bytes each, big-endian); an instruction is wide exactly when
//! one of its operands does not fit a byte, and its opcode byte then
//! carries the high bit.

use vstd::prelude::*;

use crate::error::VMResult;
use crate::value::Value;

verus! {

/// The mathematical state of a [`Chunk`].
pub ghost struct ChunkV {
    pub code: Seq<u8>,
    pub constants: Seq<Value>,
    pub file_name: Seq<char>,
    pub start_line: u32,
    pub lines: Seq<u32>,
}

/// One unit of compiled code. Immutable once built, except that constants
/// may keep being appended — callers composing programs incrementally rely
/// on that, and on [`Chunk::encode0`] and friends appending instructions.
pub struct Chunk {
    /// The instruction stream.
    pub code: Vec<u8>,
    /// The constant pool, append-only and index-addressed.
    pub constants: Vec<Value>,
    /// The source file this code was compiled from, for diagnostics only.
    pub file_name: String,
    /// The first source line of the unit, for diagnostics only.
    pub start_line: u32,
    /// One source line per code byte, for diagnostics only; execution
    /// never consults it.
    pub lines: Vec<u32>,
}

impl View for Chunk {
    type V = ChunkV;

    open spec fn view(&self) -> ChunkV {
        ChunkV {
            code: self.code@,
            constants: self.constants@,
            file_name: self.file_name@,
            start_line: self.start_line,
            lines: self.lines@,
        }
    }
}

/// The high byte of a big-endian operand.
pub open spec fn spec_hi(a: u16) -> u8 {
    (a >> 8) as u8
}

/// The low byte of a big-endian operand.
pub open spec fn spec_lo(a: u16) -> u8 {
    (a & 0xff) as u8
}

/// The bytes of a two-operand instruction: narrow when both operands fit
/// a byte, else wide with the opcode's high bit set.
pub open spec fn encode2_bytes(opcode: u8, a: u16, b: u16) -> Seq<u8> {
    if a > 0xff || b > 0xff {
        seq![opcode | 0x80, spec_hi(a), spec_lo(a), spec_hi(b), spec_lo(b)]
    } else {
        seq![opcode, a as u8, b as u8]
    }
}

/// The bytes of a three-operand instruction.
pub open spec fn encode3_bytes(opcode: u8, a: u16, b: u16, c: u16) -> Seq<u8> {
    if a > 0xff || b > 0xff || c > 0xff {
        seq![opcode | 0x80, spec_hi(a), spec_lo(a), spec_hi(b), spec_lo(b), spec_hi(c), spec_lo(c)]
    } else {
        seq![opcode, a as u8, b as u8, c as u8]
    }
}

impl Chunk {
    /// A fresh, empty unit for the given source file and starting line.
    pub fn new(file_name: &str, start_line: u32) -> (c: Chunk)
        ensures
            c@.code == Seq::<u8>::empty(),
            c@.constants == Seq::<Value>::empty(),
            c@.lines == Seq::<u32>::empty(),
            c@.file_name == file_name@,
            c@.start_line == start_line,
    {
        Chunk {
            code: Vec::new(),
            constants: Vec::new(),
            file_name: file_name.to_owned(),
            start_line,
            lines: Vec::new(),
        }
    }

    /// Append a constant, returning its pool index.
    pub fn add_constant(&mut self, value: Value) -> (idx: usize)
        ensures
            final(self)@ == (ChunkV { constants: old(self)@.constants.push(value), ..old(self)@ }),
            idx as int == old(self)@.constants.len(),
    {
        let idx = self.constants.len();
        self.constants.push(value);
        idx
    }

    /// Append a no-operand instruction.
    pub fn encode0(&mut self, opcode: u8, line: u32) -> (r: VMResult<()>)
        requires
            opcode < 0x80,
        ensures
            r == Ok::<(), crate::error::VMError>(()),
            final(self)@ == (ChunkV {
                code: old(self)@.code.push(opcode),
                lines: old(self)@.lines.push(line),
                ..old(self)@
            }),
    {
        self.code.push(opcode);
        self.lines.push(line);
        Ok(())
    }

    /// Append a two-operand instruction, choosing the narrow encoding when
    /// both operands fit a byte and the wide one otherwise.
    pub fn encode2(&mut self, opcode: u8, op1: u16, op2: u16, line: u32) -> (r: VMResult<()>)
        requires
            opcode < 0x80,
        ensures
            r == Ok::<(), crate::error::VMError>(()),
            final(self)@ == (ChunkV {
                code: old(self)@.code + encode2_bytes(opcode, op1, op2),
                lines: old(self)@.lines + Seq::new(
                    encode2_bytes(opcode, op1, op2).len(),
                    |i: int| line,
                ),
                ..old(self)@
            }),
    {
        if op1 > 0xff || op2 > 0xff {
            self.push_byte(opcode | 0x80, line);
            self.push_wide(op1, line);
            self.push_wide(op2, line);
            proof {
                assert(self@.code =~= old(self)@.code + encode2_bytes(opcode, op1, op2));
                assert(self@.lines =~= old(self)@.lines + Seq::new(
                    encode2_bytes(opcode, op1, op2).len(),
                    |i: int| line,
                ));
            }
        } else {
            self.push_byte(opcode, line);
            self.push_byte(op1 as u8, line);
            self.push_byte(op2 as u8, line);
            proof {
                assert(self@.code =~= old(self)@.code + encode2_bytes(opcode, op1, op2));
                assert(self@.lines =~= old(self)@.lines + Seq::new(
                    encode2_bytes(opcode, op1, op2).len(),
                    |i: int| line,
                ));
            }
        }
        Ok(())
    }

    /// Append a three-operand instruction, narrow or wide as above.
    pub fn encode3(&mut self, opcode: u8, op1: u16, op2: u16, op3: u16, line: u32) -> (r: VMResult<
        (),
    >)
        requires
            opcode < 0x80,
        ensures
            r == Ok::<(), crate::error::VMError>(()),
            final(self)@ == (ChunkV {
                code: old(self)@.code + encode3_bytes(opcode, op1, op2, op3),
                lines: old(self)@.lines + Seq::new(
                    encode3_bytes(opcode, op1, op2, op3).len(),
                    |i: int| line,
                ),
                ..old(self)@
            }),
    {
        if op1 > 0xff || op2 > 0xff || op3 > 0xff {
            self.push_byte(opcode | 0x80, line);
            self.push_wide(op1, line);
            self.push_wide(op2, line);
            self.push_wide(op3, line);
            proof {
                assert(self@.code =~= old(self)@.code + encode3_bytes(opcode, op1, op2, op3));
                assert(self@.lines =~= old(self)@.lines + Seq::new(
                    encode3_bytes(opcode, op1, op2, op3).len(),
                    |i: int| line,
                ));
            }
        } else {
            self.push_byte(opcode, line);
            self.push_byte(op1 as u8, line);
            self.push_byte(op2 as u8, line);
            self.push_byte(op3 as u8, line);
            proof {
                assert(self@.code =~= old(self)@.code + encode3_bytes(opcode, op1, op2, op3));
                assert(self@.lines =~= old(self)@.lines + Seq::new(
                    encode3_bytes(opcode, op1, op2, op3).len(),
                    |i: int| line,
                ));
            }
        }
        Ok(())
    }

    /// Append one code byte with its line entry.
    fn push_byte(&mut self, byte: u8, line: u32)
        ensures
            final(self)@ == (ChunkV {
                code: old(self)@.code.push(byte),
                lines: old(self)@.lines.push(line),
                ..old(self)@
            }),
    {
        self.code.push(byte);
        self.lines.push(line);
    }

    /// Append one big-endian wide operand with its line entries.
    fn push_wide(&mut self, op: u16, line: u32)
        ensures
            final(self)@ == (ChunkV {
                code: old(self)@.code.push(spec_hi(op)).push(spec_lo(op)),
                lines: old(self)@.lines.push(line).push(line),
                ..old(self)@
            }),
    {
        self.code.push((op >> 8) as u8);
        self.code.push((op & 0xff) as u8);
        self.lines.push(line);
        self.lines.push(line);
    }
}

} // verus!
