//! Opcode bytes of the instruction stream.
//!
//! Opcode byte 0 is reserved. The high bit (0x80) of an opcode byte selects
//! wide-operand mode for that instruction; the low 7 bits select the
//! operation, so every opcode constant here is below 0x80.

use vstd::prelude::*;

verus! {

/// Return from execution.
pub const RET: u8 = 0x01;
/// Copy register to register.
pub const STORE: u8 = 0x02;
/// Copy a constant-pool entry into a register.
pub const STORE_K: u8 = 0x03;
/// Add two registers.
pub const ADD: u8 = 0x04;
/// Add a register and a constant.
pub const ADD_RK: u8 = 0x05;
/// Add a constant and a register.
pub const ADD_KR: u8 = 0x06;
/// Subtract two registers.
pub const SUB: u8 = 0x07;
/// Subtract a constant from a register.
pub const SUB_RK: u8 = 0x08;
/// Subtract a register from a constant.
pub const SUB_KR: u8 = 0x09;
/// Multiply two registers.
pub const MUL: u8 = 0x0a;
/// Multiply a register by a constant.
pub const MUL_RK: u8 = 0x0b;
/// Multiply a constant by a register.
pub const MUL_KR: u8 = 0x0c;
/// Divide two registers.
pub const DIV: u8 = 0x0d;
/// Divide a register by a constant.
pub const DIV_RK: u8 = 0x0e;
/// Divide a constant by a register.
pub const DIV_KR: u8 = 0x0f;
/// Allocate a pair of two registers.
pub const CONS: u8 = 0x10;
/// Read the first field of a pair.
pub const CAR: u8 = 0x11;
/// Read the second field of a pair.
pub const CDR: u8 = 0x12;
/// Build a linked list from a register range.
pub const LIST: u8 = 0x13;
/// Destructively set the first field of a pair.
pub const XAR: u8 = 0x14;
/// Destructively set the second field of a pair.
pub const XDR: u8 = 0x15;

} // verus!
