//! Core of an embeddable dynamic-language runtime: a register-based bytecode
//! interpreter backed by a tracing, mark-sweep garbage-collected heap.
//!
//! The heap stores compound values (boxed scalars, strings, vectors, byte
//! buffers, cons pairs) in parallel slot arrays addressed by [`heap::Handle`]s.
//! The virtual machine ([`vm::Vm`]) decodes variable-width instructions from a
//! [`chunk::Chunk`], operating on a fixed register file and allocating into
//! the heap as it goes.
//!
//! Floating-point values are carried as IEEE-754 bit patterns
//! ([`value::Value::Float`]); the arithmetic on them is delegated to the host,
//! which drives [`vm::Vm::execute`] / [`vm::Vm::resume_float`].

pub mod chunk;
pub mod error;
pub mod heap;
pub mod interner;
pub mod opcodes;
pub mod semantics;
pub mod value;
pub mod vm;
