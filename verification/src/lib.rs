//! A small virtual machine for an eight-symbol tape language.
//!
//! Source text is tokenized, runs of equal operations are merged into
//! counted instructions, loop brackets are paired, and the resulting
//! program is executed against a byte tape.

pub mod compile;
pub mod ir;
pub mod jumps;
pub mod machine;
pub mod rle;
pub mod token;
pub mod vm;
