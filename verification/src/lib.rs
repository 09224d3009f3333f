//! An unlimited register machine: a macro assembler for a small register
//! language, and the engine that runs what it assembles.
//!
//! A program works on registers that hold natural numbers: the inputs `x1`,
//! `x2`, ..., the temporaries `z1`, `z2`, ... and the accumulator `y`. It can
//! add one to a register, take one off a register that is not zero, and jump
//! where a register is not zero. Everything else is a macro: a line with
//! placeholders that stands for other lines.
//!
//! - [`text`]: characters, runs, decimal numbers, trimming, substitution.
//! - [`program`]: registers, labels and instructions, and how each is written.
//! - [`macros`]: macro headers as patterns, and the matcher behind them.
//! - [`expansion`]: the expansion of a macro call, with names of its own.
//! - [`assembler`]: the two passes from source lines to a [`assembler::Program`].
//! - [`hygiene`]: why a name that an expansion makes is a new one.
//! - [`prologue`]: the macros that stand before every source.
//! - [`machine`]: the run of a program.
//! - [`error`]: the error of the assembler.

pub mod assembler;
pub mod error;
pub mod expansion;
pub mod hygiene;
pub mod machine;
pub mod macros;
pub mod program;
pub mod prologue;
pub mod text;
