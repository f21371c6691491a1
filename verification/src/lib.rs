//! A compiler and executor for the eight-instruction tape-machine language.
//!
//! Source text is tokenised by [`lexer::Lexer`], compiled into a flat
//! sequence of run-length-collapsed instructions, its loop brackets are
//! paired into a jump table, and the result is executed one instruction at a
//! time over a fixed-size byte tape.

pub mod collapse;
pub mod expansion;
pub mod interpreter;
pub mod ir;
pub mod jumps;
pub mod lexer;
pub mod machine;
