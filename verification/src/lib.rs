//! A Brainfuck development toolkit: a parser, a peephole optimizer, a C code
//! generator, and a debugging interpreter with breakpoints, all sharing one
//! instruction representation.

pub mod compiler;
pub mod interp;
pub mod ir;
pub mod optimizer;
pub mod parser;
pub mod text;
