//! A small compiler for a language of integer variables, arithmetic and
//! loops. It turns source text into register-allocated instructions for an
//! abstract machine with a fixed register file and a spill area in memory.
//!
//! The stages, in the order in which a program passes through them:
//!
//! - [`lexer`] reads the bytes of the sources ([`source`], [`source_map`])
//!   into tokens ([`token`]);
//! - [`parser`] builds the syntax tree ([`ast`]) from the tokens;
//! - [`resolver`] checks that every variable is declared, enters the
//!   declarations into the symbol table ([`symbols`]), and binds each
//!   variable to the symbol that its name stands for where it is used;
//! - [`ir_builder`] lowers the resolved statements to a flat sequence of
//!   instructions ([`instructions`]) over variables and temporaries;
//! - [`legalizer`] rewrites each instruction into a shape that the machine
//!   has: it folds arithmetic on literals and materializes immediates;
//! - [`register_allocator`] maps the locations to registers in one forward
//!   pass, and inserts stores and loads where registers run out.
//!
//! Every stage states what it computes as a function on plain data, and is
//! proved to compute just that. What holds across stages is stated and
//! proved in [`folding`] and [`names`]. Diagnostics of the front end and
//! faults of the back end are in [`errors`].

pub mod ast;
pub mod errors;
pub mod folding;
pub mod instructions;
pub mod ir_builder;
pub mod legalizer;
pub mod lexer;
pub mod names;
pub mod parser;
pub mod register_allocator;
pub mod resolver;
pub mod search;
pub mod source;
pub mod source_map;
pub mod symbols;
pub mod token;
