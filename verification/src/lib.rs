//! Front end for a small logic-programming language: a tokenizer and a
//! recursive-descent clause/term parser, together with the term data model
//! they produce, and a heap emulator that stores term trees as flat cells.

pub mod lexer;
pub mod ast;
pub mod wam;

pub use wam::{WamEmulator, Term, HeapCell};
