//! Errors of tokenizing, parsing and evaluating.
use vstd::prelude::*;

verus! {

/// What can go wrong while tokenizing, parsing or evaluating.
#[derive(Debug)]
pub enum Error {
    /// A character that no token starts with, and its byte offset.
    UnexpectedChar(char, usize),
    /// The input ended in the middle of a construct.
    UnexpectedEof,
    /// The grammar asked for one thing and found another.
    Expected { expected: String, found: String },
    /// A dice count that cannot be rolled.
    InvalidDiceCount(u32),
    /// A die with a number of faces that cannot be rolled.
    InvalidDiceSides(u32),
    /// A die exploded more often than the limit allows.
    ExplodeLimit(u32),
    /// A die was rerolled more often than the limit allows.
    RerollLimit(u32),
    /// The right side of a division was zero.
    DivisionByZero,
    /// A total left the range of a 64-bit signed integer.
    Overflow,
}

/// An error as a mathematical value: the texts of `Expected` as sequences.
pub enum Fault {
    UnexpectedChar(char, int),
    UnexpectedEof,
    Expected(Seq<char>, Seq<char>),
    InvalidDiceCount(u32),
    InvalidDiceSides(u32),
    ExplodeLimit(u32),
    RerollLimit(u32),
    DivisionByZero,
    Overflow,
}

impl View for Error {
    type V = Fault;

    open spec fn view(&self) -> Fault {
        match self {
            Error::UnexpectedChar(c, p) => Fault::UnexpectedChar(*c, *p as int),
            Error::UnexpectedEof => Fault::UnexpectedEof,
            Error::Expected { expected, found } => Fault::Expected(expected@, found@),
            Error::InvalidDiceCount(n) => Fault::InvalidDiceCount(*n),
            Error::InvalidDiceSides(n) => Fault::InvalidDiceSides(*n),
            Error::ExplodeLimit(n) => Fault::ExplodeLimit(*n),
            Error::RerollLimit(n) => Fault::RerollLimit(*n),
            Error::DivisionByZero => Fault::DivisionByZero,
            Error::Overflow => Fault::Overflow,
        }
    }
}

} // verus!
