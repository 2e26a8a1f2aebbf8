//! Dice notation for tabletop games: a tokenizer and recursive-descent parser
//! that build an expression tree, an evaluator that rolls it against a
//! pluggable random source, and a simulator that rolls it many times.
use vstd::prelude::*;

pub mod ast;
pub mod error;
pub mod grammar;
pub mod lexer;
pub mod parser;
pub mod roller;
pub mod semantics;
pub mod sim;
pub mod text;

pub use crate::ast::{Compare, Condition, Expr, Modifier, Op, Roll, Sides};
pub use crate::error::Error;
pub use crate::roller::{evaluate, evaluate_with_rng, DieResult, FastRng, Rng, RollResult};
pub use crate::sim::{simulate, simulate_seeded, SimResult};

verus! {

use crate::grammar::parse_text;
use crate::semantics::roll_text;

/// Parses and evaluates `expr` once, with the default random source in a
/// random state.
pub fn roll(expr: &str) -> (r: Result<RollResult, Error>)
    ensures
        exists|g: FastRng|
            match #[trigger] roll_text(expr@, g) {
                Ok((o, _)) => r is Ok && r->Ok_0@ == o,
                Err(f) => r is Err && r->Err_0@ == f,
            },
{
    let mut rng = FastRng::new();
    let ghost g = rng;
    let r = roll_with_rng(expr, &mut rng);
    assert(match roll_text(expr@, g) {
        Ok((o, _)) => r is Ok && r->Ok_0@ == o,
        Err(f) => r is Err && r->Err_0@ == f,
    });
    r
}

/// Parses and evaluates `expr` once, rolling with `rng`.
pub fn roll_with_rng<R: Rng>(expr: &str, rng: &mut R) -> (r: Result<RollResult, Error>)
    ensures
        match roll_text(expr@, *old(rng)) {
            Ok((o, g)) => r is Ok && r->Ok_0@ == o && *final(rng) == g,
            Err(f) => r is Err && r->Err_0@ == f,
        },
{
    let parsed = match crate::parser::parse(expr) {
        Ok(e) => e,
        Err(e) => return Err(e),
    };
    evaluate_with_rng(&parsed, rng)
}

/// Parses dice notation into an expression tree, without rolling.
pub fn parse(input: &str) -> (r: Result<Expr, Error>)
    ensures
        match parse_text(input@) {
            Ok(e) => r is Ok && r->Ok_0.model() == e,
            Err(f) => r is Err && r->Err_0@ == f,
        },
{
    crate::parser::parse(input)
}

} // verus!
