//! The grammar of dice notation as spec functions over the token stream.
//!
//! Every function takes the input `s` and the index `k` of the current token,
//! and gives back the value it parsed with the number of tokens it consumed,
//! or the fault that stopped it.
use vstd::prelude::*;
use crate::ast::{Compare, Condition, ExprModel, Modifier, Op, RollModel, Sides};
use crate::error::Fault;
use crate::text::decimal_text;
use crate::lexer::{digits_end, is_digit, is_space, lex, skip_space, Token};

verus! {

/// The `k`-th token of `s` and the index of the character after it, reading
/// the input from its start; after the end, `Eof` repeats.
pub open spec fn token_from_start(s: Seq<char>, k: nat) -> Result<(Token, int), Fault>
    decreases k,
{
    if k == 0 {
        lex(s, 0)
    } else {
        match token_from_start(s, (k - 1) as nat) {
            Ok((t, j)) => if t == Token::Eof {
                Ok((Token::Eof, j))
            } else {
                lex(s, j)
            },
            Err(f) => Err(f),
        }
    }
}

/// The `k`-th token of `s`. No token but `Eof` lies beyond index `s.len()`,
/// as each other token takes at least one character.
pub open spec fn tok(s: Seq<char>, k: nat) -> Result<(Token, int), Fault> {
    if k > s.len() {
        Ok((Token::Eof, s.len() as int))
    } else {
        token_from_start(s, k)
    }
}

/// The `k`-th token, or `Eof` where the tokenizer failed.
pub open spec fn cur(s: Seq<char>, k: nat) -> Token {
    match tok(s, k) {
        Ok((t, _)) => t,
        Err(_) => Token::Eof,
    }
}

/// Whether the tokenizer fails on the `k`-th token.
pub open spec fn bad(s: Seq<char>, k: nat) -> bool {
    tok(s, k) is Err
}

/// The fault of the tokenizer on the `k`-th token.
pub open spec fn fault(s: Seq<char>, k: nat) -> Fault {
    match tok(s, k) {
        Err(f) => f,
        Ok(_) => Fault::UnexpectedEof,
    }
}

/// How many tokens may still follow index `k`.
pub open spec fn room(s: Seq<char>, k: nat) -> nat {
    if k <= s.len() + 1 {
        (s.len() + 1 - k) as nat
    } else {
        0
    }
}

/// How a token is named in a diagnostic: its variant, with the value of a
/// number.
pub open spec fn token_text(t: Token) -> Seq<char> {
    match t {
        Token::Number(n) => "Number("@ + decimal_text(n as int) + ")"@,
        Token::D => "D"@,
        Token::Percent => "Percent"@,
        Token::Fudge => "Fudge"@,
        Token::Plus => "Plus"@,
        Token::Minus => "Minus"@,
        Token::Star => "Star"@,
        Token::Slash => "Slash"@,
        Token::LParen => "LParen"@,
        Token::RParen => "RParen"@,
        Token::K => "K"@,
        Token::H => "H"@,
        Token::L => "L"@,
        Token::Explode => "Explode"@,
        Token::R => "R"@,
        Token::O => "O"@,
        Token::P => "P"@,
        Token::Eq => "Eq"@,
        Token::Lt => "Lt"@,
        Token::Gt => "Gt"@,
        Token::Eof => "Eof"@,
    }
}

/// The fault for finding `found` where `what` was expected: running out of
/// input is reported as such.
pub open spec fn expected(what: Seq<char>, found: Token) -> Fault {
    if found == Token::Eof {
        Fault::UnexpectedEof
    } else {
        Fault::Expected(what, token_text(found))
    }
}

pub open spec fn is_comparator(t: Token) -> bool {
    t == Token::Gt || t == Token::Lt || t == Token::Eq
}

/// `expression := term (('+' | '-') term)*`
pub open spec fn expression_at(s: Seq<char>, k: nat) -> Result<(ExprModel, nat), Fault>
    decreases room(s, k), 4nat,
{
    match term_at(s, k) {
        Err(f) => Err(f),
        Ok((left, u)) => match expression_rest(s, left, k + u) {
            Err(f) => Err(f),
            Ok((e, v)) => Ok((e, u + v)),
        },
    }
}

/// The `(('+' | '-') term)*` part of an expression, after `left`.
pub open spec fn expression_rest(s: Seq<char>, left: ExprModel, k: nat) -> Result<
    (ExprModel, nat),
    Fault,
>
    decreases room(s, k), 0nat,
{
    let t = cur(s, k);
    if t == Token::Plus || t == Token::Minus {
        let op = if t == Token::Plus {
            Op::Add
        } else {
            Op::Sub
        };
        if bad(s, k + 1) {
            Err(fault(s, k + 1))
        } else {
            match term_at(s, k + 1) {
                Err(f) => Err(f),
                Ok((right, u)) => {
                    let e = ExprModel::BinOp(op, Box::new(left), Box::new(right));
                    match expression_rest(s, e, k + 1 + u) {
                        Err(f) => Err(f),
                        Ok((r, v)) => Ok((r, 1 + u + v)),
                    }
                },
            }
        }
    } else {
        Ok((left, 0))
    }
}

/// `term := factor (('*' | '/') factor)*`
pub open spec fn term_at(s: Seq<char>, k: nat) -> Result<(ExprModel, nat), Fault>
    decreases room(s, k), 3nat,
{
    match factor_at(s, k) {
        Err(f) => Err(f),
        Ok((left, u)) => match term_rest(s, left, k + u) {
            Err(f) => Err(f),
            Ok((e, v)) => Ok((e, u + v)),
        },
    }
}

/// The `(('*' | '/') factor)*` part of a term, after `left`.
pub open spec fn term_rest(s: Seq<char>, left: ExprModel, k: nat) -> Result<(ExprModel, nat), Fault>
    decreases room(s, k), 0nat,
{
    let t = cur(s, k);
    if t == Token::Star || t == Token::Slash {
        let op = if t == Token::Star {
            Op::Mul
        } else {
            Op::Div
        };
        if bad(s, k + 1) {
            Err(fault(s, k + 1))
        } else {
            match factor_at(s, k + 1) {
                Err(f) => Err(f),
                Ok((right, u)) => {
                    let e = ExprModel::BinOp(op, Box::new(left), Box::new(right));
                    match term_rest(s, e, k + 1 + u) {
                        Err(f) => Err(f),
                        Ok((r, v)) => Ok((r, 1 + u + v)),
                    }
                },
            }
        }
    } else {
        Ok((left, 0))
    }
}

/// `factor := roll_or_number | '(' expression ')' | '-' factor`; a negation
/// is `0 - factor`.
pub open spec fn factor_at(s: Seq<char>, k: nat) -> Result<(ExprModel, nat), Fault>
    decreases room(s, k), 2nat,
{
    let t = cur(s, k);
    if t is Number || t == Token::D {
        roll_or_number_at(s, k)
    } else if t == Token::LParen {
        if bad(s, k + 1) {
            Err(fault(s, k + 1))
        } else {
            match expression_at(s, k + 1) {
                Err(f) => Err(f),
                Ok((e, u)) => {
                    let c = cur(s, k + 1 + u);
                    if c == Token::RParen {
                        if bad(s, k + 2 + u) {
                            Err(fault(s, k + 2 + u))
                        } else {
                            Ok((ExprModel::Group(Box::new(e)), u + 2))
                        }
                    } else {
                        Err(expected(token_text(Token::RParen), c))
                    }
                },
            }
        }
    } else if t == Token::Minus {
        if bad(s, k + 1) {
            Err(fault(s, k + 1))
        } else {
            match factor_at(s, k + 1) {
                Err(f) => Err(f),
                Ok((e, u)) => Ok(
                    (
                        ExprModel::BinOp(Op::Sub, Box::new(ExprModel::Number(0)), Box::new(e)),
                        u + 1,
                    ),
                ),
            }
        }
    } else {
        Err(expected("number, dice roll, or '('"@, t))
    }
}

/// `roll_or_number := [count] ['d' sides modifiers]`: a count alone is a
/// number; a roll without a count rolls one die.
#[verifier::opaque]
pub open spec fn roll_or_number_at(s: Seq<char>, k: nat) -> Result<(ExprModel, nat), Fault> {
    let t = cur(s, k);
    if t is Number && bad(s, k + 1) {
        Err(fault(s, k + 1))
    } else {
        let count: u32 = match t {
            Token::Number(n) => n,
            _ => 1,
        };
        let k1: nat = if t is Number {
            k + 1
        } else {
            k
        };
        if cur(s, k1) != Token::D {
            Ok((ExprModel::Number(count as i64), (k1 - k) as nat))
        } else if bad(s, k1 + 1) {
            Err(fault(s, k1 + 1))
        } else {
            match sides_at(s, k1 + 1) {
                Err(f) => Err(f),
                Ok((sides, u)) => match modifiers_at(s, Seq::empty(), k1 + 1 + u) {
                    Err(f) => Err(f),
                    Ok((mods, v)) => Ok(
                        (
                            ExprModel::Roll(RollModel { count, sides, modifiers: mods }),
                            (k1 - k + 1 + u + v) as nat,
                        ),
                    ),
                },
            }
        }
    }
}

/// `sides := integer | '%' | 'F'`; a die without faces is refused.
pub open spec fn sides_at(s: Seq<char>, k: nat) -> Result<(Sides, nat), Fault> {
    let t = cur(s, k);
    match t {
        Token::Number(n) => if n == 0 {
            Err(Fault::InvalidDiceSides(0))
        } else if bad(s, k + 1) {
            Err(fault(s, k + 1))
        } else {
            Ok((Sides::Number(n), 1))
        },
        Token::Percent => if bad(s, k + 1) {
            Err(fault(s, k + 1))
        } else {
            Ok((Sides::Percent, 1))
        },
        Token::Fudge => if bad(s, k + 1) {
            Err(fault(s, k + 1))
        } else {
            Ok((Sides::Fudge, 1))
        },
        _ => Err(expected("dice sides (number, %, or F)"@, t)),
    }
}

/// The modifiers after a die, appended to `mods`: `k`, `!`, `r`, `d` before
/// `h` or `l`, and a bare comparison, which counts successes.
pub open spec fn modifiers_at(s: Seq<char>, mods: Seq<Modifier>, k: nat) -> Result<
    (Seq<Modifier>, nat),
    Fault,
>
    decreases room(s, k),
{
    let t = cur(s, k);
    if t == Token::K || t == Token::Explode || t == Token::R || is_comparator(t) {
        if bad(s, k + 1) {
            Err(fault(s, k + 1))
        } else {
            let m = if t == Token::K {
                keep_at(s, k + 1)
            } else if t == Token::Explode {
                explode_at(s, k + 1)
            } else if t == Token::R {
                reroll_at(s, k + 1)
            } else {
                match comparison_after(s, t, k + 1) {
                    Err(f) => Err(f),
                    Ok((c, u)) => Ok((Modifier::CountSuccesses(c), u)),
                }
            };
            match m {
                Err(f) => Err(f),
                Ok((m, u)) => match modifiers_at(s, mods.push(m), k + 1 + u) {
                    Err(f) => Err(f),
                    Ok((r, v)) => Ok((r, 1 + u + v)),
                },
            }
        }
    } else if t == Token::D {
        if bad(s, k + 1) {
            Err(fault(s, k + 1))
        } else if cur(s, k + 1) == Token::H || cur(s, k + 1) == Token::L {
            match drop_at(s, k + 1) {
                Err(f) => Err(f),
                Ok((m, u)) => match modifiers_at(s, mods.push(m), k + 1 + u) {
                    Err(f) => Err(f),
                    Ok((r, v)) => Ok((r, 1 + u + v)),
                },
            }
        } else {
            Ok((mods, 0))
        }
    } else {
        Ok((mods, 0))
    }
}

/// An optional number, `default` where none stands.
pub open spec fn optional_number_at(s: Seq<char>, k: nat, default: u32) -> Result<(u32, nat), Fault> {
    match cur(s, k) {
        Token::Number(n) => if bad(s, k + 1) {
            Err(fault(s, k + 1))
        } else {
            Ok((n, 1))
        },
        _ => Ok((default, 0)),
    }
}

/// After `k`: `h` or `l` (highest when neither) and an optional count, one by
/// default.
pub open spec fn keep_at(s: Seq<char>, k: nat) -> Result<(Modifier, nat), Fault> {
    let t = cur(s, k);
    let marked = t == Token::H || t == Token::L;
    if marked && bad(s, k + 1) {
        Err(fault(s, k + 1))
    } else {
        let k1: nat = if marked {
            k + 1
        } else {
            k
        };
        match optional_number_at(s, k1, 1) {
            Err(f) => Err(f),
            Ok((n, u)) => Ok(
                (
                    if t == Token::L {
                        Modifier::KeepLowest(n)
                    } else {
                        Modifier::KeepHighest(n)
                    },
                    (k1 - k + u) as nat,
                ),
            ),
        }
    }
}

/// After the `d` of a drop: `h` or `l` and an optional count, one by default.
pub open spec fn drop_at(s: Seq<char>, k: nat) -> Result<(Modifier, nat), Fault> {
    let t = cur(s, k);
    if t == Token::H || t == Token::L {
        if bad(s, k + 1) {
            Err(fault(s, k + 1))
        } else {
            match optional_number_at(s, k + 1, 1) {
                Err(f) => Err(f),
                Ok((n, u)) => Ok(
                    (
                        if t == Token::H {
                            Modifier::DropHighest(n)
                        } else {
                            Modifier::DropLowest(n)
                        },
                        u + 1,
                    ),
                ),
            }
        }
    } else {
        Err(expected("'h' or 'l' after 'd'"@, t))
    }
}

/// After `!`: an optional `p` and an optional condition.
pub open spec fn explode_at(s: Seq<char>, k: nat) -> Result<(Modifier, nat), Fault> {
    let penetrating = cur(s, k) == Token::P;
    if penetrating && bad(s, k + 1) {
        Err(fault(s, k + 1))
    } else {
        let k1: nat = if penetrating {
            k + 1
        } else {
            k
        };
        match condition_at(s, k1) {
            Err(f) => Err(f),
            Ok((condition, u)) => Ok(
                (Modifier::Explode { penetrating, condition }, (k1 - k + u) as nat),
            ),
        }
    }
}

/// After `r`: an optional `o` and an optional condition.
pub open spec fn reroll_at(s: Seq<char>, k: nat) -> Result<(Modifier, nat), Fault> {
    let once = cur(s, k) == Token::O;
    if once && bad(s, k + 1) {
        Err(fault(s, k + 1))
    } else {
        let k1: nat = if once {
            k + 1
        } else {
            k
        };
        match condition_at(s, k1) {
            Err(f) => Err(f),
            Ok((condition, u)) => Ok(
                (Modifier::Reroll { once, condition }, (k1 - k + u) as nat),
            ),
        }
    }
}

/// An optional condition: a comparison and a number.
pub open spec fn condition_at(s: Seq<char>, k: nat) -> Result<(Option<Condition>, nat), Fault> {
    let t = cur(s, k);
    if is_comparator(t) {
        if bad(s, k + 1) {
            Err(fault(s, k + 1))
        } else {
            match comparison_after(s, t, k + 1) {
                Err(f) => Err(f),
                Ok((c, u)) => Ok((Some(c), u + 1)),
            }
        }
    } else {
        Ok((None, 0))
    }
}

/// The rest of a condition whose first comparison token `first` has been
/// read: `=`, `<`, `<=`, `<>`, `>` or `>=`, then a number.
pub open spec fn comparison_after(s: Seq<char>, first: Token, k: nat) -> Result<
    (Condition, nat),
    Fault,
> {
    let t = cur(s, k);
    if first == Token::Lt && (t == Token::Eq || t == Token::Gt) {
        if bad(s, k + 1) {
            Err(fault(s, k + 1))
        } else {
            let c = if t == Token::Eq {
                Compare::LessOrEqual
            } else {
                Compare::NotEqual
            };
            match number_after(s, c, k + 1) {
                Err(f) => Err(f),
                Ok((cond, u)) => Ok((cond, u + 1)),
            }
        }
    } else if first == Token::Gt && t == Token::Eq {
        if bad(s, k + 1) {
            Err(fault(s, k + 1))
        } else {
            match number_after(s, Compare::GreaterOrEqual, k + 1) {
                Err(f) => Err(f),
                Ok((cond, u)) => Ok((cond, u + 1)),
            }
        }
    } else {
        let c = if first == Token::Lt {
            Compare::LessThan
        } else if first == Token::Gt {
            Compare::GreaterThan
        } else {
            Compare::Equal
        };
        number_after(s, c, k)
    }
}

/// The number that ends a condition with comparison `c`.
pub open spec fn number_after(s: Seq<char>, c: Compare, k: nat) -> Result<(Condition, nat), Fault> {
    match cur(s, k) {
        Token::Number(n) => if bad(s, k + 1) {
            Err(fault(s, k + 1))
        } else {
            Ok((Condition { compare: c, value: n as i64 }, 1))
        },
        t => Err(expected("number after comparison"@, t)),
    }
}

/// One expression from token `k` on, and nothing after it.
pub open spec fn whole_at(s: Seq<char>, k: nat) -> Result<ExprModel, Fault> {
    match expression_at(s, k) {
        Err(f) => Err(f),
        Ok((e, u)) => if cur(s, k + u) == Token::Eof {
            Ok(e)
        } else {
            Err(Fault::Expected("end of input"@, token_text(cur(s, k + u))))
        },
    }
}

/// A whole input: one expression and nothing after it.
pub open spec fn parse_text(s: Seq<char>) -> Result<ExprModel, Fault> {
    if bad(s, 0) {
        Err(fault(s, 0))
    } else {
        whole_at(s, 0)
    }
}

proof fn lemma_skip_space(s: Seq<char>, i: int)
    requires
        0 <= i <= s.len(),
    ensures
        i <= skip_space(s, i) <= s.len(),
    decreases s.len() - i,
{
    if i < s.len() && is_space(s[i]) {
        lemma_skip_space(s, i + 1);
    }
}

proof fn lemma_digits_end(s: Seq<char>, i: int)
    requires
        0 <= i <= s.len(),
    ensures
        i <= digits_end(s, i) <= s.len(),
        i < s.len() && is_digit(s[i]) ==> i < digits_end(s, i),
    decreases s.len() - i,
{
    if i < s.len() && is_digit(s[i]) {
        lemma_digits_end(s, i + 1);
    }
}

/// A token lies within the input, and every token but `Eof` takes at least
/// one character.
proof fn lemma_lex(s: Seq<char>, i: int)
    requires
        0 <= i <= s.len(),
    ensures
        match lex(s, i) {
            Ok((t, j)) => i <= j <= s.len() && (t != Token::Eof ==> i < j),
            Err(_) => true,
        },
{
    lemma_skip_space(s, i);
    let j = skip_space(s, i);
    if j < s.len() {
        lemma_digits_end(s, j);
    }
}

proof fn lemma_token_from_start(s: Seq<char>, k: nat)
    ensures
        match token_from_start(s, k) {
            Ok((t, j)) => 0 <= j <= s.len() && (t != Token::Eof ==> k + 1 <= j),
            Err(_) => true,
        },
    decreases k,
{
    if k == 0 {
        lemma_lex(s, 0);
    } else {
        lemma_token_from_start(s, (k - 1) as nat);
        match token_from_start(s, (k - 1) as nat) {
            Ok((t, j)) => {
                if t != Token::Eof {
                    lemma_lex(s, j);
                }
            },
            Err(_) => {},
        }
    }
}

/// Reading on after a token other than `Eof` gives the next token.
pub proof fn lemma_next_token(s: Seq<char>, k: nat)
    requires
        tok(s, k) is Ok,
        cur(s, k) != Token::Eof,
    ensures
        k <= s.len(),
        0 <= tok(s, k)->Ok_0.1 <= s.len(),
        tok(s, k + 1) == lex(s, tok(s, k)->Ok_0.1),
{
    lemma_token_from_start(s, k);
}

/// Every literal in `e` is at least zero.
pub open spec fn nonneg_literals(e: ExprModel) -> bool
    decreases e,
{
    match e {
        ExprModel::Number(n) => n >= 0,
        ExprModel::Roll(_) => true,
        ExprModel::BinOp(_, l, r) => nonneg_literals(*l) && nonneg_literals(*r),
        ExprModel::Group(inner) => nonneg_literals(*inner),
    }
}

proof fn lemma_expression_nonneg(s: Seq<char>, k: nat)
    ensures
        expression_at(s, k) matches Ok((e, _)) ==> nonneg_literals(e),
    decreases room(s, k), 4nat,
{
    lemma_term_nonneg(s, k);
    if let Ok((left, u)) = term_at(s, k) {
        lemma_expression_rest_nonneg(s, left, k + u);
    }
}

proof fn lemma_expression_rest_nonneg(s: Seq<char>, left: ExprModel, k: nat)
    requires
        nonneg_literals(left),
    ensures
        expression_rest(s, left, k) matches Ok((e, _)) ==> nonneg_literals(e),
    decreases room(s, k), 0nat,
{
    let t = cur(s, k);
    if (t == Token::Plus || t == Token::Minus) && !bad(s, k + 1) {
        let op = if t == Token::Plus {
            Op::Add
        } else {
            Op::Sub
        };
        lemma_term_nonneg(s, k + 1);
        if let Ok((right, u)) = term_at(s, k + 1) {
            let e = ExprModel::BinOp(op, Box::new(left), Box::new(right));
            lemma_expression_rest_nonneg(s, e, k + 1 + u);
        }
    }
}

proof fn lemma_term_nonneg(s: Seq<char>, k: nat)
    ensures
        term_at(s, k) matches Ok((e, _)) ==> nonneg_literals(e),
    decreases room(s, k), 3nat,
{
    lemma_factor_nonneg(s, k);
    if let Ok((left, u)) = factor_at(s, k) {
        lemma_term_rest_nonneg(s, left, k + u);
    }
}

proof fn lemma_term_rest_nonneg(s: Seq<char>, left: ExprModel, k: nat)
    requires
        nonneg_literals(left),
    ensures
        term_rest(s, left, k) matches Ok((e, _)) ==> nonneg_literals(e),
    decreases room(s, k), 0nat,
{
    let t = cur(s, k);
    if (t == Token::Star || t == Token::Slash) && !bad(s, k + 1) {
        let op = if t == Token::Star {
            Op::Mul
        } else {
            Op::Div
        };
        lemma_factor_nonneg(s, k + 1);
        if let Ok((right, u)) = factor_at(s, k + 1) {
            let e = ExprModel::BinOp(op, Box::new(left), Box::new(right));
            lemma_term_rest_nonneg(s, e, k + 1 + u);
        }
    }
}

proof fn lemma_factor_nonneg(s: Seq<char>, k: nat)
    ensures
        factor_at(s, k) matches Ok((e, _)) ==> nonneg_literals(e),
    decreases room(s, k), 2nat,
{
    let t = cur(s, k);
    if t is Number || t == Token::D {
        reveal(roll_or_number_at);
    } else if t == Token::LParen {
        if !bad(s, k + 1) {
            lemma_expression_nonneg(s, k + 1);
        }
    } else if t == Token::Minus {
        if !bad(s, k + 1) {
            lemma_factor_nonneg(s, k + 1);
            assert(nonneg_literals(ExprModel::Number(0)));
        }
    }
}

/// A parsed expression holds no negative literal: a minus sign parses as a
/// subtraction from zero.
pub proof fn lemma_parsed_literals_nonneg(s: Seq<char>)
    ensures
        parse_text(s) matches Ok(e) ==> nonneg_literals(e),
{
    lemma_expression_nonneg(s, 0);
}

} // verus!
