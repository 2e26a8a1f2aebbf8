//! The recursive-descent parser, one token of lookahead.
use vstd::prelude::*;
use crate::ast::{Compare, Condition, Expr, Modifier, Op, Roll, Sides};
use crate::error::Error;
use crate::grammar::{
    bad, comparison_after, condition_at, drop_at, explode_at, expected, expression_at,
    expression_rest, factor_at, fault, keep_at, lemma_next_token, modifiers_at, number_after,
    optional_number_at, reroll_at, roll_or_number_at, room, sides_at, term_at, term_rest, tok,
    token_text, whole_at, parse_text,
};
use crate::lexer::{Lexer, Token};
use crate::text::{push_decimal, push_str, string_of};

verus! {

/// Builds the diagnostic for finding `found` where `what` was expected.
fn expected_error(what: &str, found: Token) -> (r: Error)
    ensures
        r@ == expected(what@, found),
{
    if found == Token::Eof {
        Error::UnexpectedEof
    } else {
        Error::Expected { expected: String::from_str(what), found: describe(found) }
    }
}

/// How a token is named in a diagnostic: its variant, with the value of a
/// number.
fn describe(t: Token) -> (r: String)
    ensures
        r@ == token_text(t),
{
    let text = match t {
        Token::Number(n) => {
            let mut buf: Vec<char> = Vec::new();
            push_str(&mut buf, "Number(");
            push_decimal(&mut buf, n as i64);
            push_str(&mut buf, ")");
            assert(buf@ =~= token_text(t));
            return string_of(&buf);
        },
        Token::D => "D",
        Token::Percent => "Percent",
        Token::Fudge => "Fudge",
        Token::Plus => "Plus",
        Token::Minus => "Minus",
        Token::Star => "Star",
        Token::Slash => "Slash",
        Token::LParen => "LParen",
        Token::RParen => "RParen",
        Token::K => "K",
        Token::H => "H",
        Token::L => "L",
        Token::Explode => "Explode",
        Token::R => "R",
        Token::O => "O",
        Token::P => "P",
        Token::Eq => "Eq",
        Token::Lt => "Lt",
        Token::Gt => "Gt",
        Token::Eof => "Eof",
    };
    String::from_str(text)
}

/// A parser over one input text.
pub struct Parser {
    lexer: Lexer,
    current: Token,
    index: Ghost<nat>,
}

impl Parser {
    /// The characters of the input.
    pub closed spec fn text(&self) -> Seq<char> {
        self.lexer.text()
    }

    /// The index of the current token in the token stream.
    pub closed spec fn index(&self) -> nat {
        self.index@
    }

    pub closed spec fn wf(&self) -> bool {
        &&& self.lexer.wf()
        &&& tok(self.lexer.text(), self.index@) == Ok::<(Token, int), crate::error::Fault>(
            (self.current, self.lexer.at()),
        )
    }

    /// Creates a parser whose current token is the first token of `input`.
    pub fn new(input: &str) -> (r: Result<Parser, Error>)
        ensures
            bad(input@, 0) ==> r is Err && r->Err_0@ == fault(input@, 0),
            !bad(input@, 0) ==> r is Ok && r->Ok_0.wf() && r->Ok_0.text() == input@
                && r->Ok_0.index() == 0,
    {
        let mut lexer = Lexer::new(input);
        let current = match lexer.next_token() {
            Ok(t) => t,
            Err(e) => return Err(e),
        };
        Ok(Parser { lexer, current, index: Ghost(0) })
    }

    /// Parses one expression from the current token on, and checks that the
    /// input ends after it.
    pub fn parse(&mut self) -> (r: Result<Expr, Error>)
        requires
            old(self).wf(),
        ensures
            match whole_at(old(self).text(), old(self).index()) {
                Ok(e) => r is Ok && r->Ok_0.model() == e,
                Err(f) => r is Err && r->Err_0@ == f,
            },
    {
        let expr = match self.expression() {
            Ok(e) => e,
            Err(e) => return Err(e),
        };
        if self.current != Token::Eof {
            return Err(
                Error::Expected {
                    expected: String::from_str("end of input"),
                    found: describe(self.current),
                },
            );
        }
        Ok(expr)
    }

    /// `expression := term (('+' | '-') term)*`
    fn expression(&mut self) -> (r: Result<Expr, Error>)
        requires
            old(self).wf(),
        ensures
            final(self).text() == old(self).text(),
            match expression_at(old(self).text(), old(self).index()) {
                Ok((v, u)) => r is Ok && r->Ok_0.model() == v && final(self).wf() && final(self).index()
                    == old(self).index() + u,
                Err(f) => r is Err && r->Err_0@ == f,
            },
        decreases room(old(self).text(), old(self).index()), 4nat,
    {
        let ghost s = self.text();
        let ghost k0 = self.index();
        let mut left = match self.term() {
            Ok(e) => e,
            Err(e) => return Err(e),
        };
        while self.current == Token::Plus || self.current == Token::Minus
            invariant
                self.wf(),
                self.text() == s,
                s == old(self).text(),
                k0 == old(self).index(),
                k0 <= self.index(),
                match expression_at(s, k0) {
                    Ok((e, u)) => self.index() <= k0 + u && expression_rest(s, left.model(), self.index())
                        == Ok::<_, crate::error::Fault>((e, (k0 + u - self.index()) as nat)),
                    Err(f) => expression_rest(s, left.model(), self.index()) == Err::<
                        (crate::ast::ExprModel, nat),
                        _,
                    >(f),
                },
            decreases room(s, self.index()),
        {
            let op = if self.current == Token::Plus {
                Op::Add
            } else {
                Op::Sub
            };
            match self.advance() {
                Ok(_) => {},
                Err(e) => return Err(e),
            }
            let right = match self.term() {
                Ok(e) => e,
                Err(e) => return Err(e),
            };
            left = Expr::BinOp { op, left: Box::new(left), right: Box::new(right) };
        }
        Ok(left)
    }

    /// `term := factor (('*' | '/') factor)*`
    fn term(&mut self) -> (r: Result<Expr, Error>)
        requires
            old(self).wf(),
        ensures
            final(self).text() == old(self).text(),
            match term_at(old(self).text(), old(self).index()) {
                Ok((v, u)) => r is Ok && r->Ok_0.model() == v && final(self).wf() && final(self).index()
                    == old(self).index() + u,
                Err(f) => r is Err && r->Err_0@ == f,
            },
        decreases room(old(self).text(), old(self).index()), 3nat,
    {
        let ghost s = self.text();
        let ghost k0 = self.index();
        let mut left = match self.factor() {
            Ok(e) => e,
            Err(e) => return Err(e),
        };
        while self.current == Token::Star || self.current == Token::Slash
            invariant
                self.wf(),
                self.text() == s,
                s == old(self).text(),
                k0 == old(self).index(),
                k0 <= self.index(),
                match term_at(s, k0) {
                    Ok((e, u)) => self.index() <= k0 + u && term_rest(s, left.model(), self.index())
                        == Ok::<_, crate::error::Fault>((e, (k0 + u - self.index()) as nat)),
                    Err(f) => term_rest(s, left.model(), self.index()) == Err::<
                        (crate::ast::ExprModel, nat),
                        _,
                    >(f),
                },
            decreases room(s, self.index()),
        {
            let op = if self.current == Token::Star {
                Op::Mul
            } else {
                Op::Div
            };
            match self.advance() {
                Ok(_) => {},
                Err(e) => return Err(e),
            }
            let right = match self.factor() {
                Ok(e) => e,
                Err(e) => return Err(e),
            };
            left = Expr::BinOp { op, left: Box::new(left), right: Box::new(right) };
        }
        Ok(left)
    }

    /// `factor := roll_or_number | '(' expression ')' | '-' factor`
    #[verifier::rlimit(50)]
    fn factor(&mut self) -> (r: Result<Expr, Error>)
        requires
            old(self).wf(),
        ensures
            final(self).text() == old(self).text(),
            match factor_at(old(self).text(), old(self).index()) {
                Ok((v, u)) => r is Ok && r->Ok_0.model() == v && final(self).wf() && final(self).index()
                    == old(self).index() + u,
                Err(f) => r is Err && r->Err_0@ == f,
            },
        decreases room(old(self).text(), old(self).index()), 2nat,
    {
        match self.current {
            Token::Number(_) | Token::D => self.roll_or_number(),
            Token::LParen => {
                match self.advance() {
                    Ok(_) => {},
                    Err(e) => return Err(e),
                }
                let inner = match self.expression() {
                    Ok(e) => e,
                    Err(e) => return Err(e),
                };
                match self.expect(Token::RParen) {
                    Ok(()) => {},
                    Err(e) => return Err(e),
                }
                let r = Expr::Group(Box::new(inner));
                assert(r.model() == crate::ast::ExprModel::Group(Box::new(inner.model())));
                Ok(r)
            },
            Token::Minus => {
                match self.advance() {
                    Ok(_) => {},
                    Err(e) => return Err(e),
                }
                let operand = match self.factor() {
                    Ok(e) => e,
                    Err(e) => return Err(e),
                };
                let zero = Expr::Number(0);
                assert(zero.model() == crate::ast::ExprModel::Number(0));
                let r = Expr::BinOp {
                    op: Op::Sub,
                    left: Box::new(zero),
                    right: Box::new(operand),
                };
                assert(r.model() == crate::ast::ExprModel::BinOp(
                    Op::Sub,
                    Box::new(crate::ast::ExprModel::Number(0)),
                    Box::new(operand.model()),
                ));
                Ok(r)
            },
            t => Err(expected_error("number, dice roll, or '('", t)),
        }
    }

    /// `roll_or_number := [count] ['d' sides modifiers]`
    fn roll_or_number(&mut self) -> (r: Result<Expr, Error>)
        requires
            old(self).wf(),
        ensures
            final(self).text() == old(self).text(),
            match roll_or_number_at(old(self).text(), old(self).index()) {
                Ok((v, u)) => r is Ok && r->Ok_0.model() == v && final(self).wf() && final(self).index()
                    == old(self).index() + u,
                Err(f) => r is Err && r->Err_0@ == f,
            },
    {
        proof {
            reveal(roll_or_number_at);
        }
        let count: u32 = match self.current {
            Token::Number(n) => {
                match self.advance() {
                    Ok(_) => {},
                    Err(e) => return Err(e),
                }
                n
            },
            _ => 1,
        };
        if self.current != Token::D {
            return Ok(Expr::Number(count as i64));
        }
        match self.advance() {
            Ok(_) => {},
            Err(e) => return Err(e),
        }
        let sides = match self.sides() {
            Ok(x) => x,
            Err(e) => return Err(e),
        };
        let modifiers = match self.modifiers() {
            Ok(x) => x,
            Err(e) => return Err(e),
        };
        Ok(Expr::Roll(Roll { count, sides, modifiers }))
    }

    /// `sides := integer | '%' | 'F'`
    fn sides(&mut self) -> (r: Result<Sides, Error>)
        requires
            old(self).wf(),
        ensures
            final(self).text() == old(self).text(),
            match sides_at(old(self).text(), old(self).index()) {
                Ok((v, u)) => r is Ok && r->Ok_0 == v && final(self).wf() && final(self).index()
                    == old(self).index() + u,
                Err(f) => r is Err && r->Err_0@ == f,
            },
    {
        let sides = match self.current {
            Token::Number(n) => {
                if n == 0 {
                    return Err(Error::InvalidDiceSides(0));
                }
                Sides::Number(n)
            },
            Token::Percent => Sides::Percent,
            Token::Fudge => Sides::Fudge,
            t => return Err(expected_error("dice sides (number, %, or F)", t)),
        };
        match self.advance() {
            Ok(_) => Ok(sides),
            Err(e) => Err(e),
        }
    }

    /// The modifiers after a die, in the order they are written.
    fn modifiers(&mut self) -> (r: Result<Vec<Modifier>, Error>)
        requires
            old(self).wf(),
        ensures
            final(self).text() == old(self).text(),
            match modifiers_at(old(self).text(), Seq::empty(), old(self).index()) {
                Ok((v, u)) => r is Ok && r->Ok_0@ == v && final(self).wf() && final(self).index()
                    == old(self).index() + u,
                Err(f) => r is Err && r->Err_0@ == f,
            },
    {
        let ghost s = self.text();
        let ghost k0 = self.index();
        let mut modifiers: Vec<Modifier> = Vec::new();
        loop
            invariant
                self.wf(),
                self.text() == s,
                s == old(self).text(),
                k0 == old(self).index(),
                k0 <= self.index(),
                match modifiers_at(s, Seq::empty(), k0) {
                    Ok((ms, u)) => self.index() <= k0 + u && modifiers_at(
                        s,
                        modifiers@,
                        self.index(),
                    ) == Ok::<_, crate::error::Fault>((ms, (k0 + u - self.index()) as nat)),
                    Err(f) => modifiers_at(s, modifiers@, self.index()) == Err::<
                        (Seq<Modifier>, nat),
                        _,
                    >(f),
                },
            ensures
                modifiers_at(s, modifiers@, self.index()) == Ok::<_, crate::error::Fault>(
                    (modifiers@, 0nat),
                ),
            decreases room(s, self.index()),
        {
            let t = self.current;
            if t == Token::K || t == Token::Explode || t == Token::R || t == Token::Gt || t
                == Token::Lt || t == Token::Eq {
                match self.advance() {
                    Ok(_) => {},
                    Err(e) => return Err(e),
                }
                let m = if t == Token::K {
                    self.keep_modifier()
                } else if t == Token::Explode {
                    self.explode_modifier()
                } else if t == Token::R {
                    self.reroll_modifier()
                } else {
                    match self.comparison(t) {
                        Ok(c) => Ok(Modifier::CountSuccesses(c)),
                        Err(e) => Err(e),
                    }
                };
                match m {
                    Ok(m) => modifiers.push(m),
                    Err(e) => return Err(e),
                }
            } else if t == Token::D {
                let next = match self.lexer.peek() {
                    Ok(n) => n,
                    Err(e) => {
                        proof {
                            lemma_next_token(s, self.index());
                        }
                        return Err(e);
                    },
                };
                proof {
                    lemma_next_token(s, self.index());
                }
                if next == Token::H || next == Token::L {
                    match self.advance() {
                        Ok(_) => {},
                        Err(e) => return Err(e),
                    }
                    match self.drop_modifier() {
                        Ok(m) => modifiers.push(m),
                        Err(e) => return Err(e),
                    }
                } else {
                    break ;
                }
            } else {
                break ;
            }
        }
        Ok(modifiers)
    }

    /// After `k`: `h` or `l` and an optional count.
    fn keep_modifier(&mut self) -> (r: Result<Modifier, Error>)
        requires
            old(self).wf(),
        ensures
            final(self).text() == old(self).text(),
            match keep_at(old(self).text(), old(self).index()) {
                Ok((v, u)) => r is Ok && r->Ok_0 == v && final(self).wf() && final(self).index()
                    == old(self).index() + u,
                Err(f) => r is Err && r->Err_0@ == f,
            },
    {
        let t = self.current;
        if t == Token::H || t == Token::L {
            match self.advance() {
                Ok(_) => {},
                Err(e) => return Err(e),
            }
        }
        let count = match self.optional_number(1) {
            Ok(n) => n,
            Err(e) => return Err(e),
        };
        if t == Token::L {
            Ok(Modifier::KeepLowest(count))
        } else {
            Ok(Modifier::KeepHighest(count))
        }
    }

    /// After the `d` of a drop: `h` or `l` and an optional count.
    fn drop_modifier(&mut self) -> (r: Result<Modifier, Error>)
        requires
            old(self).wf(),
        ensures
            final(self).text() == old(self).text(),
            match drop_at(old(self).text(), old(self).index()) {
                Ok((v, u)) => r is Ok && r->Ok_0 == v && final(self).wf() && final(self).index()
                    == old(self).index() + u,
                Err(f) => r is Err && r->Err_0@ == f,
            },
    {
        let t = self.current;
        if t != Token::H && t != Token::L {
            return Err(expected_error("'h' or 'l' after 'd'", t));
        }
        match self.advance() {
            Ok(_) => {},
            Err(e) => return Err(e),
        }
        let count = match self.optional_number(1) {
            Ok(n) => n,
            Err(e) => return Err(e),
        };
        if t == Token::H {
            Ok(Modifier::DropHighest(count))
        } else {
            Ok(Modifier::DropLowest(count))
        }
    }

    /// After `!`: an optional `p` and an optional condition.
    fn explode_modifier(&mut self) -> (r: Result<Modifier, Error>)
        requires
            old(self).wf(),
        ensures
            final(self).text() == old(self).text(),
            match explode_at(old(self).text(), old(self).index()) {
                Ok((v, u)) => r is Ok && r->Ok_0 == v && final(self).wf() && final(self).index()
                    == old(self).index() + u,
                Err(f) => r is Err && r->Err_0@ == f,
            },
    {
        let penetrating = self.current == Token::P;
        if penetrating {
            match self.advance() {
                Ok(_) => {},
                Err(e) => return Err(e),
            }
        }
        match self.optional_condition() {
            Ok(condition) => Ok(Modifier::Explode { penetrating, condition }),
            Err(e) => Err(e),
        }
    }

    /// After `r`: an optional `o` and an optional condition.
    fn reroll_modifier(&mut self) -> (r: Result<Modifier, Error>)
        requires
            old(self).wf(),
        ensures
            final(self).text() == old(self).text(),
            match reroll_at(old(self).text(), old(self).index()) {
                Ok((v, u)) => r is Ok && r->Ok_0 == v && final(self).wf() && final(self).index()
                    == old(self).index() + u,
                Err(f) => r is Err && r->Err_0@ == f,
            },
    {
        let once = self.current == Token::O;
        if once {
            match self.advance() {
                Ok(_) => {},
                Err(e) => return Err(e),
            }
        }
        match self.optional_condition() {
            Ok(condition) => Ok(Modifier::Reroll { once, condition }),
            Err(e) => Err(e),
        }
    }

    /// An optional number, `default` where none stands.
    fn optional_number(&mut self, default: u32) -> (r: Result<u32, Error>)
        requires
            old(self).wf(),
        ensures
            final(self).text() == old(self).text(),
            match optional_number_at(old(self).text(), old(self).index(), default) {
                Ok((v, u)) => r is Ok && r->Ok_0 == v && final(self).wf() && final(self).index()
                    == old(self).index() + u,
                Err(f) => r is Err && r->Err_0@ == f,
            },
    {
        match self.current {
            Token::Number(n) => match self.advance() {
                Ok(_) => Ok(n),
                Err(e) => Err(e),
            },
            _ => Ok(default),
        }
    }

    /// An optional condition: a comparison and a number.
    fn optional_condition(&mut self) -> (r: Result<Option<Condition>, Error>)
        requires
            old(self).wf(),
        ensures
            final(self).text() == old(self).text(),
            match condition_at(old(self).text(), old(self).index()) {
                Ok((v, u)) => r is Ok && r->Ok_0 == v && final(self).wf() && final(self).index()
                    == old(self).index() + u,
                Err(f) => r is Err && r->Err_0@ == f,
            },
    {
        let t = self.current;
        if t != Token::Gt && t != Token::Lt && t != Token::Eq {
            return Ok(None);
        }
        match self.advance() {
            Ok(_) => {},
            Err(e) => return Err(e),
        }
        match self.comparison(t) {
            Ok(c) => Ok(Some(c)),
            Err(e) => Err(e),
        }
    }

    /// The rest of a condition whose first comparison token `first` has been
    /// consumed.
    fn comparison(&mut self, first: Token) -> (r: Result<Condition, Error>)
        requires
            old(self).wf(),
        ensures
            final(self).text() == old(self).text(),
            match comparison_after(old(self).text(), first, old(self).index()) {
                Ok((v, u)) => r is Ok && r->Ok_0 == v && final(self).wf() && final(self).index()
                    == old(self).index() + u,
                Err(f) => r is Err && r->Err_0@ == f,
            },
    {
        let t = self.current;
        let compare = if first == Token::Lt && (t == Token::Eq || t == Token::Gt) {
            match self.advance() {
                Ok(_) => {},
                Err(e) => return Err(e),
            }
            if t == Token::Eq {
                Compare::LessOrEqual
            } else {
                Compare::NotEqual
            }
        } else if first == Token::Gt && t == Token::Eq {
            match self.advance() {
                Ok(_) => {},
                Err(e) => return Err(e),
            }
            Compare::GreaterOrEqual
        } else if first == Token::Lt {
            Compare::LessThan
        } else if first == Token::Gt {
            Compare::GreaterThan
        } else {
            Compare::Equal
        };
        self.finish_condition(compare)
    }

    /// The number that ends a condition with comparison `compare`.
    fn finish_condition(&mut self, compare: Compare) -> (r: Result<Condition, Error>)
        requires
            old(self).wf(),
        ensures
            final(self).text() == old(self).text(),
            match number_after(old(self).text(), compare, old(self).index()) {
                Ok((v, u)) => r is Ok && r->Ok_0 == v && final(self).wf() && final(self).index()
                    == old(self).index() + u,
                Err(f) => r is Err && r->Err_0@ == f,
            },
    {
        match self.current {
            Token::Number(n) => match self.advance() {
                Ok(_) => Ok(Condition { compare, value: n as i64 }),
                Err(e) => Err(e),
            },
            t => Err(expected_error("number after comparison", t)),
        }
    }
    /// Consumes the current token and reads the next one.
    fn advance(&mut self) -> (r: Result<Token, Error>)
        requires
            old(self).wf(),
            old(self).current != Token::Eof,
        ensures
            final(self).text() == old(self).text(),
            bad(old(self).text(), old(self).index() + 1) ==> r is Err && r->Err_0@ == fault(
                old(self).text(),
                old(self).index() + 1,
            ),
            old(self).index() <= old(self).text().len(),
            !bad(old(self).text(), old(self).index() + 1) ==> r == Ok::<Token, Error>(
                old(self).current,
            ) && final(self).wf() && final(self).index() == old(self).index() + 1,
    {
        proof {
            lemma_next_token(self.text(), self.index());
        }
        let next = match self.lexer.next_token() {
            Ok(t) => t,
            Err(e) => return Err(e),
        };
        let prev = self.current;
        self.current = next;
        self.index = Ghost(self.index@ + 1);
        Ok(prev)
    }

    /// Consumes the current token if it is `expected`.
    fn expect(&mut self, expected: Token) -> (r: Result<(), Error>)
        requires
            old(self).wf(),
            expected != Token::Eof,
        ensures
            final(self).text() == old(self).text(),
            old(self).current != expected ==> r is Err && r->Err_0@ == crate::grammar::expected(
                token_text(expected),
                old(self).current,
            ),
            old(self).current == expected && bad(old(self).text(), old(self).index() + 1) ==> r is Err
                && r->Err_0@ == fault(old(self).text(), old(self).index() + 1),
            old(self).current == expected && !bad(old(self).text(), old(self).index() + 1) ==> r is Ok
                && final(self).wf() && final(self).index() == old(self).index() + 1,
    {
        if self.current == expected {
            match self.advance() {
                Ok(_) => Ok(()),
                Err(e) => Err(e),
            }
        } else {
            Err(expected_error_token(expected, self.current))
        }
    }
}

/// Builds the diagnostic for finding `found` where the token `want` was
/// expected.
fn expected_error_token(want: Token, found: Token) -> (r: Error)
    ensures
        r@ == expected(token_text(want), found),
{
    if found == Token::Eof {
        Error::UnexpectedEof
    } else {
        Error::Expected { expected: describe(want), found: describe(found) }
    }
}

/// Parses dice notation into an expression tree.
pub fn parse(input: &str) -> (r: Result<Expr, Error>)
    ensures
        match parse_text(input@) {
            Ok(e) => r is Ok && r->Ok_0.model() == e,
            Err(f) => r is Err && r->Err_0@ == f,
        },
{
    let mut parser = match Parser::new(input) {
        Ok(p) => p,
        Err(e) => return Err(e),
    };
    parser.parse()
}

} // verus!
