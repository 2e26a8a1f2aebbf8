//! The tokenizer: characters in, one token at a time out.
use vstd::prelude::*;
use vstd::utf8::encode_utf8;
use crate::error::{Error, Fault};

verus! {

/// A token of dice notation.
#[derive(Debug, Clone, Copy, PartialEq, Eq, Structural)]
pub enum Token {
    /// A decimal integer; values beyond `u32::MAX` are clamped to it.
    Number(u32),
    /// `d` or `D`, between a count and the sides.
    D,
    /// `%`, the percentile die.
    Percent,
    /// `F` or `f`, the fudge die.
    Fudge,
    Plus,
    Minus,
    Star,
    Slash,
    LParen,
    RParen,
    /// `k`: keep.
    K,
    /// `h`: highest.
    H,
    /// `l`: lowest.
    L,
    /// `!`: explode.
    Explode,
    /// `r`: reroll.
    R,
    /// `o`: once.
    O,
    /// `p`: penetrating.
    P,
    /// `=`.
    Eq,
    /// `<`.
    Lt,
    /// `>`.
    Gt,
    /// The end of the input.
    Eof,
}

/// Characters with the Unicode `White_Space` property.
pub open spec fn is_space(c: char) -> bool {
    let u = c as u32;
    ||| 0x09 <= u <= 0x0d
    ||| u == 0x20
    ||| u == 0x85
    ||| u == 0xa0
    ||| u == 0x1680
    ||| 0x2000 <= u <= 0x200a
    ||| u == 0x2028
    ||| u == 0x2029
    ||| u == 0x202f
    ||| u == 0x205f
    ||| u == 0x3000
}

pub open spec fn is_digit(c: char) -> bool {
    '0' as u32 <= c as u32 <= '9' as u32
}

pub open spec fn digit_value(c: char) -> nat {
    (c as u32 - '0' as u32) as nat
}

/// The first index at or after `i` that does not hold white space.
pub open spec fn skip_space(s: Seq<char>, i: int) -> int
    decreases s.len() - i,
{
    if 0 <= i < s.len() && is_space(s[i]) {
        skip_space(s, i + 1)
    } else {
        i
    }
}

/// The first index at or after `i` that does not hold a digit.
pub open spec fn digits_end(s: Seq<char>, i: int) -> int
    decreases s.len() - i,
{
    if 0 <= i < s.len() && is_digit(s[i]) {
        digits_end(s, i + 1)
    } else {
        i
    }
}

/// The decimal value of the digits `s[i..j]`.
pub open spec fn decimal(s: Seq<char>, i: int, j: int) -> nat
    decreases j - i,
{
    if j <= i {
        0
    } else {
        decimal(s, i, j - 1) * 10 + digit_value(s[j - 1])
    }
}

/// The value of a number token: its decimal value, clamped to `u32::MAX`.
pub open spec fn clamped(n: nat) -> u32 {
    if n > u32::MAX {
        u32::MAX
    } else {
        n as u32
    }
}

/// The token that a single character other than a digit stands for.
pub open spec fn symbol(c: char) -> Option<Token> {
    if c == 'd' || c == 'D' {
        Some(Token::D)
    } else if c == '%' {
        Some(Token::Percent)
    } else if c == 'F' || c == 'f' {
        Some(Token::Fudge)
    } else if c == '+' {
        Some(Token::Plus)
    } else if c == '-' {
        Some(Token::Minus)
    } else if c == '*' {
        Some(Token::Star)
    } else if c == '/' {
        Some(Token::Slash)
    } else if c == '(' {
        Some(Token::LParen)
    } else if c == ')' {
        Some(Token::RParen)
    } else if c == 'k' || c == 'K' {
        Some(Token::K)
    } else if c == 'h' || c == 'H' {
        Some(Token::H)
    } else if c == 'l' || c == 'L' {
        Some(Token::L)
    } else if c == '!' {
        Some(Token::Explode)
    } else if c == 'r' || c == 'R' {
        Some(Token::R)
    } else if c == 'o' || c == 'O' {
        Some(Token::O)
    } else if c == 'p' {
        Some(Token::P)
    } else if c == '=' {
        Some(Token::Eq)
    } else if c == '<' {
        Some(Token::Lt)
    } else if c == '>' {
        Some(Token::Gt)
    } else {
        None
    }
}

/// Byte offset of the character at index `i` in the UTF-8 encoding of `s`.
pub open spec fn byte_offset(s: Seq<char>, i: int) -> int {
    encode_utf8(s.subrange(0, i)).len() as int
}

/// The token that starts at or after index `i` of `s`, and the index just
/// after it.
pub open spec fn lex(s: Seq<char>, i: int) -> Result<(Token, int), Fault> {
    let j = skip_space(s, i);
    if j >= s.len() {
        Ok((Token::Eof, j))
    } else if is_digit(s[j]) {
        let k = digits_end(s, j);
        Ok((Token::Number(clamped(decimal(s, j, k))), k))
    } else {
        match symbol(s[j]) {
            Some(t) => Ok((t, j + 1)),
            None => Err(Fault::UnexpectedChar(s[j], byte_offset(s, j))),
        }
    }
}

/// Relies on `str::char_indices`: every character of `s`, in order, with the
/// byte offset at which it starts.
#[verifier::external_body]
fn char_indices_of(s: &str) -> (r: Vec<(usize, char)>)
    ensures
        r@.len() == s@.len(),
        forall|i: int|
            0 <= i < r@.len() ==> r@[i].1 == s@[i] && r@[i].0 as int == byte_offset(s@, i),
{
    s.char_indices().collect()
}

fn is_space_char(c: char) -> (r: bool)
    ensures
        r == is_space(c),
{
    let u = c as u32;
    (0x09 <= u && u <= 0x0d) || u == 0x20 || u == 0x85 || u == 0xa0 || u == 0x1680 || (0x2000
        <= u && u <= 0x200a) || u == 0x2028 || u == 0x2029 || u == 0x202f || u == 0x205f || u
        == 0x3000
}

fn symbol_of(c: char) -> (r: Option<Token>)
    ensures
        r == symbol(c),
{
    match c {
        'd' | 'D' => Some(Token::D),
        '%' => Some(Token::Percent),
        'F' | 'f' => Some(Token::Fudge),
        '+' => Some(Token::Plus),
        '-' => Some(Token::Minus),
        '*' => Some(Token::Star),
        '/' => Some(Token::Slash),
        '(' => Some(Token::LParen),
        ')' => Some(Token::RParen),
        'k' | 'K' => Some(Token::K),
        'h' | 'H' => Some(Token::H),
        'l' | 'L' => Some(Token::L),
        '!' => Some(Token::Explode),
        'r' | 'R' => Some(Token::R),
        'o' | 'O' => Some(Token::O),
        'p' => Some(Token::P),
        '=' => Some(Token::Eq),
        '<' => Some(Token::Lt),
        '>' => Some(Token::Gt),
        _ => None,
    }
}

/// A tokenizer over one input text.
pub struct Lexer {
    chars: Vec<(usize, char)>,
    idx: usize,
    pos: usize,
}

impl Lexer {
    /// The characters of the input.
    pub closed spec fn text(&self) -> Seq<char> {
        self.chars@.map_values(|p: (usize, char)| p.1)
    }

    /// The index of the next character to read.
    pub closed spec fn at(&self) -> int {
        self.idx as int
    }

    /// The byte offset at which the most recent token began.
    pub closed spec fn last_start(&self) -> int {
        self.pos as int
    }

    pub closed spec fn wf(&self) -> bool {
        &&& self.idx <= self.chars@.len()
        &&& forall|i: int|
            0 <= i < self.chars@.len() ==> #[trigger] self.chars@[i].0 as int == byte_offset(
                self.text(),
                i,
            )
    }

    /// Creates a tokenizer at the start of `input`.
    pub fn new(input: &str) -> (r: Lexer)
        ensures
            r.wf(),
            r.text() == input@,
            r.at() == 0,
            r.last_start() == 0,
    {
        let chars = char_indices_of(input);
        let r = Lexer { chars, idx: 0, pos: 0 };
        assert(r.text() =~= input@);
        r
    }

    /// The byte offset at which the most recent token began.
    pub fn pos(&self) -> (r: usize)
        ensures
            r == self.last_start(),
    {
        self.pos
    }

    /// Returns the next token without consuming it.
    pub fn peek(&mut self) -> (r: Result<Token, Error>)
        requires
            old(self).wf(),
        ensures
            final(self).wf(),
            final(self).text() == old(self).text(),
            final(self).at() == old(self).at(),
            final(self).last_start() == old(self).last_start(),
            match lex(old(self).text(), old(self).at()) {
                Ok((t, _)) => r == Ok::<Token, Error>(t),
                Err(f) => r is Err && r->Err_0@ == f,
            },
    {
        let saved_idx = self.idx;
        let saved_pos = self.pos;
        let token = self.next_token();
        self.idx = saved_idx;
        self.pos = saved_pos;
        token
    }

    /// Consumes and returns the next token; at the end of the input, `Eof`.
    pub fn next_token(&mut self) -> (r: Result<Token, Error>)
        requires
            old(self).wf(),
        ensures
            final(self).wf(),
            final(self).text() == old(self).text(),
            match lex(old(self).text(), old(self).at()) {
                Ok((t, j)) => r == Ok::<Token, Error>(t) && final(self).at() == j,
                Err(f) => r is Err && r->Err_0@ == f,
            },
            r != Ok::<Token, Error>(Token::Eof) ==> final(self).last_start() == byte_offset(
                old(self).text(),
                skip_space(old(self).text(), old(self).at()),
            ),
            r == Ok::<Token, Error>(Token::Eof) ==> final(self).last_start() == old(
                self,
            ).last_start(),
    {
        self.skip_whitespace();
        if self.idx >= self.chars.len() {
            return Ok(Token::Eof);
        }
        let (offset, ch) = self.chars[self.idx];
        assert(self.text()[self.at()] == ch);
        self.pos = offset;
        if '0' as u32 <= ch as u32 && ch as u32 <= '9' as u32 {
            return Ok(self.number());
        }
        match symbol_of(ch) {
            Some(t) => {
                self.idx = self.idx + 1;
                Ok(t)
            },
            None => {
                Err(Error::UnexpectedChar(ch, offset))
            },
        }
    }

    fn skip_whitespace(&mut self)
        requires
            old(self).wf(),
        ensures
            final(self).wf(),
            final(self).chars == old(self).chars,
            final(self).pos == old(self).pos,
            final(self).at() == skip_space(old(self).text(), old(self).at()),
    {
        while self.idx < self.chars.len() && is_space_char(self.chars[self.idx].1)
            invariant
                self.wf(),
                self.chars == old(self).chars,
                self.pos == old(self).pos,
                skip_space(self.text(), self.at()) == skip_space(old(self).text(), old(self).at()),
            decreases self.chars@.len() - self.idx,
        {
            self.idx = self.idx + 1;
        }
    }

    fn number(&mut self) -> (r: Token)
        requires
            old(self).wf(),
            old(self).idx < old(self).chars@.len(),
            is_digit(old(self).text()[old(self).at()]),
        ensures
            final(self).wf(),
            final(self).chars == old(self).chars,
            final(self).pos == old(self).pos,
            final(self).at() == digits_end(old(self).text(), old(self).at()),
            r == Token::Number(
                clamped(decimal(old(self).text(), old(self).at(), final(self).at())),
            ),
    {
        let ghost s = self.text();
        let ghost start = self.at();
        let mut value: u32 = 0;
        while self.idx < self.chars.len() && '0' as u32 <= self.chars[self.idx].1 as u32
            && self.chars[self.idx].1 as u32 <= '9' as u32
            invariant
                self.wf(),
                self.chars == old(self).chars,
                self.pos == old(self).pos,
                s == self.text(),
                start <= self.at(),
                digits_end(s, self.at()) == digits_end(s, start),
                value == clamped(decimal(s, start, self.at())),
            decreases self.chars@.len() - self.idx,
        {
            let d = self.chars[self.idx].1 as u32 - '0' as u32;
            value = if value > (u32::MAX - d) / 10 {
                u32::MAX
            } else {
                value * 10 + d
            };
            self.idx = self.idx + 1;
            assert(decimal(s, start, self.at()) == decimal(s, start, self.at() - 1) * 10
                + digit_value(s[self.at() - 1]));
        }
        assert(self.idx < self.chars@.len() ==> self.text()[self.at()] == self.chars@[self.at()].1);
        assert(digits_end(s, self.at()) == self.at());
        Token::Number(value)
    }
}

} // verus!
