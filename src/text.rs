//! The trace of an evaluation: spec functions that say what it reads, and the
//! code that writes it into a buffer of characters.
use vstd::prelude::*;
use vstd::string::StrSliceExecFns;
use crate::ast::{Compare, Condition, Modifier, Op, RollModel, Sides};
use crate::semantics::DieModel;

verus! {

pub open spec fn digit_char(d: nat) -> char {
    if d == 0 {
        '0'
    } else if d == 1 {
        '1'
    } else if d == 2 {
        '2'
    } else if d == 3 {
        '3'
    } else if d == 4 {
        '4'
    } else if d == 5 {
        '5'
    } else if d == 6 {
        '6'
    } else if d == 7 {
        '7'
    } else if d == 8 {
        '8'
    } else {
        '9'
    }
}

/// The decimal digits of `n`, most significant first.
pub open spec fn digits_text(n: nat) -> Seq<char>
    decreases n,
{
    if n < 10 {
        seq![digit_char(n)]
    } else {
        digits_text(n / 10).push(digit_char(n % 10))
    }
}

/// `n` in decimal, with a minus sign when negative.
pub open spec fn decimal_text(n: int) -> Seq<char> {
    if n < 0 {
        seq!['-'] + digits_text((-n) as nat)
    } else {
        digits_text(n as nat)
    }
}

pub open spec fn op_text(op: Op) -> Seq<char> {
    match op {
        Op::Add => "+"@,
        Op::Sub => "-"@,
        Op::Mul => "*"@,
        Op::Div => "/"@,
    }
}

pub open spec fn compare_text(c: Compare) -> Seq<char> {
    match c {
        Compare::Equal => "="@,
        Compare::NotEqual => "<>"@,
        Compare::LessThan => "<"@,
        Compare::LessOrEqual => "<="@,
        Compare::GreaterThan => ">"@,
        Compare::GreaterOrEqual => ">="@,
    }
}

pub open spec fn condition_text(c: Condition) -> Seq<char> {
    compare_text(c.compare) + decimal_text(c.value as int)
}

pub open spec fn optional_condition_text(c: Option<Condition>) -> Seq<char> {
    match c {
        Some(c) => condition_text(c),
        None => Seq::empty(),
    }
}

pub open spec fn flag_text(on: bool, text: Seq<char>) -> Seq<char> {
    if on {
        text
    } else {
        Seq::empty()
    }
}

pub open spec fn sides_text(s: Sides) -> Seq<char> {
    match s {
        Sides::Number(n) => decimal_text(n as int),
        Sides::Percent => "%"@,
        Sides::Fudge => "F"@,
    }
}

/// A modifier as notation.
pub open spec fn modifier_text(m: Modifier) -> Seq<char> {
    match m {
        Modifier::KeepHighest(n) => "kh"@ + decimal_text(n as int),
        Modifier::KeepLowest(n) => "kl"@ + decimal_text(n as int),
        Modifier::DropHighest(n) => "dh"@ + decimal_text(n as int),
        Modifier::DropLowest(n) => "dl"@ + decimal_text(n as int),
        Modifier::Explode { penetrating, condition } => "!"@ + flag_text(penetrating, "p"@)
            + optional_condition_text(condition),
        Modifier::Reroll { once, condition } => "r"@ + flag_text(once, "o"@)
            + optional_condition_text(condition),
        Modifier::CountSuccesses(c) => condition_text(c),
    }
}

/// The first `m` modifiers as notation.
pub open spec fn modifiers_text(mods: Seq<Modifier>, m: nat) -> Seq<char>
    decreases m,
{
    if m == 0 {
        Seq::empty()
    } else {
        modifiers_text(mods, (m - 1) as nat) + modifier_text(mods[m - 1])
    }
}

/// One die in a trace: a dropped die in parentheses, a success marked `*`.
pub open spec fn die_text(d: DieModel, success: Option<Condition>) -> Seq<char> {
    if d.dropped {
        "("@ + decimal_text(d.value) + ")"@
    } else {
        match success {
            Some(c) => if c.met_by(d.value) {
                decimal_text(d.value) + "*"@
            } else {
                decimal_text(d.value)
            },
            None => decimal_text(d.value),
        }
    }
}

/// The first `n` dice, separated by commas.
pub open spec fn dice_text(dice: Seq<DieModel>, n: nat, success: Option<Condition>) -> Seq<char>
    decreases n,
{
    if n == 0 {
        Seq::empty()
    } else if n == 1 {
        die_text(dice[0], success)
    } else {
        dice_text(dice, (n - 1) as nat, success) + ", "@ + die_text(dice[n - 1], success)
    }
}

pub open spec fn successes_text(success: Option<Condition>, total: int) -> Seq<char> {
    match success {
        Some(_) => if total == 1 {
            " success"@
        } else {
            " successes"@
        },
        None => Seq::empty(),
    }
}

/// The trace of a roll: `<count>d<sides><modifiers>[<dice>] = <total>`, and
/// the word for successes where they are counted.
pub open spec fn roll_trace(
    roll: RollModel,
    dice: Seq<DieModel>,
    total: int,
    success: Option<Condition>,
) -> Seq<char> {
    decimal_text(roll.count as int) + "d"@ + sides_text(roll.sides) + modifiers_text(
        roll.modifiers,
        roll.modifiers.len(),
    ) + "["@ + dice_text(dice, dice.len(), success) + "] = "@ + decimal_text(total)
        + successes_text(success, total)
}

/// Relies on `String`'s `FromIterator<char>`: the string of exactly these
/// characters.
#[verifier::external_body]
pub(crate) fn string_of(chars: &Vec<char>) -> (r: String)
    ensures
        r@ == chars@,
{
    chars.iter().collect()
}

/// Appends the characters of `s`.
pub(crate) fn push_str(buf: &mut Vec<char>, s: &str)
    ensures
        final(buf)@ == old(buf)@ + s@,
{
    let n = s.unicode_len();
    let mut i: usize = 0;
    while i < n
        invariant
            n == s@.len(),
            i <= n,
            buf@ == old(buf)@ + s@.subrange(0, i as int),
        decreases n - i,
    {
        buf.push(s.get_char(i));
        i = i + 1;
        assert(buf@ =~= old(buf)@ + s@.subrange(0, i as int));
    }
    assert(s@.subrange(0, n as int) =~= s@);
}

fn digit_of(d: u64) -> (r: char)
    requires
        d < 10,
    ensures
        r == digit_char(d as nat),
{
    if d == 0 {
        '0'
    } else if d == 1 {
        '1'
    } else if d == 2 {
        '2'
    } else if d == 3 {
        '3'
    } else if d == 4 {
        '4'
    } else if d == 5 {
        '5'
    } else if d == 6 {
        '6'
    } else if d == 7 {
        '7'
    } else if d == 8 {
        '8'
    } else {
        '9'
    }
}

fn push_digits(buf: &mut Vec<char>, n: u64)
    ensures
        final(buf)@ == old(buf)@ + digits_text(n as nat),
    decreases n,
{
    if n >= 10 {
        push_digits(buf, n / 10);
    }
    buf.push(digit_of(n % 10));
    assert(final(buf)@ =~= old(buf)@ + digits_text(n as nat));
}

/// Appends `n` in decimal.
pub(crate) fn push_decimal(buf: &mut Vec<char>, n: i64)
    ensures
        final(buf)@ == old(buf)@ + decimal_text(n as int),
{
    if n < 0 {
        buf.push('-');
        let m: u64 = (0i128 - n as i128) as u64;
        push_digits(buf, m);
        assert(final(buf)@ =~= old(buf)@ + decimal_text(n as int));
    } else {
        push_digits(buf, n as u64);
    }
}

/// `n` in decimal, as a string.
pub(crate) fn decimal_string(n: i64) -> (r: String)
    ensures
        r@ == decimal_text(n as int),
{
    let mut buf: Vec<char> = Vec::new();
    push_decimal(&mut buf, n);
    assert(buf@ =~= decimal_text(n as int));
    string_of(&buf)
}

pub(crate) fn op_str(op: Op) -> (r: &'static str)
    ensures
        r@ == op_text(op),
{
    match op {
        Op::Add => "+",
        Op::Sub => "-",
        Op::Mul => "*",
        Op::Div => "/",
    }
}

fn compare_str(c: Compare) -> (r: &'static str)
    ensures
        r@ == compare_text(c),
{
    match c {
        Compare::Equal => "=",
        Compare::NotEqual => "<>",
        Compare::LessThan => "<",
        Compare::LessOrEqual => "<=",
        Compare::GreaterThan => ">",
        Compare::GreaterOrEqual => ">=",
    }
}

fn push_condition(buf: &mut Vec<char>, c: Condition)
    ensures
        final(buf)@ == old(buf)@ + condition_text(c),
{
    push_str(buf, compare_str(c.compare));
    push_decimal(buf, c.value);
    assert(final(buf)@ =~= old(buf)@ + condition_text(c));
}

fn push_optional_condition(buf: &mut Vec<char>, c: Option<Condition>)
    ensures
        final(buf)@ == old(buf)@ + optional_condition_text(c),
{
    match c {
        Some(c) => push_condition(buf, c),
        None => {
            assert(final(buf)@ =~= old(buf)@ + optional_condition_text(None));
        },
    }
}

/// Appends a modifier as notation.
fn push_modifier(buf: &mut Vec<char>, m: Modifier)
    ensures
        final(buf)@ == old(buf)@ + modifier_text(m),
{
    match m {
        Modifier::KeepHighest(n) => {
            push_str(buf, "kh");
            push_decimal(buf, n as i64);
        },
        Modifier::KeepLowest(n) => {
            push_str(buf, "kl");
            push_decimal(buf, n as i64);
        },
        Modifier::DropHighest(n) => {
            push_str(buf, "dh");
            push_decimal(buf, n as i64);
        },
        Modifier::DropLowest(n) => {
            push_str(buf, "dl");
            push_decimal(buf, n as i64);
        },
        Modifier::Explode { penetrating, condition } => {
            push_str(buf, "!");
            if penetrating {
                push_str(buf, "p");
            }
            push_optional_condition(buf, condition);
        },
        Modifier::Reroll { once, condition } => {
            push_str(buf, "r");
            if once {
                push_str(buf, "o");
            }
            push_optional_condition(buf, condition);
        },
        Modifier::CountSuccesses(c) => push_condition(buf, c),
    }
    assert(final(buf)@ =~= old(buf)@ + modifier_text(m));
}

/// Appends the first `m` modifiers as notation.
pub(crate) fn push_modifiers(buf: &mut Vec<char>, mods: &Vec<Modifier>)
    ensures
        final(buf)@ == old(buf)@ + modifiers_text(mods@, mods@.len()),
{
    let mut i: usize = 0;
    while i < mods.len()
        invariant
            i <= mods@.len(),
            buf@ == old(buf)@ + modifiers_text(mods@, i as nat),
        decreases mods@.len() - i,
    {
        push_modifier(buf, mods[i]);
        i = i + 1;
        assert(buf@ =~= old(buf)@ + modifiers_text(mods@, i as nat));
    }
}

/// Appends one die of a trace.
pub(crate) fn push_die(buf: &mut Vec<char>, value: i64, dropped: bool, success: Option<Condition>)
    ensures
        final(buf)@ == old(buf)@ + die_text(
            DieModel { value: value as int, rolls: Seq::empty(), dropped },
            success,
        ),
{
    let ghost d = DieModel { value: value as int, rolls: Seq::empty(), dropped };
    if dropped {
        push_str(buf, "(");
        push_decimal(buf, value);
        push_str(buf, ")");
    } else {
        push_decimal(buf, value);
        match success {
            Some(c) => {
                if c.compare.check(value, c.value) {
                    push_str(buf, "*");
                }
            },
            None => {},
        }
    }
    assert(final(buf)@ =~= old(buf)@ + die_text(d, success));
}

} // verus!
