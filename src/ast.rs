//! The expression tree of dice notation.
use vstd::prelude::*;

verus! {

/// A complete dice expression.
#[derive(Debug, PartialEq)]
pub enum Expr {
    /// A literal number.
    Number(i64),
    /// A dice roll with its modifiers.
    Roll(Roll),
    /// A binary arithmetic operation.
    BinOp { op: Op, left: Box<Expr>, right: Box<Expr> },
    /// A parenthesised expression.
    Group(Box<Expr>),
}

/// A dice roll such as `4d6kh3`.
#[derive(Debug, Clone, PartialEq)]
pub struct Roll {
    /// Number of dice to roll.
    pub count: u32,
    /// Kind of die.
    pub sides: Sides,
    /// Modifiers in the order they were written.
    pub modifiers: Vec<Modifier>,
}

/// The kind of die.
#[derive(Debug, Clone, Copy, PartialEq, Eq, Structural)]
pub enum Sides {
    /// A die with the given number of faces.
    Number(u32),
    /// A percentile die, one hundred faces.
    Percent,
    /// A fudge die with faces -1, 0 and +1.
    Fudge,
}

impl Sides {
    /// Number of faces of this kind of die.
    pub open spec fn faces(self) -> nat {
        match self {
            Sides::Number(n) => n as nat,
            Sides::Percent => 100,
            Sides::Fudge => 3,
        }
    }

    /// Returns the number of faces of this kind of die.
    pub fn count(&self) -> (r: u32)
        ensures
            r == self.faces(),
    {
        match self {
            Sides::Number(n) => *n,
            Sides::Percent => 100,
            Sides::Fudge => 3,
        }
    }
}

/// A binary operator.
#[derive(Debug, Clone, Copy, PartialEq, Eq, Structural)]
pub enum Op {
    Add,
    Sub,
    Mul,
    Div,
}

/// A modifier applied to a dice roll.
#[derive(Debug, Clone, Copy, PartialEq, Eq, Structural)]
pub enum Modifier {
    /// Keep the highest N dice.
    KeepHighest(u32),
    /// Keep the lowest N dice.
    KeepLowest(u32),
    /// Drop the highest N dice.
    DropHighest(u32),
    /// Drop the lowest N dice.
    DropLowest(u32),
    /// Roll again while the last value meets the condition (by default the
    /// highest face the die can show, +1 for a fudge die) and add to the die; a penetrating explosion adds one less
    /// than each extra value.
    Explode { penetrating: bool, condition: Option<Condition> },
    /// Replace the value while it meets the condition (by default a 1); with
    /// `once`, at most one replacement.
    Reroll { once: bool, condition: Option<Condition> },
    /// Count the dice that meet the condition instead of summing them.
    CountSuccesses(Condition),
}

/// A comparison against a fixed value.
#[derive(Debug, Clone, Copy, PartialEq, Eq, Structural)]
pub struct Condition {
    pub compare: Compare,
    pub value: i64,
}

/// A comparison operator.
#[derive(Debug, Clone, Copy, PartialEq, Eq, Structural)]
pub enum Compare {
    Equal,
    NotEqual,
    LessThan,
    LessOrEqual,
    GreaterThan,
    GreaterOrEqual,
}

impl Compare {
    /// Whether `roll` stands in this relation to `target`.
    pub open spec fn holds(self, roll: int, target: int) -> bool {
        match self {
            Compare::Equal => roll == target,
            Compare::NotEqual => roll != target,
            Compare::LessThan => roll < target,
            Compare::LessOrEqual => roll <= target,
            Compare::GreaterThan => roll > target,
            Compare::GreaterOrEqual => roll >= target,
        }
    }

    /// Checks whether `roll` stands in this relation to `target`.
    pub fn check(&self, roll: i64, target: i64) -> (r: bool)
        ensures
            r == self.holds(roll as int, target as int),
    {
        match self {
            Compare::Equal => roll == target,
            Compare::NotEqual => roll != target,
            Compare::LessThan => roll < target,
            Compare::LessOrEqual => roll <= target,
            Compare::GreaterThan => roll > target,
            Compare::GreaterOrEqual => roll >= target,
        }
    }
}

impl Condition {
    /// Whether a die showing `v` meets this condition.
    pub open spec fn met_by(self, v: int) -> bool {
        self.compare.holds(v, self.value as int)
    }
}

/// A dice roll as a mathematical value.
pub struct RollModel {
    pub count: u32,
    pub sides: Sides,
    pub modifiers: Seq<Modifier>,
}

/// An expression tree as a mathematical value.
pub enum ExprModel {
    Number(i64),
    Roll(RollModel),
    BinOp(Op, Box<ExprModel>, Box<ExprModel>),
    Group(Box<ExprModel>),
}

impl Roll {
    pub open spec fn model(&self) -> RollModel {
        RollModel { count: self.count, sides: self.sides, modifiers: self.modifiers@ }
    }
}

impl Expr {
    pub open spec fn model(&self) -> ExprModel
        decreases self,
    {
        match self {
            Expr::Number(n) => ExprModel::Number(*n),
            Expr::Roll(r) => ExprModel::Roll(r.model()),
            Expr::BinOp { op, left, right } => ExprModel::BinOp(
                *op,
                Box::new(left.model()),
                Box::new(right.model()),
            ),
            Expr::Group(inner) => ExprModel::Group(Box::new(inner.model())),
        }
    }
}

} // verus!
