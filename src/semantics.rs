//! What evaluating an expression means, as spec functions over a random
//! source whose every roll is determined by its state.
use vstd::prelude::*;
use crate::ast::{Compare, Condition, ExprModel, Modifier, Op, RollModel, Sides};
use crate::error::Fault;
use crate::roller::Rng;
use crate::grammar::{lemma_parsed_literals_nonneg, nonneg_literals, parse_text};
use crate::text::{decimal_text, op_text, roll_trace};

verus! {

/// How often one die may be rerolled, or explode, before evaluation fails.
pub const ROLL_LIMIT: u32 = 100;

/// One die as a mathematical value.
pub struct DieModel {
    /// The value it counts with.
    pub value: int,
    /// Every face it showed, in order.
    pub rolls: Seq<int>,
    /// Whether a keep or drop modifier took it out.
    pub dropped: bool,
}

/// The outcome of an evaluation as a mathematical value.
pub struct Outcome {
    pub total: int,
    pub dice: Seq<DieModel>,
    pub trace: Seq<char>,
}

pub open spec fn fits_i64(v: int) -> bool {
    i64::MIN <= v <= i64::MAX
}

/// The value a die of kind `sides` shows when the source gives `v`: fudge dice
/// map 1, 2, 3 to -1, 0, +1.
pub open spec fn face(sides: Sides, v: u32) -> int {
    match sides {
        Sides::Fudge => v as int - 2,
        _ => v as int,
    }
}

/// The face of the next die of kind `sides` that `g` rolls.
pub open spec fn next_face<R: Rng>(sides: Sides, g: R) -> int {
    face(sides, g.next_value(sides.faces() as u32))
}

/// `g` after it rolled a die of kind `sides`.
pub open spec fn after_face<R: Rng>(sides: Sides, g: R) -> R {
    g.advanced(sides.faces() as u32)
}

/// `n` fresh dice, rolled one after the other.
pub open spec fn fresh_dice<R: Rng>(sides: Sides, n: nat, g: R) -> (Seq<DieModel>, R)
    decreases n,
{
    if n == 0 {
        (Seq::empty(), g)
    } else {
        let (ds, g1) = fresh_dice(sides, (n - 1) as nat, g);
        let v = next_face(sides, g1);
        (ds.push(DieModel { value: v, rolls: seq![v], dropped: false }), after_face(sides, g1))
    }
}

/// A reroll without a condition replaces ones.
pub open spec fn reroll_condition(c: Option<Condition>) -> Condition {
    match c {
        Some(c) => c,
        None => Condition { compare: Compare::Equal, value: 1 },
    }
}

/// An explosion without a condition goes off on the highest face the die can
/// show: the number of faces, or +1 for a fudge die.
pub open spec fn explode_condition(c: Option<Condition>, sides: Sides) -> Condition {
    match c {
        Some(c) => c,
        None => Condition {
            compare: Compare::Equal,
            value: face(sides, sides.faces() as u32) as i64,
        },
    }
}

/// Rerolls one die while its value meets `c`, after `done` rerolls.
pub open spec fn reroll_die<R: Rng>(
    d: DieModel,
    c: Condition,
    once: bool,
    sides: Sides,
    g: R,
    done: nat,
) -> Result<(DieModel, R), Fault>
    decreases ROLL_LIMIT - done,
{
    if !c.met_by(d.value) {
        Ok((d, g))
    } else if done >= ROLL_LIMIT {
        Err(Fault::RerollLimit(ROLL_LIMIT))
    } else {
        let v = next_face(sides, g);
        let d1 = DieModel { value: v, rolls: d.rolls.push(v), dropped: d.dropped };
        if once {
            Ok((d1, after_face(sides, g)))
        } else {
            reroll_die(d1, c, once, sides, after_face(sides, g), done + 1)
        }
    }
}

/// Applies one reroll modifier to the first `n` dice, in order, skipping
/// dropped ones.
pub open spec fn reroll_prefix<R: Rng>(
    dice: Seq<DieModel>,
    n: nat,
    c: Condition,
    once: bool,
    sides: Sides,
    g: R,
) -> Result<(Seq<DieModel>, R), Fault>
    decreases n,
{
    if n == 0 {
        Ok((dice, g))
    } else {
        match reroll_prefix(dice, (n - 1) as nat, c, once, sides, g) {
            Err(f) => Err(f),
            Ok((ds, g1)) => if ds[n - 1].dropped {
                Ok((ds, g1))
            } else {
                match reroll_die(ds[n - 1], c, once, sides, g1, 0) {
                    Err(f) => Err(f),
                    Ok((d, g2)) => Ok((ds.update(n - 1, d), g2)),
                }
            },
        }
    }
}

/// The most recent face a die showed.
pub open spec fn last_roll(d: DieModel) -> int {
    d.rolls[d.rolls.len() - 1]
}

/// Rolls one die again while its most recent face meets `c`, adding each new
/// face (one less when penetrating), after `done` explosions; a value outside
/// the 64-bit range fails.
pub open spec fn explode_die<R: Rng>(
    d: DieModel,
    c: Condition,
    penetrating: bool,
    sides: Sides,
    g: R,
    done: nat,
) -> Result<(DieModel, R), Fault>
    decreases ROLL_LIMIT - done,
{
    if !c.met_by(last_roll(d)) {
        Ok((d, g))
    } else if done >= ROLL_LIMIT {
        Err(Fault::ExplodeLimit(ROLL_LIMIT))
    } else {
        let v = next_face(sides, g);
        let added = if penetrating {
            v - 1
        } else {
            v
        };
        if !fits_i64(d.value + added) {
            Err(Fault::Overflow)
        } else {
            let d1 = DieModel {
                value: d.value + added,
                rolls: d.rolls.push(v),
                dropped: d.dropped,
            };
            explode_die(d1, c, penetrating, sides, after_face(sides, g), done + 1)
        }
    }
}

/// Applies one explode modifier to the first `n` dice, in order, skipping
/// dropped ones.
pub open spec fn explode_prefix<R: Rng>(
    dice: Seq<DieModel>,
    n: nat,
    c: Condition,
    penetrating: bool,
    sides: Sides,
    g: R,
) -> Result<(Seq<DieModel>, R), Fault>
    decreases n,
{
    if n == 0 {
        Ok((dice, g))
    } else {
        match explode_prefix(dice, (n - 1) as nat, c, penetrating, sides, g) {
            Err(f) => Err(f),
            Ok((ds, g1)) => if ds[n - 1].dropped {
                Ok((ds, g1))
            } else {
                match explode_die(ds[n - 1], c, penetrating, sides, g1, 0) {
                    Err(f) => Err(f),
                    Ok((d, g2)) => Ok((ds.update(n - 1, d), g2)),
                }
            },
        }
    }
}

/// Applies the reroll modifiers among the first `m` modifiers, in order.
pub open spec fn apply_rerolls<R: Rng>(
    dice: Seq<DieModel>,
    mods: Seq<Modifier>,
    m: nat,
    sides: Sides,
    g: R,
) -> Result<(Seq<DieModel>, R), Fault>
    decreases m,
{
    if m == 0 {
        Ok((dice, g))
    } else {
        match apply_rerolls(dice, mods, (m - 1) as nat, sides, g) {
            Err(f) => Err(f),
            Ok((ds, g1)) => match mods[m - 1] {
                Modifier::Reroll { once, condition } => reroll_prefix(
                    ds,
                    ds.len(),
                    reroll_condition(condition),
                    once,
                    sides,
                    g1,
                ),
                _ => Ok((ds, g1)),
            },
        }
    }
}

/// Applies the explode modifiers among the first `m` modifiers, in order.
pub open spec fn apply_explodes<R: Rng>(
    dice: Seq<DieModel>,
    mods: Seq<Modifier>,
    m: nat,
    sides: Sides,
    g: R,
) -> Result<(Seq<DieModel>, R), Fault>
    decreases m,
{
    if m == 0 {
        Ok((dice, g))
    } else {
        match apply_explodes(dice, mods, (m - 1) as nat, sides, g) {
            Err(f) => Err(f),
            Ok((ds, g1)) => match mods[m - 1] {
                Modifier::Explode { penetrating, condition } => explode_prefix(
                    ds,
                    ds.len(),
                    explode_condition(condition, sides),
                    penetrating,
                    sides,
                    g1,
                ),
                _ => Ok((ds, g1)),
            },
        }
    }
}

/// How many of the first `n` dice are still counted.
pub open spec fn active_count(dice: Seq<DieModel>, n: int) -> nat
    decreases n,
{
    if n <= 0 {
        0
    } else {
        active_count(dice, n - 1) + if dice[n - 1].dropped {
            0nat
        } else {
            1nat
        }
    }
}

/// Whether die `j` ranks before die `i` from the lowest value up; among equal
/// values the earlier die ranks first.
pub open spec fn ranks_below(dice: Seq<DieModel>, j: int, i: int) -> bool {
    dice[j].value < dice[i].value || (dice[j].value == dice[i].value && j < i)
}

/// Whether die `j` ranks before die `i` from the highest value down; among
/// equal values the earlier die ranks first.
pub open spec fn ranks_above(dice: Seq<DieModel>, j: int, i: int) -> bool {
    dice[j].value > dice[i].value || (dice[j].value == dice[i].value && j < i)
}

/// How many counted dice among the first `n` rank before die `i`, from the
/// lowest (`low`) or from the highest.
pub open spec fn rank(dice: Seq<DieModel>, i: int, n: int, low: bool) -> nat
    decreases n,
{
    if n <= 0 {
        0
    } else {
        let j = n - 1;
        let before = if low {
            ranks_below(dice, j, i)
        } else {
            ranks_above(dice, j, i)
        };
        rank(dice, i, n - 1, low) + if !dice[j].dropped && before {
            1nat
        } else {
            0nat
        }
    }
}

/// Drops the `k` counted dice that rank first, from the lowest (`low`) or
/// from the highest.
pub open spec fn drop_first(dice: Seq<DieModel>, k: nat, low: bool) -> Seq<DieModel> {
    Seq::new(
        dice.len(),
        |i: int|
            if !dice[i].dropped && rank(dice, i, dice.len() as int, low) < k {
                DieModel { dropped: true, ..dice[i] }
            } else {
                dice[i]
            },
    )
}

/// Applies one keep or drop modifier; keeping at least as many dice as are
/// counted changes nothing.
pub open spec fn keep_or_drop(dice: Seq<DieModel>, m: Modifier) -> Seq<DieModel> {
    let active = active_count(dice, dice.len() as int);
    match m {
        Modifier::KeepHighest(n) => if n >= active {
            dice
        } else {
            drop_first(dice, (active - n) as nat, true)
        },
        Modifier::KeepLowest(n) => if n >= active {
            dice
        } else {
            drop_first(dice, (active - n) as nat, false)
        },
        Modifier::DropHighest(n) => drop_first(dice, n as nat, false),
        Modifier::DropLowest(n) => drop_first(dice, n as nat, true),
        _ => dice,
    }
}

/// Applies the keep and drop modifiers among the first `m` modifiers, in
/// order.
pub open spec fn apply_keeps(dice: Seq<DieModel>, mods: Seq<Modifier>, m: nat) -> Seq<DieModel>
    decreases m,
{
    if m == 0 {
        dice
    } else {
        keep_or_drop(apply_keeps(dice, mods, (m - 1) as nat), mods[m - 1])
    }
}

/// The condition of the last success-counting modifier among the first `m`.
pub open spec fn success_condition(mods: Seq<Modifier>, m: nat) -> Option<Condition>
    decreases m,
{
    if m == 0 {
        None
    } else {
        match mods[m - 1] {
            Modifier::CountSuccesses(c) => Some(c),
            _ => success_condition(mods, (m - 1) as nat),
        }
    }
}

/// The sum of the counted dice among the first `n`.
pub open spec fn sum_active(dice: Seq<DieModel>, n: int) -> int
    decreases n,
{
    if n <= 0 {
        0
    } else {
        sum_active(dice, n - 1) + if dice[n - 1].dropped {
            0
        } else {
            dice[n - 1].value
        }
    }
}

/// How many of the first `n` counted dice meet `c`.
pub open spec fn hits(dice: Seq<DieModel>, n: int, c: Condition) -> nat
    decreases n,
{
    if n <= 0 {
        0
    } else {
        hits(dice, n - 1, c) + if !dice[n - 1].dropped && c.met_by(dice[n - 1].value) {
            1nat
        } else {
            0nat
        }
    }
}

/// The total of a roll: the number of successes where they are counted, else
/// the sum of the counted dice.
pub open spec fn roll_total(dice: Seq<DieModel>, success: Option<Condition>) -> int {
    match success {
        Some(c) => hits(dice, dice.len() as int, c) as int,
        None => sum_active(dice, dice.len() as int),
    }
}

/// Evaluates one roll: rolls the dice, then applies every reroll, every
/// explosion, every keep and drop, and counts or sums, whatever order the
/// modifiers were written in.
pub open spec fn roll_model<R: Rng>(roll: RollModel, g: R) -> Result<(Outcome, R), Fault> {
    let sides = roll.sides;
    let mods = roll.modifiers;
    if sides.faces() == 0 {
        Err(Fault::InvalidDiceSides(0))
    } else {
        let (d0, g0) = fresh_dice(sides, roll.count as nat, g);
        match apply_rerolls(d0, mods, mods.len(), sides, g0) {
            Err(f) => Err(f),
            Ok((d1, g1)) => match apply_explodes(d1, mods, mods.len(), sides, g1) {
                Err(f) => Err(f),
                Ok((d2, g2)) => {
                    let d3 = apply_keeps(d2, mods, mods.len());
                    let success = success_condition(mods, mods.len());
                    let total = roll_total(d3, success);
                    if !fits_i64(total) {
                        Err(Fault::Overflow)
                    } else {
                        Ok(
                            (
                                Outcome {
                                    total,
                                    dice: d3,
                                    trace: roll_trace(roll, d3, total, success),
                                },
                                g2,
                            ),
                        )
                    }
                },
            },
        }
    }
}

/// Division truncated toward zero.
pub open spec fn trunc_div(x: int, d: int) -> int {
    if x == 0 {
        0
    } else if x > 0 && d > 0 {
        x / d
    } else if x < 0 && d < 0 {
        (-x) / (-d)
    } else if x < 0 {
        -((-x) / d)
    } else {
        -(x / (-d))
    }
}

/// Combines two totals; division by zero fails, and so does a result outside
/// the 64-bit range.
pub open spec fn combine(op: Op, a: int, b: int) -> Result<int, Fault> {
    let v = match op {
        Op::Add => a + b,
        Op::Sub => a - b,
        Op::Mul => a * b,
        Op::Div => trunc_div(a, b),
    };
    if op == Op::Div && b == 0 {
        Err(Fault::DivisionByZero)
    } else if !fits_i64(v) {
        Err(Fault::Overflow)
    } else {
        Ok(v)
    }
}

/// Evaluates an expression with the random source `g`: the outcome and the
/// source after it, or the fault that stopped the evaluation.
pub open spec fn eval_model<R: Rng>(e: ExprModel, g: R) -> Result<(Outcome, R), Fault>
    decreases e,
{
    match e {
        ExprModel::Number(n) => Ok(
            (Outcome { total: n as int, dice: Seq::empty(), trace: decimal_text(n as int) }, g),
        ),
        ExprModel::Roll(r) => roll_model(r, g),
        ExprModel::BinOp(op, l, r) => match eval_model(*l, g) {
            Err(f) => Err(f),
            Ok((lo, g1)) => match eval_model(*r, g1) {
                Err(f) => Err(f),
                Ok((ro, g2)) => match combine(op, lo.total, ro.total) {
                    Err(f) => Err(f),
                    Ok(t) => Ok(
                        (
                            Outcome {
                                total: t,
                                dice: Seq::empty(),
                                trace: lo.trace + " "@ + op_text(op) + " "@ + ro.trace + " = "@
                                    + decimal_text(t),
                            },
                            g2,
                        ),
                    ),
                },
            },
        },
        ExprModel::Group(inner) => match eval_model(*inner, g) {
            Err(f) => Err(f),
            Ok((o, g1)) => Ok(
                (Outcome { total: o.total, dice: o.dice, trace: "("@ + o.trace + ")"@ }, g1),
            ),
        },
    }
}

/// Parses the text `s` and evaluates it with `g`.
pub open spec fn roll_text<R: Rng>(s: Seq<char>, g: R) -> Result<(Outcome, R), Fault> {
    match parse_text(s) {
        Err(f) => Err(f),
        Ok(e) => eval_model(e, g),
    }
}

/// Keeping the highest `k` dice when no more than `k` are counted (in
/// particular when `k` is at least the number of dice) changes nothing, so
/// the total stays the plain sum.
pub proof fn lemma_keep_highest_of_fewer(dice: Seq<DieModel>, k: u32)
    requires
        k >= active_count(dice, dice.len() as int),
    ensures
        keep_or_drop(dice, Modifier::KeepHighest(k)) == dice,
        roll_total(keep_or_drop(dice, Modifier::KeepHighest(k)), None) == sum_active(
            dice,
            dice.len() as int,
        ),
{
}

/// Keeping the highest `k` of at most `k` dice changes nothing.
pub proof fn lemma_keep_highest_of_all(dice: Seq<DieModel>, k: u32)
    requires
        k >= dice.len(),
    ensures
        keep_or_drop(dice, Modifier::KeepHighest(k)) == dice,
{
    lemma_active_count_bound(dice, dice.len() as int);
    lemma_keep_highest_of_fewer(dice, k);
}

/// No more dice are counted than there are.
proof fn lemma_active_count_bound(dice: Seq<DieModel>, n: int)
    ensures
        active_count(dice, n) <= if n < 0 {
            0
        } else {
            n
        },
    decreases n,
{
    if n > 0 {
        lemma_active_count_bound(dice, n - 1);
    }
}

/// Every success count among the modifiers counts dice above a value
/// (`>` or `>=`), so more on a die never means fewer successes.
pub open spec fn counts_upward(mods: Seq<Modifier>) -> bool {
    forall|i: int|
        0 <= i < mods.len() ==> (#[trigger] mods[i] matches Modifier::CountSuccesses(c) ==> (
        c.compare == Compare::GreaterThan || c.compare == Compare::GreaterOrEqual))
}

/// Expressions built from numbers, groups, additions, multiplications and
/// rolls whose success counts, if any, count upward: no subtraction and no
/// division, whose sign flips break monotonicity. (A minus sign in the text
/// is a subtraction.)
pub open spec fn monotone_shape(e: ExprModel) -> bool
    decreases e,
{
    match e {
        ExprModel::Number(_) => true,
        ExprModel::Roll(r) => counts_upward(r.modifiers),
        ExprModel::BinOp(op, l, r) => (op == Op::Add || op == Op::Mul) && monotone_shape(*l)
            && monotone_shape(*r),
        ExprModel::Group(inner) => monotone_shape(*inner),
    }
}

/// Every source of type `R` rolls the lowest face, one.
pub open spec fn rolls_lowest<R: Rng>() -> bool {
    forall|g: R, m: u32| #[trigger] g.next_value(m) == 1
}

/// Every source of type `R` rolls the highest face.
pub open spec fn rolls_highest<R: Rng>() -> bool {
    forall|g: R, m: u32| #[trigger] g.next_value(m) == m
}

/// Every die shows `c` and has shown `c` last.
pub open spec fn uniform(dice: Seq<DieModel>, c: int) -> bool {
    forall|i: int|
        0 <= i < dice.len() ==> (#[trigger] dice[i]).value == c && dice[i].rolls.len() > 0
            && last_roll(dice[i]) == c
}

/// Two rolls with as many dice, dropped at the same places.
pub open spec fn same_flags(a: Seq<DieModel>, b: Seq<DieModel>) -> bool {
    a.len() == b.len() && forall|i: int| 0 <= i < a.len() ==> (#[trigger] a[i]).dropped == b[i].dropped
}

/// Every source of type `R` gives `k` for a die of kind `sides`.
pub open spec fn constant_for<R: Rng>(sides: Sides, k: u32) -> bool {
    forall|h: R| #[trigger] h.next_value(sides.faces() as u32) == k
}

proof fn lemma_fresh_constant<R: Rng>(sides: Sides, n: nat, g: R, k: u32)
    requires
        constant_for::<R>(sides, k),
    ensures
        fresh_dice(sides, n, g).0.len() == n,
        uniform(fresh_dice(sides, n, g).0, face(sides, k)),
        forall|i: int| 0 <= i < n ==> !(#[trigger] fresh_dice(sides, n, g).0[i]).dropped,
    decreases n,
{
    if n > 0 {
        lemma_fresh_constant(sides, (n - 1) as nat, g, k);
        let ds = fresh_dice(sides, (n - 1) as nat, g).0;
        let all = fresh_dice(sides, n, g).0;
        assert forall|i: int| 0 <= i < n - 1 implies all[i] == ds[i] by {}
    }
}

proof fn lemma_reroll_die_constant<R: Rng>(
    d: DieModel,
    c: Condition,
    once: bool,
    sides: Sides,
    g: R,
    done: nat,
    k: u32,
)
    requires
        constant_for::<R>(sides, k),
        d.value == face(sides, k),
        d.rolls.len() > 0,
        last_roll(d) == face(sides, k),
        reroll_die(d, c, once, sides, g, done) is Ok,
    ensures
        ({
            let d2 = reroll_die(d, c, once, sides, g, done)->Ok_0.0;
            d2.value == face(sides, k) && d2.rolls.len() > 0 && last_roll(d2) == face(sides, k)
                && d2.dropped == d.dropped
        }),
    decreases ROLL_LIMIT - done,
{
    if c.met_by(d.value) && done < ROLL_LIMIT {
        let v = next_face(sides, g);
        let d1 = DieModel { value: v, rolls: d.rolls.push(v), dropped: d.dropped };
        if !once {
            lemma_reroll_die_constant(d1, c, once, sides, after_face(sides, g), done + 1, k);
        }
    }
}

proof fn lemma_reroll_prefix_constant<R: Rng>(
    dice: Seq<DieModel>,
    n: nat,
    c: Condition,
    once: bool,
    sides: Sides,
    g: R,
    k: u32,
)
    requires
        constant_for::<R>(sides, k),
        n <= dice.len(),
        uniform(dice, face(sides, k)),
        reroll_prefix(dice, n, c, once, sides, g) is Ok,
    ensures
        uniform(reroll_prefix(dice, n, c, once, sides, g)->Ok_0.0, face(sides, k)),
        same_flags(reroll_prefix(dice, n, c, once, sides, g)->Ok_0.0, dice),
    decreases n,
{
    if n > 0 {
        lemma_reroll_prefix_constant(dice, (n - 1) as nat, c, once, sides, g, k);
        let (ds, g1) = reroll_prefix(dice, (n - 1) as nat, c, once, sides, g)->Ok_0;
        if !ds[n - 1].dropped {
            lemma_reroll_die_constant(ds[n - 1], c, once, sides, g1, 0, k);
        }
    }
}

proof fn lemma_explode_die_met<R: Rng>(
    d: DieModel,
    c: Condition,
    penetrating: bool,
    sides: Sides,
    g: R,
    done: nat,
    k: u32,
)
    requires
        constant_for::<R>(sides, k),
        last_roll(d) == face(sides, k),
        c.met_by(face(sides, k)),
    ensures
        explode_die(d, c, penetrating, sides, g, done) is Err,
    decreases ROLL_LIMIT - done,
{
    if done < ROLL_LIMIT {
        let v = next_face(sides, g);
        let added = if penetrating {
            v - 1
        } else {
            v
        };
        let d1 = DieModel { value: d.value + added, rolls: d.rolls.push(v), dropped: d.dropped };
        lemma_explode_die_met(d1, c, penetrating, sides, after_face(sides, g), done + 1, k);
    }
}

proof fn lemma_explode_prefix_constant<R: Rng>(
    dice: Seq<DieModel>,
    n: nat,
    c: Condition,
    penetrating: bool,
    sides: Sides,
    g: R,
    k: u32,
)
    requires
        constant_for::<R>(sides, k),
        n <= dice.len(),
        uniform(dice, face(sides, k)),
        explode_prefix(dice, n, c, penetrating, sides, g) is Ok,
    ensures
        explode_prefix(dice, n, c, penetrating, sides, g)->Ok_0.0 == dice,
    decreases n,
{
    if n > 0 {
        lemma_explode_prefix_constant(dice, (n - 1) as nat, c, penetrating, sides, g, k);
        let (ds, g1) = explode_prefix(dice, (n - 1) as nat, c, penetrating, sides, g)->Ok_0;
        if !ds[n - 1].dropped && c.met_by(face(sides, k)) {
            lemma_explode_die_met(ds[n - 1], c, penetrating, sides, g1, 0, k);
        }
        if !ds[n - 1].dropped {
            assert(ds.update(n - 1, ds[n - 1]) =~= ds);
        }
    }
}

proof fn lemma_rerolls_constant<R: Rng>(
    dice: Seq<DieModel>,
    mods: Seq<Modifier>,
    m: nat,
    sides: Sides,
    g: R,
    k: u32,
)
    requires
        constant_for::<R>(sides, k),
        m <= mods.len(),
        uniform(dice, face(sides, k)),
        apply_rerolls(dice, mods, m, sides, g) is Ok,
    ensures
        uniform(apply_rerolls(dice, mods, m, sides, g)->Ok_0.0, face(sides, k)),
        same_flags(apply_rerolls(dice, mods, m, sides, g)->Ok_0.0, dice),
    decreases m,
{
    if m > 0 {
        lemma_rerolls_constant(dice, mods, (m - 1) as nat, sides, g, k);
        let (ds, g1) = apply_rerolls(dice, mods, (m - 1) as nat, sides, g)->Ok_0;
        match mods[m - 1] {
            Modifier::Reroll { once, condition } => {
                lemma_reroll_prefix_constant(
                    ds,
                    ds.len(),
                    reroll_condition(condition),
                    once,
                    sides,
                    g1,
                    k,
                );
            },
            _ => {},
        }
    }
}

proof fn lemma_explodes_constant<R: Rng>(
    dice: Seq<DieModel>,
    mods: Seq<Modifier>,
    m: nat,
    sides: Sides,
    g: R,
    k: u32,
)
    requires
        constant_for::<R>(sides, k),
        m <= mods.len(),
        uniform(dice, face(sides, k)),
        apply_explodes(dice, mods, m, sides, g) is Ok,
    ensures
        apply_explodes(dice, mods, m, sides, g)->Ok_0.0 == dice,
    decreases m,
{
    if m > 0 {
        lemma_explodes_constant(dice, mods, (m - 1) as nat, sides, g, k);
        let (ds, g1) = apply_explodes(dice, mods, (m - 1) as nat, sides, g)->Ok_0;
        match mods[m - 1] {
            Modifier::Explode { penetrating, condition } => {
                lemma_explode_prefix_constant(
                    ds,
                    ds.len(),
                    explode_condition(condition, sides),
                    penetrating,
                    sides,
                    g1,
                    k,
                );
            },
            _ => {},
        }
    }
}

proof fn lemma_active_same(a: Seq<DieModel>, b: Seq<DieModel>, n: int)
    requires
        same_flags(a, b),
        n <= a.len(),
    ensures
        active_count(a, n) == active_count(b, n),
    decreases n,
{
    if n > 0 {
        lemma_active_same(a, b, n - 1);
    }
}

proof fn lemma_rank_same(a: Seq<DieModel>, b: Seq<DieModel>, x: int, y: int, i: int, n: int, low: bool)
    requires
        same_flags(a, b),
        uniform(a, x),
        uniform(b, y),
        0 <= i < a.len(),
        n <= a.len(),
    ensures
        rank(a, i, n, low) == rank(b, i, n, low),
    decreases n,
{
    if n > 0 {
        lemma_rank_same(a, b, x, y, i, n - 1, low);
        assert(a[n - 1].value == a[i].value);
        assert(b[n - 1].value == b[i].value);
    }
}

proof fn lemma_keeps_same(a: Seq<DieModel>, b: Seq<DieModel>, x: int, y: int, mods: Seq<Modifier>, m: nat)
    requires
        same_flags(a, b),
        uniform(a, x),
        uniform(b, y),
        m <= mods.len(),
    ensures
        same_flags(apply_keeps(a, mods, m), apply_keeps(b, mods, m)),
        uniform(apply_keeps(a, mods, m), x),
        uniform(apply_keeps(b, mods, m), y),
    decreases m,
{
    if m > 0 {
        lemma_keeps_same(a, b, x, y, mods, (m - 1) as nat);
        let a1 = apply_keeps(a, mods, (m - 1) as nat);
        let b1 = apply_keeps(b, mods, (m - 1) as nat);
        lemma_active_same(a1, b1, a1.len() as int);
        assert forall|i: int, low: bool| 0 <= i < a1.len() implies rank(a1, i, a1.len() as int, low)
            == rank(b1, i, b1.len() as int, low) by {
            lemma_rank_same(a1, b1, x, y, i, a1.len() as int, low);
        }
    }
}

proof fn lemma_sum_uniform(a: Seq<DieModel>, x: int, n: int)
    requires
        uniform(a, x),
        0 <= n <= a.len(),
    ensures
        sum_active(a, n) == active_count(a, n) * x,
    decreases n,
{
    if n > 0 {
        lemma_sum_uniform(a, x, n - 1);
        let c = active_count(a, n - 1) as int;
        assert(a[n - 1].value == x);
        assert((c + 1) * x == c * x + x) by (nonlinear_arith);
        if a[n - 1].dropped {
            assert(active_count(a, n) == c);
        } else {
            assert(active_count(a, n) == c + 1);
        }
    } else {
        assert(0 * x == 0) by (nonlinear_arith);
    }
}

proof fn lemma_success_upward(mods: Seq<Modifier>, m: nat)
    requires
        counts_upward(mods),
        m <= mods.len(),
    ensures
        success_condition(mods, m) matches Some(c) ==> (c.compare == Compare::GreaterThan
            || c.compare == Compare::GreaterOrEqual),
    decreases m,
{
    if m > 0 {
        lemma_success_upward(mods, (m - 1) as nat);
        assert(mods[m - 1] matches Modifier::CountSuccesses(c) ==> (c.compare
            == Compare::GreaterThan || c.compare == Compare::GreaterOrEqual));
    }
}

proof fn lemma_hits_uniform(a: Seq<DieModel>, x: int, c: Condition, n: int)
    requires
        uniform(a, x),
        0 <= n <= a.len(),
    ensures
        hits(a, n, c) == if c.met_by(x) {
            active_count(a, n)
        } else {
            0
        },
    decreases n,
{
    if n > 0 {
        lemma_hits_uniform(a, x, c, n - 1);
        assert(a[n - 1].value == x);
    }
}

proof fn lemma_scaled(n: int, lo: int, hi: int)
    requires
        n >= 0,
        -hi <= lo <= hi,
    ensures
        -(n * hi) <= n * lo <= n * hi,
{
    assert(n * lo <= n * hi) by (nonlinear_arith)
        requires
            n >= 0,
            lo <= hi,
    ;
    assert(n * (-hi) <= n * lo) by (nonlinear_arith)
        requires
            n >= 0,
            -hi <= lo,
    ;
    assert(n * (-hi) == -(n * hi)) by (nonlinear_arith);
}

proof fn lemma_product_bound(l1: int, h1: int, l2: int, h2: int)
    requires
        -h1 <= l1 <= h1,
        -h2 <= l2 <= h2,
    ensures
        -(h1 * h2) <= l1 * l2 <= h1 * h2,
{
    assert(h1 >= 0 && h2 >= 0);
    if l2 >= 0 {
        lemma_scaled(l2, l1, h1);
        lemma_scaled(h1, l2, h2);
        assert(l2 * l1 == l1 * l2) by (nonlinear_arith);
        assert(l2 * h1 == h1 * l2) by (nonlinear_arith);
    } else {
        lemma_scaled(-l2, -l1, h1);
        lemma_scaled(h1, -l2, h2);
        assert((-l2) * (-l1) == l1 * l2) by (nonlinear_arith);
        assert((-l2) * h1 == -(h1 * l2)) by (nonlinear_arith);
        assert(h1 * (-l2) == -(h1 * l2)) by (nonlinear_arith);
    }
}

/// Rolling every die on its lowest face gives a total no greater than rolling
/// every die on its highest face, for expressions without subtraction or
/// division whose success counts count upward; the low total is moreover no
/// less than the negated high total.
pub proof fn lemma_lowest_faces_bound_highest<L: Rng, H: Rng>(e: ExprModel, lo: L, hi: H)
    requires
        monotone_shape(e),
        nonneg_literals(e),
        rolls_lowest::<L>(),
        rolls_highest::<H>(),
        eval_model(e, lo) is Ok,
        eval_model(e, hi) is Ok,
    ensures
        -eval_model(e, hi)->Ok_0.0.total <= eval_model(e, lo)->Ok_0.0.total
            <= eval_model(e, hi)->Ok_0.0.total,
    decreases e,
{
    match e {
        ExprModel::Number(_) => {},
        ExprModel::Roll(r) => {
            let sides = r.sides;
            let mods = r.modifiers;
            let m = sides.faces() as u32;
            assert(constant_for::<L>(sides, 1u32));
            assert(constant_for::<H>(sides, m));
            let c_lo = face(sides, 1u32);
            let c_hi = face(sides, m);
            lemma_fresh_constant(sides, r.count as nat, lo, 1u32);
            lemma_fresh_constant(sides, r.count as nat, hi, m);
            let (a0, ga0) = fresh_dice(sides, r.count as nat, lo);
            let (b0, gb0) = fresh_dice(sides, r.count as nat, hi);
            lemma_rerolls_constant(a0, mods, mods.len(), sides, ga0, 1u32);
            lemma_rerolls_constant(b0, mods, mods.len(), sides, gb0, m);
            let (a1, ga1) = apply_rerolls(a0, mods, mods.len(), sides, ga0)->Ok_0;
            let (b1, gb1) = apply_rerolls(b0, mods, mods.len(), sides, gb0)->Ok_0;
            lemma_explodes_constant(a1, mods, mods.len(), sides, ga1, 1u32);
            lemma_explodes_constant(b1, mods, mods.len(), sides, gb1, m);
            assert(same_flags(a1, b1));
            lemma_keeps_same(a1, b1, c_lo, c_hi, mods, mods.len());
            let a3 = apply_keeps(a1, mods, mods.len());
            let b3 = apply_keeps(b1, mods, mods.len());
            lemma_active_same(a3, b3, a3.len() as int);
            assert(-c_hi <= c_lo <= c_hi);
            lemma_success_upward(mods, mods.len());
            match success_condition(mods, mods.len()) {
                Some(c) => {
                    lemma_hits_uniform(a3, c_lo, c, a3.len() as int);
                    lemma_hits_uniform(b3, c_hi, c, b3.len() as int);
                },
                None => {
                    lemma_sum_uniform(a3, c_lo, a3.len() as int);
                    lemma_sum_uniform(b3, c_hi, b3.len() as int);
                    lemma_scaled(active_count(a3, a3.len() as int) as int, c_lo, c_hi);
                },
            }
        },
        ExprModel::BinOp(op, l, r) => {
            lemma_lowest_faces_bound_highest(*l, lo, hi);
            let (ol, g_lo) = eval_model(*l, lo)->Ok_0;
            let (oh, g_hi) = eval_model(*l, hi)->Ok_0;
            lemma_lowest_faces_bound_highest(*r, g_lo, g_hi);
            let rl = eval_model(*r, g_lo)->Ok_0.0;
            let rh = eval_model(*r, g_hi)->Ok_0.0;
            if op == Op::Mul {
                lemma_product_bound(ol.total, oh.total, rl.total, rh.total);
            }
        },
        ExprModel::Group(inner) => {
            lemma_lowest_faces_bound_highest(*inner, lo, hi);
        },
    }
}

/// For a text without subtraction or division whose success counts count
/// upward, a source that always rolls one gives a total no greater than a
/// source that always rolls each die's highest face, where both evaluations
/// succeed.
pub proof fn lemma_roll_text_monotone<L: Rng, H: Rng>(s: Seq<char>, lo: L, hi: H)
    requires
        parse_text(s) is Ok,
        monotone_shape(parse_text(s)->Ok_0),
        rolls_lowest::<L>(),
        rolls_highest::<H>(),
        roll_text(s, lo) is Ok,
        roll_text(s, hi) is Ok,
    ensures
        roll_text(s, lo)->Ok_0.0.total <= roll_text(s, hi)->Ok_0.0.total,
{
    lemma_parsed_literals_nonneg(s);
    lemma_lowest_faces_bound_highest(parse_text(s)->Ok_0, lo, hi);
}

} // verus!
