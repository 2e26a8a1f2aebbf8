//! Rolling dice and evaluating expressions.
use vstd::prelude::*;
use crate::ast::{Compare, Condition, Expr, Modifier, Op, Roll, Sides};
use crate::error::{Error, Fault};
use crate::semantics::{
    active_count, after_face, apply_explodes, apply_keeps, apply_rerolls, combine, drop_first,
    eval_model, explode_condition, explode_die, explode_prefix, face, fits_i64, fresh_dice, hits,
    keep_or_drop, last_roll, next_face, rank, reroll_condition, reroll_die, reroll_prefix,
    roll_model, roll_total, success_condition, sum_active, DieModel, Outcome, ROLL_LIMIT,
};
use crate::text::{
    decimal_string, decimal_text, dice_text, modifiers_text, op_str, push_decimal, push_die,
    push_modifiers, push_str, roll_trace, sides_text, string_of,
};
use vstd::string::StringExecFns;

verus! {

/// A source of die faces.
///
/// A source describes its rolls by two spec functions of its state: the next
/// value and the state after it. A source that does not override them gets
/// the defaults, one fixed but unspecified value and one fixed but
/// unspecified state, whatever the state it is in.
pub trait Rng {
    /// The value that the next roll with `max` faces gives.
    open spec fn next_value(&self, max: u32) -> u32 {
        arbitrary()
    }

    /// The source after that roll.
    open spec fn advanced(&self, max: u32) -> Self where Self: Sized {
        arbitrary()
    }

    /// Rolls a die with `max` faces. Sources are meant to give a value in
    /// `1..=max`; the contract asks only that the roll be the one the source
    /// describes.
    fn roll(&mut self, max: u32) -> (r: u32) where Self: Sized
        requires
            max >= 1,
        ensures
            r == old(self).next_value(max),
            *final(self) == old(self).advanced(max),
    ;
}

/// The whole state of fastrand's generator after one roll of a die with `max`
/// faces from `state`, with the value rolled.
pub uninterp spec fn fastrand_roll(state: u64, max: u32) -> (u32, u64);

/// Relies on `fastrand::Rng`, whose whole state is one `u64`: `with_seed`
/// starts from that state, `u32(1..=max)` draws a value in the range and
/// advances it, and `get_seed` reads it back.
#[verifier::external_body]
fn fastrand_step(state: u64, max: u32) -> (r: (u32, u64))
    requires
        max >= 1,
    ensures
        r == fastrand_roll(state, max),
        1 <= r.0 <= max,
{
    let mut g = fastrand::Rng::with_seed(state);
    let v = g.u32(1..=max);
    (v, g.get_seed())
}

/// Relies on `fastrand::Rng::new`, a generator seeded from the thread-local
/// one (or a fixed seed when that is gone), and `Rng::get_seed`, which reads
/// its state.
#[verifier::external_body]
fn random_state() -> u64 {
    fastrand::Rng::new().get_seed()
}

/// The default random source: fastrand's generator, held as its state.
pub struct FastRng {
    state: u64,
}

impl FastRng {
    /// The generator in state `state`.
    pub closed spec fn seeded(state: u64) -> FastRng {
        FastRng { state }
    }

    /// A generator in a state drawn from the thread-local generator.
    pub fn new() -> (r: FastRng) {
        FastRng { state: random_state() }
    }

    /// A generator that starts from `seed`: the same seed gives the same rolls.
    pub fn with_seed(seed: u64) -> (r: FastRng)
        ensures
            r == FastRng::seeded(seed),
    {
        FastRng { state: seed }
    }
}

impl Default for FastRng {
    fn default() -> (r: FastRng) {
        FastRng::new()
    }
}

impl Rng for FastRng {
    closed spec fn next_value(&self, max: u32) -> u32 {
        fastrand_roll(self.state, max).0
    }

    closed spec fn advanced(&self, max: u32) -> FastRng {
        FastRng { state: fastrand_roll(self.state, max).1 }
    }

    fn roll(&mut self, max: u32) -> (r: u32) {
        let (v, next) = fastrand_step(self.state, max);
        self.state = next;
        v
    }
}

/// One die of a roll.
#[derive(Debug, Clone)]
pub struct DieResult {
    /// The value it counts with, after rerolls and explosions.
    pub value: i64,
    /// Every face it showed, in order.
    pub rolls: Vec<i64>,
    /// Whether a keep or drop modifier took it out.
    pub dropped: bool,
}

impl View for DieResult {
    type V = DieModel;

    open spec fn view(&self) -> DieModel {
        DieModel {
            value: self.value as int,
            rolls: self.rolls@.map_values(|v: i64| v as int),
            dropped: self.dropped,
        }
    }
}

/// The result of evaluating an expression.
#[derive(Debug, Clone)]
pub struct RollResult {
    /// The total.
    pub total: i64,
    /// The dice of the roll, when the expression is a roll or a group of one.
    pub dice: Vec<DieResult>,
    /// A readable trace of the evaluation.
    pub expression: String,
}

pub open spec fn dice_view(dice: Seq<DieResult>) -> Seq<DieModel> {
    dice.map_values(|d: DieResult| d@)
}

/// Every die has shown at least one face.
pub open spec fn dice_ok(dice: Seq<DieResult>) -> bool {
    forall|i: int| 0 <= i < dice.len() ==> #[trigger] dice[i].rolls@.len() > 0
}

impl View for RollResult {
    type V = Outcome;

    open spec fn view(&self) -> Outcome {
        Outcome { total: self.total as int, dice: dice_view(self.dice@), trace: self.expression@ }
    }
}

/// Rolls one die of kind `sides`.
fn roll_die<R: Rng>(sides: Sides, rng: &mut R) -> (r: i64)
    requires
        sides.faces() >= 1,
    ensures
        r == next_face(sides, *old(rng)),
        *final(rng) == after_face(sides, *old(rng)),
{
    let v = rng.roll(sides.count());
    match sides {
        Sides::Fudge => v as i64 - 2,
        _ => v as i64,
    }
}

/// Rolls `count` fresh dice.
fn roll_fresh<R: Rng>(sides: Sides, count: u32, rng: &mut R) -> (r: Vec<DieResult>)
    requires
        sides.faces() >= 1,
    ensures
        (dice_view(r@), *final(rng)) == fresh_dice(sides, count as nat, *old(rng)),
        dice_ok(r@),
        r@.len() == count,
{
    let mut dice: Vec<DieResult> = Vec::new();
    let mut i: u32 = 0;
    while i < count
        invariant
            i <= count,
            sides.faces() >= 1,
            dice@.len() == i,
            dice_ok(dice@),
            (dice_view(dice@), *rng) == fresh_dice(sides, i as nat, *old(rng)),
        decreases count - i,
    {
        let ghost before = dice@;
        let value = roll_die(sides, rng);
        let mut rolls: Vec<i64> = Vec::new();
        rolls.push(value);
        dice.push(DieResult { value, rolls, dropped: false });
        i = i + 1;
        proof {
            let d = DieResult { value, rolls, dropped: false };
            assert(d@.rolls =~= seq![value as int]);
            assert(dice_view(dice@) =~= dice_view(before).push(d@));
        }
    }
    dice
}

/// Rerolls one die while its value meets `c`.
fn reroll_one<R: Rng>(d: &mut DieResult, c: Condition, once: bool, sides: Sides, rng: &mut R) -> (r:
    Result<(), Error>)
    requires
        sides.faces() >= 1,
        old(d).rolls@.len() > 0,
    ensures
        final(d).rolls@.len() > 0,
        match reroll_die(old(d)@, c, once, sides, *old(rng), 0) {
            Ok((d2, g2)) => r is Ok && final(d)@ == d2 && *final(rng) == g2,
            Err(f) => r is Err && r->Err_0@ == f,
        },
{
    let mut done: u32 = 0;
    while c.compare.check(d.value, c.value)
        invariant
            done <= ROLL_LIMIT,
            sides.faces() >= 1,
            d.rolls@.len() > 0,
            reroll_die(old(d)@, c, once, sides, *old(rng), 0) == reroll_die(
                d@,
                c,
                once,
                sides,
                *rng,
                done as nat,
            ),
        decreases ROLL_LIMIT - done,
    {
        if done >= ROLL_LIMIT {
            return Err(Error::RerollLimit(ROLL_LIMIT));
        }
        let ghost before = d@;
        let v = roll_die(sides, rng);
        d.rolls.push(v);
        d.value = v;
        done = done + 1;
        assert(d@.rolls =~= before.rolls.push(v as int));
        if once {
            return Ok(());
        }
    }
    Ok(())
}

proof fn lemma_reroll_prefix_fails<R: Rng>(
    dice: Seq<DieModel>,
    i: nat,
    n: nat,
    c: Condition,
    once: bool,
    sides: Sides,
    g: R,
)
    requires
        i <= n,
        reroll_prefix(dice, i, c, once, sides, g) is Err,
    ensures
        reroll_prefix(dice, n, c, once, sides, g) == reroll_prefix(dice, i, c, once, sides, g),
    decreases n - i,
{
    if i < n {
        lemma_reroll_prefix_fails(dice, i, (n - 1) as nat, c, once, sides, g);
    }
}

/// Applies one reroll modifier to every die that is still counted.
fn apply_reroll<R: Rng>(
    dice: &mut Vec<DieResult>,
    sides: Sides,
    once: bool,
    condition: Option<Condition>,
    rng: &mut R,
) -> (r: Result<(), Error>)
    requires
        sides.faces() >= 1,
        dice_ok(old(dice)@),
    ensures
        final(dice)@.len() == old(dice)@.len(),
        dice_ok(final(dice)@),
        match reroll_prefix(
            dice_view(old(dice)@),
            old(dice)@.len(),
            reroll_condition(condition),
            once,
            sides,
            *old(rng),
        ) {
            Ok((ds, g)) => r is Ok && dice_view(final(dice)@) == ds && *final(rng) == g,
            Err(f) => r is Err && r->Err_0@ == f,
        },
{
    let c = match condition {
        Some(c) => c,
        None => Condition { compare: Compare::Equal, value: 1 },
    };
    let n = dice.len();
    let mut i: usize = 0;
    while i < n
        invariant
            i <= n,
            n == dice@.len(),
            n == old(dice)@.len(),
            sides.faces() >= 1,
            c == reroll_condition(condition),
            dice_ok(dice@),
            reroll_prefix(dice_view(old(dice)@), i as nat, c, once, sides, *old(rng)) == Ok::<
                _,
                crate::error::Fault,
            >((dice_view(dice@), *rng)),
        decreases n - i,
    {
        if !dice[i].dropped {
            let ghost before = dice@;
            let res = reroll_one(&mut dice[i], c, once, sides, rng);
            assert(dice@.len() == n);
            assert(dice_view(dice@) =~= dice_view(before).update(i as int, dice@[i as int]@));
            match res {
                Ok(()) => {},
                Err(e) => {
                    proof {
                        lemma_reroll_prefix_fails(
                            dice_view(old(dice)@),
                            (i + 1) as nat,
                            n as nat,
                            c,
                            once,
                            sides,
                            *old(rng),
                        );
                    }
                    return Err(e);
                },
            }
        }
        i = i + 1;
    }
    Ok(())
}

/// Rolls one die again while its most recent face meets `c`.
fn explode_one<R: Rng>(
    d: &mut DieResult,
    c: Condition,
    penetrating: bool,
    sides: Sides,
    rng: &mut R,
) -> (r: Result<(), Error>)
    requires
        sides.faces() >= 1,
        old(d).rolls@.len() > 0,
    ensures
        final(d).rolls@.len() > 0,
        match explode_die(old(d)@, c, penetrating, sides, *old(rng), 0) {
            Ok((d2, g2)) => r is Ok && final(d)@ == d2 && *final(rng) == g2,
            Err(f) => r is Err && r->Err_0@ == f,
        },
{
    let mut done: u32 = 0;
    let mut current = d.rolls[d.rolls.len() - 1];
    while c.compare.check(current, c.value)
        invariant
            done <= ROLL_LIMIT,
            sides.faces() >= 1,
            d.rolls@.len() > 0,
            current as int == last_roll(d@),
            explode_die(old(d)@, c, penetrating, sides, *old(rng), 0) == explode_die(
                d@,
                c,
                penetrating,
                sides,
                *rng,
                done as nat,
            ),
        decreases ROLL_LIMIT - done,
    {
        if done >= ROLL_LIMIT {
            return Err(Error::ExplodeLimit(ROLL_LIMIT));
        }
        let ghost before = d@;
        let v = roll_die(sides, rng);
        let added = if penetrating {
            v - 1
        } else {
            v
        };
        let value = match d.value.checked_add(added) {
            Some(x) => x,
            None => return Err(Error::Overflow),
        };
        d.value = value;
        d.rolls.push(v);
        current = v;
        done = done + 1;
        assert(d@.rolls =~= before.rolls.push(v as int));
    }
    Ok(())
}

proof fn lemma_explode_prefix_fails<R: Rng>(
    dice: Seq<DieModel>,
    i: nat,
    n: nat,
    c: Condition,
    penetrating: bool,
    sides: Sides,
    g: R,
)
    requires
        i <= n,
        explode_prefix(dice, i, c, penetrating, sides, g) is Err,
    ensures
        explode_prefix(dice, n, c, penetrating, sides, g) == explode_prefix(
            dice,
            i,
            c,
            penetrating,
            sides,
            g,
        ),
    decreases n - i,
{
    if i < n {
        lemma_explode_prefix_fails(dice, i, (n - 1) as nat, c, penetrating, sides, g);
    }
}

/// Applies one explode modifier to every die that is still counted, in order.
fn apply_explode<R: Rng>(
    dice: &mut Vec<DieResult>,
    sides: Sides,
    penetrating: bool,
    condition: Option<Condition>,
    rng: &mut R,
) -> (r: Result<(), Error>)
    requires
        sides.faces() >= 1,
        dice_ok(old(dice)@),
    ensures
        final(dice)@.len() == old(dice)@.len(),
        dice_ok(final(dice)@),
        match explode_prefix(
            dice_view(old(dice)@),
            old(dice)@.len(),
            explode_condition(condition, sides),
            penetrating,
            sides,
            *old(rng),
        ) {
            Ok((ds, g)) => r is Ok && dice_view(final(dice)@) == ds && *final(rng) == g,
            Err(f) => r is Err && r->Err_0@ == f,
        },
{
    let c = match condition {
        Some(c) => c,
        None => {
            let top: i64 = match sides {
                Sides::Fudge => 1,
                _ => sides.count() as i64,
            };
            Condition { compare: Compare::Equal, value: top }
        },
    };
    let n = dice.len();
    let mut i: usize = 0;
    while i < n
        invariant
            i <= n,
            n == dice@.len(),
            n == old(dice)@.len(),
            sides.faces() >= 1,
            c == explode_condition(condition, sides),
            dice_ok(dice@),
            explode_prefix(dice_view(old(dice)@), i as nat, c, penetrating, sides, *old(rng))
                == Ok::<_, crate::error::Fault>((dice_view(dice@), *rng)),
        decreases n - i,
    {
        if !dice[i].dropped {
            let ghost before = dice@;
            let res = explode_one(&mut dice[i], c, penetrating, sides, rng);
            assert(dice@.len() == n);
            assert(dice_view(dice@) =~= dice_view(before).update(i as int, dice@[i as int]@));
            match res {
                Ok(()) => {},
                Err(e) => {
                    proof {
                        lemma_explode_prefix_fails(
                            dice_view(old(dice)@),
                            (i + 1) as nat,
                            n as nat,
                            c,
                            penetrating,
                            sides,
                            *old(rng),
                        );
                    }
                    return Err(e);
                },
            }
        }
        i = i + 1;
    }
    Ok(())
}

/// How many dice are still counted.
fn count_active(dice: &Vec<DieResult>) -> (r: usize)
    ensures
        r == active_count(dice_view(dice@), dice@.len() as int),
{
    let mut count: usize = 0;
    let mut i: usize = 0;
    while i < dice.len()
        invariant
            i <= dice@.len(),
            count <= i,
            count == active_count(dice_view(dice@), i as int),
        decreases dice@.len() - i,
    {
        if !dice[i].dropped {
            count = count + 1;
        }
        i = i + 1;
    }
    count
}

/// How many counted dice rank before die `i`, from the lowest (`low`) or from
/// the highest.
fn rank_of(dice: &Vec<DieResult>, i: usize, low: bool) -> (r: usize)
    requires
        i < dice@.len(),
    ensures
        r == rank(dice_view(dice@), i as int, dice@.len() as int, low),
{
    let ghost view = dice_view(dice@);
    let mut count: usize = 0;
    let mut j: usize = 0;
    while j < dice.len()
        invariant
            i < dice@.len(),
            view == dice_view(dice@),
            j <= dice@.len(),
            count <= j,
            count == rank(view, i as int, j as int, low),
        decreases dice@.len() - j,
    {
        let before = if low {
            dice[j].value < dice[i].value || (dice[j].value == dice[i].value && j < i)
        } else {
            dice[j].value > dice[i].value || (dice[j].value == dice[i].value && j < i)
        };
        if !dice[j].dropped && before {
            count = count + 1;
        }
        j = j + 1;
    }
    count
}

/// Drops the `k` counted dice that rank first, from the lowest (`low`) or
/// from the highest.
fn drop_ranked(dice: &mut Vec<DieResult>, k: usize, low: bool)
    requires
        dice_ok(old(dice)@),
    ensures
        final(dice)@.len() == old(dice)@.len(),
        dice_ok(final(dice)@),
        dice_view(final(dice)@) == drop_first(dice_view(old(dice)@), k as nat, low),
{
    let ghost view = dice_view(dice@);
    let n = dice.len();
    let mut marks: Vec<bool> = Vec::new();
    let mut i: usize = 0;
    while i < n
        invariant
            n == dice@.len(),
            view == dice_view(dice@),
            i <= n,
            marks@.len() == i,
            forall|j: int|
                0 <= j < i ==> #[trigger] marks@[j] == (!view[j].dropped && rank(
                    view,
                    j,
                    n as int,
                    low,
                ) < k),
        decreases n - i,
    {
        let r = rank_of(dice, i, low);
        marks.push(!dice[i].dropped && r < k);
        i = i + 1;
    }
    let mut i: usize = 0;
    while i < n
        invariant
            n == dice@.len(),
            n == old(dice)@.len(),
            view == dice_view(old(dice)@),
            marks@.len() == n,
            i <= n,
            dice_ok(dice@),
            forall|j: int|
                0 <= j < i ==> #[trigger] dice_view(dice@)[j] == drop_first(view, k as nat, low)[j],
            forall|j: int| i <= j < n ==> #[trigger] dice_view(dice@)[j] == view[j],
            forall|j: int|
                0 <= j < n ==> #[trigger] marks@[j] == (!view[j].dropped && rank(
                    view,
                    j,
                    n as int,
                    low,
                ) < k),
        decreases n - i,
    {
        let ghost before = dice@;
        assert(view[i as int] == dice_view(before)[i as int]);
        assert(dice_view(before)[i as int] == before[i as int]@);
        if marks[i] {
            dice[i].dropped = true;
            assert(dice@ == before.update(i as int, dice@[i as int]));
            assert(dice@[i as int].rolls == before[i as int].rolls);
            assert(dice@[i as int].value == before[i as int].value);
            assert(dice@[i as int]@ == DieModel { dropped: true, ..view[i as int] });
        }
        assert(dice_view(dice@)[i as int] == drop_first(view, k as nat, low)[i as int]);
        assert forall|j: int| 0 <= j < n && j != i implies #[trigger] dice_view(dice@)[j]
            == dice_view(before)[j] by {
            assert(dice@[j] == before[j]);
        }
        i = i + 1;
    }
    assert(dice_view(dice@) =~= drop_first(view, k as nat, low));
}

/// Keeps the `n` highest counted dice.
fn apply_keep_highest(dice: &mut Vec<DieResult>, n: u32)
    requires
        dice_ok(old(dice)@),
    ensures
        final(dice)@.len() == old(dice)@.len(),
        dice_ok(final(dice)@),
        dice_view(final(dice)@) == keep_or_drop(dice_view(old(dice)@), Modifier::KeepHighest(n)),
        n >= active_count(dice_view(old(dice)@), old(dice)@.len() as int) ==> final(dice)@ == old(
            dice,
        )@,
{
    let active = count_active(dice);
    if n as usize >= active {
        return ;
    }
    drop_ranked(dice, active - n as usize, true);
}

/// Keeps the `n` lowest counted dice.
fn apply_keep_lowest(dice: &mut Vec<DieResult>, n: u32)
    requires
        dice_ok(old(dice)@),
    ensures
        final(dice)@.len() == old(dice)@.len(),
        dice_ok(final(dice)@),
        dice_view(final(dice)@) == keep_or_drop(dice_view(old(dice)@), Modifier::KeepLowest(n)),
{
    let active = count_active(dice);
    if n as usize >= active {
        return ;
    }
    drop_ranked(dice, active - n as usize, false);
}

/// Drops the `n` highest counted dice.
fn apply_drop_highest(dice: &mut Vec<DieResult>, n: u32)
    requires
        dice_ok(old(dice)@),
    ensures
        final(dice)@.len() == old(dice)@.len(),
        dice_ok(final(dice)@),
        dice_view(final(dice)@) == keep_or_drop(dice_view(old(dice)@), Modifier::DropHighest(n)),
{
    drop_ranked(dice, n as usize, false);
}

/// Drops the `n` lowest counted dice.
fn apply_drop_lowest(dice: &mut Vec<DieResult>, n: u32)
    requires
        dice_ok(old(dice)@),
    ensures
        final(dice)@.len() == old(dice)@.len(),
        dice_ok(final(dice)@),
        dice_view(final(dice)@) == keep_or_drop(dice_view(old(dice)@), Modifier::DropLowest(n)),
{
    drop_ranked(dice, n as usize, true);
}

proof fn lemma_rerolls_fail<R: Rng>(
    dice: Seq<DieModel>,
    mods: Seq<Modifier>,
    i: nat,
    n: nat,
    sides: Sides,
    g: R,
)
    requires
        i <= n,
        apply_rerolls(dice, mods, i, sides, g) is Err,
    ensures
        apply_rerolls(dice, mods, n, sides, g) == apply_rerolls(dice, mods, i, sides, g),
    decreases n - i,
{
    if i < n {
        lemma_rerolls_fail(dice, mods, i, (n - 1) as nat, sides, g);
    }
}

proof fn lemma_explodes_fail<R: Rng>(
    dice: Seq<DieModel>,
    mods: Seq<Modifier>,
    i: nat,
    n: nat,
    sides: Sides,
    g: R,
)
    requires
        i <= n,
        apply_explodes(dice, mods, i, sides, g) is Err,
    ensures
        apply_explodes(dice, mods, n, sides, g) == apply_explodes(dice, mods, i, sides, g),
    decreases n - i,
{
    if i < n {
        lemma_explodes_fail(dice, mods, i, (n - 1) as nat, sides, g);
    }
}

/// The total of a roll, or `Overflow` where it leaves the 64-bit range.
fn total_of(dice: &Vec<DieResult>, success: Option<Condition>) -> (r: Result<i64, Error>)
    requires
        dice@.len() <= u32::MAX,
    ensures
        fits_i64(roll_total(dice_view(dice@), success)) ==> r == Ok::<i64, Error>(
            roll_total(dice_view(dice@), success) as i64,
        ),
        !fits_i64(roll_total(dice_view(dice@), success)) ==> r is Err && r->Err_0@
            == Fault::Overflow,
{
    let ghost view = dice_view(dice@);
    match success {
        Some(c) => {
            let mut count: usize = 0;
            let mut i: usize = 0;
            while i < dice.len()
                invariant
                    view == dice_view(dice@),
                    i <= dice@.len(),
                    count <= i,
                    count == hits(view, i as int, c),
                decreases dice@.len() - i,
            {
                if !dice[i].dropped && c.compare.check(dice[i].value, c.value) {
                    count = count + 1;
                }
                i = i + 1;
            }
            Ok(count as i64)
        },
        None => {
            let mut sum: i128 = 0;
            let mut i: usize = 0;
            while i < dice.len()
                invariant
                    view == dice_view(dice@),
                    dice@.len() <= u32::MAX,
                    i <= dice@.len(),
                    -(i as int) * 0x8000_0000_0000_0000 <= sum <= (i as int)
                        * 0x8000_0000_0000_0000,
                    sum == sum_active(view, i as int),
                decreases dice@.len() - i,
            {
                if !dice[i].dropped {
                    sum = sum + dice[i].value as i128;
                }
                i = i + 1;
            }
            if sum < i64::MIN as i128 || sum > i64::MAX as i128 {
                Err(Error::Overflow)
            } else {
                Ok(sum as i64)
            }
        },
    }
}

/// The trace of a roll.
fn format_roll(roll: &Roll, dice: &Vec<DieResult>, total: i64, success: Option<Condition>) -> (r:
    String)
    ensures
        r@ == roll_trace(roll.model(), dice_view(dice@), total as int, success),
{
    let ghost view = dice_view(dice@);
    let mut buf: Vec<char> = Vec::new();
    push_decimal(&mut buf, roll.count as i64);
    push_str(&mut buf, "d");
    match roll.sides {
        Sides::Number(n) => push_decimal(&mut buf, n as i64),
        Sides::Percent => push_str(&mut buf, "%"),
        Sides::Fudge => push_str(&mut buf, "F"),
    }
    push_modifiers(&mut buf, &roll.modifiers);
    push_str(&mut buf, "[");
    let ghost head = buf@;
    assert(head =~= decimal_text(roll.count as int) + "d"@ + sides_text(roll.sides) + modifiers_text(
        roll.modifiers@,
        roll.modifiers@.len(),
    ) + "["@);
    let mut i: usize = 0;
    while i < dice.len()
        invariant
            view == dice_view(dice@),
            i <= dice@.len(),
            buf@ == head + dice_text(view, i as nat, success),
        decreases dice@.len() - i,
    {
        if i > 0 {
            push_str(&mut buf, ", ");
        }
        push_die(&mut buf, dice[i].value, dice[i].dropped, success);
        i = i + 1;
        assert(buf@ =~= head + dice_text(view, i as nat, success));
    }
    push_str(&mut buf, "] = ");
    push_decimal(&mut buf, total);
    match success {
        Some(_) => {
            if total == 1 {
                push_str(&mut buf, " success");
            } else {
                push_str(&mut buf, " successes");
            }
        },
        None => {},
    }
    assert(buf@ =~= roll_trace(roll.model(), view, total as int, success));
    string_of(&buf)
}

/// Evaluates one roll: rolls the dice, applies every reroll, then every
/// explosion, then every keep and drop, and counts or sums.
fn evaluate_roll<R: Rng>(roll: &Roll, rng: &mut R) -> (r: Result<RollResult, Error>)
    ensures
        match roll_model(roll.model(), *old(rng)) {
            Ok((o, g)) => r is Ok && r->Ok_0@ == o && *final(rng) == g,
            Err(f) => r is Err && r->Err_0@ == f,
        },
{
    let sides = roll.sides;
    if sides.count() == 0 {
        return Err(Error::InvalidDiceSides(0));
    }
    let ghost mods = roll.modifiers@;
    let ghost g_start = *rng;
    let mut dice = roll_fresh(sides, roll.count, rng);
    let ghost d0 = dice_view(dice@);
    let ghost g0 = *rng;
    let n = roll.modifiers.len();
    let mut m: usize = 0;
    while m < n
        invariant
            n == mods.len(),
            mods == roll.modifiers@,
            sides == roll.sides,
            sides.faces() >= 1,
            m <= n,
            dice@.len() == roll.count,
            dice_ok(dice@),
            (d0, g0) == fresh_dice(sides, roll.count as nat, *old(rng)),
            apply_rerolls(d0, mods, m as nat, sides, g0) == Ok::<_, Fault>(
                (dice_view(dice@), *rng),
            ),
        decreases n - m,
    {
        match roll.modifiers[m] {
            Modifier::Reroll { once, condition } => {
                match apply_reroll(&mut dice, sides, once, condition, rng) {
                    Ok(()) => {},
                    Err(e) => {
                        proof {
                            lemma_rerolls_fail(d0, mods, (m + 1) as nat, n as nat, sides, g0);
                        }
                        return Err(e);
                    },
                }
            },
            _ => {},
        }
        m = m + 1;
    }
    let ghost d1 = dice_view(dice@);
    let ghost g1 = *rng;
    let mut m: usize = 0;
    while m < n
        invariant
            n == mods.len(),
            mods == roll.modifiers@,
            sides == roll.sides,
            sides.faces() >= 1,
            m <= n,
            dice@.len() == roll.count,
            dice_ok(dice@),
            (d0, g0) == fresh_dice(sides, roll.count as nat, *old(rng)),
            apply_rerolls(d0, mods, n as nat, sides, g0) == Ok::<_, Fault>((d1, g1)),
            apply_explodes(d1, mods, m as nat, sides, g1) == Ok::<_, Fault>(
                (dice_view(dice@), *rng),
            ),
        decreases n - m,
    {
        match roll.modifiers[m] {
            Modifier::Explode { penetrating, condition } => {
                match apply_explode(&mut dice, sides, penetrating, condition, rng) {
                    Ok(()) => {},
                    Err(e) => {
                        proof {
                            lemma_explodes_fail(d1, mods, (m + 1) as nat, n as nat, sides, g1);
                        }
                        return Err(e);
                    },
                }
            },
            _ => {},
        }
        m = m + 1;
    }
    let ghost d2 = dice_view(dice@);
    let mut m: usize = 0;
    let mut success: Option<Condition> = None;
    while m < n
        invariant
            n == mods.len(),
            mods == roll.modifiers@,
            m <= n,
            dice@.len() == roll.count,
            dice_ok(dice@),
            apply_keeps(d2, mods, m as nat) == dice_view(dice@),
            success == success_condition(mods, m as nat),
        decreases n - m,
    {
        match roll.modifiers[m] {
            Modifier::KeepHighest(k) => apply_keep_highest(&mut dice, k),
            Modifier::KeepLowest(k) => apply_keep_lowest(&mut dice, k),
            Modifier::DropHighest(k) => apply_drop_highest(&mut dice, k),
            Modifier::DropLowest(k) => apply_drop_lowest(&mut dice, k),
            Modifier::CountSuccesses(c) => {
                success = Some(c);
            },
            _ => {},
        }
        m = m + 1;
    }
    let total = match total_of(&dice, success) {
        Ok(t) => t,
        Err(e) => return Err(e),
    };
    let expression = format_roll(roll, &dice, total, success);
    Ok(RollResult { total, dice, expression })
}

/// Combines two totals.
fn combine_totals(op: Op, a: i64, b: i64) -> (r: Result<i64, Error>)
    ensures
        match combine(op, a as int, b as int) {
            Ok(v) => r == Ok::<i64, Error>(v as i64),
            Err(f) => r is Err && r->Err_0@ == f,
        },
{
    let v = match op {
        Op::Add => a.checked_add(b),
        Op::Sub => a.checked_sub(b),
        Op::Mul => a.checked_mul(b),
        Op::Div => {
            if b == 0 {
                return Err(Error::DivisionByZero);
            }
            a.checked_div(b)
        },
    };
    match v {
        Some(v) => Ok(v),
        None => Err(Error::Overflow),
    }
}

fn eval_expr<R: Rng>(expr: &Expr, rng: &mut R) -> (r: Result<RollResult, Error>)
    ensures
        match eval_model(expr.model(), *old(rng)) {
            Ok((o, g)) => r is Ok && r->Ok_0@ == o && *final(rng) == g,
            Err(f) => r is Err && r->Err_0@ == f,
        },
    decreases expr,
{
    match expr {
        Expr::Number(n) => {
            let r = RollResult { total: *n, dice: Vec::new(), expression: decimal_string(*n) };
            assert(r@.dice =~= Seq::<DieModel>::empty());
            Ok(r)
        },
        Expr::Roll(roll) => evaluate_roll(roll, rng),
        Expr::BinOp { op, left, right } => {
            let l = match eval_expr(left, rng) {
                Ok(x) => x,
                Err(e) => return Err(e),
            };
            let rr = match eval_expr(right, rng) {
                Ok(x) => x,
                Err(e) => return Err(e),
            };
            let total = match combine_totals(*op, l.total, rr.total) {
                Ok(t) => t,
                Err(e) => return Err(e),
            };
            let mut s = l.expression;
            s.append(" ");
            s.append(op_str(*op));
            s.append(" ");
            s.append(rr.expression.as_str());
            s.append(" = ");
            let t = decimal_string(total);
            s.append(t.as_str());
            let r = RollResult { total, dice: Vec::new(), expression: s };
            assert(r@.dice =~= Seq::<DieModel>::empty());
            Ok(r)
        },
        Expr::Group(inner) => {
            let res = match eval_expr(inner, rng) {
                Ok(x) => x,
                Err(e) => return Err(e),
            };
            let mut s = String::from_str("(");
            s.append(res.expression.as_str());
            s.append(")");
            Ok(RollResult { total: res.total, dice: res.dice, expression: s })
        },
    }
}

/// Evaluates an expression, rolling with `rng`.
pub fn evaluate_with_rng<R: Rng>(expr: &Expr, rng: &mut R) -> (r: Result<RollResult, Error>)
    ensures
        match eval_model(expr.model(), *old(rng)) {
            Ok((o, g)) => r is Ok && r->Ok_0@ == o && *final(rng) == g,
            Err(f) => r is Err && r->Err_0@ == f,
        },
{
    eval_expr(expr, rng)
}

/// Evaluates an expression with a freshly seeded default random source.
pub fn evaluate(expr: &Expr) -> (r: Result<RollResult, Error>)
    ensures
        exists|g: FastRng|
            match #[trigger] eval_model(expr.model(), g) {
                Ok((o, _)) => r is Ok && r->Ok_0@ == o,
                Err(f) => r is Err && r->Err_0@ == f,
            },
{
    let mut rng = FastRng::new();
    let ghost g = rng;
    let r = evaluate_with_rng(expr, &mut rng);
    assert(match eval_model(expr.model(), g) {
        Ok((o, _)) => r is Ok && r->Ok_0@ == o,
        Err(f) => r is Err && r->Err_0@ == f,
    });
    r
}

} // verus!
