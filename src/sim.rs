//! Monte Carlo simulation: one parse, many evaluations, and a distribution of
//! the totals with streaming statistics.
use vstd::prelude::*;
use std::collections::HashMap;
use crate::ast::{Expr, ExprModel};
use crate::error::{Error, Fault};
use crate::grammar::parse_text;
use crate::parser::parse;
use crate::roller::{evaluate_with_rng, FastRng, Rng};
use crate::semantics::eval_model;

verus! {

broadcast use vstd::std_specs::hash::group_hash_axioms;

/// The sum of `ts`.
pub open spec fn sum_of(ts: Seq<int>) -> int
    decreases ts.len(),
{
    if ts.len() == 0 {
        0
    } else {
        sum_of(ts.drop_last()) + ts.last()
    }
}

/// The sum of the squares of `ts`.
pub open spec fn sum_sq_of(ts: Seq<int>) -> int
    decreases ts.len(),
{
    if ts.len() == 0 {
        0
    } else {
        sum_sq_of(ts.drop_last()) + ts.last() * ts.last()
    }
}

/// The least of `ts`, which is not empty.
pub open spec fn min_of(ts: Seq<int>) -> int
    decreases ts.len(),
{
    if ts.len() <= 1 {
        ts[0]
    } else if ts.last() < min_of(ts.drop_last()) {
        ts.last()
    } else {
        min_of(ts.drop_last())
    }
}

/// The greatest of `ts`, which is not empty.
pub open spec fn max_of(ts: Seq<int>) -> int
    decreases ts.len(),
{
    if ts.len() <= 1 {
        ts[0]
    } else if ts.last() > max_of(ts.drop_last()) {
        ts.last()
    } else {
        max_of(ts.drop_last())
    }
}

/// How often `v` occurs in `ts`.
pub open spec fn occurrences(ts: Seq<int>, v: int) -> nat
    decreases ts.len(),
{
    if ts.len() == 0 {
        0
    } else {
        occurrences(ts.drop_last(), v) + if ts.last() == v {
            1nat
        } else {
            0nat
        }
    }
}

/// The totals of `n` trials of `e`, one after the other from `g`; a sum of
/// squares beyond the 128-bit range stops the run.
pub open spec fn trials<R: Rng>(e: ExprModel, n: nat, g: R) -> Result<(Seq<int>, R), Fault>
    decreases n,
{
    if n == 0 {
        Ok((Seq::empty(), g))
    } else {
        match trials(e, (n - 1) as nat, g) {
            Err(f) => Err(f),
            Ok((ts, g1)) => match eval_model(e, g1) {
                Err(f) => Err(f),
                Ok((o, g2)) => if sum_sq_of(ts.push(o.total)) > i128::MAX {
                    Err(Fault::Overflow)
                } else {
                    Ok((ts.push(o.total), g2))
                },
            },
        }
    }
}

/// The totals of `n` trials of the text `s`, from `g`.
pub open spec fn simulation<R: Rng>(s: Seq<char>, n: nat, g: R) -> Result<Seq<int>, Fault> {
    match parse_text(s) {
        Err(f) => Err(f),
        Ok(e) => match trials(e, n, g) {
            Err(f) => Err(f),
            Ok((ts, _)) => Ok(ts),
        },
    }
}

/// The sum of the counts of `keys` in `m`.
pub open spec fn counts_total(m: Map<i64, usize>, keys: Seq<i64>) -> int
    decreases keys.len(),
{
    if keys.len() == 0 {
        0
    } else {
        counts_total(m, keys.drop_last()) + m[keys.last()]
    }
}

pub open spec fn strictly_ascending(keys: Seq<i64>) -> bool {
    forall|i: int, j: int| 0 <= i < j < keys.len() ==> keys[i] < keys[j]
}

/// The result of a simulation.
#[derive(Debug, Clone)]
pub struct SimResult {
    /// How often each total came out.
    pub distribution: HashMap<i64, usize>,
    /// The least total.
    pub min: i64,
    /// The greatest total.
    pub max: i64,
    /// The sum of the totals; the mean is `sum / n`.
    pub sum: i128,
    /// The sum of the squares of the totals; the variance is
    /// `sum_sq / n - (sum / n)^2`.
    pub sum_sq: i128,
    /// The number of trials.
    pub n: usize,
    /// The totals that came out, each once, in ascending order.
    pub outcomes: Vec<i64>,
}

impl SimResult {
    /// The distribution lists each total that came out once, in ascending
    /// order, with a positive count; the counts add up to `n`; every total
    /// lies between `min` and `max`.
    pub open spec fn wf(&self) -> bool {
        let m = self.distribution@;
        let keys = self.outcomes@;
        &&& strictly_ascending(keys)
        &&& forall|k: i64| m.contains_key(k) <==> keys.contains(k)
        &&& forall|k: i64| #[trigger] m.contains_key(k) ==> m[k] >= 1
        &&& forall|k: i64| #[trigger] m.contains_key(k) ==> self.min <= k <= self.max
        &&& counts_total(m, keys) == self.n
    }

    /// This result summarises the totals `ts`.
    pub open spec fn summarizes(&self, ts: Seq<int>) -> bool {
        let m = self.distribution@;
        &&& self.n == ts.len()
        &&& forall|k: i64| #[trigger] m.contains_key(k) <==> ts.contains(k as int)
        &&& forall|k: i64| #[trigger] m.contains_key(k) ==> m[k] == occurrences(ts, k as int)
        &&& self.min == min_of(ts)
        &&& self.max == max_of(ts)
        &&& self.sum == sum_of(ts)
        &&& self.sum_sq == sum_sq_of(ts)
    }
}

/// The total of rank `r` (from zero) among the totals counted from key index
/// `i` on.
pub open spec fn value_at_rank(m: Map<i64, usize>, keys: Seq<i64>, r: int, i: int) -> i64
    decreases keys.len() - i,
{
    if i >= keys.len() - 1 || i < 0 {
        keys.last()
    } else if r < m[keys[i]] {
        keys[i]
    } else {
        value_at_rank(m, keys, r - m[keys[i]], i + 1)
    }
}

impl SimResult {
    /// The totals that came out, in ascending order, with their counts.
    pub fn sorted_outcomes(&self) -> (r: Vec<(i64, usize)>)
        requires
            self.wf(),
        ensures
            r@.len() == self.outcomes@.len(),
            forall|i: int|
                0 <= i < r@.len() ==> #[trigger] r@[i] == (
                    self.outcomes@[i],
                    self.distribution@[self.outcomes@[i]],
                ),
    {
        let mut out: Vec<(i64, usize)> = Vec::new();
        let mut i: usize = 0;
        while i < self.outcomes.len()
            invariant
                self.wf(),
                i <= self.outcomes@.len(),
                out@.len() == i,
                forall|j: int|
                    0 <= j < i ==> #[trigger] out@[j] == (
                        self.outcomes@[j],
                        self.distribution@[self.outcomes@[j]],
                    ),
            decreases self.outcomes@.len() - i,
        {
            let k = self.outcomes[i];
            assert(self.outcomes@.contains(k));
            let c = match self.distribution.get(&k) {
                Some(c) => *c,
                None => 0,
            };
            out.push((k, c));
            i = i + 1;
        }
        out
    }

    /// The most common total; among equally common ones, the least.
    pub fn mode(&self) -> (r: Option<i64>)
        requires
            self.wf(),
        ensures
            r is None <==> self.outcomes@.len() == 0,
            r matches Some(k) ==> self.distribution@.contains_key(k) && forall|j: i64|
                #[trigger] self.distribution@.contains_key(j) ==> self.distribution@[j]
                    <= self.distribution@[k],
    {
        if self.outcomes.len() == 0 {
            return None;
        }
        let mut best: i64 = self.outcomes[0];
        assert(self.outcomes@.contains(best));
        let mut best_count: usize = match self.distribution.get(&best) {
            Some(c) => *c,
            None => 0,
        };
        let mut i: usize = 1;
        while i < self.outcomes.len()
            invariant
                self.wf(),
                1 <= i <= self.outcomes@.len(),
                self.distribution@.contains_key(best),
                best_count == self.distribution@[best],
                forall|j: int|
                    0 <= j < i ==> self.distribution@[#[trigger] self.outcomes@[j]] <= best_count,
            decreases self.outcomes@.len() - i,
        {
            let k = self.outcomes[i];
            assert(self.outcomes@.contains(k));
            let c = match self.distribution.get(&k) {
                Some(c) => *c,
                None => 0,
            };
            if c > best_count {
                best = k;
                best_count = c;
            }
            i = i + 1;
        }
        assert forall|j: i64| #[trigger]
            self.distribution@.contains_key(j) implies self.distribution@[j] <= self.distribution@[best] by {
            assert(self.outcomes@.contains(j));
            let q = self.outcomes@.index_of(j);
            assert(self.distribution@[self.outcomes@[q]] <= best_count);
        }
        Some(best)
    }

    /// The two middle totals of the sorted sample: equal when `n` is odd; the
    /// median is their mean.
    pub fn median_pair(&self) -> (r: (i64, i64))
        requires
            self.wf(),
            self.n >= 1,
        ensures
            r.0 == value_at_rank(
                self.distribution@,
                self.outcomes@,
                (self.n as int - 1) / 2,
                0,
            ),
            r.1 == value_at_rank(self.distribution@, self.outcomes@, self.n as int / 2, 0),
    {
        proof {
            if self.outcomes@.len() == 0 {
                assert(counts_total(self.distribution@, self.outcomes@) == 0);
            }
        }
        let lo = self.value_at((self.n - 1) / 2);
        let hi = self.value_at(self.n / 2);
        (lo, hi)
    }

    /// The total of rank `r` (from zero) in the sorted sample.
    fn value_at(&self, r: usize) -> (v: i64)
        requires
            self.wf(),
            self.outcomes@.len() >= 1,
        ensures
            v == value_at_rank(self.distribution@, self.outcomes@, r as int, 0),
    {
        let m = Ghost(self.distribution@);
        let keys = Ghost(self.outcomes@);
        let mut rest: usize = r;
        let mut i: usize = 0;
        while i < self.outcomes.len() - 1
            invariant
                self.wf(),
                m@ == self.distribution@,
                keys@ == self.outcomes@,
                i < self.outcomes@.len(),
                value_at_rank(m@, keys@, rest as int, i as int) == value_at_rank(
                    m@,
                    keys@,
                    r as int,
                    0,
                ),
            decreases self.outcomes@.len() - i,
        {
            let k = self.outcomes[i];
            assert(self.outcomes@.contains(k));
            let c = match self.distribution.get(&k) {
                Some(c) => *c,
                None => 0,
            };
            if rest < c {
                return k;
            }
            rest = rest - c;
            i = i + 1;
        }
        self.outcomes[self.outcomes.len() - 1]
    }
}

proof fn lemma_counts_concat(m: Map<i64, usize>, a: Seq<i64>, b: Seq<i64>)
    ensures
        counts_total(m, a + b) == counts_total(m, a) + counts_total(m, b),
    decreases b.len(),
{
    if b.len() > 0 {
        lemma_counts_concat(m, a, b.drop_last());
        assert((a + b).drop_last() =~= a + b.drop_last());
    } else {
        assert(a + b =~= a);
    }
}

proof fn lemma_counts_agree(m1: Map<i64, usize>, m2: Map<i64, usize>, keys: Seq<i64>)
    requires
        forall|i: int| 0 <= i < keys.len() ==> m1[keys[i]] == m2[keys[i]],
    ensures
        counts_total(m1, keys) == counts_total(m2, keys),
    decreases keys.len(),
{
    if keys.len() > 0 {
        lemma_counts_agree(m1, m2, keys.drop_last());
    }
}

/// Inserting a new key with count one adds one to the total.
proof fn lemma_counts_new_key(m: Map<i64, usize>, keys: Seq<i64>, p: int, k: i64)
    requires
        0 <= p <= keys.len(),
        !keys.contains(k),
    ensures
        counts_total(m.insert(k, 1), keys.insert(p, k)) == counts_total(m, keys) + 1,
{
    let m2 = m.insert(k, 1);
    let a = keys.subrange(0, p);
    let b = keys.subrange(p, keys.len() as int);
    assert(keys.insert(p, k) =~= a + seq![k] + b);
    assert(keys =~= a + b);
    lemma_counts_concat(m2, a + seq![k], b);
    lemma_counts_concat(m2, a, seq![k]);
    lemma_counts_concat(m, a, b);
    assert forall|i: int| 0 <= i < a.len() implies m2[a[i]] == m[a[i]] by {
        assert(keys[i] == a[i]);
    }
    assert forall|i: int| 0 <= i < b.len() implies m2[b[i]] == m[b[i]] by {
        assert(keys[p + i] == b[i]);
    }
    lemma_counts_agree(m2, m, a);
    lemma_counts_agree(m2, m, b);
    assert(counts_total(m2, seq![k]) == 1) by {
        assert(seq![k].drop_last() =~= Seq::<i64>::empty());
        assert(seq![k].last() == k);
        assert(counts_total(m2, Seq::<i64>::empty()) == 0);
    }
}

/// Raising the count of a key that occurs once adds the difference.
proof fn lemma_counts_bump(m: Map<i64, usize>, keys: Seq<i64>, q: int, v: usize)
    requires
        0 <= q < keys.len(),
        strictly_ascending(keys),
    ensures
        counts_total(m.insert(keys[q], v), keys) == counts_total(m, keys) - m[keys[q]] + v,
{
    let k = keys[q];
    let m2 = m.insert(k, v);
    let a = keys.subrange(0, q);
    let b = keys.subrange(q + 1, keys.len() as int);
    assert(keys =~= a + seq![k] + b);
    lemma_counts_concat(m2, a + seq![k], b);
    lemma_counts_concat(m2, a, seq![k]);
    lemma_counts_concat(m, a + seq![k], b);
    lemma_counts_concat(m, a, seq![k]);
    assert forall|i: int| 0 <= i < a.len() implies m2[a[i]] == m[a[i]] by {
        assert(keys[i] == a[i]);
        assert(keys[i] < keys[q]);
    }
    assert forall|i: int| 0 <= i < b.len() implies m2[b[i]] == m[b[i]] by {
        assert(keys[q + 1 + i] == b[i]);
        assert(keys[q] < keys[q + 1 + i]);
    }
    lemma_counts_agree(m2, m, a);
    lemma_counts_agree(m2, m, b);
    assert(seq![k].drop_last() =~= Seq::<i64>::empty());
    assert(seq![k].last() == k);
    assert(counts_total(m2, Seq::<i64>::empty()) == 0);
    assert(counts_total(m, Seq::<i64>::empty()) == 0);
    assert(counts_total(m2, seq![k]) == v);
    assert(counts_total(m, seq![k]) == m[k]);
}

proof fn lemma_occurrences_absent(ts: Seq<int>, v: int)
    requires
        !ts.contains(v),
    ensures
        occurrences(ts, v) == 0,
    decreases ts.len(),
{
    if ts.len() > 0 {
        assert(ts.drop_last().contains(v) ==> ts.contains(v)) by {
            if ts.drop_last().contains(v) {
                let j = ts.drop_last().index_of(v);
                assert(ts[j] == v);
            }
        }
        assert(ts[ts.len() - 1] != v);
        lemma_occurrences_absent(ts.drop_last(), v);
    }
}

/// A run of `n` trials that succeeds has `n` totals.
pub proof fn lemma_trials_len<R: Rng>(e: ExprModel, n: nat, g: R)
    ensures
        trials(e, n, g) matches Ok((ts, _)) ==> ts.len() == n,
    decreases n,
{
    if n > 0 {
        lemma_trials_len(e, (n - 1) as nat, g);
    }
}

proof fn lemma_trials_fail<R: Rng>(e: ExprModel, i: nat, n: nat, g: R)
    requires
        i <= n,
        trials(e, i, g) is Err,
    ensures
        trials(e, n, g) == trials(e, i, g),
    decreases n - i,
{
    if i < n {
        lemma_trials_fail(e, i, (n - 1) as nat, g);
    }
}

/// The distribution and its ascending keys describe the totals `ts`, of
/// which there are `i`.
pub open spec fn describes(m: Map<i64, usize>, keys: Seq<i64>, ts: Seq<int>, i: nat) -> bool {
    &&& ts.len() == i
    &&& strictly_ascending(keys)
    &&& forall|k: i64| m.contains_key(k) <==> keys.contains(k)
    &&& forall|k: i64| #[trigger] m.contains_key(k) <==> ts.contains(k as int)
    &&& forall|k: i64| #[trigger] m.contains_key(k) ==> m[k] == occurrences(ts, k as int)
    &&& forall|k: i64| #[trigger] m.contains_key(k) ==> m[k] >= 1
    &&& forall|k: i64| #[trigger] m.contains_key(k) ==> m[k] <= i
    &&& counts_total(m, keys) == i
}

/// Counts one more total `t`.
fn record_total(
    distribution: &mut HashMap<i64, usize>,
    keys: &mut Vec<i64>,
    t: i64,
    ts: Ghost<Seq<int>>,
    i: Ghost<nat>,
)
    requires
        describes(old(distribution)@, old(keys)@, ts@, i@),
        i@ < usize::MAX,
    ensures
        describes(final(distribution)@, final(keys)@, ts@.push(t as int), i@ + 1),
        forall|k: i64|
            final(distribution)@.contains_key(k) <==> old(distribution)@.contains_key(k) || k == t,
{
    let ghost ts = ts@;
    let ghost i = i@;
    let ghost ts2 = ts.push(t as int);
    assert(ts2.drop_last() =~= ts);
    let ghost old_map = distribution@;
    let ghost old_keys = keys@;
    match distribution.get(&t) {
        Some(c) => {
            let c = *c;
            assert(old_keys.contains(t));
            let ghost q = old_keys.index_of(t);
            proof {
                lemma_counts_bump(old_map, old_keys, q, (c + 1) as usize);
            }
            distribution.insert(t, c + 1);
        },
        None => {
            let mut p: usize = 0;
            while p < keys.len() && keys[p] < t
                invariant
                    keys@ == old_keys,
                    p <= keys@.len(),
                    forall|j: int| 0 <= j < p ==> keys@[j] < t,
                decreases keys@.len() - p,
            {
                p = p + 1;
            }
            if p < keys.len() && keys[p] == t {
                assert(old_keys.contains(t));
            }
            proof {
                lemma_counts_new_key(old_map, old_keys, p as int, t);
            }
            keys.insert(p, t);
            distribution.insert(t, 1);
            assert forall|a: int, b: int| 0 <= a < b < keys@.len() implies keys@[a]
                < keys@[b] by {
                if b < p {
                } else if b == p {
                } else if a < p {
                } else if a == p {
                    assert(old_keys[p as int] > t);
                } else {
                }
            }
            assert forall|k: i64| distribution@.contains_key(k) <==> keys@.contains(k) by {
                if k == t {
                    assert(keys@[p as int] == t);
                } else if old_keys.contains(k) {
                    let j = old_keys.index_of(k);
                    if j < p {
                        assert(keys@[j] == k);
                    } else {
                        assert(keys@[j + 1] == k);
                    }
                }
                if keys@.contains(k) {
                    let j = keys@.index_of(k);
                    if j < p {
                        assert(old_keys[j] == k);
                    } else if j > p {
                        assert(old_keys[j - 1] == k);
                    }
                }
            }
        },
    }
    assert forall|k: i64| #[trigger]
        distribution@.contains_key(k) <==> ts2.contains(k as int) by {
        if ts.contains(k as int) {
            let j = ts.index_of(k as int);
            assert(ts2[j] == k as int);
        }
        if k == t {
            assert(ts2[i as int] == k as int);
        }
        if ts2.contains(k as int) {
            let j = ts2.index_of(k as int);
            if j < i {
                assert(ts[j] == k as int);
            }
        }
    }
    assert forall|k: i64| #[trigger] distribution@.contains_key(k) implies distribution@[k]
        == occurrences(ts2, k as int) by {
        assert(occurrences(ts2, k as int) == occurrences(ts, k as int) + if t == k {
            1nat
        } else {
            0nat
        });
        if k == t && !old_map.contains_key(t) {
            lemma_occurrences_absent(ts, t as int);
        }
    }
}

/// Runs `n` trials of `e` with `rng` and summarises their totals.
fn run_trials<R: Rng>(e: &Expr, n: usize, rng: &mut R) -> (r: Result<SimResult, Error>)
    requires
        n >= 1,
    ensures
        match trials(e.model(), n as nat, *old(rng)) {
            Ok((ts, g)) => r is Ok && r->Ok_0.summarizes(ts) && r->Ok_0.wf() && *final(rng) == g,
            Err(f) => r is Err && r->Err_0@ == f,
        },
        r is Ok ==> r->Ok_0.n == n,
{
    let ghost model = e.model();
    let mut distribution: HashMap<i64, usize> = HashMap::new();
    let mut keys: Vec<i64> = Vec::new();
    let mut sum: i128 = 0;
    let mut sum_sq: i128 = 0;
    let mut min: i64 = i64::MAX;
    let mut max: i64 = i64::MIN;
    let ghost mut ts: Seq<int> = Seq::empty();
    let mut i: usize = 0;
    while i < n
        invariant
            model == e.model(),
            i <= n,
            ts.len() == i,
            trials(model, i as nat, *old(rng)) == Ok::<_, Fault>((ts, *rng)),
            -(i as int) * 0x8000_0000_0000_0000 <= sum <= (i as int) * 0x8000_0000_0000_0000,
            sum == sum_of(ts),
            sum_sq == sum_sq_of(ts),
            i > 0 ==> min == min_of(ts) && max == max_of(ts),
            i == 0 ==> min == i64::MAX && max == i64::MIN,
            describes(distribution@, keys@, ts, i as nat),
            forall|k: i64| #[trigger] distribution@.contains_key(k) ==> min <= k <= max,
        decreases n - i,
    {
        let result = match evaluate_with_rng(e, rng) {
            Ok(x) => x,
            Err(err) => {
                proof {
                    lemma_trials_fail(model, (i + 1) as nat, n as nat, *old(rng));
                }
                return Err(err);
            },
        };
        let t = result.total;
        let ghost ts2 = ts.push(t as int);
        assert(ts2.drop_last() =~= ts);
        assert(0 <= (t as int) * (t as int) <= 0x4000_0000_0000_0000_0000_0000_0000_0000) by (nonlinear_arith)
            requires
                -0x8000_0000_0000_0000 <= t <= 0x7fff_ffff_ffff_ffff,
        ;
        let sq = (t as i128) * (t as i128);
        sum_sq = match sum_sq.checked_add(sq) {
            Some(x) => x,
            None => {
                proof {
                    lemma_trials_fail(model, (i + 1) as nat, n as nat, *old(rng));
                }
                return Err(Error::Overflow);
            },
        };
        sum = sum + t as i128;
        assert(ts2.last() == t as int);
        assert(min_of(ts2) == if i == 0 || t < min_of(ts) {
            t as int
        } else {
            min_of(ts)
        });
        assert(max_of(ts2) == if i == 0 || t > max_of(ts) {
            t as int
        } else {
            max_of(ts)
        });
        if t < min {
            min = t;
        }
        if t > max {
            max = t;
        }
        record_total(&mut distribution, &mut keys, t, Ghost(ts), Ghost(i as nat));
        proof {
            ts = ts2;
        }
        i = i + 1;
    }
    Ok(SimResult { distribution, min, max, sum, sum_sq, n, outcomes: keys })
}

/// Simulations of the same text, trial count and seed agree: two results that
/// both summarise that run have the same distribution, extremes and sums, so
/// the same mean and standard deviation.
pub proof fn lemma_seeded_simulations_agree(
    s: Seq<char>,
    n: nat,
    seed: u64,
    a: SimResult,
    b: SimResult,
)
    requires
        simulation(s, n, FastRng::seeded(seed)) is Ok,
        a.summarizes(simulation(s, n, FastRng::seeded(seed))->Ok_0),
        b.summarizes(simulation(s, n, FastRng::seeded(seed))->Ok_0),
    ensures
        a.distribution@ == b.distribution@,
        a.min == b.min,
        a.max == b.max,
        a.sum == b.sum,
        a.sum_sq == b.sum_sq,
        a.n == b.n,
{
    let ts = simulation(s, n, FastRng::seeded(seed))->Ok_0;
    assert forall|k: i64| #[trigger] a.distribution@.contains_key(k) implies a.distribution@[k]
        == b.distribution@[k] by {
        assert(ts.contains(k as int));
        assert(b.distribution@.contains_key(k));
    }
    assert(a.distribution@ =~= b.distribution@);
}

/// Parses `expr` once and evaluates it `n` times with a generator seeded
/// from `seed`: the same arguments give the same result.
pub fn simulate_seeded(expr: &str, n: usize, seed: u64) -> (r: Result<SimResult, Error>)
    requires
        n >= 1,
    ensures
        match simulation(expr@, n as nat, FastRng::seeded(seed)) {
            Ok(ts) => r is Ok && r->Ok_0.summarizes(ts) && r->Ok_0.wf(),
            Err(f) => r is Err && r->Err_0@ == f,
        },
        r is Ok ==> r->Ok_0.n == n,
{
    let parsed = match parse(expr) {
        Ok(e) => e,
        Err(e) => return Err(e),
    };
    let mut rng = FastRng::with_seed(seed);
    run_trials(&parsed, n, &mut rng)
}

/// Parses `expr` once and evaluates it `n` times with a generator in a
/// random state.
pub fn simulate(expr: &str, n: usize) -> (r: Result<SimResult, Error>)
    requires
        n >= 1,
    ensures
        exists|g: FastRng|
            match #[trigger] simulation(expr@, n as nat, g) {
                Ok(ts) => r is Ok && r->Ok_0.summarizes(ts) && r->Ok_0.wf(),
                Err(f) => r is Err && r->Err_0@ == f,
            },
        r is Ok ==> r->Ok_0.n == n,
{
    let parsed = match parse(expr) {
        Ok(e) => e,
        Err(e) => return Err(e),
    };
    let mut rng = FastRng::new();
    let ghost g = rng;
    let r = run_trials(&parsed, n, &mut rng);
    assert(match simulation(expr@, n as nat, g) {
        Ok(ts) => r is Ok && r->Ok_0.summarizes(ts) && r->Ok_0.wf(),
        Err(f) => r is Err && r->Err_0@ == f,
    });
    r
}

} // verus!
