//! The guess search.
//!
//! A trial evaluates one exponent assignment over the candidate primes: the
//! assignment's prime-power product is compared with the target, an exact
//! match ends the search, and otherwise the smallest distance seen so far is
//! kept.  Trial `i` evaluates the digits of `i` in the mixed-radix system
//! whose radix at each prime is one more than the largest exponent whose
//! power still fits below the target, so successive trials enumerate the
//! bounded exponent assignments instead of re-evaluating one guess.

use vstd::prelude::*;

verus! {

use crate::big::Big;
use crate::big::abs_diff;
use crate::big::npow;
use crate::big::lemma_npow_unfold_right;
use crate::big::lemma_npow_increases;

/// The smaller of two naturals.
pub open spec fn nat_min(a: nat, b: nat) -> nat {
    if a <= b {
        a
    } else {
        b
    }
}

/// Product of the first `k` prime powers of an exponent assignment.
pub open spec fn product_prefix(primes: Seq<u64>, exps: Seq<u64>, k: int) -> nat
    decreases k,
{
    if k <= 0 {
        1
    } else {
        product_prefix(primes, exps, k - 1) * npow(primes[k - 1] as nat, exps[k - 1] as nat)
    }
}

/// The multiplicative fold over an exponent assignment: every prime raised
/// to its exponent, with identity 1.
pub open spec fn product_of(primes: Seq<u64>, exps: Seq<u64>) -> nat {
    product_prefix(primes, exps, primes.len() as int)
}

proof fn lemma_product_prefix_all_zero(primes: Seq<u64>, exps: Seq<u64>, k: int)
    requires
        forall|i: int| 0 <= i < exps.len() ==> exps[i] == 0,
        k <= exps.len(),
    ensures
        product_prefix(primes, exps, k) == 1,
    decreases k,
{
    if k > 0 {
        lemma_product_prefix_all_zero(primes, exps, k - 1);
        assert(exps[k - 1] == 0);
        assert(npow(primes[k - 1] as nat, exps[k - 1] as nat) == 1);
    }
}

/// The multiplicative fold over an all-zero exponent assignment is exactly
/// the multiplicative identity.
pub proof fn lemma_product_all_zero(primes: Seq<u64>, exps: Seq<u64>)
    requires
        primes.len() == exps.len(),
        forall|i: int| 0 <= i < exps.len() ==> exps[i] == 0,
    ensures
        product_of(primes, exps) == 1,
{
    lemma_product_prefix_all_zero(primes, exps, primes.len() as int);
}

/// One complete hypothesis: an exponent for every candidate prime.
pub struct GuessState {
    pub primes: Vec<u64>,
    pub exps: Vec<u64>,
}

impl GuessState {
    /// One exponent per candidate prime.
    pub open spec fn wf(self) -> bool {
        self.primes@.len() == self.exps@.len()
    }

    /// The value this hypothesis multiplies out to.
    pub open spec fn product(self) -> nat {
        product_of(self.primes@, self.exps@)
    }

    /// The all-zero hypothesis over the given candidates.
    pub fn new_zero(primes: &Vec<u64>) -> (g: GuessState)
        ensures
            g.wf(),
            g.primes@ == primes@,
            g.exps@.len() == primes@.len(),
            forall|i: int| 0 <= i < g.exps@.len() ==> g.exps@[i] == 0,
    {
        let mut exps: Vec<u64> = Vec::new();
        let mut i: usize = 0;
        while i < primes.len()
            invariant
                i <= primes@.len(),
                exps@.len() == i,
                forall|j: int| 0 <= j < exps@.len() ==> exps@[j] == 0,
            decreases primes@.len() - i,
        {
            exps.push(0);
            i = i + 1;
        }
        GuessState { primes: copy_u64_vec(primes), exps }
    }

    /// Multiplies out the hypothesis in arbitrary precision.
    pub fn compute_product(&self) -> (r: Big)
        requires
            self.wf(),
        ensures
            r.wf(),
            r.val() == self.product(),
    {
        let mut acc = Big::from_u64(1);
        let mut i: usize = 0;
        while i < self.primes.len()
            invariant
                i <= self.primes@.len(),
                self.primes@.len() == self.exps@.len(),
                acc.wf(),
                acc.val() == product_prefix(self.primes@, self.exps@, i as int),
            decreases self.primes@.len() - i,
        {
            let factor = Big::pow(self.primes[i], self.exps[i]);
            acc = acc.mul(&factor);
            i = i + 1;
        }
        acc
    }
}

/// A copy of a machine-word vector.
fn copy_u64_vec(v: &Vec<u64>) -> (r: Vec<u64>)
    ensures
        r@ == v@,
{
    let mut out: Vec<u64> = Vec::new();
    let mut i: usize = 0;
    while i < v.len()
        invariant
            i <= v@.len(),
            out@ == v@.take(i as int),
        decreases v@.len() - i,
    {
        out.push(v[i]);
        proof {
            assert(out@ =~= v@.take(i + 1));
        }
        i = i + 1;
    }
    proof {
        assert(out@ =~= v@);
    }
    out
}

/// The exponent assignment trial `i` evaluates: the digits of `i` in the
/// mixed-radix system given by `radices`, least significant digit at the
/// first prime.
pub open spec fn guess_of(i: nat, radices: Seq<u64>) -> Seq<u64>
    decreases radices.len(),
{
    if radices.len() == 0 {
        Seq::empty()
    } else {
        seq![(i % (radices[0] as nat)) as u64] + guess_of(i / (radices[0] as nat), radices.skip(1))
    }
}

/// Computes the exponent assignment of one trial.
pub fn derive_guess(trial: u64, radices: &Vec<u64>) -> (r: Vec<u64>)
    requires
        forall|j: int| 0 <= j < radices@.len() ==> #[trigger] radices@[j] >= 1,
    ensures
        r@ == guess_of(trial as nat, radices@),
        r@.len() == radices@.len(),
{
    let mut out: Vec<u64> = Vec::new();
    let mut cur: u64 = trial;
    let mut j: usize = 0;
    proof {
        assert(radices@.skip(0) =~= radices@);
        assert(out@ + guess_of(trial as nat, radices@) =~= guess_of(trial as nat, radices@));
    }
    while j < radices.len()
        invariant
            j <= radices@.len(),
            out@.len() == j,
            forall|t: int| 0 <= t < radices@.len() ==> #[trigger] radices@[t] >= 1,
            guess_of(trial as nat, radices@) == out@ + guess_of(
                cur as nat,
                radices@.skip(j as int),
            ),
        decreases radices@.len() - j,
    {
        let ghost pre_out = out@;
        let ghost pre_cur = cur as nat;
        let rj = radices[j];
        let e = cur % rj;
        cur = cur / rj;
        out.push(e);
        proof {
            let tail = radices@.skip(j as int);
            assert(tail[0] == radices@[j as int]);
            assert(tail.skip(1) =~= radices@.skip(j as int + 1));
            assert(pre_out + guess_of(pre_cur, tail) =~= out@ + guess_of(
                cur as nat,
                radices@.skip(j as int + 1),
            ));
        }
        j = j + 1;
    }
    proof {
        assert(radices@.skip(radices@.len() as int) =~= Seq::<u64>::empty());
        assert(out@ + guess_of(cur as nat, Seq::<u64>::empty()) =~= out@);
    }
    out
}

/// The number of distinct exponent assignments the mixed-radix system
/// enumerates.
pub open spec fn radix_space(radices: Seq<u64>) -> nat
    decreases radices.len(),
{
    if radices.len() == 0 {
        1
    } else {
        (radices[0] * radix_space(radices.skip(1))) as nat
    }
}

/// The trial index whose mixed-radix digits are a given assignment.
pub open spec fn index_of_exps(exps: Seq<u64>, radices: Seq<u64>) -> nat
    decreases radices.len(),
{
    if radices.len() == 0 {
        0
    } else {
        (exps[0] + radices[0] * index_of_exps(exps.skip(1), radices.skip(1))) as nat
    }
}

/// Coverage of the assignment space: every exponent assignment bounded by
/// the radices is evaluated by some trial — the one whose index writes the
/// assignment as its mixed-radix digits — and that index lies within the
/// space's size.
pub proof fn lemma_guess_coverage(exps: Seq<u64>, radices: Seq<u64>)
    requires
        exps.len() == radices.len(),
        forall|j: int| 0 <= j < exps.len() ==> exps[j] < radices[j],
    ensures
        guess_of(index_of_exps(exps, radices), radices) == exps,
        index_of_exps(exps, radices) < radix_space(radices),
    decreases radices.len(),
{
    if radices.len() == 0 {
        assert(guess_of(0, radices) =~= exps);
    } else {
        let r0 = radices[0] as nat;
        let e0 = exps[0] as nat;
        let rest = index_of_exps(exps.skip(1), radices.skip(1));
        let i = index_of_exps(exps, radices);
        assert(forall|j: int|
            0 <= j < exps.skip(1).len() ==> #[trigger] exps.skip(1)[j] < radices.skip(1)[j]);
        lemma_guess_coverage(exps.skip(1), radices.skip(1));
        assert(i == e0 + r0 * rest);
        vstd::arithmetic::div_mod::lemma_fundamental_div_mod_converse(
            i as int,
            r0 as int,
            rest as int,
            e0 as int,
        );
        assert(guess_of(i, radices) == seq![(i % r0) as u64] + guess_of(i / r0, radices.skip(1)));
        assert(guess_of(i, radices) =~= exps);
        assert(e0 + r0 * rest < r0 * radix_space(radices.skip(1))) by (nonlinear_arith)
            requires
                e0 < r0,
                rest < radix_space(radices.skip(1)),
        ;
    }
}

/// `rad` is the exponent radix for prime `p` against target value `t`: one
/// more than the largest exponent whose power still fits below `t`,
/// saturated at the machine-word maximum.
pub open spec fn radix_ok(p: nat, t: nat, rad: u64) -> bool {
    &&& 1 <= rad
    &&& npow(p, (rad - 1) as nat) <= t
    &&& (rad < u64::MAX ==> npow(p, rad as nat) > t)
}

/// The largest exponent of `p` whose power is no greater than the target,
/// saturated at the machine-word maximum.
pub fn max_exponent(p: u64, target: &Big) -> (r: u64)
    requires
        p >= 2,
        target.wf(),
        target.val() >= 1,
    ensures
        npow(p as nat, r as nat) <= target.val(),
        r < u64::MAX ==> npow(p as nat, (r + 1) as nat) > target.val(),
{
    let p_big = Big::from_u64(p);
    let mut v = Big::from_u64(1);
    let mut e: u64 = 0;
    while e < u64::MAX
        invariant
            p_big.wf(),
            p_big.val() == p,
            target.wf(),
            v.wf(),
            v.val() == npow(p as nat, e as nat),
            v.val() <= target.val(),
        ensures
            npow(p as nat, e as nat) <= target.val(),
            e < u64::MAX ==> npow(p as nat, (e + 1) as nat) > target.val(),
        decreases u64::MAX - e,
    {
        let next = v.mul(&p_big);
        proof {
            lemma_npow_unfold_right(p as nat, e as nat);
        }
        if target.lt(&next) {
            break;
        }
        v = next;
        e = e + 1;
    }
    e
}

/// The exponent radix of every candidate prime against the target.
pub fn exponent_radices(primes: &Vec<u64>, target: &Big) -> (r: Vec<u64>)
    requires
        target.wf(),
        target.val() >= 1,
        forall|i: int| 0 <= i < primes@.len() ==> #[trigger] primes@[i] >= 2,
    ensures
        r@.len() == primes@.len(),
        forall|j: int|
            0 <= j < r@.len() ==> radix_ok(primes@[j] as nat, target.val(), #[trigger] r@[j]),
{
    let mut out: Vec<u64> = Vec::new();
    let mut j: usize = 0;
    while j < primes.len()
        invariant
            j <= primes@.len(),
            out@.len() == j,
            target.wf(),
            target.val() >= 1,
            forall|i: int| 0 <= i < primes@.len() ==> #[trigger] primes@[i] >= 2,
            forall|t: int|
                0 <= t < out@.len() ==> radix_ok(primes@[t] as nat, target.val(), #[trigger] out@[t]),
        decreases primes@.len() - j,
    {
        let me = max_exponent(primes[j], target);
        let rad = if me == u64::MAX {
            proof {
                lemma_npow_increases(primes@[j as int] as nat, (u64::MAX - 1) as nat, u64::MAX as nat);
            }
            u64::MAX
        } else {
            me + 1
        };
        out.push(rad);
        j = j + 1;
    }
    out
}

/// The one-way "found" signal: false until the first exact match is
/// recorded, and never cleared again — the type offers no way back.
pub struct FoundFlag {
    pub found: bool,
}

impl FoundFlag {
    pub fn new() -> (r: FoundFlag)
        ensures
            !r.found,
    {
        FoundFlag { found: false }
    }

    /// Records that an exact match was seen; idempotent.
    pub fn mark_found(&mut self)
        ensures
            final(self).found,
    {
        self.found = true;
    }

    pub fn is_found(&self) -> (r: bool)
        ensures
            r == self.found,
    {
        self.found
    }
}

/// The "best so far" record: the smallest distance to the target seen and
/// the hypothesis that produced it.
pub struct BestMatch {
    pub distance: Big,
    pub guess: GuessState,
}

impl BestMatch {
    pub open spec fn wf(self) -> bool {
        self.distance.wf() && self.guess.wf()
    }

    /// The starting record: the largest machine-word distance, paired with
    /// the all-zero hypothesis.
    pub fn init(primes: &Vec<u64>) -> (r: BestMatch)
        ensures
            r.wf(),
            r.distance.val() == u64::MAX,
            r.guess.primes@ == primes@,
            r.guess.exps@.len() == primes@.len(),
            forall|i: int| 0 <= i < r.guess.exps@.len() ==> r.guess.exps@[i] == 0,
    {
        BestMatch { distance: Big::from_u64(u64::MAX), guess: GuessState::new_zero(primes) }
    }

    /// Replaces the record exactly when the offered distance is strictly
    /// smaller, as one step: the recorded distance never increases.
    pub fn consider(&mut self, distance: Big, guess: GuessState) -> (updated: bool)
        requires
            old(self).wf(),
            distance.wf(),
            guess.wf(),
        ensures
            final(self).wf(),
            final(self).distance.val() == nat_min(old(self).distance.val(), distance.val()),
            updated == (distance.val() < old(self).distance.val()),
            updated ==> final(self).distance == distance && final(self).guess == guess,
            !updated ==> *final(self) == *old(self),
    {
        if distance.lt(&self.distance) {
            self.distance = distance;
            self.guess = guess;
            true
        } else {
            false
        }
    }
}

/// The outcome of a search: an exact factorization, or the closest
/// approximation seen, labeled as such.
pub enum SearchOutcome {
    Exact { guess: GuessState },
    Approx { distance: Big, guess: GuessState },
}

/// Drives a fixed number of trials over the candidate primes against the
/// target.
pub struct SearchEngine {
    pub target: Big,
    pub primes: Vec<u64>,
    pub radices: Vec<u64>,
}

impl SearchEngine {
    /// The target is positive, every candidate is at least 2, and each
    /// candidate carries its exponent radix.
    pub open spec fn wf(self) -> bool {
        &&& self.target.wf()
        &&& self.target.val() >= 1
        &&& forall|i: int| 0 <= i < self.primes@.len() ==> #[trigger] self.primes@[i] >= 2
        &&& self.radices@.len() == self.primes@.len()
        &&& forall|j: int|
            0 <= j < self.radices@.len() ==> radix_ok(
                self.primes@[j] as nat,
                self.target.val(),
                #[trigger] self.radices@[j],
            )
    }

    pub fn new(target: Big, primes: Vec<u64>) -> (r: SearchEngine)
        requires
            target.wf(),
            target.val() >= 1,
            forall|i: int| 0 <= i < primes@.len() ==> #[trigger] primes@[i] >= 2,
        ensures
            r.wf(),
            r.target == target,
            r.primes == primes,
    {
        let radices = exponent_radices(&primes, &target);
        SearchEngine { target, primes, radices }
    }

    /// The exponent assignment trial `i` evaluates.
    pub open spec fn trial_exps(self, i: nat) -> Seq<u64> {
        guess_of(i, self.radices@)
    }

    /// The product trial `i` compares with the target.
    pub open spec fn trial_product(self, i: nat) -> nat {
        product_of(self.primes@, self.trial_exps(i))
    }

    /// The distance trial `i` reports.
    pub open spec fn trial_dist(self, i: nat) -> nat {
        abs_diff(self.trial_product(i), self.target.val())
    }

    /// The smallest distance recorded after the first `k` trials, starting
    /// from the documented initial distance.
    pub open spec fn best_after(self, k: nat) -> nat
        decreases k,
    {
        if k == 0 {
            u64::MAX as nat
        } else {
            nat_min(self.best_after((k - 1) as nat), self.trial_dist((k - 1) as nat))
        }
    }

    /// Across a run, the recorded best distance never increases as more
    /// trials complete.
    pub proof fn lemma_best_distance_monotone(self, k1: nat, k2: nat)
        requires
            k1 <= k2,
        ensures
            self.best_after(k2) <= self.best_after(k1),
        decreases k2,
    {
        if k1 < k2 {
            self.lemma_best_distance_monotone(k1, (k2 - 1) as nat);
        }
    }

    /// Some trial evaluates any given assignment bounded by the engine's
    /// radices: the trial at the assignment's mixed-radix index, which lies
    /// within the assignment space.  Together with `run`'s contract, a
    /// target whose factorization is bounded by the radices cannot be
    /// reported as an approximation once the trial budget reaches that
    /// index.
    pub proof fn lemma_trial_covers_assignment(self, exps: Seq<u64>)
        requires
            self.wf(),
            exps.len() == self.radices@.len(),
            forall|j: int| 0 <= j < exps.len() ==> exps[j] < self.radices@[j],
        ensures
            self.trial_exps(index_of_exps(exps, self.radices@)) == exps,
            self.trial_product(index_of_exps(exps, self.radices@)) == product_of(
                self.primes@,
                exps,
            ),
            index_of_exps(exps, self.radices@) < radix_space(self.radices@),
    {
        lemma_guess_coverage(exps, self.radices@);
    }

    /// Runs the given number of trials: returns an exact factorization as
    /// soon as a trial's product equals the target, and otherwise the
    /// closest hypothesis over all trials, labeled an approximation.
    pub fn run(&self, trials: u64) -> (r: SearchOutcome)
        requires
            self.wf(),
        ensures
            match r {
                SearchOutcome::Exact { guess } => {
                    &&& guess.wf()
                    &&& guess.primes@ == self.primes@
                    &&& product_of(self.primes@, guess.exps@) == self.target.val()
                    &&& exists|i: int|
                        0 <= i < trials && guess.exps@ == #[trigger] self.trial_exps(i as nat)
                },
                SearchOutcome::Approx { distance, guess } => {
                    &&& forall|i: int|
                        0 <= i < trials ==> #[trigger] self.trial_product(i as nat)
                            != self.target.val()
                    &&& distance.wf()
                    &&& distance.val() == self.best_after(trials as nat)
                    &&& guess.wf()
                    &&& guess.primes@ == self.primes@
                    &&& ((distance.val() == u64::MAX && guess.exps@.len() == self.primes@.len()
                        && (forall|j: int| 0 <= j < guess.exps@.len() ==> guess.exps@[j] == 0))
                        || (exists|i: int|
                        0 <= i < trials && guess.exps@ == #[trigger] self.trial_exps(i as nat)
                            && self.trial_dist(i as nat) == distance.val()))
                },
            },
    {
        let mut best = BestMatch::init(&self.primes);
        let mut i: u64 = 0;
        while i < trials
            invariant
                self.wf(),
                i <= trials,
                best.wf(),
                best.distance.val() == self.best_after(i as nat),
                forall|j: int|
                    0 <= j < i ==> #[trigger] self.trial_product(j as nat) != self.target.val(),
                best.guess.primes@ == self.primes@,
                ((best.distance.val() == u64::MAX && best.guess.exps@.len()
                    == self.primes@.len() && (forall|j: int|
                    0 <= j < best.guess.exps@.len() ==> best.guess.exps@[j] == 0)) || (
                exists|j: int|
                    0 <= j < i && best.guess.exps@ == #[trigger] self.trial_exps(j as nat)
                        && self.trial_dist(j as nat) == best.distance.val())),
            decreases trials - i,
        {
            proof {
                assert forall|t: int| 0 <= t < self.radices@.len() implies #[trigger] self.radices@[t]
                    >= 1 by {
                    assert(radix_ok(
                        self.primes@[t] as nat,
                        self.target.val(),
                        self.radices@[t],
                    ));
                }
            }
            let exps = derive_guess(i, &self.radices);
            let guess = GuessState { primes: copy_u64_vec(&self.primes), exps };
            let product = guess.compute_product();
            if product.equals(&self.target) {
                proof {
                    let wit: int = i as int;
                    assert(0 <= wit < trials);
                    assert(guess.exps@ == self.trial_exps(wit as nat));
                }
                return SearchOutcome::Exact { guess };
            }
            let d = product.distance(&self.target);
            proof {
                assert(self.best_after((i + 1) as nat) == nat_min(
                    self.best_after(i as nat),
                    self.trial_dist(i as nat),
                ));
            }
            let updated = best.consider(d, guess);
            proof {
                if updated {
                    assert(best.guess.exps@ == self.trial_exps(i as nat));
                }
            }
            i = i + 1;
        }
        SearchOutcome::Approx { distance: best.distance, guess: best.guess }
    }
}

} // verus!
