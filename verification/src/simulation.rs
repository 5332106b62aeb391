//! Estimates of what a roll is likely to give, gathered by rolling many times.

use crate::dice::Roll;
use crate::random::DiceRng;
use vstd::prelude::*;

verus! {

/// Sorts with `sort` of std's slices, which orders the elements ascending and
/// keeps each of them: the result is the old content rearranged.
#[verifier::external_body]
fn sort_samples(samples: &mut Vec<u8>)
    ensures
        final(samples)@.to_multiset() == old(samples)@.to_multiset(),
        forall|i: int, j: int|
            0 <= i <= j < final(samples)@.len() ==> final(samples)@[i] <= final(samples)@[j],
{
    samples.sort();
}

/// How often `value` occurs among `samples`.
pub open spec fn count_of(samples: Seq<u8>, value: u8) -> nat {
    samples.to_multiset().count(value)
}

/// Counting one sample more raises the count of its value by one and no other.
proof fn lemma_count_next(samples: Seq<u8>, i: int, value: u8)
    requires
        0 <= i < samples.len(),
    ensures
        count_of(samples.take(i + 1), value) == count_of(samples.take(i), value) + if samples[i]
            == value {
            1nat
        } else {
            0nat
        },
{
    assert(samples.take(i + 1) =~= samples.take(i).push(samples[i]));
    vstd::seq_lib::to_multiset_build(samples.take(i), samples[i]);
}

/// No value occurs more often than there are samples.
proof fn lemma_count_bounded(samples: Seq<u8>, i: int, value: u8)
    requires
        0 <= i <= samples.len(),
    ensures
        count_of(samples.take(i), value) <= i,
    decreases i,
{
    if i == 0 {
        assert(samples.take(0) =~= Seq::<u8>::empty());
        assert(Seq::<u8>::empty().to_multiset().count(value) == 0) by {
            Seq::<u8>::empty().to_multiset_ensures();
            assert(!Seq::<u8>::empty().contains(value));
        }
    } else {
        lemma_count_bounded(samples, i - 1, value);
        lemma_count_next(samples, i - 1, value);
    }
}

/// How many samples the buckets count in all.
pub open spec fn total_count(buckets: Seq<(u8, usize)>) -> nat
    decreases buckets.len(),
{
    if buckets.len() == 0 {
        0
    } else {
        total_count(buckets.drop_last()) + buckets.last().1 as nat
    }
}

/// A max-normalised histogram of samples: one bucket for each value that occurs,
/// in ascending order of value, with the number of its occurrences, and beside
/// them the largest of these numbers. The height of a bucket is its count divided
/// by that peak, so the tallest bucket has height 1.
///
/// An estimate is made by [`Estimate::tally`] only, so each one is `well_formed`.
#[derive(Clone, Debug)]
pub struct Estimate {
    buckets: Vec<(u8, usize)>,
    peak: usize,
}

impl View for Estimate {
    type V = Seq<(u8, usize)>;

    /// The buckets: a value and how often it occurred.
    closed spec fn view(&self) -> Seq<(u8, usize)> {
        self.buckets@
    }
}

impl Estimate {
    /// The count of the tallest bucket; 0 where there is no bucket.
    pub closed spec fn top(&self) -> nat {
        self.peak as nat
    }

    /// What holds of every estimate: the buckets ascend by value, none is empty,
    /// and `top` is the largest count among them.
    pub open spec fn well_formed(&self) -> bool {
        &&& ascends(self@)
        &&& forall|i: int| 0 <= i < self@.len() ==> 0 < (#[trigger] self@[i]).1 <= self.top()
        &&& self@.len() == 0 ==> self.top() == 0
        &&& self@.len() > 0 ==> exists|i: int|
            0 <= i < self@.len() && (#[trigger] self@[i]).1 == self.top()
    }

    /// Whether this is the histogram of `samples`: a well-formed estimate with
    /// exactly one bucket for each value among the samples, each holding the
    /// number of occurrences of its value.
    pub open spec fn tallies(&self, samples: Seq<u8>) -> bool {
        &&& self.well_formed()
        &&& forall|i: int|
            0 <= i < self@.len() ==> (#[trigger] self@[i]).1 == count_of(samples, self@[i].0)
        &&& forall|value: u8| #[trigger] count_of(samples, value) > 0 ==> has_bucket(self@, value)
    }

    /// The buckets, in ascending order of value.
    pub fn buckets(&self) -> (r: &Vec<(u8, usize)>)
        ensures
            r@ == self@,
    {
        &self.buckets
    }

    /// The count of the tallest bucket.
    pub fn peak(&self) -> (r: usize)
        ensures
            r == self.top(),
    {
        self.peak
    }

    /// The buckets with the height of each in place of its count, where `height`
    /// makes the height of a bucket from its count and the peak. With a division
    /// for `height`, the tallest bucket gets 1.
    pub fn heights<T, F: Fn(usize, usize) -> T>(&self, height: F) -> (out: Vec<(u8, T)>)
        requires
            forall|i: int|
                0 <= i < self@.len() ==> call_requires(
                    height,
                    ((#[trigger] self@[i]).1, self.top() as usize),
                ),
        ensures
            out@.len() == self@.len(),
            forall|i: int|
                0 <= i < self@.len() ==> (#[trigger] out@[i]).0 == self@[i].0 && call_ensures(
                    height,
                    (self@[i].1, self.top() as usize),
                    out@[i].1,
                ),
    {
        let mut out: Vec<(u8, T)> = Vec::with_capacity(self.buckets.len());
        let mut i: usize = 0;
        assert(self.top() as usize == self.peak);
        assert forall|k: int| 0 <= k < self.buckets@.len() implies call_requires(
            height,
            ((#[trigger] self.buckets@[k]).1, self.peak),
        ) by {
            assert(self@[k] == self.buckets@[k]);
        }
        while i < self.buckets.len()
            invariant
                i <= self.buckets@.len(),
                out@.len() == i,
                forall|k: int|
                    0 <= k < self.buckets@.len() ==> call_requires(
                        height,
                        ((#[trigger] self.buckets@[k]).1, self.peak),
                    ),
                forall|k: int|
                    0 <= k < i ==> (#[trigger] out@[k]).0 == self.buckets@[k].0 && call_ensures(
                        height,
                        (self.buckets@[k].1, self.peak),
                        out@[k].1,
                    ),
            decreases self.buckets@.len() - i,
        {
            let (value, count) = self.buckets[i];
            assert(self.buckets@[i as int].1 == count);
            out.push((value, height(count, self.peak)));
            i = i + 1;
        }
        out
    }

    /// Sorts the samples and counts each run of equal values.
    pub fn tally(samples: Vec<u8>) -> (est: Estimate)
        ensures
            est.tallies(samples@),
            total_count(est@) == samples@.len(),
    {
        let ghost raw = samples@;
        let mut sorted = samples;
        sort_samples(&mut sorted);
        let mut buckets: Vec<(u8, usize)> = Vec::new();
        let mut peak: usize = 0;
        let mut i: usize = 0;
        proof {
            assert(sorted@.take(0) =~= Seq::<u8>::empty());
            assert forall|value: u8| count_of(sorted@.take(0), value) == 0 by {
                lemma_count_bounded(sorted@, 0, value);
            }
        }
        while i < sorted.len()
            invariant
                i <= sorted.len(),
                forall|a: int, b: int| 0 <= a <= b < sorted@.len() ==> sorted@[a] <= sorted@[b],
                counts(buckets@, peak as nat, sorted@.take(i as int)),
            decreases sorted.len() - i,
        {
            let next = sorted[i];
            let last = buckets.len();
            proof {
                let seen = sorted@.take(i as int);
                assert(sorted@.take(i + 1) =~= seen.push(next));
                if i > 0 {
                    assert(seen.last() == sorted@[i - 1]);
                }
            }
            if last > 0 && buckets[last - 1].0 == next {
                proof {
                    lemma_count_bounded(sorted@, i as int, next);
                    lemma_counts_again(buckets@, peak as nat, sorted@.take(i as int), next);
                }
                let count = buckets[last - 1].1 + 1;
                buckets.set(last - 1, (next, count));
                if count > peak {
                    peak = count;
                }
            } else {
                proof {
                    lemma_counts_first(buckets@, peak as nat, sorted@.take(i as int), next);
                }
                buckets.push((next, 1));
                if peak < 1 {
                    peak = 1;
                }
            }
            i = i + 1;
        }
        let est = Estimate { buckets, peak };
        proof {
            assert(sorted@.take(i as int) =~= sorted@);
            assert(est@ == buckets@);
            sorted@.to_multiset_ensures();
            raw.to_multiset_ensures();
            assert forall|value: u8| count_of(sorted@, value) == count_of(raw, value) by {}
            assert forall|value: u8| #[trigger] count_of(raw, value) > 0 implies has_bucket(
                est@,
                value,
            ) by {
                assert(count_of(sorted@, value) > 0);
            }
        }
        est
    }
}

/// Whether `buckets` with `peak` are the histogram of `seen`, an ascending run of
/// samples: well formed, with one bucket for each value seen that holds its
/// count, every sample counted once, and the last bucket that of the last sample.
spec fn counts(buckets: Seq<(u8, usize)>, peak: nat, seen: Seq<u8>) -> bool {
    &&& ascends(buckets)
    &&& forall|k: int|
        0 <= k < buckets.len() ==> 0 < (#[trigger] buckets[k]).1 <= peak && buckets[k].1
            == count_of(seen, buckets[k].0)
    &&& forall|value: u8| #[trigger] count_of(seen, value) > 0 ==> has_bucket(buckets, value)
    &&& buckets.len() == 0 ==> peak == 0
    &&& buckets.len() > 0 ==> exists|k: int| 0 <= k < buckets.len() && (#[trigger] buckets[k]).1 == peak
    &&& total_count(buckets) == seen.len()
    &&& seen.len() == 0 <==> buckets.len() == 0
    &&& seen.len() > 0 ==> buckets.last().0 == seen.last()
}

/// One sample more of the value counted last raises the last bucket by one.
proof fn lemma_counts_again(buckets: Seq<(u8, usize)>, peak: nat, seen: Seq<u8>, next: u8)
    requires
        counts(buckets, peak, seen),
        buckets.len() > 0,
        buckets.last().0 == next,
        buckets.last().1 < usize::MAX,
    ensures
        counts(
            buckets.update(buckets.len() - 1, (next, (buckets.last().1 + 1) as usize)),
            if buckets.last().1 + 1 > peak {
                (buckets.last().1 + 1) as nat
            } else {
                peak
            },
            seen.push(next),
        ),
{
    let last = buckets.len() - 1;
    let count = (buckets.last().1 + 1) as usize;
    let after = buckets.update(last, (next, count));
    let top = if count > peak {
        count as nat
    } else {
        peak
    };
    let grown = seen.push(next);
    assert forall|value: u8|
        count_of(grown, value) == count_of(seen, value) + if next == value {
            1nat
        } else {
            0nat
        } by {
        vstd::seq_lib::to_multiset_build(seen, next);
    }
    assert forall|k: int| 0 <= k < after.len() implies 0 < (#[trigger] after[k]).1 <= top
        && after[k].1 == count_of(grown, after[k].0) by {
        if k < last {
            assert(after[k] == buckets[k]);
            assert(buckets[k].0 < buckets[last].0);
        }
    }
    assert forall|value: u8| #[trigger] count_of(grown, value) > 0 implies has_bucket(
        after,
        value,
    ) by {
        if value == next {
            assert(after[last].0 == value);
        } else {
            assert(has_bucket(buckets, value));
            let k = choose|k: int| 0 <= k < buckets.len() && (#[trigger] buckets[k]).0 == value;
            assert(after[k].0 == value);
        }
    }
    if count > peak {
        assert(after[last].1 == top);
    } else {
        let k = choose|k: int| 0 <= k < buckets.len() && (#[trigger] buckets[k]).1 == peak;
        assert(after[k].1 == top);
    }
    assert(after.drop_last() =~= buckets.drop_last());
    assert(ascends(after)) by {
        assert forall|a: int, b: int| 0 <= a < b < after.len() implies after[a].0 < after[b].0 by {
            assert(buckets[a].0 < buckets[b].0);
        }
    }
}

/// The first sample of a value larger than every value seen opens a bucket of one.
proof fn lemma_counts_first(buckets: Seq<(u8, usize)>, peak: nat, seen: Seq<u8>, next: u8)
    requires
        counts(buckets, peak, seen),
        seen.len() > 0 ==> seen.last() <= next,
        buckets.len() > 0 ==> buckets.last().0 != next,
    ensures
        counts(
            buckets.push((next, 1)),
            if peak < 1 {
                1
            } else {
                peak
            },
            seen.push(next),
        ),
{
    let last = buckets.len() as int;
    let after = buckets.push((next, 1usize));
    let top: nat = if peak < 1 {
        1
    } else {
        peak
    };
    let grown = seen.push(next);
    assert forall|value: u8|
        count_of(grown, value) == count_of(seen, value) + if next == value {
            1nat
        } else {
            0nat
        } by {
        vstd::seq_lib::to_multiset_build(seen, next);
    }
    assert forall|k: int| 0 <= k < last implies (#[trigger] buckets[k]).0 < next by {
        if k < last - 1 {
            assert(buckets[k].0 < buckets[last - 1].0);
        }
    }
    if count_of(seen, next) > 0 {
        assert(has_bucket(buckets, next));
        let k = choose|k: int| 0 <= k < buckets.len() && (#[trigger] buckets[k]).0 == next;
        assert(buckets[k].0 < next);
    }
    assert forall|k: int| 0 <= k < after.len() implies 0 < (#[trigger] after[k]).1 <= top
        && after[k].1 == count_of(grown, after[k].0) by {
        if k < last {
            assert(after[k] == buckets[k]);
        }
    }
    assert forall|value: u8| #[trigger] count_of(grown, value) > 0 implies has_bucket(
        after,
        value,
    ) by {
        if value == next {
            assert(after[last].0 == value);
        } else {
            assert(has_bucket(buckets, value));
            let k = choose|k: int| 0 <= k < buckets.len() && (#[trigger] buckets[k]).0 == value;
            assert(after[k].0 == value);
        }
    }
    if last == 0 {
        assert(after[0].1 == top);
    } else {
        let k = choose|k: int| 0 <= k < buckets.len() && (#[trigger] buckets[k]).1 == peak;
        assert(after[k].1 == top);
    }
    assert(after.drop_last() =~= buckets);
    assert(ascends(after)) by {
        assert forall|a: int, b: int| 0 <= a < b < after.len() implies after[a].0 < after[b].0 by {
            if b < last {
                assert(buckets[a].0 < buckets[b].0);
            } else {
                assert(buckets[a].0 < next);
            }
        }
    }
}

/// Whether the buckets come in strictly ascending order of value.
pub open spec fn ascends<T>(buckets: Seq<(u8, T)>) -> bool {
    forall|i: int, j: int| 0 <= i < j < buckets.len() ==> buckets[i].0 < buckets[j].0
}

/// Whether one of the buckets is that of `value`.
pub open spec fn has_bucket<T>(buckets: Seq<(u8, T)>, value: u8) -> bool {
    exists|i: int| 0 <= i < buckets.len() && (#[trigger] buckets[i]).0 == value
}

/// Whether every value of the first list has a bucket in the second.
spec fn covered(a: Seq<(u8, usize)>, b: Seq<(u8, usize)>) -> bool {
    forall|i: int| 0 <= i < a.len() ==> has_bucket(b, (#[trigger] a[i]).0)
}

/// In two ascending bucket lists where every value of the first has a bucket in
/// the second, a value stands in the second no earlier than in the first.
proof fn lemma_bucket_not_earlier(a: Seq<(u8, usize)>, b: Seq<(u8, usize)>, i: int, j: int)
    requires
        ascends(a),
        ascends(b),
        covered(a, b),
        0 <= i < a.len(),
        0 <= j < b.len(),
        b[j].0 == a[i].0,
    ensures
        i <= j,
    decreases i,
{
    if i > 0 {
        assert(a[i - 1].0 < a[i].0);
        assert(has_bucket(b, a[i - 1].0));
        let before = choose|y: int| 0 <= y < b.len() && (#[trigger] b[y]).0 == a[i - 1].0;
        lemma_bucket_not_earlier(a, b, i - 1, before);
        if j < before {
            assert(b[j].0 < b[before].0);
        }
    }
}

/// Two ascending bucket lists over the same values are as long as each other.
proof fn lemma_same_length(a: Seq<(u8, usize)>, b: Seq<(u8, usize)>)
    requires
        ascends(a),
        ascends(b),
        covered(a, b),
    ensures
        a.len() <= b.len(),
{
    if a.len() > 0 {
        assert(has_bucket(b, a[a.len() - 1].0));
        let y = choose|y: int| 0 <= y < b.len() && (#[trigger] b[y]).0 == a[a.len() - 1].0;
        lemma_bucket_not_earlier(a, b, a.len() - 1, y);
    }
}

/// Two ascending bucket lists over the same values hold them at the same places.
proof fn lemma_same_place(a: Seq<(u8, usize)>, b: Seq<(u8, usize)>, i: int)
    requires
        ascends(a),
        ascends(b),
        covered(a, b),
        covered(b, a),
        0 <= i < a.len(),
    ensures
        i < b.len(),
        a[i].0 == b[i].0,
{
    lemma_same_length(a, b);
    assert(has_bucket(b, a[i].0));
    let j = choose|y: int| 0 <= y < b.len() && (#[trigger] b[y]).0 == a[i].0;
    lemma_bucket_not_earlier(a, b, i, j);
    if i < j {
        assert(has_bucket(a, b[i].0));
        let k = choose|y: int| 0 <= y < a.len() && (#[trigger] a[y]).0 == b[i].0;
        lemma_bucket_not_earlier(b, a, i, k);
        assert(b[i].0 < b[j].0);
        if i < k {
            assert(a[i].0 < a[k].0);
        }
    }
}

/// The samples fix their histogram: two estimates that tally the same samples
/// hold the same buckets and the same peak. So whatever is rolled, an estimate
/// depends on the results alone, and equal runs of results give equal estimates.
pub proof fn lemma_tally_unique(first: &Estimate, second: &Estimate, samples: Seq<u8>)
    requires
        first.tallies(samples),
        second.tallies(samples),
    ensures
        first@ == second@,
        first.top() == second.top(),
{
    let a = first@;
    let b = second@;
    assert(covered(a, b)) by {
        assert forall|i: int| 0 <= i < a.len() implies has_bucket(b, (#[trigger] a[i]).0) by {
            assert(count_of(samples, a[i].0) > 0);
        }
    }
    assert(covered(b, a)) by {
        assert forall|i: int| 0 <= i < b.len() implies has_bucket(a, (#[trigger] b[i]).0) by {
            assert(count_of(samples, b[i].0) > 0);
        }
    }
    lemma_same_length(a, b);
    lemma_same_length(b, a);
    assert forall|i: int| 0 <= i < a.len() implies a[i] == b[i] by {
        lemma_same_place(a, b, i);
        assert(a[i].1 == count_of(samples, a[i].0));
        assert(b[i].1 == count_of(samples, b[i].0));
    }
    assert(a =~= b);
    if a.len() > 0 {
        let x = choose|x: int| 0 <= x < a.len() && (#[trigger] a[x]).1 == first.top();
        let y = choose|y: int| 0 <= y < b.len() && (#[trigger] b[y]).1 == second.top();
        assert(b[x].1 <= second.top());
        assert(a[y].1 <= first.top());
    }
}

/// Where there is a sample, the histogram has a tallest bucket, which is not
/// empty: divided by the peak, its height is 1 and no bucket is higher.
pub proof fn lemma_tally_has_peak(estimate: &Estimate, samples: Seq<u8>)
    requires
        estimate.tallies(samples),
        samples.len() > 0,
    ensures
        estimate.top() > 0,
        exists|i: int| 0 <= i < estimate@.len() && (#[trigger] estimate@[i]).1 == estimate.top(),
        forall|i: int| 0 <= i < estimate@.len() ==> 0 < (#[trigger] estimate@[i]).1 <= estimate.top(),
{
    assert(count_of(samples, samples[0]) > 0) by {
        samples.to_multiset_ensures();
        assert(samples.contains(samples[0]));
    }
    assert(has_bucket(estimate@, samples[0]));
}

/// Whether `drawn` can be the values that `n` rolls in a row draw.
pub open spec fn rolls_accept<T: Roll>(roller: &T, n: nat, drawn: Seq<u8>) -> bool
    decreases n,
{
    if n == 0 {
        drawn.len() == 0
    } else {
        let cut = drawn.len() - roller.draws();
        &&& cut >= 0
        &&& rolls_accept(roller, (n - 1) as nat, drawn.take(cut))
        &&& roller.accepts(drawn.skip(cut))
    }
}

/// The results of `n` rolls in a row that drew `drawn`, first roll first.
pub open spec fn rolls_of<T: Roll>(roller: &T, n: nat, drawn: Seq<u8>) -> Seq<u8>
    decreases n,
{
    if n == 0 {
        Seq::empty()
    } else {
        let cut = drawn.len() - roller.draws();
        rolls_of(roller, (n - 1) as nat, drawn.take(cut)).push(roller.value(drawn.skip(cut)))
    }
}

/// There is one result for each roll.
pub proof fn lemma_rolls_len<T: Roll>(roller: &T, n: nat, drawn: Seq<u8>)
    ensures
        rolls_of(roller, n, drawn).len() == n,
    decreases n,
{
    if n > 0 {
        let cut = drawn.len() - roller.draws();
        lemma_rolls_len(roller, (n - 1) as nat, drawn.take(cut));
    }
}

/// Simulating is deterministic in what it draws: two runs of `n` rolls of one
/// roller that drew the same values give the same buckets and the same peak.
pub proof fn lemma_same_draws_same_estimate<T: Roll>(
    roller: &T,
    n: nat,
    drawn: Seq<u8>,
    first: &Estimate,
    second: &Estimate,
)
    requires
        first.tallies(rolls_of(roller, n, drawn)),
        second.tallies(rolls_of(roller, n, drawn)),
    ensures
        first@ == second@,
        first.top() == second.top(),
{
    lemma_tally_unique(first, second, rolls_of(roller, n, drawn));
}

/// Estimating by `COUNT` rolls in a row.
pub trait SimulateDice<const COUNT: usize>: Roll + Sized {
    /// Rolls `COUNT` times and returns the histogram of the results. The source
    /// advances by the draws of these rolls and by nothing else.
    fn simulate(&self, rng: &mut DiceRng) -> (est: Estimate)
        requires
            self.rollable(),
        ensures
            final(rng).follows(old(rng)),
            rolls_accept(self, COUNT as nat, final(rng).since(old(rng))),
            est.tallies(rolls_of(self, COUNT as nat, final(rng).since(old(rng)))),
            total_count(est@) == COUNT,
    ;
}

impl<T: Roll, const COUNT: usize> SimulateDice<COUNT> for T {
    fn simulate(&self, rng: &mut DiceRng) -> (est: Estimate) {
        let ghost start = rng@;
        let mut raw_results: Vec<u8> = Vec::with_capacity(COUNT);
        let mut n: usize = 0;
        assert(rng@.skip(start.len() as int) =~= Seq::<u8>::empty());
        assert(start + Seq::<u8>::empty() =~= rng@);
        while n < COUNT
            invariant
                n <= COUNT,
                self.rollable(),
                rng@ == start + rng@.skip(start.len() as int),
                rolls_accept(self, n as nat, rng@.skip(start.len() as int)),
                raw_results@ == rolls_of(self, n as nat, rng@.skip(start.len() as int)),
            decreases COUNT - n,
        {
            let ghost before = rng@;
            let ghost sofar = rng@.skip(start.len() as int);
            let rolled = self.roll(rng);
            raw_results.push(rolled);
            proof {
                let fresh = rng@.skip(before.len() as int);
                let all = rng@.skip(start.len() as int);
                assert(all =~= sofar + fresh);
                assert(start + all =~= rng@);
                assert(all.take(all.len() - fresh.len()) =~= sofar);
                assert(all.skip(all.len() - fresh.len()) =~= fresh);
            }
            n = n + 1;
        }
        proof {
            lemma_rolls_len(self, COUNT as nat, rng@.skip(start.len() as int));
        }
        Estimate::tally(raw_results)
    }
}

/// How many rolls an estimate for display is made of.
pub const SAMPLES: usize = 100;

/// The weight of a fresh batch when it is blended into a stored estimate.
pub const FRESH_WEIGHT: u8 = 1;

/// The weight of the stored estimate when a fresh batch is blended into it.
pub const STORED_WEIGHT: u8 = 20;

/// What a mixing function may return: `mixes(mix)(a, b, r)` tells that `mix(a, b)`
/// can give `r`.
pub open spec fn mixes<T, F: Fn(T, T) -> T>(mix: F) -> spec_fn(T, T, T) -> bool {
    |a: T, b: T, r: T| call_ensures(mix, (a, b), r)
}

/// Whether `mix` can be called on the heights of every two buckets of one value.
pub open spec fn can_mix<T, F: Fn(T, T) -> T>(
    fresh: Seq<(u8, T)>,
    stored: Seq<(u8, T)>,
    mix: F,
) -> bool {
    forall|i: int, j: int|
        0 <= i < fresh.len() && 0 <= j < stored.len() && (#[trigger] fresh[i]).0 == (
        #[trigger] stored[j]).0 ==> call_requires(mix, (fresh[i].1, stored[j].1))
}

/// Whether `out` is the merge of `fresh` and `stored` by value: the two lists are
/// walked from their heads, the bucket with the smaller value passes through
/// unchanged, and two buckets of one value become one bucket whose height `mix`
/// relates to theirs, the fresh height first. What is left of one list when the
/// other ends passes through unchanged.
pub open spec fn merges<T>(
    fresh: Seq<(u8, T)>,
    stored: Seq<(u8, T)>,
    out: Seq<(u8, T)>,
    mix: spec_fn(T, T, T) -> bool,
) -> bool
    decreases fresh.len() + stored.len(),
{
    if fresh.len() == 0 {
        out == stored
    } else if stored.len() == 0 {
        out == fresh
    } else if fresh[0].0 < stored[0].0 {
        &&& out.len() > 0
        &&& out[0] == fresh[0]
        &&& merges(fresh.skip(1), stored, out.skip(1), mix)
    } else if fresh[0].0 > stored[0].0 {
        &&& out.len() > 0
        &&& out[0] == stored[0]
        &&& merges(fresh, stored.skip(1), out.skip(1), mix)
    } else {
        &&& out.len() > 0
        &&& out[0].0 == fresh[0].0
        &&& mix(fresh[0].1, stored[0].1, out[0].1)
        &&& merges(fresh.skip(1), stored.skip(1), out.skip(1), mix)
    }
}

/// A value has a bucket in a list if it heads the list or has a bucket in the rest,
/// and in an ascending list the rest holds larger values only.
proof fn lemma_bucket_of_rest<T>(buckets: Seq<(u8, T)>, value: u8)
    requires
        buckets.len() > 0,
    ensures
        has_bucket(buckets, value) <==> buckets[0].0 == value || has_bucket(
            buckets.skip(1),
            value,
        ),
        ascends(buckets) ==> ascends(buckets.skip(1)),
        ascends(buckets) && has_bucket(buckets.skip(1), value) ==> buckets[0].0 < value,
{
    let rest = buckets.skip(1);
    if has_bucket(buckets, value) {
        let i = choose|i: int| 0 <= i < buckets.len() && (#[trigger] buckets[i]).0 == value;
        if i > 0 {
            assert(rest[i - 1].0 == value);
        }
    }
    if has_bucket(rest, value) {
        let i = choose|i: int| 0 <= i < rest.len() && (#[trigger] rest[i]).0 == value;
        assert(buckets[i + 1].0 == value);
        if ascends(buckets) {
            assert(buckets[0].0 < buckets[i + 1].0);
        }
    }
    if ascends(buckets) {
        assert forall|i: int, j: int| 0 <= i < j < rest.len() implies rest[i].0 < rest[j].0 by {
            assert(buckets[i + 1].0 < buckets[j + 1].0);
        }
    }
}

/// A list ascends if its rest does and its head is smaller than every value of
/// the rest.
proof fn lemma_ascends_from_rest<T>(buckets: Seq<(u8, T)>)
    requires
        buckets.len() > 0,
        ascends(buckets.skip(1)),
        forall|value: u8| has_bucket(buckets.skip(1), value) ==> buckets[0].0 < value,
    ensures
        ascends(buckets),
{
    let rest = buckets.skip(1);
    assert forall|i: int, j: int| 0 <= i < j < buckets.len() implies buckets[i].0
        < buckets[j].0 by {
        assert(rest[j - 1] == buckets[j]);
        assert(has_bucket(rest, buckets[j].0));
        if i > 0 {
            assert(rest[i - 1].0 < rest[j - 1].0);
        }
    }
}

/// The merge of two ascending lists ascends, and it holds a bucket for exactly
/// the values that one of the two lists holds a bucket for.
pub proof fn lemma_merge_joins<T>(
    fresh: Seq<(u8, T)>,
    stored: Seq<(u8, T)>,
    out: Seq<(u8, T)>,
    mix: spec_fn(T, T, T) -> bool,
)
    requires
        ascends(fresh),
        ascends(stored),
        merges(fresh, stored, out, mix),
    ensures
        ascends(out),
        forall|value: u8|
            has_bucket(out, value) <==> has_bucket(fresh, value) || has_bucket(stored, value),
    decreases fresh.len() + stored.len(),
{
    if fresh.len() == 0 {
        assert forall|value: u8| !has_bucket(fresh, value) by {}
    } else if stored.len() == 0 {
        assert forall|value: u8| !has_bucket(stored, value) by {}
    } else {
        let rest = out.skip(1);
        let (left, right) = if fresh[0].0 < stored[0].0 {
            (fresh.skip(1), stored)
        } else if fresh[0].0 > stored[0].0 {
            (fresh, stored.skip(1))
        } else {
            (fresh.skip(1), stored.skip(1))
        };
        lemma_bucket_of_rest(fresh, 0);
        lemma_bucket_of_rest(stored, 0);
        lemma_merge_joins(left, right, rest, mix);
        assert forall|value: u8|
            (has_bucket(out, value) <==> has_bucket(fresh, value) || has_bucket(stored, value))
                && (has_bucket(rest, value) ==> out[0].0 < value) by {
            lemma_bucket_of_rest(out, value);
            lemma_bucket_of_rest(fresh, value);
            lemma_bucket_of_rest(stored, value);
        }
        lemma_ascends_from_rest(out);
    }
}

/// In the merge of two ascending lists, a bucket whose value the other list does
/// not hold stands unchanged, and where both lists hold a value, the merge holds
/// one bucket of that value whose height `mix` relates to the two heights.
pub proof fn lemma_merge_buckets<T>(
    fresh: Seq<(u8, T)>,
    stored: Seq<(u8, T)>,
    out: Seq<(u8, T)>,
    mix: spec_fn(T, T, T) -> bool,
    i: int,
)
    requires
        ascends(fresh),
        ascends(stored),
        merges(fresh, stored, out, mix),
        0 <= i < out.len(),
    ensures
        !has_bucket(stored, out[i].0) ==> fresh.contains(out[i]),
        !has_bucket(fresh, out[i].0) ==> stored.contains(out[i]),
        has_bucket(fresh, out[i].0) && has_bucket(stored, out[i].0) ==> exists|a: int, b: int|
            {
                &&& 0 <= a < fresh.len() && 0 <= b < stored.len()
                &&& (#[trigger] fresh[a]).0 == out[i].0
                &&& (#[trigger] stored[b]).0 == out[i].0
                &&& mix(fresh[a].1, stored[b].1, out[i].1)
            },
    decreases fresh.len() + stored.len(),
{
    let value = out[i].0;
    if fresh.len() == 0 {
        assert(stored[i] == out[i]);
        assert(!has_bucket(fresh, value));
    } else if stored.len() == 0 {
        assert(fresh[i] == out[i]);
        assert(!has_bucket(stored, value));
    } else {
        let rest = out.skip(1);
        let (left, right) = if fresh[0].0 < stored[0].0 {
            (fresh.skip(1), stored)
        } else if fresh[0].0 > stored[0].0 {
            (fresh, stored.skip(1))
        } else {
            (fresh.skip(1), stored.skip(1))
        };
        lemma_bucket_of_rest(fresh, value);
        lemma_bucket_of_rest(stored, value);
        lemma_bucket_of_rest(out, value);
        lemma_merge_joins(left, right, rest, mix);
        if i == 0 {
            if fresh[0].0 < stored[0].0 {
                assert(fresh[0] == out[0]);
            } else if fresh[0].0 > stored[0].0 {
                assert(stored[0] == out[0]);
            } else {
                assert(fresh[0].0 == value && stored[0].0 == value);
            }
        } else {
            assert(rest[i - 1] == out[i]);
            assert(has_bucket(rest, value));
            lemma_merge_buckets(left, right, rest, mix, i - 1);
            lemma_merge_joins(fresh, stored, out, mix);
            assert(out[0].0 < value);
            if !has_bucket(right, value) && left.contains(out[i]) {
                let k = choose|k: int| 0 <= k < left.len() && left[k] == out[i];
                if left.len() < fresh.len() {
                    assert(fresh[k + 1] == out[i]);
                }
            }
            if !has_bucket(left, value) && right.contains(out[i]) {
                let k = choose|k: int| 0 <= k < right.len() && right[k] == out[i];
                if right.len() < stored.len() {
                    assert(stored[k + 1] == out[i]);
                }
            }
            if has_bucket(left, value) && has_bucket(right, value) {
                let (a, b) = choose|a: int, b: int|
                    {
                        &&& 0 <= a < left.len() && 0 <= b < right.len()
                        &&& (#[trigger] left[a]).0 == value
                        &&& (#[trigger] right[b]).0 == value
                        &&& mix(left[a].1, right[b].1, out[i].1)
                    };
                let a2 = if left.len() < fresh.len() {
                    a + 1
                } else {
                    a
                };
                let b2 = if right.len() < stored.len() {
                    b + 1
                } else {
                    b
                };
                assert(fresh[a2] == left[a] && stored[b2] == right[b]);
            }
        }
    }
}

/// Where mixing two heights has one result, merging two lists has one result.
pub proof fn lemma_merge_unique<T>(
    fresh: Seq<(u8, T)>,
    stored: Seq<(u8, T)>,
    first: Seq<(u8, T)>,
    second: Seq<(u8, T)>,
    mix: spec_fn(T, T, T) -> bool,
)
    requires
        merges(fresh, stored, first, mix),
        merges(fresh, stored, second, mix),
        forall|a: T, b: T, r: T, s: T| #[trigger] mix(a, b, r) && #[trigger] mix(a, b, s) ==> r == s,
    ensures
        first == second,
    decreases fresh.len() + stored.len(),
{
    if fresh.len() > 0 && stored.len() > 0 {
        let (left, right) = if fresh[0].0 < stored[0].0 {
            (fresh.skip(1), stored)
        } else if fresh[0].0 > stored[0].0 {
            (fresh, stored.skip(1))
        } else {
            (fresh.skip(1), stored.skip(1))
        };
        lemma_merge_unique(left, right, first.skip(1), second.skip(1), mix);
        assert(first[0] == second[0]);
        assert(first =~= seq![first[0]] + first.skip(1));
        assert(second =~= seq![second[0]] + second.skip(1));
    }
}

/// Merges a fresh batch into a stored estimate, bucket by bucket in the order of
/// the two lists.
pub fn blend<T: Copy, F: Fn(T, T) -> T>(fresh: &Vec<(u8, T)>, stored: &Vec<(u8, T)>, mix: F) -> (out:
    Vec<(u8, T)>)
    requires
        can_mix(fresh@, stored@, mix),
    ensures
        merges(fresh@, stored@, out@, mixes(mix)),
{
    let mut out: Vec<(u8, T)> = Vec::new();
    let mut i: usize = 0;
    let mut j: usize = 0;
    proof {
        assert(fresh@.skip(0) =~= fresh@);
        assert(stored@.skip(0) =~= stored@);
        assert forall|rest: Seq<(u8, T)>| #[trigger]
            merges(fresh@.skip(0), stored@.skip(0), rest, mixes(mix)) implies merges(
            fresh@,
            stored@,
            out@ + rest,
            mixes(mix),
        ) by {
            assert(out@ + rest =~= rest);
        }
    }
    while i < fresh.len() || j < stored.len()
        invariant
            i <= fresh.len(),
            j <= stored.len(),
            can_mix(fresh@, stored@, mix),
            forall|rest: Seq<(u8, T)>| #[trigger]
                merges(fresh@.skip(i as int), stored@.skip(j as int), rest, mixes(mix)) ==> merges(
                    fresh@,
                    stored@,
                    out@ + rest,
                    mixes(mix),
                ),
        decreases (fresh.len() - i) + (stored.len() - j),
    {
        let ghost done = out@;
        let ghost left = fresh@.skip(i as int);
        let ghost right = stored@.skip(j as int);
        if i >= fresh.len() {
            let item = stored[j];
            out.push(item);
            j = j + 1;
            proof {
                assert forall|rest: Seq<(u8, T)>| #[trigger]
                    merges(fresh@.skip(i as int), stored@.skip(j as int), rest, mixes(mix)) implies merges(
                    fresh@,
                    stored@,
                    out@ + rest,
                    mixes(mix),
                ) by {
                    let whole = seq![item] + rest;
                    assert(whole =~= right);
                    assert(merges(left, right, whole, mixes(mix)));
                    assert(out@ + rest =~= done + whole);
                }
            }
        } else if j >= stored.len() {
            let item = fresh[i];
            out.push(item);
            i = i + 1;
            proof {
                assert forall|rest: Seq<(u8, T)>| #[trigger]
                    merges(fresh@.skip(i as int), stored@.skip(j as int), rest, mixes(mix)) implies merges(
                    fresh@,
                    stored@,
                    out@ + rest,
                    mixes(mix),
                ) by {
                    let whole = seq![item] + rest;
                    assert(rest == fresh@.skip(i as int));
                    assert(whole =~= left);
                    assert(merges(left, right, whole, mixes(mix)));
                    assert(out@ + rest =~= done + whole);
                }
            }
        } else if fresh[i].0 < stored[j].0 {
            let item = fresh[i];
            out.push(item);
            i = i + 1;
            proof {
                assert forall|rest: Seq<(u8, T)>| #[trigger]
                    merges(fresh@.skip(i as int), stored@.skip(j as int), rest, mixes(mix)) implies merges(
                    fresh@,
                    stored@,
                    out@ + rest,
                    mixes(mix),
                ) by {
                    let whole = seq![item] + rest;
                    assert(left.skip(1) =~= fresh@.skip(i as int));
                    assert(whole.skip(1) =~= rest);
                    assert(merges(left, right, whole, mixes(mix)));
                    assert(out@ + rest =~= done + whole);
                }
            }
        } else if fresh[i].0 > stored[j].0 {
            let item = stored[j];
            out.push(item);
            j = j + 1;
            proof {
                assert forall|rest: Seq<(u8, T)>| #[trigger]
                    merges(fresh@.skip(i as int), stored@.skip(j as int), rest, mixes(mix)) implies merges(
                    fresh@,
                    stored@,
                    out@ + rest,
                    mixes(mix),
                ) by {
                    let whole = seq![item] + rest;
                    assert(right.skip(1) =~= stored@.skip(j as int));
                    assert(whole.skip(1) =~= rest);
                    assert(merges(left, right, whole, mixes(mix)));
                    assert(out@ + rest =~= done + whole);
                }
            }
        } else {
            assert(fresh@[i as int].0 == stored@[j as int].0);
            let item = (fresh[i].0, mix(fresh[i].1, stored[j].1));
            out.push(item);
            i = i + 1;
            j = j + 1;
            proof {
                assert forall|rest: Seq<(u8, T)>| #[trigger]
                    merges(fresh@.skip(i as int), stored@.skip(j as int), rest, mixes(mix)) implies merges(
                    fresh@,
                    stored@,
                    out@ + rest,
                    mixes(mix),
                ) by {
                    let whole = seq![item] + rest;
                    assert(left.skip(1) =~= fresh@.skip(i as int));
                    assert(right.skip(1) =~= stored@.skip(j as int));
                    assert(whole.skip(1) =~= rest);
                    assert(merges(left, right, whole, mixes(mix)));
                    assert(out@ + rest =~= done + whole);
                }
            }
        }
    }
    proof {
        let rest = Seq::<(u8, T)>::empty();
        assert(fresh@.skip(i as int).len() == 0);
        assert(stored@.skip(j as int) =~= rest);
        assert(merges(fresh@.skip(i as int), stored@.skip(j as int), rest, mixes(mix)));
        assert(out@ + rest =~= out@);
    }
    out
}

/// Brings a stored estimate up to date with a fresh batch. Where the pool set has
/// changed since the estimate was stored, the fresh batch replaces it whole;
/// where it has not, the batch is blended into it.
pub fn refine<T: Copy, F: Fn(T, T) -> T>(
    fresh: Vec<(u8, T)>,
    stored: &Vec<(u8, T)>,
    changed: bool,
    mix: F,
) -> (out: Vec<(u8, T)>)
    requires
        !changed ==> can_mix(fresh@, stored@, mix),
    ensures
        changed ==> out@ == fresh@,
        !changed ==> merges(fresh@, stored@, out@, mixes(mix)),
{
    if changed {
        fresh
    } else {
        blend(&fresh, stored, mix)
    }
}

} // verus!
