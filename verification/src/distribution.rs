//! The weighted choice among the continuations of one context.

use crate::odds::Odds;
use crate::text::slice_of;
use crate::transitions::RowView;
use crate::transitions::total;
use vstd::prelude::*;

verus! {

/// What a [`Distribution`] holds: the tokens in the order in which they were
/// first seen, for each token the odds of drawing it, the running sum of the
/// occurrence counts up to and including it, and the sum of them all.
pub struct DistributionView {
    pub tokens: Seq<Seq<char>>,
    pub entropies: Seq<Odds>,
    pub cumulative: Seq<nat>,
    pub total: nat,
}

impl DistributionView {
    /// The running sum before entry `i`.
    pub open spec fn below(self, i: int) -> nat {
        if i <= 0 {
            0
        } else {
            self.cumulative[i - 1]
        }
    }

    /// How often token `i` was seen.
    pub open spec fn occurrences(self, i: int) -> int {
        self.cumulative[i] - self.below(i)
    }

    /// The three sequences run in parallel and are not empty, every token was
    /// seen at least once (so the running sums strictly increase), the last
    /// running sum is the total, and the odds of token `i` are its
    /// occurrences out of the total. No token stands twice, and none is
    /// empty.
    pub open spec fn wf(self) -> bool {
        &&& self.tokens.len() > 0
        &&& self.entropies.len() == self.tokens.len()
        &&& self.cumulative.len() == self.tokens.len()
        &&& forall|i: int| 0 <= i < self.cumulative.len() ==> self.below(i) < #[trigger] self.cumulative[i]
        &&& self.cumulative.last() == self.total
        &&& self.total <= u128::MAX
        &&& forall|i: int|
            0 <= i < self.entropies.len() ==> {
                &&& (#[trigger] self.entropies[i]).count == self.occurrences(i)
                &&& self.entropies[i].total == self.total
            }
        &&& self.tokens.no_duplicates()
        &&& forall|i: int| 0 <= i < self.tokens.len() ==> (#[trigger] self.tokens[i]).len() > 0
    }

    /// The entry that the number `n` falls on: the first whose running sum
    /// exceeds `n`. Entry `i` is hit by exactly `occurrences(i)` of the
    /// numbers below `total`.
    pub open spec fn pick(self, n: nat) -> int {
        first_above(self.cumulative, n)
    }
}

/// `count` chances out of `total`.
pub open spec fn odds_of(count: nat, total: nat) -> Odds {
    Odds { count: count as u128, total: total as u128 }
}

/// The distribution that a row of counts becomes: the outcomes in their
/// order, the running sums of their counts, and for each the odds of its
/// count out of the sum of all.
pub open spec fn distribution_of(row: RowView) -> DistributionView {
    DistributionView {
        tokens: row.outcomes,
        entropies: Seq::new(
            row.counts.len(),
            |i: int| odds_of(row.counts[i], total(row.counts)),
        ),
        cumulative: Seq::new(row.counts.len(), |i: int| total(row.counts.take(i + 1))),
        total: total(row.counts),
    }
}

/// The sum of the first `i + 1` counts is the sum of the first `i` and count
/// `i`, and no more than the sum of all.
pub proof fn lemma_total_take(counts: Seq<nat>, i: int)
    requires
        0 <= i < counts.len(),
    ensures
        total(counts.take(i + 1)) == total(counts.take(i)) + counts[i],
        total(counts.take(i + 1)) <= total(counts),
    decreases counts.len() - i,
{
    assert(counts.take(i + 1).drop_last() =~= counts.take(i));
    if i + 1 < counts.len() {
        lemma_total_take(counts, i + 1);
    } else {
        assert(counts.take(i + 1) =~= counts);
    }
}

/// A well-formed row becomes a well-formed distribution.
pub proof fn lemma_distribution_of(row: RowView)
    requires
        row.wf(),
    ensures
        distribution_of(row).wf(),
{
    let d = distribution_of(row);
    assert(row.counts.take(row.counts.len() as int) =~= row.counts);
    assert(row.counts.take(0) =~= Seq::<nat>::empty());
    assert forall|i: int| 0 <= i < d.cumulative.len() implies d.below(i) < #[trigger] d.cumulative[i]
        && d.cumulative[i] - d.below(i) == row.counts[i] && row.counts[i] <= total(row.counts) by {
        lemma_total_take(row.counts, i);
        crate::transitions::lemma_total(row.counts, i);
    }
    assert forall|i: int| 0 <= i < d.entropies.len() implies (#[trigger] d.entropies[i]).count
        == d.occurrences(i) && d.entropies[i].total == d.total by {
        assert(d.below(i) < d.cumulative[i] && d.cumulative[i] - d.below(i) == row.counts[i]);
    }
}

/// In a well-formed distribution the running sums strictly increase.
pub proof fn lemma_running_sums(d: DistributionView, i: int, j: int)
    requires
        d.wf(),
        0 <= i <= j < d.cumulative.len(),
    ensures
        d.cumulative[i] <= d.cumulative[j],
        i < j ==> d.cumulative[i] < d.cumulative[j],
    decreases j - i,
{
    if i < j {
        lemma_running_sums(d, i, j - 1);
        assert(d.below(j) < d.cumulative[j]);
    }
}

/// In a well-formed distribution no running sum exceeds the total, and the
/// odds of every token are valid.
pub proof fn lemma_odds_valid(d: DistributionView, i: int)
    requires
        d.wf(),
        0 <= i < d.cumulative.len(),
    ensures
        d.cumulative[i] <= d.total,
        d.entropies[i].valid(),
{
    lemma_running_sums(d, i, d.cumulative.len() - 1);
    assert(d.below(i) < d.cumulative[i]);
    if i > 0 {
        lemma_running_sums(d, i - 1, i);
    }
}

/// The index of the first element of `counts` that exceeds `n`; the length
/// where none does.
pub open spec fn first_above(counts: Seq<nat>, n: nat) -> int
    decreases counts.len(),
{
    if counts.len() == 0 {
        0
    } else if counts[0] > n {
        0
    } else {
        1 + first_above(counts.drop_first(), n)
    }
}

/// `first_above` gives the first index whose element exceeds `n`.
pub proof fn lemma_first_above(counts: Seq<nat>, n: nat)
    ensures
        0 <= first_above(counts, n) <= counts.len(),
        first_above(counts, n) < counts.len() ==> counts[first_above(counts, n)] > n,
        forall|j: int| 0 <= j < first_above(counts, n) ==> counts[j] <= n,
    decreases counts.len(),
{
    if counts.len() > 0 && counts[0] <= n {
        let rest = counts.drop_first();
        lemma_first_above(rest, n);
        let r = first_above(rest, n);
        assert forall|j: int| 0 <= j < 1 + r implies counts[j] <= n by {
            if j > 0 {
                assert(counts[j] == rest[j - 1]);
            }
        }
        if r < rest.len() {
            assert(counts[1 + r] == rest[r]);
        }
    }
}

/// Inverse-CDF sampling: a number below the total falls on an entry, and it
/// falls on entry `i` exactly if it is at least the running sum before `i`
/// and less than the running sum at `i`. So entry `i` is hit by exactly
/// `occurrences(i)` of the `total` numbers.
pub proof fn lemma_pick(d: DistributionView, n: nat)
    requires
        d.wf(),
        n < d.total,
    ensures
        0 <= d.pick(n) < d.tokens.len(),
        d.below(d.pick(n)) <= n < d.cumulative[d.pick(n)],
        forall|i: int|
            0 <= i < d.cumulative.len() && d.below(i) <= n < #[trigger] d.cumulative[i] ==> i == d.pick(n),
        d.entropies[d.pick(n)].valid(),
{
    lemma_first_above(d.cumulative, n);
    let p = d.pick(n);
    if p > 0 {
        assert(d.cumulative[p - 1] <= n);
    }
    assert forall|i: int|
        0 <= i < d.cumulative.len() && d.below(i) <= n < #[trigger] d.cumulative[i] implies i == p by {
        if i < p {
            assert(d.cumulative[i] <= n);
        } else if i > p {
            lemma_running_sums(d, p, i - 1);
        }
    }
    lemma_odds_valid(d, p);
}

/// The sampling structure of one context.
#[derive(Debug)]
pub struct Distribution {
    tokens: Vec<Vec<char>>,
    entropies: Vec<Odds>,
    counts: Vec<u128>,
    total: u128,
}

impl View for Distribution {
    type V = DistributionView;

    closed spec fn view(&self) -> DistributionView {
        DistributionView {
            tokens: self.tokens@.map_values(|t: Vec<char>| t@),
            entropies: self.entropies@,
            cumulative: self.counts@.map_values(|c: u128| c as nat),
            total: self.total as nat,
        }
    }
}

impl Distribution {
    /// Builds the sampling structure of one context from its outcomes and
    /// their counts.
    pub fn build(outcomes: &Vec<Vec<char>>, counts: &Vec<u128>) -> (r: Distribution)
        requires
            RowView::of(outcomes@, counts@).wf(),
        ensures
            r@ == distribution_of(RowView::of(outcomes@, counts@)),
            r@.wf(),
    {
        let ghost row = RowView::of(outcomes@, counts@);
        proof {
            lemma_distribution_of(row);
            assert(row.counts.take(0) =~= Seq::<nat>::empty());
        }
        let mut sum: u128 = 0;
        let mut i: usize = 0;
        while i < counts.len()
            invariant
                i <= counts.len(),
                row == RowView::of(outcomes@, counts@),
                row.wf(),
                sum == total(row.counts.take(i as int)),
            decreases counts.len() - i,
        {
            proof {
                lemma_total_take(row.counts, i as int);
            }
            sum = sum + counts[i];
            i += 1;
        }
        proof {
            assert(row.counts.take(counts.len() as int) =~= row.counts);
        }
        let total = sum;
        let mut tokens: Vec<Vec<char>> = Vec::new();
        let mut entropies: Vec<Odds> = Vec::new();
        let mut sums: Vec<u128> = Vec::new();
        let mut running: u128 = 0;
        let mut i: usize = 0;
        while i < counts.len()
            invariant
                i <= counts.len(),
                row == RowView::of(outcomes@, counts@),
                row.wf(),
                total == self::total(row.counts),
                running == self::total(row.counts.take(i as int)),
                tokens@.len() == i,
                entropies@.len() == i,
                sums@.len() == i,
                forall|k: int| 0 <= k < i ==> (#[trigger] tokens@[k])@ == row.outcomes[k],
                forall|k: int|
                    0 <= k < i ==> #[trigger] entropies@[k] == odds_of(
                        row.counts[k],
                        self::total(row.counts),
                    ),
                forall|k: int|
                    0 <= k < i ==> #[trigger] sums@[k] == self::total(row.counts.take(k + 1)),
            decreases counts.len() - i,
        {
            proof {
                lemma_total_take(row.counts, i as int);
            }
            let count = counts[i];
            running = running + count;
            entropies.push(Odds { count, total });
            sums.push(running);
            let token = slice_of(&outcomes[i], 0, outcomes[i].len());
            assert(token@ =~= outcomes[i as int]@);
            tokens.push(token);
            i += 1;
        }
        let r = Distribution { tokens, entropies, counts: sums, total };
        proof {
            let d = distribution_of(row);
            assert(r@.tokens =~= d.tokens);
            assert(r@.entropies =~= d.entropies);
            assert(r@.cumulative =~= d.cumulative);
        }
        r
    }

    /// The number of tokens.
    pub fn len(&self) -> (n: usize)
        ensures
            n == self@.tokens.len(),
    {
        self.tokens.len()
    }

    /// The sum of all occurrence counts.
    pub fn total(&self) -> (t: u128)
        ensures
            t == self@.total,
    {
        self.total
    }

    /// Token `i`.
    pub fn token(&self, i: usize) -> (t: &Vec<char>)
        requires
            i < self@.tokens.len(),
        ensures
            t@ == self@.tokens[i as int],
    {
        &self.tokens[i]
    }

    /// The odds of drawing token `i`.
    pub fn odds(&self, i: usize) -> (o: Odds)
        requires
            i < self@.entropies.len(),
        ensures
            o == self@.entropies[i as int],
    {
        self.entropies[i]
    }

    /// The running sum of the occurrence counts up to and including token
    /// `i`.
    pub fn cumulative(&self, i: usize) -> (c: u128)
        requires
            i < self@.cumulative.len(),
        ensures
            c == self@.cumulative[i as int],
    {
        self.counts[i]
    }

    /// The entry on which the number `n` falls.
    pub fn pick(&self, n: u128) -> (i: usize)
        requires
            self@.wf(),
            n < self@.total,
        ensures
            i == self@.pick(n as nat),
            i < self@.tokens.len(),
            self@.below(i as int) <= n < self@.cumulative[i as int],
    {
        let mut i: usize = 0;
        assert(self@.cumulative.skip(0) =~= self@.cumulative);
        while self.counts[i] <= n
            invariant
                self@.wf(),
                n < self@.total,
                i < self.counts.len(),
                self@.below(i as int) <= n,
                self@.pick(n as nat) == i + first_above(self@.cumulative.skip(i as int), n as nat),
            decreases self.counts.len() - i,
        {
            proof {
                assert(self@.cumulative.skip(i as int).drop_first() =~= self@.cumulative.skip(i + 1));
                assert(self@.cumulative.skip(i as int)[0] == self@.cumulative[i as int]);
                if i + 1 == self.counts.len() {
                    assert(self@.cumulative.last() == self@.cumulative[i as int]);
                }
            }
            i += 1;
        }
        proof {
            assert(self@.cumulative.skip(i as int)[0] == self@.cumulative[i as int]);
        }
        i
    }
}

} // verus!
