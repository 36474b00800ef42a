//! A list of weighted items with weighted random selection by
//! cumulative-weight scan, constant-time weight replacement, and a running
//! total that always equals the sum of the stored weights.

use crate::random::rand_below;
use vstd::pervasive::VecAdditionalExecFns;
use vstd::prelude::*;

verus! {

/// Sum of the weights of a sequence of weighted items.
pub open spec fn sum_weights<T>(s: Seq<(T, u64)>) -> int
    decreases s.len(),
{
    if s.len() == 0 {
        0
    } else {
        sum_weights(s.drop_last()) + s.last().1
    }
}

pub proof fn lemma_sum_weights_nonneg<T>(s: Seq<(T, u64)>)
    ensures
        sum_weights(s) >= 0,
    decreases s.len(),
{
    if s.len() > 0 {
        lemma_sum_weights_nonneg(s.drop_last());
    }
}

pub proof fn lemma_sum_weights_push<T>(s: Seq<(T, u64)>, p: (T, u64))
    ensures
        sum_weights(s.push(p)) == sum_weights(s) + p.1,
{
    assert(s.push(p).drop_last() =~= s);
}

pub proof fn lemma_sum_weights_take_step<T>(s: Seq<(T, u64)>, k: int)
    requires
        0 <= k < s.len(),
    ensures
        sum_weights(s.take(k + 1)) == sum_weights(s.take(k)) + s[k].1,
{
    assert(s.take(k + 1).drop_last() =~= s.take(k));
    assert(s.take(k + 1).last() == s[k]);
}

pub proof fn lemma_sum_weights_split<T>(s: Seq<(T, u64)>, k: int)
    requires
        0 <= k <= s.len(),
    ensures
        sum_weights(s) == sum_weights(s.take(k)) + sum_weights(s.skip(k)),
    decreases s.len() - k,
{
    if k == s.len() {
        assert(s.take(k) =~= s);
        assert(s.skip(k) =~= Seq::<(T, u64)>::empty());
    } else {
        lemma_sum_weights_split(s, k + 1);
        lemma_sum_weights_take_step(s, k);
        assert(s.skip(k).drop_first() =~= s.skip(k + 1));
        lemma_sum_weights_first(s.skip(k));
    }
}

pub proof fn lemma_sum_weights_first<T>(s: Seq<(T, u64)>)
    requires
        s.len() > 0,
    ensures
        sum_weights(s) == s.first().1 + sum_weights(s.drop_first()),
    decreases s.len(),
{
    if s.len() == 1 {
        assert(s.drop_first() =~= Seq::<(T, u64)>::empty());
        assert(s.drop_last() =~= Seq::<(T, u64)>::empty());
        assert(sum_weights(s) == sum_weights(s.drop_last()) + s.last().1);
        assert(s.first() == s.last());
    } else {
        lemma_sum_weights_first(s.drop_last());
        assert(s.drop_last().drop_first() =~= s.drop_first().drop_last());
        assert(s.drop_last().first() == s.first());
        assert(s.drop_first().last() == s.last());
        assert(sum_weights(s) == sum_weights(s.drop_last()) + s.last().1);
        assert(sum_weights(s.drop_last()) == s.first().1 + sum_weights(
            s.drop_first().drop_last(),
        ));
        assert(sum_weights(s.drop_first()) == sum_weights(s.drop_first().drop_last())
            + s.last().1);
    }
}

pub proof fn lemma_sum_weights_update<T>(s: Seq<(T, u64)>, i: int, p: (T, u64))
    requires
        0 <= i < s.len(),
    ensures
        sum_weights(s.update(i, p)) == sum_weights(s) - s[i].1 + p.1,
    decreases s.len(),
{
    if i == s.len() - 1 {
        assert(s.update(i, p).drop_last() =~= s.drop_last());
        assert(s.update(i, p).last() == p);
    } else {
        lemma_sum_weights_update(s.drop_last(), i, p);
        assert(s.update(i, p).drop_last() =~= s.drop_last().update(i, p));
        assert(s.update(i, p).last() == s.last());
    }
}

/// Each single weight is bounded by the sum of all of them.
pub proof fn lemma_weight_le_sum<T>(s: Seq<(T, u64)>, i: int)
    requires
        0 <= i < s.len(),
    ensures
        s[i].1 <= sum_weights(s),
{
    lemma_sum_weights_split(s, i + 1);
    lemma_sum_weights_take_step(s, i);
    lemma_sum_weights_nonneg(s.take(i));
    lemma_sum_weights_nonneg(s.skip(i + 1));
}

/// When every weight is at least 1, the sum is at least the length.
pub proof fn lemma_sum_weights_at_least_len<T>(s: Seq<(T, u64)>)
    requires
        forall|t: int| 0 <= t < s.len() ==> (#[trigger] s[t]).1 >= 1,
    ensures
        sum_weights(s) >= s.len(),
    decreases s.len(),
{
    if s.len() > 0 {
        lemma_sum_weights_at_least_len(s.drop_last());
    }
}

/// When every weight is at most `cap`, the sum is at most `len * cap`.
pub proof fn lemma_sum_weights_bounded<T>(s: Seq<(T, u64)>, cap: int)
    requires
        forall|t: int| 0 <= t < s.len() ==> (#[trigger] s[t]).1 <= cap,
    ensures
        sum_weights(s) <= s.len() * cap,
    decreases s.len(),
{
    if s.len() == 0 {
    } else {
        lemma_sum_weights_bounded(s.drop_last(), cap);
        assert((s.len() - 1) * cap + cap == s.len() * cap) by (nonlinear_arith);
    }
}

/// An ordered collection of items with non-negative weights and a running
/// total. Selection draws a needle below the total and scans cumulative
/// weights; weights may be replaced in place without reordering.
pub struct WeightedList<T> {
    items: Vec<(T, u64)>,
    total_weight: u64,
}

impl<T> View for WeightedList<T> {
    type V = Seq<(T, u64)>;

    closed spec fn view(&self) -> Seq<(T, u64)> {
        self.items@
    }
}

impl<T> WeightedList<T> {
    /// The running total is exactly the sum of the per-item weights.
    pub open spec fn wf(&self) -> bool {
        self.total_spec() == sum_weights(self@)
    }

    pub closed spec fn total_spec(&self) -> int {
        self.total_weight as int
    }

    pub fn with_capacity(capacity: usize) -> (r: Self)
        ensures
            r.wf(),
            r@ =~= Seq::<(T, u64)>::empty(),
    {
        WeightedList { items: Vec::with_capacity(capacity), total_weight: 0 }
    }

    pub fn len(&self) -> (r: usize)
        ensures
            r == self@.len(),
    {
        self.items.len()
    }

    /// The sum of all stored weights.
    pub fn total_weight(&self) -> (r: u64)
        requires
            self.wf(),
        ensures
            r == sum_weights(self@),
    {
        self.total_weight
    }

    /// Appends an item with the given weight and accumulates the total.
    pub fn add(&mut self, item: T, weight: u64)
        requires
            old(self).wf(),
            sum_weights(old(self)@) + weight <= u64::MAX,
        ensures
            final(self).wf(),
            final(self)@ == old(self)@.push((item, weight)),
            sum_weights(final(self)@) == sum_weights(old(self)@) + weight,
    {
        proof {
            lemma_sum_weights_nonneg(self@);
            lemma_sum_weights_push(self@, (item, weight));
        }
        self.items.push((item, weight));
        self.total_weight = self.total_weight + weight;
    }

    /// Replaces the weight at `index`; the total changes by the difference
    /// of the new and the old weight, so it remains the sum of all weights.
    pub fn change_weight(&mut self, index: usize, weight: u64) where T: Copy
        requires
            old(self).wf(),
            index < old(self)@.len(),
            sum_weights(old(self)@) - old(self)@[index as int].1 + weight <= u64::MAX,
        ensures
            final(self).wf(),
            final(self)@ == old(self)@.update(
                index as int,
                (old(self)@[index as int].0, weight),
            ),
            sum_weights(final(self)@) == sum_weights(old(self)@) - old(self)@[index as int].1
                + weight,
    {
        proof {
            lemma_weight_le_sum(self@, index as int);
            lemma_sum_weights_nonneg(self@);
        }
        let ghost prev = self@;
        let pair = self.items[index];
        self.items.set(index, (pair.0, weight));
        proof {
            lemma_sum_weights_update(prev, index as int, (prev[index as int].0, weight));
        }
        self.total_weight = (self.total_weight - pair.1) + weight;
    }

    /// Snapshot of the weights alone, in item order.
    pub fn weights(&self) -> (r: Vec<u64>)
        ensures
            r@.len() == self@.len(),
            forall|i: int| 0 <= i < r@.len() ==> r@[i] == self@[i].1,
    {
        let mut buf: Vec<u64> = Vec::with_capacity(self.items.len());
        let mut idx: usize = 0;
        while idx < self.items.len()
            invariant
                idx <= self@.len(),
                buf@.len() == idx,
                forall|i: int| 0 <= i < idx ==> buf@[i] == self@[i].1,
            decreases self@.len() - idx,
        {
            buf.push(self.items[idx].1);
            idx = idx + 1;
        }
        buf
    }

    /// The item at `index`.
    pub fn get_item(&self, index: usize) -> (r: T) where T: Copy
        requires
            index < self@.len(),
        ensures
            r == self@[index as int].0,
    {
        self.items[index].0
    }

    /// A random index, weighted by the stored weights: `None` on an empty
    /// list, always `0` on a single-element list, and otherwise an index
    /// whose weight is positive, found by scanning cumulative weights for
    /// the drawn needle.
    pub fn random_index(&self, rng: &mut rand::rngs::ThreadRng) -> (r: Option<usize>)
        requires
            self.wf(),
            self@.len() >= 2 ==> sum_weights(self@) > 0,
        ensures
            r is Some <==> self@.len() > 0,
            r matches Some(i) ==> i < self@.len(),
            self@.len() == 1 ==> r == Some(0usize),
            self@.len() >= 2 ==> (r matches Some(i) ==> self@[i as int].1 > 0),
    {
        let n = self.items.len();
        if n == 0 {
            None
        } else if n == 1 {
            Some(0)
        } else {
            let needle = rand_below(rng, self.total_weight);
            let mut running: u64 = 0;
            let mut i: usize = 0;
            loop
                invariant
                    self.wf(),
                    n == self@.len(),
                    2 <= n,
                    i < n,
                    running == sum_weights(self@.take(i as int)),
                    needle >= running,
                    needle < sum_weights(self@),
                ensures
                    i < n,
                    needle < running + self@[i as int].1,
                    needle >= running,
                decreases n - i,
            {
                proof {
                    lemma_sum_weights_take_step(self@, i as int);
                    lemma_sum_weights_split(self@, i + 1);
                    lemma_sum_weights_nonneg(self@.skip(i + 1));
                }
                let w = self.items[i].1;
                if needle < running + w {
                    break ;
                }
                running = running + w;
                i = i + 1;
                proof {
                    if i == n {
                        assert(self@.take(n as int) =~= self@);
                        assert(false);
                    }
                }
            }
            Some(i)
        }
    }

    /// A weighted-random item together with its index; `None` exactly on an
    /// empty list, and the single item of a one-element list every time.
    pub fn get_random(&self, rng: &mut rand::rngs::ThreadRng) -> (r: Option<(T, usize)>) where
        T: Copy,

        requires
            self.wf(),
            self@.len() >= 2 ==> sum_weights(self@) > 0,
        ensures
            r is Some <==> self@.len() > 0,
            r matches Some((t, i)) ==> i < self@.len() && t == self@[i as int].0,
            self@.len() == 1 ==> (r matches Some((t, i)) && i == 0),
            self@.len() >= 2 ==> (r matches Some((t, i)) ==> self@[i as int].1 > 0),
    {
        match self.random_index(rng) {
            None => None,
            Some(i) => Some((self.items[i].0, i)),
        }
    }

    /// Draws as `random_index` does, then swap-removes the chosen slot and
    /// subtracts its weight from the total.
    pub fn remove_random(&mut self, rng: &mut rand::rngs::ThreadRng) -> (r: Option<
        ((T, u64), usize),
    >)
        requires
            old(self).wf(),
            old(self)@.len() >= 2 ==> sum_weights(old(self)@) > 0,
        ensures
            final(self).wf(),
            r is Some <==> old(self)@.len() > 0,
            old(self)@.len() == 0 ==> final(self)@ == old(self)@,
            r matches Some((pair, i)) ==> i < old(self)@.len() && pair == old(self)@[i as int]
                && final(self)@ == old(self)@.update(i as int, old(self)@.last()).drop_last(),
    {
        match self.random_index(rng) {
            None => None,
            Some(i) => {
                proof {
                    lemma_weight_le_sum(self@, i as int);
                    lemma_sum_weights_nonneg(self@);
                }
                let ghost prev = self@;
                let pair = self.items.swap_remove(i);
                self.total_weight = self.total_weight - pair.1;
                proof {
                    lemma_sum_weights_update(prev, i as int, prev.last());
                    if i as int == prev.len() - 1 {
                        assert(prev.update(i as int, prev.last()) =~= prev);
                    } else {
                        assert(prev.update(i as int, prev.last()).last() == prev.last());
                    }
                }
                Some((pair, i))
            },
        }
    }
}

} // verus!
