//! Random-choice primitives: the one trusted draw from the process-wide
//! generator, and verified helpers for picking and removing random vector
//! elements.

use vstd::multiset::Multiset;
use vstd::prelude::*;

verus! {

#[verifier::external_type_specification]
#[verifier::external_body]
pub struct ExThreadRng(rand::rngs::ThreadRng);

/// Relies on rand's `RngExt::random_range`: a draw from the nonempty range
/// `0..bound` returns a value of that range.
#[verifier::external_body]
pub(crate) fn rand_below(rng: &mut rand::rngs::ThreadRng, bound: u64) -> (r: u64)
    requires
        1 <= bound,
    ensures
        r < bound,
{
    rand::RngExt::random_range(rng, 0..bound)
}

/// A uniformly random valid index of `v`, or `None` when `v` is empty.
pub fn vec_random_index<T>(v: &Vec<T>, rng: &mut rand::rngs::ThreadRng) -> (r: Option<usize>)
    ensures
        r is Some <==> v@.len() > 0,
        r matches Some(i) ==> i < v@.len(),
        v@.len() == 1 ==> r == Some(0usize),
{
    let n = v.len();
    if n == 0 {
        None
    } else if n == 1 {
        Some(0)
    } else {
        let i = rand_below(rng, n as u64);
        Some(i as usize)
    }
}

/// Removes a uniformly random element (by swap with the last one) and
/// returns it, or `None` when `v` is empty.
pub fn vec_remove_random<T>(v: &mut Vec<T>, rng: &mut rand::rngs::ThreadRng) -> (r: Option<T>)
    ensures
        r is Some <==> old(v)@.len() > 0,
        old(v)@.len() == 0 ==> final(v)@ == old(v)@,
        r matches Some(t) ==> exists|i: int|
            0 <= i < old(v)@.len() && t == old(v)@[i] && final(v)@ == old(v)@.update(
                i,
                old(v)@.last(),
            ).drop_last(),
{
    match vec_random_index(v, rng) {
        None => None,
        Some(i) => {
            let t = v.swap_remove(i);
            Some(t)
        },
    }
}

/// Swap-removing an element leaves the multiset of the remaining elements.
pub proof fn lemma_swap_remove_multiset<T>(s: Seq<T>, i: int)
    requires
        0 <= i < s.len(),
    ensures
        s.update(i, s.last()).drop_last().to_multiset() == s.to_multiset().remove(s[i]),
{
    broadcast use vstd::seq_lib::group_seq_properties;
    broadcast use vstd::seq_lib::group_to_multiset_ensures;
    broadcast use vstd::multiset::group_multiset_axioms;

    if i == s.len() - 1 {
        assert(s.update(i, s.last()) =~= s);
        assert(s.remove(i) =~= s.drop_last());
    } else {
        let t = s.update(i, s.last()).drop_last();
        let a = s.subrange(0, i);
        let b = s.subrange(i + 1, s.len() - 1);
        let last = seq![s.last()];
        assert(t =~= a + (last + b));
        assert(s.remove(i) =~= a + (b + last));
        vstd::seq_lib::lemma_multiset_commutative(a, last + b);
        vstd::seq_lib::lemma_multiset_commutative(a, b + last);
        vstd::seq_lib::lemma_multiset_commutative(last, b);
        vstd::seq_lib::lemma_multiset_commutative(b, last);
        assert((last + b).to_multiset() =~= (b + last).to_multiset());
    }
    assert(s.remove(i).to_multiset() =~= s.to_multiset().remove(s[i]));
}

/// Swap-removing one element keeps every other value present.
pub proof fn lemma_swap_remove_still_contains<T>(s: Seq<T>, i: int, x: T)
    requires
        0 <= i < s.len(),
        s.contains(x),
        x != s[i],
    ensures
        s.update(i, s.last()).drop_last().contains(x),
{
    broadcast use vstd::seq_lib::group_to_multiset_ensures;
    broadcast use vstd::multiset::group_multiset_axioms;

    lemma_swap_remove_multiset(s, i);
    assert(s.to_multiset().count(x) >= 1);
    assert(s.update(i, s.last()).drop_last().to_multiset().count(x) >= 1);
}

/// The elements of `v` in a random order: repeatedly draws a random
/// element and appends it.
pub fn shuffle_vec<T>(v: Vec<T>, rng: &mut rand::rngs::ThreadRng) -> (r: Vec<T>)
    ensures
        r@.to_multiset() == v@.to_multiset(),
        r@.len() == v@.len(),
{
    broadcast use vstd::seq_lib::group_to_multiset_ensures;

    let ghost orig = v@;
    let mut rest = v;
    let mut out: Vec<T> = Vec::with_capacity(rest.len());
    loop
        invariant
            out@.to_multiset().add(rest@.to_multiset()) == orig.to_multiset(),
            out@.len() + rest@.len() == orig.len(),
        ensures
            rest@.len() == 0,
            out@.to_multiset() == orig.to_multiset(),
            out@.len() == orig.len(),
        decreases rest@.len(),
    {
        let ghost rest_prev = rest@;
        match vec_remove_random(&mut rest, rng) {
            None => {
                proof {
                    broadcast use vstd::seq_lib::group_to_multiset_ensures;
                    broadcast use vstd::multiset::group_multiset_axioms;

                    assert(rest@ =~= Seq::<T>::empty());
                    assert(rest@.to_multiset() =~= Multiset::<T>::empty());
                    assert(out@.to_multiset().add(Multiset::<T>::empty()) =~= out@.to_multiset());
                }
                break ;
            },
            Some(t) => {
                proof {
                    broadcast use vstd::seq_lib::group_to_multiset_ensures;
                    broadcast use vstd::multiset::group_multiset_axioms;

                    let i = choose|i: int|
                        0 <= i < rest_prev.len() && t == rest_prev[i] && rest@ == rest_prev.update(
                            i,
                            rest_prev.last(),
                        ).drop_last();
                    lemma_swap_remove_multiset(rest_prev, i);
                    assert(rest_prev.contains(t));
                    assert(rest_prev.to_multiset().count(t) >= 1);
                    assert(out@.push(t).to_multiset() =~= out@.to_multiset().insert(t));
                    assert(out@.to_multiset().insert(t).add(
                        rest_prev.to_multiset().remove(t),
                    ) =~= out@.to_multiset().add(rest_prev.to_multiset()));
                }
                out.push(t);
            },
        }
    }
    out
}

} // verus!
