//! Merge sort.
use vstd::prelude::*;
use vstd::seq_lib::lemma_multiset_commutative;

verus! {

/// An order on the elements of type `T`, given by an integer rank.
pub trait Ranking<T> {
    spec fn rank(x: T) -> int;

    /// Whether `a` may stand before `b`.
    fn before(a: &T, b: &T) -> (r: bool)
        ensures
            r == (Self::rank(*a) <= Self::rank(*b)),
    ;
}

/// Whether the ranks never fall along the sequence.
pub open spec fn ranked<T, R: Ranking<T>>(s: Seq<T>) -> bool {
    forall|i: int, j: int|
        0 <= i <= j < s.len() ==> R::rank(#[trigger] s[i]) <= R::rank(#[trigger] s[j])
}

/// Merges two ranked vectors.
fn merge<T: Copy, R: Ranking<T>>(a: Vec<T>, b: Vec<T>) -> (out: Vec<T>)
    requires
        ranked::<T, R>(a@),
        ranked::<T, R>(b@),
    ensures
        ranked::<T, R>(out@),
        out@.to_multiset() == a@.to_multiset().add(b@.to_multiset()),
{
    let mut out: Vec<T> = Vec::new();
    let mut i: usize = 0;
    let mut j: usize = 0;
    proof {
        broadcast use vstd::seq_lib::group_to_multiset_ensures;

        assert(a@.take(0) =~= Seq::<T>::empty());
        assert(b@.take(0) =~= Seq::<T>::empty());
        assert(out@.to_multiset() =~= a@.take(0).to_multiset().add(b@.take(0).to_multiset()));
    }
    while i < a.len() || j < b.len()
        invariant
            i <= a.len(),
            j <= b.len(),
            ranked::<T, R>(a@),
            ranked::<T, R>(b@),
            ranked::<T, R>(out@),
            forall|k: int, l: int|
                0 <= k < out@.len() && i <= l < a@.len() ==> R::rank(#[trigger] out@[k]) <= R::rank(
                    #[trigger] a@[l],
                ),
            forall|k: int, l: int|
                0 <= k < out@.len() && j <= l < b@.len() ==> R::rank(#[trigger] out@[k]) <= R::rank(
                    #[trigger] b@[l],
                ),
            out@.to_multiset() == a@.take(i as int).to_multiset().add(
                b@.take(j as int).to_multiset(),
            ),
        decreases a.len() - i + b.len() - j,
    {
        let ghost before = out@;
        let from_a: bool = if i < a.len() && j < b.len() {
            R::before(&a[i], &b[j])
        } else {
            i < a.len()
        };
        if from_a {
            out.push(a[i]);
            proof {
                vstd::seq_lib::to_multiset_build(before, a@[i as int]);
                vstd::seq_lib::to_multiset_build(a@.take(i as int), a@[i as int]);
                assert(a@.take(i + 1) =~= a@.take(i as int).push(a@[i as int]));
                assert(out@.to_multiset() =~= a@.take(i + 1).to_multiset().add(
                    b@.take(j as int).to_multiset(),
                ));
            }
            i = i + 1;
        } else {
            out.push(b[j]);
            proof {
                vstd::seq_lib::to_multiset_build(before, b@[j as int]);
                vstd::seq_lib::to_multiset_build(b@.take(j as int), b@[j as int]);
                assert(b@.take(j + 1) =~= b@.take(j as int).push(b@[j as int]));
                assert(out@.to_multiset() =~= a@.take(i as int).to_multiset().add(
                    b@.take(j + 1).to_multiset(),
                ));
            }
            j = j + 1;
        }
    }
    assert(a@.take(i as int) =~= a@);
    assert(b@.take(j as int) =~= b@);
    out
}

/// Rearranges the elements so that their ranks never fall.
pub fn sort<T: Copy, R: Ranking<T>>(v: Vec<T>) -> (out: Vec<T>)
    ensures
        ranked::<T, R>(out@),
        out@.to_multiset() == v@.to_multiset(),
        out@.len() == v@.len(),
    decreases v@.len(),
{
    if v.len() <= 1 {
        return v;
    }
    let ghost whole = v@;
    let mut left = v;
    let mid = left.len() / 2;
    let right = left.split_off(mid);
    proof {
        assert(whole =~= left@ + right@);
        lemma_multiset_commutative(left@, right@);
    }
    let a = sort::<T, R>(left);
    let b = sort::<T, R>(right);
    let out = merge::<T, R>(a, b);
    proof {
        broadcast use vstd::seq_lib::group_to_multiset_ensures;

        assert(out@.len() == out@.to_multiset().len());
        assert(whole.len() == whole.to_multiset().len());
    }
    out
}

} // verus!
