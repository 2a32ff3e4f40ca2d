//! Sums over finite sets.

use vstd::prelude::*;

verus! {

/// The sum of `f` over a finite set.
pub open spec fn sum_over<A>(s: Set<A>, f: spec_fn(A) -> int) -> int
    decreases s.len(),
{
    if s.finite() && s.len() > 0 {
        let x = s.choose();
        f(x) + sum_over(s.remove(x), f)
    } else {
        0
    }
}

/// Any element can be taken out of a sum first.
pub proof fn lemma_sum_remove<A>(s: Set<A>, f: spec_fn(A) -> int, y: A)
    requires
        s.finite(),
        s.contains(y),
    ensures
        sum_over(s, f) == f(y) + sum_over(s.remove(y), f),
    decreases s.len(),
{
    let x = s.choose();
    if x != y {
        lemma_sum_remove(s.remove(x), f, y);
        lemma_sum_remove(s.remove(y), f, x);
        assert(s.remove(x).remove(y) =~= s.remove(y).remove(x));
    }
}

pub proof fn lemma_sum_insert<A>(s: Set<A>, f: spec_fn(A) -> int, y: A)
    requires
        s.finite(),
        !s.contains(y),
    ensures
        sum_over(s.insert(y), f) == f(y) + sum_over(s, f),
{
    lemma_sum_remove(s.insert(y), f, y);
    assert(s.insert(y).remove(y) =~= s);
}

/// A sum of terms that are not negative is not negative, and grows with the set.
pub proof fn lemma_sum_grows<A>(s: Set<A>, t: Set<A>, f: spec_fn(A) -> int)
    requires
        t.finite(),
        s.subset_of(t),
        forall|x: A| #[trigger] t.contains(x) ==> f(x) >= 0,
    ensures
        0 <= sum_over(s, f) <= sum_over(t, f),
    decreases t.len(),
{
    if t.len() > 0 {
        let x = t.choose();
        assert(t.contains(x));
        lemma_sum_grows(s.remove(x), t.remove(x), f);
        if s.contains(x) {
            vstd::set_lib::lemma_set_subset_finite(t, s);
            lemma_sum_remove(s, f, x);
        } else {
            assert(s.remove(x) =~= s);
        }
    } else {
        assert(s =~= Set::empty());
    }
}

/// The items of a sequence up to some place, as a set, once one more is taken.
pub proof fn lemma_take_set<A>(s: Seq<A>, i: int)
    requires
        s.no_duplicates(),
        0 <= i < s.len(),
    ensures
        s.take(i + 1).to_set() == s.take(i).to_set().insert(s[i]),
        !s.take(i).to_set().contains(s[i]),
        s.take(i).to_set().finite(),
        s.take(i).to_set().len() == i,
{
    let a = s.take(i);
    let b = s.take(i + 1);
    assert(b =~= a.push(s[i]));
    vstd::seq_lib::seq_to_set_is_finite(a);
    assert forall|x: A| #[trigger] b.to_set().contains(x) == a.to_set().insert(s[i]).contains(x) by {
        if a.contains(x) {
            let k = choose|k: int| 0 <= k < a.len() && a[k] == x;
            assert(b[k] == x);
        }
        if x == s[i] {
            assert(b[i] == x);
        }
        if b.contains(x) {
            let k = choose|k: int| 0 <= k < b.len() && b[k] == x;
            if k < i {
                assert(a[k] == x);
            }
        }
    }
    assert(b.to_set() =~= a.to_set().insert(s[i]));
    a.unique_seq_to_set();
}

} // verus!
