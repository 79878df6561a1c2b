//! Sorting.

use vstd::prelude::*;

verus! {

/// Values with a total order.
pub trait Ordered: Sized {
    spec fn le(&self, other: &Self) -> bool;

    fn at_most(&self, other: &Self) -> (r: bool)
        ensures
            r == self.le(other),
    ;

    proof fn lemma_total(a: &Self, b: &Self)
        ensures
            a.le(b) || b.le(a),
    ;

    proof fn lemma_transitive(a: &Self, b: &Self, c: &Self)
        requires
            a.le(b),
            b.le(c),
        ensures
            a.le(c),
    ;
}

pub open spec fn sorted<T: Ordered>(s: Seq<T>) -> bool {
    forall|i: int, j: int| 0 <= i < j < s.len() ==> #[trigger] s[i].le(#[trigger] &s[j])
}

/// Puts a value where it belongs, in front of those that are no less.
fn insert_sorted<T: Ordered>(v: &mut Vec<T>, x: T)
    requires
        sorted(old(v)@),
    ensures
        sorted(final(v)@),
        final(v)@.to_multiset() == old(v)@.to_multiset().insert(x),
{
    let ghost before = v@;
    let mut at: usize = 0;
    while at < v.len() && !x.at_most(&v[at])
        invariant
            v@ == before,
            sorted(before),
            at <= before.len(),
            forall|j: int| 0 <= j < at ==> #[trigger] before[j].le(&x),
        decreases before.len() - at,
    {
        proof {
            T::lemma_total(&before[at as int], &x);
        }
        at = at + 1;
    }
    proof {
        assert forall|j: int| at <= j < before.len() implies x.le(#[trigger] &before[j]) by {
            if j > at {
                T::lemma_transitive(&x, &before[at as int], &before[j]);
            }
        }
    }
    v.insert(at, x);
    proof {
        broadcast use vstd::seq_lib::group_to_multiset_ensures;

        assert(v@ =~= before.insert(at as int, x));
        assert forall|i: int, j: int| 0 <= i < j < v@.len() implies #[trigger] v@[i].le(
            #[trigger] &v@[j],
        ) by {
            if i < at && j > at {
                assert(v@[j] == before[j - 1]);
                assert(v@[i] == before[i]);
            } else if i < at && j < at {
                assert(v@[j] == before[j]);
                assert(v@[i] == before[i]);
            } else if i > at {
                assert(v@[j] == before[j - 1]);
                assert(v@[i] == before[i - 1]);
            }
        }
        assert(v@.remove(at as int) =~= before);
        assert(v@[at as int] == x);
        assert(v@.to_multiset().remove(x) =~= before.to_multiset());
        assert(v@.contains(x));
        assert(v@.to_multiset() =~= before.to_multiset().insert(x));
    }
}

/// The values in order.
pub fn sort<T: Ordered>(v: Vec<T>) -> (r: Vec<T>)
    ensures
        sorted(r@),
        r@.to_multiset() == v@.to_multiset(),
        r@.len() == v@.len(),
{
    let ghost all = v@;
    let mut rest: Vec<T> = v;
    let mut out: Vec<T> = Vec::new();
    proof {
        broadcast use vstd::seq_lib::group_to_multiset_ensures;

        assert(out@.to_multiset().add(rest@.to_multiset()) =~= all.to_multiset());
    }
    while rest.len() > 0
        invariant
            sorted(out@),
            out@.to_multiset().add(rest@.to_multiset()) == all.to_multiset(),
        decreases rest@.len(),
    {
        let ghost before = rest@;
        let ghost had = out@;
        match rest.pop() {
            Some(x) => {
                insert_sorted(&mut out, x);
                proof {
                    broadcast use vstd::seq_lib::group_to_multiset_ensures;

                    assert(before =~= rest@.push(x));
                    assert(out@.to_multiset().add(rest@.to_multiset()) =~= had.to_multiset().add(
                        before.to_multiset(),
                    ));
                }
            },
            None => {},
        }
    }
    proof {
        broadcast use vstd::seq_lib::group_to_multiset_ensures;

        assert(out@.to_multiset() =~= all.to_multiset());
        assert(out@.to_multiset().len() == all.to_multiset().len());
        assert(out@.len() == all.len());
    }
    out
}

/// A rearrangement stays one when a function is applied to every value.
pub proof fn lemma_rearranged_map<A, B>(a: Seq<A>, b: Seq<A>, f: spec_fn(A) -> B)
    requires
        a.to_multiset() == b.to_multiset(),
    ensures
        a.map_values(f).to_multiset() == b.map_values(f).to_multiset(),
    decreases a.len(),
{
    broadcast use vstd::seq_lib::group_to_multiset_ensures;

    assert(a.to_multiset().len() == b.to_multiset().len());
    assert(a.to_multiset().len() == a.len());
    assert(b.to_multiset().len() == b.len());
    if a.len() == 0 {
        assert(a.map_values(f) =~= b.map_values(f));
    } else {
        let x = a.last();
        let front = a.drop_last();
        assert(a =~= front.push(x));
        assert(a.contains(x));
        assert(b.to_multiset().count(x) > 0);
        assert(b.contains(x));
        let i = choose|i: int| 0 <= i < b.len() && b[i] == x;
        assert(b.remove(i).to_multiset() =~= b.to_multiset().remove(x));
        assert(a.to_multiset() =~= front.to_multiset().insert(x));
        assert(front.to_multiset() =~= b.remove(i).to_multiset());
        lemma_rearranged_map(front, b.remove(i), f);
        assert(a.map_values(f) =~= front.map_values(f).push(f(x)));
        assert(b.map_values(f).remove(i) =~= b.remove(i).map_values(f));
        assert(b.map_values(f)[i] == f(x));
        assert(b.map_values(f).contains(f(x)));
        assert(b.map_values(f).to_multiset().remove(f(x)) =~= b.remove(i).map_values(
            f,
        ).to_multiset());
        assert(b.map_values(f).to_multiset() =~= b.remove(i).map_values(f).to_multiset().insert(
            f(x),
        ));
        assert(a.map_values(f).to_multiset() =~= front.map_values(f).to_multiset().insert(f(x)));
    }
}

} // verus!
