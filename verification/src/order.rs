use vstd::prelude::*;
use std::collections::BTreeMap;
use vstd::std_specs::cmp::OrdSpec;

verus! {

/// The keys that a walk over a map of line numbers yields come in
/// increasing order.
proof fn lemma_keys_increasing(s: Seq<&u32>)
    requires
        vstd::std_specs::btree::increasing_seq(s),
    ensures
        forall|i: int, j: int| 0 <= i < j < s.len() ==> *s[i] < *s[j],
{
    broadcast use {vstd::laws_cmp::group_laws_cmp, vstd::std_specs::btree::axiom_increasing_seq_meaning};
    vstd::std_specs::btree::axiom_increasing_seq_meaning::<&u32>(s);
    assert(vstd::laws_cmp::obeys_cmp::<&u32>());
    assert(forall|i: int, j: int| 0 <= i < j < s.len() ==> (&s[i]).cmp_spec(&s[j]) is Less);
    assert forall|i: int, j: int| 0 <= i < j < s.len() implies *s[i] < *s[j] by {
        assert((&s[i]).cmp_spec(&s[j]) is Less);
    }
}

/// The keys of a map keyed by line number, in increasing order.
pub fn line_numbers<V>(lines: &BTreeMap<u32, V>) -> (r: Vec<u32>)
    ensures
        forall|i: int, j: int| 0 <= i < j < r@.len() ==> r@[i] < r@[j],
        r@.to_set() == lines@.dom(),
{
    let mut r: Vec<u32> = Vec::new();
    let keys = lines.keys();
    let ghost s0 = vstd::std_specs::iter::IteratorSpec::remaining(&keys);
    proof {
        broadcast use vstd::std_specs::btree::axiom_spec_keys_iter;
        lemma_keys_increasing(s0);
        assert(s0.unref().to_set() == lines@.dom());
    }
    for k in it: keys
        invariant
            it.seq() == s0,
            r@ == s0.take(it.index()).map_values(|x: &u32| *x),
    {
        r.push(*k);
        assert(s0.take(it.index() + 1).map_values(|x: &u32| *x) =~= s0.take(it.index()).map_values(|x: &u32| *x).push(*k));
    }
    assert(s0.take(s0.len() as int) =~= s0);
    assert(r@ =~= s0.unref());
    r
}

/// Whether a sequence of numbers is strictly increasing.
pub open spec fn increasing(s: Seq<u32>) -> bool {
    forall|i: int, j: int| 0 <= i < j < s.len() ==> s[i] < s[j]
}

/// The numbers of a set in increasing order.
pub open spec fn sorted_keys(s: Set<u32>) -> Seq<u32> {
    choose|ks: Seq<u32>| increasing(ks) && ks.to_set() == s
}

/// Two increasing sequences with the same numbers are the same.
pub proof fn lemma_sorted_unique(a: Seq<u32>, b: Seq<u32>)
    requires
        increasing(a),
        increasing(b),
        a.to_set() == b.to_set(),
    ensures
        a == b,
    decreases a.len(),
{
    if a.len() == 0 {
        if b.len() > 0 {
            assert(b.to_set().contains(b[0]));
        }
        assert(a =~= b);
    } else {
        assert(a.to_set().contains(a[0]));
        assert(b.to_set().contains(a[0]));
        assert(b.len() > 0);
        assert(a.to_set().contains(b[0]));
        let ia = choose|i: int| 0 <= i < a.len() && a[i] == b[0];
        let ib = choose|i: int| 0 <= i < b.len() && b[i] == a[0];
        assert(a[0] <= b[0]) by {
            if ia > 0 { assert(a[0] < a[ia]); }
        }
        assert(b[0] <= a[0]) by {
            if ib > 0 { assert(b[0] < b[ib]); }
        }
        let a1 = a.drop_first();
        let b1 = b.drop_first();
        assert(a1.to_set() =~= b1.to_set()) by {
            assert forall|x: u32| a1.to_set().contains(x) implies b1.to_set().contains(x) by {
                let i = choose|i: int| 0 <= i < a1.len() && a1[i] == x;
                assert(a[i + 1] == x);
                assert(a[0] < x);
                assert(b.to_set().contains(x));
                let j = choose|j: int| 0 <= j < b.len() && b[j] == x;
                assert(j != 0);
                assert(b1[j - 1] == x);
            }
            assert forall|x: u32| b1.to_set().contains(x) implies a1.to_set().contains(x) by {
                let i = choose|i: int| 0 <= i < b1.len() && b1[i] == x;
                assert(b[i + 1] == x);
                assert(b[0] < x);
                assert(a.to_set().contains(x));
                let j = choose|j: int| 0 <= j < a.len() && a[j] == x;
                assert(j != 0);
                assert(a1[j - 1] == x);
            }
        }
        lemma_sorted_unique(a1, b1);
        assert(a =~= b) by {
            assert forall|i: int| 0 <= i < a.len() implies a[i] == b[i] by {
                if i > 0 {
                    assert(a[i] == a1[i - 1]);
                    assert(b[i] == b1[i - 1]);
                }
            }
        }
    }
}

/// The keys of a map keyed by line number are its numbers in increasing order.
pub proof fn lemma_keys_sorted(ks: Seq<u32>, s: Set<u32>)
    requires
        increasing(ks),
        ks.to_set() == s,
    ensures
        sorted_keys(s) == ks,
{
    assert(increasing(sorted_keys(s)) && sorted_keys(s).to_set() == s);
    lemma_sorted_unique(sorted_keys(s), ks);
}

}
