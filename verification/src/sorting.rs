use vstd::prelude::*;
use vstd::relations::*;

verus! {

/// The order `<=` on bytes, as a relation.
pub open spec fn byte_leq() -> spec_fn(u8, u8) -> bool {
    |a: u8, b: u8| a <= b
}

pub proof fn lemma_byte_leq_total()
    ensures
        total_ordering(byte_leq()),
{
}

/// `s` in ascending order.
pub open spec fn ascending(s: Seq<u8>) -> Seq<u8> {
    s.sort_by(byte_leq())
}

/// A sequence that is sorted and holds the same elements as `s` is `ascending(s)`.
pub proof fn lemma_ascending_unique(s: Seq<u8>, t: Seq<u8>)
    requires
        sorted_by(t, byte_leq()),
        t.to_multiset() == s.to_multiset(),
    ensures
        t == ascending(s),
{
    lemma_byte_leq_total();
    s.lemma_sort_by_ensures(byte_leq());
    vstd::seq_lib::lemma_sorted_unique(t, ascending(s), byte_leq());
}

/// Sorts the bytes in `v` in ascending order (insertion sort).
pub fn sort_bytes(v: &mut Vec<u8>)
    ensures
        final(v)@ == ascending(old(v)@),
{
    broadcast use vstd::seq_lib::group_to_multiset_ensures;
    broadcast use vstd::multiset::group_multiset_axioms;

    let n = v.len();
    let ghost orig = v@;
    let mut i: usize = 1;
    if n == 0 {
        proof {
            lemma_ascending_unique(orig, v@);
        }
        return;
    }
    while i < n
        invariant
            1 <= i <= n,
            n == v.len(),
            v@.to_multiset() == orig.to_multiset(),
            forall|a: int, b: int| 0 <= a < b < i ==> v@[a] <= v@[b],
        decreases n - i,
    {
        let mut j: usize = i;
        while j > 0 && v[j - 1] > v[j]
            invariant
                0 <= j <= i < n,
                n == v.len(),
                v@.to_multiset() == orig.to_multiset(),
                forall|a: int, b: int| 0 <= a < b < j ==> v@[a] <= v@[b],
                forall|a: int, b: int| j <= a < b <= i ==> v@[a] <= v@[b],
                forall|a: int, b: int| 0 <= a < j && j < b <= i ==> v@[a] <= v@[b],
            decreases j,
        {
            let x = v[j - 1];
            let y = v[j];
            let ghost before = v@;
            v.set(j - 1, y);
            v.set(j, x);
            proof {
                let k: int = j - 1;
                let mid = before.update(k, y);
                vstd::seq_lib::to_multiset_update(before, k, y);
                vstd::seq_lib::to_multiset_update(mid, j as int, x);
                assert(v@ == mid.update(j as int, x));
                assert(before[k] == x);
                assert(before.contains(x));
                vstd::seq_lib::to_multiset_contains(before, x);
                assert(before.to_multiset().insert(y).remove(x).insert(x).remove(y) =~= before.to_multiset());
            }
            j = j - 1;
        }
        i = i + 1;
    }
    proof {
        lemma_byte_leq_total();
        assert(sorted_by(v@, byte_leq()));
        lemma_ascending_unique(orig, v@);
    }
}

} // verus!
