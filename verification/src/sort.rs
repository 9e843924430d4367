//! Ascending order on offsets, and the fact that it is unique.
use vstd::prelude::*;
use vstd::relations::{sorted_by, total_ordering};

verus! {

/// `<=` on offsets.
pub open spec fn usize_le() -> spec_fn(usize, usize) -> bool {
    |x: usize, y: usize| x <= y
}

/// The offsets of `s` in ascending order.
pub open spec fn sorted_spec(s: Seq<usize>) -> Seq<usize> {
    s.sort_by(usize_le())
}

/// Every element is at most every later one.
pub open spec fn ascending(s: Seq<usize>) -> bool {
    forall|i: int, j: int| 0 <= i < j < s.len() ==> s[i] <= s[j]
}

proof fn lemma_le_total()
    ensures
        total_ordering(usize_le()),
{
}

/// Two ascending sequences with the same elements are equal.
pub proof fn lemma_ascending_unique(a: Seq<usize>, b: Seq<usize>)
    requires
        ascending(a),
        ascending(b),
        a.to_multiset() == b.to_multiset(),
    ensures
        a == b,
    decreases a.len(),
{
    broadcast use vstd::seq_lib::group_to_multiset_ensures;

    vstd::seq_lib::to_multiset_len(a);
    vstd::seq_lib::to_multiset_len(b);
    if a.len() == 0 {
        assert(b.to_multiset().len() == 0);
        assert(b.len() == 0);
        assert(a =~= b);
    } else {
        assert(b.len() == a.len());
        assert(a.to_multiset().count(a[0]) > 0);
        assert(b.contains(a[0]));
        let j = choose|j: int| 0 <= j < b.len() && b[j] == a[0];
        assert(b[0] <= a[0]);
        assert(a.to_multiset().count(b[0]) > 0);
        assert(a.contains(b[0]));
        let k = choose|k: int| 0 <= k < a.len() && a[k] == b[0];
        assert(a[0] <= b[0]);
        vstd::seq_lib::to_multiset_remove(a, 0);
        vstd::seq_lib::to_multiset_remove(b, 0);
        lemma_ascending_unique(a.remove(0), b.remove(0));
        assert forall|i: int| 0 < i < a.len() implies a[i] == b[i] by {
            assert(a[i] == a.remove(0)[i - 1]);
            assert(b[i] == b.remove(0)[i - 1]);
        }
        assert(a =~= b);
    }
}

/// The spec ordering is ascending and keeps the elements.
pub proof fn lemma_sorted_spec(s: Seq<usize>)
    ensures
        ascending(sorted_spec(s)),
        sorted_spec(s).to_multiset() == s.to_multiset(),
{
    lemma_le_total();
    s.lemma_sort_by_ensures(usize_le());
    let t = sorted_spec(s);
    assert forall|i: int, j: int| 0 <= i < j < t.len() implies t[i] <= t[j] by {
        assert(sorted_by(t, usize_le()));
        assert(usize_le()(t[i], t[j]));
    }
}

/// Sort offsets ascending.
pub fn sort_offsets(v: Vec<usize>) -> (res: Vec<usize>)
    ensures
        res@ == sorted_spec(v@),
{
    broadcast use vstd::seq_lib::group_to_multiset_ensures;

    let mut out: Vec<usize> = Vec::new();
    let mut i: usize = 0;
    while i < v.len()
        invariant
            i <= v.len(),
            ascending(out@),
            out@.to_multiset() == v@.take(i as int).to_multiset(),
        decreases v.len() - i,
    {
        let x = v[i];
        let mut pos: usize = 0;
        while pos < out.len() && out[pos] <= x
            invariant
                pos <= out.len(),
                forall|m: int| 0 <= m < pos ==> out@[m] <= x,
            decreases out.len() - pos,
        {
            pos += 1;
        }
        let ghost before = out@;
        out.insert(pos, x);
        proof {
            vstd::seq_lib::to_multiset_insert(before, pos as int, x);
            assert(v@.take(i + 1) =~= v@.take(i as int).push(x));
            vstd::seq_lib::to_multiset_build(v@.take(i as int), x);
            assert forall|a: int, b: int| 0 <= a < b < out@.len() implies out@[a] <= out@[b] by {
                if a < pos && b == pos {
                } else if a == pos && b > pos {
                    assert(before[b - 1] == out@[b]);
                    if pos < before.len() {
                        assert(before[pos as int] > x);
                        assert(before[pos as int] <= before[b - 1]);
                    }
                } else if a < pos && b > pos {
                    assert(before[a] <= before[b - 1]);
                } else if a > pos {
                    assert(before[a - 1] <= before[b - 1]);
                } else {
                    assert(before[a] <= before[b]);
                }
            }
        }
        i += 1;
    }
    proof {
        assert(v@.take(i as int) =~= v@);
        lemma_sorted_spec(v@);
        lemma_ascending_unique(out@, sorted_spec(v@));
    }
    out
}

} // verus!
