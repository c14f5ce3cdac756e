//! Permutations of `0..n`, the genomes that the operators work on.

use vstd::prelude::*;
use vstd::seq_lib::{to_multiset_contains, to_multiset_len, to_multiset_update};
use vstd::set_lib::{lemma_int_range, lemma_subset_equality, set_int_range};

verus! {

/// `s` holds each of the numbers `0..s.len()` exactly once.
pub open spec fn is_permutation(s: Seq<usize>) -> bool {
    &&& forall|i: int| 0 <= i < s.len() ==> (#[trigger] s[i]) < s.len()
    &&& s.no_duplicates()
}

/// The sequence `s` with the values at positions `i` and `j` exchanged.
pub open spec fn swapped(s: Seq<usize>, i: int, j: int) -> Seq<usize> {
    s.update(i, s[j]).update(j, s[i])
}

/// Exchanging two values keeps the values of a sequence, each as often.
pub proof fn lemma_swapped_keeps_values(s: Seq<usize>, i: int, j: int)
    requires
        0 <= i < s.len(),
        0 <= j < s.len(),
    ensures
        swapped(s, i, j).to_multiset() == s.to_multiset(),
        swapped(s, i, j).len() == s.len(),
{
    let mid = s.update(i, s[j]);
    to_multiset_update(s, i, s[j]);
    to_multiset_update(mid, j, s[i]);
    to_multiset_contains(s, s[i]);
    to_multiset_contains(s, s[j]);
    assert(s.contains(s[i]));
    assert(s.contains(s[j]));
    assert(swapped(s, i, j).to_multiset() =~= s.to_multiset());
}

/// Exchanging two values of a permutation gives a permutation.
pub proof fn lemma_swapped_permutation(s: Seq<usize>, i: int, j: int)
    requires
        is_permutation(s),
        0 <= i < s.len(),
        0 <= j < s.len(),
    ensures
        is_permutation(swapped(s, i, j)),
{
    let t = swapped(s, i, j);
    assert forall|x: int, y: int| 0 <= x < t.len() && 0 <= y < t.len() && x != y implies t[x]
        != t[y] by {
        let sx = if x == i { j } else if x == j { i } else { x };
        let sy = if y == i { j } else if y == j { i } else { y };
        assert(t[x] == s[sx]);
        assert(t[y] == s[sy]);
        assert(sx != sy);
    }
}

/// A permutation of `0..n` holds every number below `n`.
pub proof fn lemma_permutation_holds_all(s: Seq<usize>, v: usize)
    requires
        is_permutation(s),
        v < s.len(),
    ensures
        s.contains(v),
{
    let n = s.len() as int;
    let values = s.to_set();
    let range = Set::new(|x: usize| x < n);
    let ints = values.map(|x: usize| x as int);
    s.unique_seq_to_set();
    lemma_int_range(0, n);
    assert(ints.subset_of(set_int_range(0, n))) by {
        assert forall|y: int| ints.contains(y) implies set_int_range(0, n).contains(y) by {
            let x = choose|x: usize| values.contains(x) && x as int == y;
            let i = choose|i: int| 0 <= i < s.len() && s[i] == x;
            assert(s[i] < s.len());
        }
    }
    vstd::set_lib::lemma_map_size(values, ints, |x: usize| x as int);
    lemma_subset_equality(ints, set_int_range(0, n));
    assert(set_int_range(0, n).contains(v as int));
    assert(ints.contains(v as int));
    let x = choose|x: usize| values.contains(x) && x as int == v as int;
    assert(x == v);
}

/// Two permutations of the same length hold the same values, each once.
pub proof fn lemma_permutations_same_values(s: Seq<usize>, t: Seq<usize>)
    requires
        is_permutation(s),
        is_permutation(t),
        s.len() == t.len(),
    ensures
        s.to_multiset() == t.to_multiset(),
{
    s.lemma_multiset_has_no_duplicates();
    t.lemma_multiset_has_no_duplicates();
    assert forall|v: usize| s.to_multiset().count(v) == t.to_multiset().count(v) by {
        to_multiset_contains(s, v);
        to_multiset_contains(t, v);
        if v < s.len() {
            lemma_permutation_holds_all(s, v);
            lemma_permutation_holds_all(t, v);
        } else {
            if s.contains(v) {
                let i = choose|i: int| 0 <= i < s.len() && s[i] == v;
                assert(s[i] < s.len());
            }
            if t.contains(v) {
                let i = choose|i: int| 0 <= i < t.len() && t[i] == v;
                assert(t[i] < t.len());
            }
        }
    }
    assert(s.to_multiset() =~= t.to_multiset());
}

/// A sequence that holds the values of a permutation, each as often, is a
/// permutation.
pub proof fn lemma_rearranged_permutation(s: Seq<usize>, t: Seq<usize>)
    requires
        is_permutation(t),
        s.to_multiset() == t.to_multiset(),
    ensures
        is_permutation(s),
        s.len() == t.len(),
{
    to_multiset_len(s);
    to_multiset_len(t);
    t.lemma_multiset_has_no_duplicates();
    s.lemma_multiset_has_no_duplicates_conv();
    assert forall|i: int| 0 <= i < s.len() implies (#[trigger] s[i]) < s.len() by {
        to_multiset_contains(s, s[i]);
        to_multiset_contains(t, s[i]);
        assert(s.contains(s[i]));
        let j = choose|j: int| 0 <= j < t.len() && t[j] == s[i];
        assert(t[j] < t.len());
    }
}

/// The numbers `0..n` in rising order are a permutation.
pub proof fn lemma_identity_is_permutation(s: Seq<usize>)
    requires
        forall|i: int| 0 <= i < s.len() ==> (#[trigger] s[i]) == i,
    ensures
        is_permutation(s),
{
}

} // verus!
