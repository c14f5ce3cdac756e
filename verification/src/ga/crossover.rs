//! Partially matched crossover of two permutations.
//!
//! The two parents exchange the segment between two split points. The exchange
//! may bring a value into a child that the child already holds outside the
//! segment; each such value is replaced by the value that the exchange took
//! away in its place, followed through the segment until a value is reached
//! that the child no longer holds.

use crate::ga::chain::{
    chain_ends,
    chain_ends_within,
    chain_root,
    chain_walk,
    inverse_mappings,
    lemma_root_of_unmapped,
    lemma_source_chain_ends,
    lemma_sources_with_same_root,
    lemma_walk_is_root,
};
use crate::permutation::{is_permutation, lemma_permutations_same_values};
use crate::random::random_index;
use rand::rngs::StdRng;
use vstd::prelude::*;
use vstd::slice::slice_to_vec;

verus! {

/// The mapping that the segment `[lo, hi)` sets up: for each position `p` of
/// the segment, `keys[p]` maps to `values[p]`; no other value has an entry.
pub open spec fn segment_mapping(keys: Seq<usize>, values: Seq<usize>, lo: int, hi: int) -> Seq<
    Option<usize>,
> {
    Seq::new(
        keys.len(),
        |v: int|
            if exists|p: int| lo <= p < hi && (#[trigger] keys[p]) == v {
                Some(values[choose|p: int| lo <= p < hi && (#[trigger] keys[p]) == v])
            } else {
                None
            },
    )
}

/// The child that keeps `own` outside the segment `[lo, hi)` and takes the
/// segment from `other`. Outside the segment each value of `own` is replaced by
/// its root under the mapping from the segment of `other` back to that of
/// `own`.
pub open spec fn pmx_child(own: Seq<usize>, other: Seq<usize>, lo: int, hi: int) -> Seq<usize> {
    Seq::new(
        own.len(),
        |i: int|
            if lo <= i < hi {
                other[i]
            } else {
                chain_root(segment_mapping(other, own, lo, hi), own[i])
            },
    )
}

/// The two parents can be crossed between `lo` and `hi`.
pub open spec fn crossable(a: Seq<usize>, b: Seq<usize>, lo: int, hi: int) -> bool {
    &&& is_permutation(a)
    &&& is_permutation(b)
    &&& a.len() == b.len()
    &&& 0 <= lo <= hi <= a.len()
}

/// What the segment mapping holds: the entry of each key of the segment, and
/// no entry for any value that is no key of the segment.
pub proof fn lemma_segment_mapping_entries(keys: Seq<usize>, values: Seq<usize>, lo: int, hi: int)
    requires
        crossable(keys, values, lo, hi),
    ensures
        segment_mapping(keys, values, lo, hi).len() == keys.len(),
        forall|p: int|
            lo <= p < hi ==> segment_mapping(keys, values, lo, hi)[(#[trigger] keys[p]) as int]
                == Some(values[p]),
        forall|v: int|
            0 <= v < keys.len() && (forall|p: int| lo <= p < hi ==> (#[trigger] keys[p]) != v)
                ==> (#[trigger] segment_mapping(keys, values, lo, hi)[v]) is None,
{
    assert forall|p: int| lo <= p < hi implies segment_mapping(keys, values, lo, hi)[(
    #[trigger] keys[p]) as int] == Some(values[p]) by {
        let v = keys[p] as int;
        let q = choose|q: int| lo <= q < hi && (#[trigger] keys[q]) == v;
        assert(q == p);
    }
}

/// The mappings of the two children undo each other.
pub proof fn lemma_segment_mappings_inverse(a: Seq<usize>, b: Seq<usize>, lo: int, hi: int)
    requires
        crossable(a, b, lo, hi),
    ensures
        inverse_mappings(segment_mapping(b, a, lo, hi), segment_mapping(a, b, lo, hi)),
{
    let forward = segment_mapping(b, a, lo, hi);
    let backward = segment_mapping(a, b, lo, hi);
    lemma_segment_mapping_entries(b, a, lo, hi);
    lemma_segment_mapping_entries(a, b, lo, hi);
    assert forall|u: usize| u < forward.len() implies (#[trigger] forward[u as int] matches Some(w)
        ==> w < backward.len() && backward[w as int] == Some(u)) by {
        if forward[u as int] is Some {
            let p = choose|p: int| lo <= p < hi && (#[trigger] b[p]) == u as int;
            assert(forward[b[p] as int] == Some(a[p]));
            assert(backward[a[p] as int] == Some(b[p]));
        }
    }
    assert forall|w: usize| w < backward.len() implies (#[trigger] backward[w as int] matches Some(
        u,
    ) ==> u < forward.len() && forward[u as int] == Some(w)) by {
        if backward[w as int] is Some {
            let p = choose|p: int| lo <= p < hi && (#[trigger] a[p]) == w as int;
            assert(backward[a[p] as int] == Some(b[p]));
            assert(forward[b[p] as int] == Some(a[p]));
        }
    }
}

/// Taking one more position into the segment adds that position's entry.
pub proof fn lemma_segment_mapping_grows(keys: Seq<usize>, values: Seq<usize>, lo: int, p: int)
    requires
        crossable(keys, values, lo, p + 1),
        lo <= p,
    ensures
        segment_mapping(keys, values, lo, p + 1) == segment_mapping(keys, values, lo, p).update(
            keys[p] as int,
            Some(values[p]),
        ),
{
    let grown = segment_mapping(keys, values, lo, p + 1);
    let before = segment_mapping(keys, values, lo, p);
    lemma_segment_mapping_entries(keys, values, lo, p + 1);
    lemma_segment_mapping_entries(keys, values, lo, p);
    assert forall|v: int| 0 <= v < keys.len() implies grown[v] == before.update(
        keys[p] as int,
        Some(values[p]),
    )[v] by {
        if v == keys[p] {
        } else if exists|q: int| lo <= q < p && (#[trigger] keys[q]) == v {
            let q = choose|q: int| lo <= q < p && (#[trigger] keys[q]) == v;
            assert(grown[keys[q] as int] == Some(values[q]));
            assert(before[keys[q] as int] == Some(values[q]));
        } else {
            assert forall|q: int| lo <= q < p + 1 implies (#[trigger] keys[q]) != v by {}
        }
    }
    assert(grown =~= before.update(keys[p] as int, Some(values[p])));
}

/// Outside the segment every value of a parent has a finite chain, and the
/// child is a permutation that holds the values of its parents.
pub proof fn lemma_pmx_child_is_permutation(own: Seq<usize>, other: Seq<usize>, lo: int, hi: int)
    requires
        crossable(own, other, lo, hi),
    ensures
        forall|i: int|
            0 <= i < own.len() && !(lo <= i < hi) ==> chain_ends(
                segment_mapping(other, own, lo, hi),
                #[trigger] own[i],
            ),
        is_permutation(pmx_child(own, other, lo, hi)),
        pmx_child(own, other, lo, hi).to_multiset() == own.to_multiset(),
{
    let forward = segment_mapping(other, own, lo, hi);
    let backward = segment_mapping(own, other, lo, hi);
    let child = pmx_child(own, other, lo, hi);
    lemma_segment_mappings_inverse(own, other, lo, hi);
    lemma_segment_mapping_entries(other, own, lo, hi);
    lemma_segment_mapping_entries(own, other, lo, hi);
    assert forall|i: int| 0 <= i < own.len() && !(lo <= i < hi) implies chain_ends(
        forward,
        #[trigger] own[i],
    ) && backward[own[i] as int] is None && child[i] < own.len() && forward[child[i] as int]
        is None by {
        assert forall|p: int| lo <= p < hi implies (#[trigger] own[p]) != own[i] by {}
        lemma_source_chain_ends(forward, backward, own[i]);
        let hops = choose|h: nat| chain_ends_within(forward, own[i], h);
        lemma_walk_is_root(forward, own[i], hops);
    }
    assert forall|i: int, j: int| 0 <= i < child.len() && 0 <= j < child.len() && i != j implies child[i]
        != child[j] by {
        let inside_i = lo <= i < hi;
        let inside_j = lo <= j < hi;
        if inside_i && inside_j {
        } else if inside_i {
            assert(forward[other[i] as int] is Some);
            assert(chain_ends(forward, own[j]));
        } else if inside_j {
            assert(forward[other[j] as int] is Some);
            assert(chain_ends(forward, own[i]));
        } else {
            assert(chain_ends(forward, own[i]));
            assert(chain_ends(forward, own[j]));
            if child[i] == child[j] {
                lemma_sources_with_same_root(forward, backward, own[i], own[j]);
            }
        }
    }
    assert forall|i: int| 0 <= i < child.len() implies (#[trigger] child[i]) < child.len() by {
        if !(lo <= i < hi) {
            assert(chain_ends(forward, own[i]));
        }
    }
    lemma_permutations_same_values(child, own);
}

/// Where the two split points coincide, nothing is exchanged: the child is its
/// parent.
pub proof fn lemma_pmx_equal_splits(own: Seq<usize>, other: Seq<usize>, split: int)
    requires
        crossable(own, other, split, split),
    ensures
        pmx_child(own, other, split, split) == own,
{
    let mapping = segment_mapping(other, own, split, split);
    let child = pmx_child(own, other, split, split);
    assert forall|i: int| 0 <= i < own.len() implies child[i] == own[i] by {
        lemma_root_of_unmapped(mapping, own[i]);
    }
    assert(child =~= own);
}

/// Follows the entries of `mapping` from `start` to the end of the chain.
/// Returns the value at which the chain ends, or `None` where `start` has no
/// entry.
pub fn find_root(mapping: &[Option<usize>], start: usize) -> (root: Option<usize>)
    requires
        chain_ends(mapping@, start),
    ensures
        root == match mapping@[start as int] {
            None => None,
            Some(_) => Some(chain_root(mapping@, start)),
        },
{
    let ghost mut hops = choose|h: nat| chain_ends_within(mapping@, start, h);
    let ghost mut at = start;
    proof {
        lemma_walk_is_root(mapping@, start, hops);
    }
    let mut current = mapping[start];
    let mut last = None;
    while current.is_some()
        invariant
            at < mapping@.len(),
            current == mapping@[at as int],
            chain_ends_within(mapping@, at, hops),
            chain_walk(mapping@, at, hops) == chain_root(mapping@, start),
            start < mapping@.len(),
            last is None ==> at == start,
            last is Some ==> last == Some(at) && mapping@[start as int] is Some,
        decreases hops,
    {
        let next = current.unwrap();
        assert(chain_ends_within(mapping@, next, (hops - 1) as nat));
        last = Some(next);
        current = mapping[next];
        proof {
            at = next;
            hops = (hops - 1) as nat;
        }
    }
    last
}

/// Crosses the parents `a` and `b` between the split points: the children
/// exchange the segment `[split1, split2)`, and outside it each child has its
/// parent's values, repaired where the exchange would repeat a value.
pub fn pmx_with_splits(a: &[usize], b: &[usize], split1: usize, split2: usize) -> (children: (
    Vec<usize>,
    Vec<usize>,
))
    requires
        crossable(a@, b@, split1 as int, split2 as int),
    ensures
        children.0@ == pmx_child(a@, b@, split1 as int, split2 as int),
        children.1@ == pmx_child(b@, a@, split1 as int, split2 as int),
        is_permutation(children.0@),
        is_permutation(children.1@),
        children.0@.to_multiset() == a@.to_multiset(),
        children.1@.to_multiset() == b@.to_multiset(),
        split1 == split2 ==> children.0@ == a@ && children.1@ == b@,
{
    let n = a.len();
    let ghost lo = split1 as int;
    let ghost hi = split2 as int;
    let mut genotype_a = slice_to_vec(a);
    let mut genotype_b = slice_to_vec(b);

    let mut mapping_a: Vec<Option<usize>> = vec![None; n];
    let mut mapping_b: Vec<Option<usize>> = vec![None; n];
    proof {
        lemma_segment_mapping_entries(b@, a@, lo, lo);
        lemma_segment_mapping_entries(a@, b@, lo, lo);
        assert(mapping_a@ =~= segment_mapping(b@, a@, lo, lo));
        assert(mapping_b@ =~= segment_mapping(a@, b@, lo, lo));
    }
    for p in split1..split2
        invariant
            crossable(a@, b@, lo, hi),
            lo == split1,
            hi == split2,
            mapping_a@ == segment_mapping(b@, a@, lo, p as int),
            mapping_b@ == segment_mapping(a@, b@, lo, p as int),
    {
        let gene_a = a[p];
        let gene_b = b[p];
        proof {
            lemma_segment_mapping_grows(b@, a@, lo, p as int);
            lemma_segment_mapping_grows(a@, b@, lo, p as int);
        }
        mapping_a[gene_b] = Some(gene_a);
        mapping_b[gene_a] = Some(gene_b);
    }

    for p in split1..split2
        invariant
            crossable(a@, b@, lo, hi),
            lo == split1,
            hi == split2,
            genotype_a@.len() == a@.len(),
            genotype_b@.len() == b@.len(),
            forall|i: int|
                0 <= i < a@.len() ==> genotype_a@[i] == if lo <= i < p {
                    b@[i]
                } else {
                    a@[i]
                },
            forall|i: int|
                0 <= i < a@.len() ==> genotype_b@[i] == if lo <= i < p {
                    a@[i]
                } else {
                    b@[i]
                },
    {
        genotype_a[p] = b[p];
        genotype_b[p] = a[p];
    }

    proof {
        lemma_pmx_child_is_permutation(a@, b@, lo, hi);
        lemma_pmx_child_is_permutation(b@, a@, lo, hi);
    }
    for i in 0..n
        invariant
            crossable(a@, b@, lo, hi),
            lo == split1,
            hi == split2,
            n == a@.len(),
            mapping_a@ == segment_mapping(b@, a@, lo, hi),
            mapping_b@ == segment_mapping(a@, b@, lo, hi),
            genotype_a@.len() == n,
            genotype_b@.len() == n,
            forall|k: int|
                0 <= k < n && !(lo <= k < hi) ==> chain_ends(mapping_a@, #[trigger] a@[k]),
            forall|k: int|
                0 <= k < n && !(lo <= k < hi) ==> chain_ends(mapping_b@, #[trigger] b@[k]),
            forall|k: int|
                0 <= k < i ==> genotype_a@[k] == pmx_child(a@, b@, lo, hi)[k] && genotype_b@[k]
                    == pmx_child(b@, a@, lo, hi)[k],
            forall|k: int|
                i <= k < n ==> genotype_a@[k] == (if lo <= k < hi {
                    b@[k]
                } else {
                    a@[k]
                }) && genotype_b@[k] == (if lo <= k < hi {
                    a@[k]
                } else {
                    b@[k]
                }),
    {
        if i < split1 || i >= split2 {
            proof {
                assert(chain_ends(mapping_a@, a@[i as int]));
                assert(chain_ends(mapping_b@, b@[i as int]));
                if mapping_a@[a@[i as int] as int] is None {
                    lemma_root_of_unmapped(mapping_a@, a@[i as int]);
                }
                if mapping_b@[b@[i as int] as int] is None {
                    lemma_root_of_unmapped(mapping_b@, b@[i as int]);
                }
            }
            if let Some(root) = find_root(mapping_a.as_slice(), genotype_a[i]) {
                genotype_a[i] = root;
            }
            if let Some(root) = find_root(mapping_b.as_slice(), genotype_b[i]) {
                genotype_b[i] = root;
            }
        }
    }

    proof {
        assert(genotype_a@ =~= pmx_child(a@, b@, lo, hi));
        assert(genotype_b@ =~= pmx_child(b@, a@, lo, hi));
        if split1 == split2 {
            lemma_pmx_equal_splits(a@, b@, lo);
            lemma_pmx_equal_splits(b@, a@, lo);
        }
    }
    (genotype_a, genotype_b)
}

/// Crosses the parents `a` and `b` between two split points drawn uniformly
/// from the positions of the genome.
pub fn pmx_crossover(a: &[usize], b: &[usize], rng: &mut StdRng) -> (children: (
    Vec<usize>,
    Vec<usize>,
))
    requires
        is_permutation(a@),
        is_permutation(b@),
        a@.len() == b@.len(),
        a@.len() > 0,
    ensures
        exists|split1: int, split2: int|
            0 <= split1 <= split2 < a@.len() && children.0@ == #[trigger] pmx_child(
                a@,
                b@,
                split1,
                split2,
            ) && children.1@ == pmx_child(b@, a@, split1, split2),
        is_permutation(children.0@),
        is_permutation(children.1@),
        children.0@.to_multiset() == a@.to_multiset(),
        children.1@.to_multiset() == b@.to_multiset(),
{
    let first = random_index(rng, a.len());
    let second = random_index(rng, a.len());
    let (split1, split2) = if first <= second {
        (first, second)
    } else {
        (second, first)
    };
    pmx_with_splits(a, b, split1, split2)
}

} // verus!
