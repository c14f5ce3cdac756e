//! Chains of lookups in a partial mapping on `0..n`.
//!
//! A mapping is a sequence of optional values: entry `v` holds the value that
//! `v` maps to, if any. Following entries from a start value until a value
//! without entry is reached gives the chain's root.

use vstd::prelude::*;
use vstd::set_lib::{lemma_int_range, lemma_len_subset, set_int_range};

verus! {

/// The chain from `v` stays inside the mapping and reaches a value without
/// entry after at most `hops` lookups.
pub open spec fn chain_ends_within(mapping: Seq<Option<usize>>, v: usize, hops: nat) -> bool
    decreases hops,
{
    &&& v < mapping.len()
    &&& match mapping[v as int] {
        None => true,
        Some(next) => hops > 0 && chain_ends_within(mapping, next, (hops - 1) as nat),
    }
}

/// The chain from `v` stays inside the mapping and is finite.
pub open spec fn chain_ends(mapping: Seq<Option<usize>>, v: usize) -> bool {
    exists|hops: nat| chain_ends_within(mapping, v, hops)
}

/// The value reached from `v` after at most `hops` lookups.
pub open spec fn chain_walk(mapping: Seq<Option<usize>>, v: usize, hops: nat) -> usize
    decreases hops,
{
    if hops == 0 || v >= mapping.len() {
        v
    } else {
        match mapping[v as int] {
            None => v,
            Some(next) => chain_walk(mapping, next, (hops - 1) as nat),
        }
    }
}

/// The value without entry at which the chain from `v` ends; `v` itself where
/// `v` has no entry. Meaningful where `chain_ends(mapping, v)`.
pub open spec fn chain_root(mapping: Seq<Option<usize>>, v: usize) -> usize {
    chain_walk(mapping, v, choose|hops: nat| chain_ends_within(mapping, v, hops))
}

/// Exactly `hops` lookups lead from `v` to `w`.
pub open spec fn chain_reaches(mapping: Seq<Option<usize>>, v: usize, hops: nat, w: usize) -> bool
    decreases hops,
{
    &&& v < mapping.len()
    &&& if hops == 0 {
        v == w
    } else {
        mapping[v as int] matches Some(next) && chain_reaches(mapping, next, (hops - 1) as nat, w)
    }
}

/// Each mapping undoes the other: `forward` takes `u` to `w` exactly where
/// `backward` takes `w` to `u`.
pub open spec fn inverse_mappings(forward: Seq<Option<usize>>, backward: Seq<Option<usize>>) -> bool {
    &&& forward.len() == backward.len()
    &&& forall|u: usize|
        u < forward.len() ==> (#[trigger] forward[u as int] matches Some(w) ==> w < backward.len()
            && backward[w as int] == Some(u))
    &&& forall|w: usize|
        w < backward.len() ==> (#[trigger] backward[w as int] matches Some(u) ==> u < forward.len()
            && forward[u as int] == Some(w))
}

/// The values that have an entry.
pub open spec fn mapped_values(mapping: Seq<Option<usize>>) -> Set<int> {
    Set::new(|v: int| 0 <= v < mapping.len() && mapping[v] is Some)
}

/// A chain that ends within two bounds is walked to the same value under both.
pub proof fn lemma_walk_stable(mapping: Seq<Option<usize>>, v: usize, j: nat, k: nat)
    requires
        chain_ends_within(mapping, v, j),
        chain_ends_within(mapping, v, k),
    ensures
        chain_walk(mapping, v, j) == chain_walk(mapping, v, k),
    decreases j,
{
    match mapping[v as int] {
        None => {},
        Some(next) => {
            lemma_walk_stable(mapping, next, (j - 1) as nat, (k - 1) as nat);
        },
    }
}

/// Walking a chain for as long as it takes to end gives its root, which is
/// inside the mapping and has no entry.
pub proof fn lemma_walk_is_root(mapping: Seq<Option<usize>>, v: usize, hops: nat)
    requires
        chain_ends_within(mapping, v, hops),
    ensures
        chain_ends(mapping, v),
        chain_walk(mapping, v, hops) == chain_root(mapping, v),
        chain_root(mapping, v) < mapping.len(),
        mapping[chain_root(mapping, v) as int] is None,
{
    let chosen = choose|h: nat| chain_ends_within(mapping, v, h);
    lemma_walk_stable(mapping, v, hops, chosen);
    lemma_walk_ends_unmapped(mapping, v, hops);
}

proof fn lemma_walk_ends_unmapped(mapping: Seq<Option<usize>>, v: usize, hops: nat)
    requires
        chain_ends_within(mapping, v, hops),
    ensures
        chain_walk(mapping, v, hops) < mapping.len(),
        mapping[chain_walk(mapping, v, hops) as int] is None,
    decreases hops,
{
    match mapping[v as int] {
        None => {},
        Some(next) => {
            lemma_walk_ends_unmapped(mapping, next, (hops - 1) as nat);
        },
    }
}

/// A value without entry is its own root.
pub proof fn lemma_root_of_unmapped(mapping: Seq<Option<usize>>, v: usize)
    requires
        v < mapping.len(),
        mapping[v as int] is None,
    ensures
        chain_ends(mapping, v),
        chain_root(mapping, v) == v,
{
    assert(chain_ends_within(mapping, v, 0));
    lemma_walk_is_root(mapping, v, 0);
}

proof fn lemma_reaches_one_more(mapping: Seq<Option<usize>>, v: usize, hops: nat, w: usize)
    requires
        chain_reaches(mapping, v, hops, w),
        w < mapping.len(),
        mapping[w as int] matches Some(x) && x < mapping.len(),
    ensures
        chain_reaches(mapping, v, hops + 1, mapping[w as int].unwrap()),
    decreases hops,
{
    let x = mapping[w as int].unwrap();
    if hops == 0 {
        assert(chain_reaches(mapping, x, 0, x));
    } else {
        let next = mapping[v as int].unwrap();
        lemma_reaches_one_more(mapping, next, (hops - 1) as nat, w);
    }
}

proof fn lemma_reaches_backward(
    forward: Seq<Option<usize>>,
    backward: Seq<Option<usize>>,
    v: usize,
    hops: nat,
    w: usize,
)
    requires
        inverse_mappings(forward, backward),
        chain_reaches(forward, v, hops, w),
    ensures
        chain_reaches(backward, w, hops, v),
        w < forward.len(),
    decreases hops,
{
    if hops > 0 {
        let next = forward[v as int].unwrap();
        lemma_reaches_backward(forward, backward, next, (hops - 1) as nat, w);
        assert(backward[next as int] == Some(v));
        lemma_reaches_one_more(backward, w, (hops - 1) as nat, next);
    }
}

proof fn lemma_reaches_then_ends(mapping: Seq<Option<usize>>, v: usize, hops: nat, w: usize)
    requires
        chain_reaches(mapping, v, hops, w),
        w < mapping.len(),
        mapping[w as int] is None,
    ensures
        chain_ends_within(mapping, v, hops),
        chain_walk(mapping, v, hops) == w,
    decreases hops,
{
    if hops > 0 {
        let next = mapping[v as int].unwrap();
        lemma_reaches_then_ends(mapping, next, (hops - 1) as nat, w);
    }
}

proof fn lemma_walk_reaches(mapping: Seq<Option<usize>>, v: usize, hops: nat) -> (taken: nat)
    requires
        chain_ends_within(mapping, v, hops),
    ensures
        chain_reaches(mapping, v, taken, chain_walk(mapping, v, hops)),
    decreases hops,
{
    match mapping[v as int] {
        None => 0,
        Some(next) => {
            let rest = lemma_walk_reaches(mapping, next, (hops - 1) as nat);
            rest + 1
        },
    }
}

/// Under a mapping with an inverse, two values that nothing maps to and that
/// have the same root are the same value.
pub proof fn lemma_sources_with_same_root(
    forward: Seq<Option<usize>>,
    backward: Seq<Option<usize>>,
    u: usize,
    w: usize,
)
    requires
        inverse_mappings(forward, backward),
        chain_ends(forward, u),
        chain_ends(forward, w),
        backward[u as int] is None,
        backward[w as int] is None,
        chain_root(forward, u) == chain_root(forward, w),
    ensures
        u == w,
{
    let root = chain_root(forward, u);
    let hops_u = choose|h: nat| chain_ends_within(forward, u, h);
    let hops_w = choose|h: nat| chain_ends_within(forward, w, h);
    let taken_u = lemma_walk_reaches(forward, u, hops_u);
    let taken_w = lemma_walk_reaches(forward, w, hops_w);
    lemma_reaches_backward(forward, backward, u, taken_u, root);
    lemma_reaches_backward(forward, backward, w, taken_w, root);
    lemma_reaches_then_ends(backward, root, taken_u, u);
    lemma_reaches_then_ends(backward, root, taken_w, w);
    lemma_walk_stable(backward, root, taken_u, taken_w);
}

proof fn lemma_chain_avoids_removed(
    forward: Seq<Option<usize>>,
    backward: Seq<Option<usize>>,
    restored: Seq<Option<usize>>,
    removed: usize,
    v: usize,
    hops: nat,
)
    requires
        inverse_mappings(forward, backward),
        removed < forward.len(),
        forward[removed as int] is None,
        backward[removed as int] is None,
        restored.len() == forward.len(),
        forall|x: int| 0 <= x < forward.len() && x != removed ==> restored[x] == forward[x],
        v != removed,
        chain_ends_within(forward, v, hops),
    ensures
        chain_ends_within(restored, v, hops),
    decreases hops,
{
    match forward[v as int] {
        None => {},
        Some(next) => {
            assert(backward[next as int] == Some(v));
            lemma_chain_avoids_removed(
                forward,
                backward,
                restored,
                removed,
                next,
                (hops - 1) as nat,
            );
        },
    }
}

/// Under a mapping with an inverse, the chain from a value that nothing maps
/// to is finite.
pub proof fn lemma_source_chain_ends(
    forward: Seq<Option<usize>>,
    backward: Seq<Option<usize>>,
    v: usize,
)
    requires
        inverse_mappings(forward, backward),
        v < forward.len(),
        backward[v as int] is None,
    ensures
        chain_ends(forward, v),
    decreases mapped_values(forward).len(),
{
    let n = forward.len() as int;
    lemma_int_range(0, n);
    lemma_len_subset(mapped_values(forward), set_int_range(0, n));
    match forward[v as int] {
        None => {
            assert(chain_ends_within(forward, v, 0));
        },
        Some(next) => {
            let shorter = forward.update(v as int, None);
            let shorter_back = backward.update(next as int, None);
            assert(backward[next as int] == Some(v));
            assert(inverse_mappings(shorter, shorter_back)) by {
                assert forall|u: usize| u < shorter.len() implies (
                #[trigger] shorter[u as int] matches Some(w) ==> w < shorter_back.len()
                    && shorter_back[w as int] == Some(u)) by {
                    if u != v && forward[u as int] is Some {
                        let w = forward[u as int].unwrap();
                        assert(backward[w as int] == Some(u));
                    }
                }
                assert forall|w: usize| w < shorter_back.len() implies (
                #[trigger] shorter_back[w as int] matches Some(u) ==> u < shorter.len()
                    && shorter[u as int] == Some(w)) by {
                    if w != next && backward[w as int] is Some {
                        let u = backward[w as int].unwrap();
                        assert(forward[u as int] == Some(w));
                    }
                }
            }
            assert(mapped_values(shorter) =~= mapped_values(forward).remove(v as int));
            assert(mapped_values(forward).contains(v as int));
            lemma_source_chain_ends(shorter, shorter_back, next);
            let hops = choose|h: nat| chain_ends_within(shorter, next, h);
            lemma_chain_avoids_removed(shorter, shorter_back, forward, v, next, hops);
            assert(chain_ends_within(forward, v, hops + 1));
        },
    }
}

} // verus!
