use vstd::prelude::*;
use vstd::std_specs::btree::increasing_seq;
use vstd::std_specs::cmp::OrdSpec;

verus! {

/// The chapter addresses of an ordered walk over a map, in walk order.
pub open spec fn walk_keys(s: Seq<(&usize, &usize)>) -> Seq<usize> {
    s.map_values(|kv: (&usize, &usize)| *kv.0)
}

/// In an increasing walk, an earlier entry has a smaller address.
pub proof fn lemma_walk_increasing(s: Seq<(&usize, &usize)>, i: int, j: int)
    requires
        increasing_seq(walk_keys(s)),
        0 <= i < j < s.len(),
    ensures
        *s[i].0 < *s[j].0,
{
    let ks = walk_keys(s);
    assert(ks[i].cmp_spec(&ks[j]) is Less);
}


/// The addresses of an ordered walk over a map with values of any type.
pub open spec fn walk_keys_of<V>(s: Seq<(&usize, &V)>) -> Seq<usize> {
    s.map_values(|kv: (&usize, &V)| *kv.0)
}

/// In an increasing walk, an earlier entry has a smaller address.
pub proof fn lemma_walk_of_increasing<V>(s: Seq<(&usize, &V)>, i: int, j: int)
    requires
        increasing_seq(walk_keys_of(s)),
        0 <= i < j < s.len(),
    ensures
        *s[i].0 < *s[j].0,
{
    let ks = walk_keys_of(s);
    assert(ks[i].cmp_spec(&ks[j]) is Less);
}

} // verus!
