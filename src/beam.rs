use vstd::prelude::*;

verus! {

/// A beam entry: a distance key and an element id. Entries are ordered by
/// key first, then by id.
pub type PriorityNode = (u64, u64);

/// The strict order on beam entries: key first, then id.
pub open spec fn node_lt(a: PriorityNode, b: PriorityNode) -> bool {
    a.0 < b.0 || (a.0 == b.0 && a.1 < b.1)
}

/// The entries are strictly ascending, hence pairwise distinct.
pub open spec fn sorted(s: Seq<PriorityNode>) -> bool {
    forall|i: int, j: int| 0 <= i < j < s.len() ==> node_lt(#[trigger] s[i], #[trigger] s[j])
}

/// No two entries of `s` carry the same id.
pub open spec fn ids_distinct(s: Seq<PriorityNode>) -> bool {
    forall|i: int, j: int|
        0 <= i < s.len() && 0 <= j < s.len() && i != j ==> (#[trigger] s[i]).1 != (#[trigger] s[j]).1
}

/// The entries of `s` in order.
pub open spec fn ids_of(s: Seq<PriorityNode>) -> Seq<u64> {
    s.map_values(|p: PriorityNode| p.1)
}

/// Adds `x` to the ascending beam `v`, keeping it ascending; an entry already
/// there is not added twice.
pub fn insert_sorted(v: &mut Vec<PriorityNode>, x: PriorityNode)
    requires
        sorted(old(v)@),
    ensures
        sorted(final(v)@),
        final(v)@.to_set() == old(v)@.to_set().insert(x),
        old(v)@.contains(x) ==> final(v)@ == old(v)@,
        !old(v)@.contains(x) ==> final(v)@.len() == old(v)@.len() + 1,
        ids_distinct(old(v)@) && (forall|i: int| 0 <= i < old(v)@.len() ==> (#[trigger] old(v)@[i]).1 != x.1)
            ==> ids_distinct(final(v)@),
{
    let mut p: usize = 0;
    while p < v.len() && node_lt_exec(v[p], x)
        invariant
            p <= v@.len(),
            forall|i: int| 0 <= i < p ==> node_lt(#[trigger] v@[i], x),
        decreases v@.len() - p,
    {
        p = p + 1;
    }
    if p < v.len() && v[p].0 == x.0 && v[p].1 == x.1 {
        assert(v@[p as int] == x);
        assert(v@.to_set().insert(x) =~= v@.to_set());
        return;
    }
    proof {
        assert forall|i: int| p <= i < v@.len() implies node_lt(x, #[trigger] v@[i]) by {
            if i > p {
                assert(node_lt(v@[p as int], v@[i]));
            }
        }
        assert(!v@.contains(x)) by {
            if v@.contains(x) {
                let k = choose|k: int| 0 <= k < v@.len() && v@[k] == x;
                if k >= p {
                    assert(node_lt(x, v@[k]));
                }
            }
        }
    }
    let ghost old_v = v@;
    v.insert(p, x);
    proof {
        if ids_distinct(old_v) && (forall|i: int| 0 <= i < old_v.len() ==> (#[trigger] old_v[i]).1 != x.1) {
            assert forall|i: int, j: int| 0 <= i < v@.len() && 0 <= j < v@.len() && i != j implies (#[trigger] v@[i]).1 != (#[trigger] v@[j]).1 by {
                if i < p && j < p {
                    assert(v@[i] == old_v[i] && v@[j] == old_v[j]);
                } else if i < p && j > p {
                    assert(v@[i] == old_v[i] && v@[j] == old_v[j - 1]);
                } else if i > p && j < p {
                    assert(v@[i] == old_v[i - 1] && v@[j] == old_v[j]);
                } else if i > p && j > p {
                    assert(v@[i] == old_v[i - 1] && v@[j] == old_v[j - 1]);
                } else if i == p {
                    if j < p {
                        assert(v@[j] == old_v[j]);
                    } else {
                        assert(v@[j] == old_v[j - 1]);
                    }
                } else {
                    if i < p {
                        assert(v@[i] == old_v[i]);
                    } else {
                        assert(v@[i] == old_v[i - 1]);
                    }
                }
            }
        }
        assert(v@ == old_v.insert(p as int, x));
        assert forall|i: int, j: int| 0 <= i < j < v@.len() implies node_lt(
            #[trigger] v@[i],
            #[trigger] v@[j],
        ) by {
            if j < p {
                assert(node_lt(old_v[i], old_v[j]));
            } else if j == p {
            } else if i < p {
                assert(node_lt(old_v[i], x));
                assert(node_lt(x, old_v[j - 1]));
            } else if i == p {
                assert(node_lt(x, old_v[j - 1]));
            } else {
                assert(node_lt(old_v[i - 1], old_v[j - 1]));
            }
        }
        assert forall|y: PriorityNode| #[trigger] v@.to_set().contains(y) <==> old_v.to_set().insert(
            x,
        ).contains(y) by {
            if v@.contains(y) {
                let k = choose|k: int| 0 <= k < v@.len() && v@[k] == y;
                if k < p {
                    assert(old_v[k] == y);
                } else if k > p {
                    assert(old_v[k - 1] == y);
                }
            }
            if old_v.contains(y) {
                let k = choose|k: int| 0 <= k < old_v.len() && old_v[k] == y;
                if k < p {
                    assert(v@[k] == y);
                } else {
                    assert(v@[k + 1] == y);
                }
            }
            if y == x {
                assert(v@[p as int] == x);
            }
        }
        assert(v@.to_set() =~= old_v.to_set().insert(x));
    }
}

/// `node_lt` on executable values.
pub fn node_lt_exec(a: PriorityNode, b: PriorityNode) -> (r: bool)
    ensures
        r == node_lt(a, b),
{
    a.0 < b.0 || (a.0 == b.0 && a.1 < b.1)
}

} // verus!
