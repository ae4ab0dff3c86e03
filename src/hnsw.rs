use crate::beam::{ids_distinct, insert_sorted, ids_of, node_lt, sorted, PriorityNode};
use crate::layer::Layer;
use vstd::prelude::*;
use vstd::set_lib::{lemma_int_range, lemma_len_subset, set_int_range};

verus! {

/// How inserting `id` changed one layer from `before` to `after`: `id` got a
/// neighbour list, not empty when the degree bound `deg` allows any; each of
/// those neighbours links back to `id`, by an append when its list had room
/// and otherwise by keeping `deg` of its old neighbours and `id`; every other
/// node kept its list.
pub open spec fn linked_in(before: Map<u64, Seq<u64>>, after: Map<u64, Seq<u64>>, id: u64, deg: nat) -> bool {
    &&& after.contains_key(id)
    &&& (deg > 0 ==> after[id].len() > 0)
    &&& forall|k: u64|
        #[trigger] before.contains_key(k) ==> if after[id].contains(k) {
            &&& before[k].len() < deg ==> after[k] == before[k].push(id)
            &&& before[k].len() >= deg ==> after[k].len() == deg
            &&& forall|j: int|
                0 <= j < after[k].len() ==> before[k].contains(#[trigger] after[k][j]) || after[k][j] == id
        } else {
            after[k] == before[k]
        }
}

/// The new element `id` took as its neighbours in `after` the first `deg` ids
/// of an ascending beam over the nodes of `before`, keyed by the distances
/// that `dp` gave to `id`; a beam of fewer than `efc` entries holds every
/// neighbour in `before` of each of its nodes.
pub open spec fn chose_nearest<G: Fn(u64, u64) -> u64>(
    dp: &G,
    before: Map<u64, Seq<u64>>,
    after: Map<u64, Seq<u64>>,
    id: u64,
    deg: nat,
    efc: nat,
) -> bool {
    exists|w: Seq<PriorityNode>|
        #[trigger] sorted(w) && w.len() >= 1 && after[id] == ids_of(w).take(
            if deg < w.len() {
                deg as int
            } else {
                w.len() as int
            },
        ) && (forall|t: int|
            0 <= t < w.len() ==> before.contains_key(#[trigger] w[t].1) && dp.ensures(
                (w[t].1, id),
                w[t].0,
            )) && (w.len() < efc ==> beam_closed(before, w))
}

/// Node `k` had the full list `old_list` when `id` joined it, and kept
/// `new_list`: the first `deg` ids of an ascending beam holding `id` and each
/// old neighbour once, keyed by the distances `dp` gave between each of them
/// and `k`.
pub open spec fn pruned<G: Fn(u64, u64) -> u64>(
    dp: &G,
    old_list: Seq<u64>,
    new_list: Seq<u64>,
    k: u64,
    id: u64,
    deg: nat,
) -> bool {
    exists|w: Seq<PriorityNode>|
        #[trigger] sorted(w) && w.len() == old_list.len() + 1 && new_list == ids_of(w).take(deg as int)
            && has_id(w, id) && (forall|j: int| 0 <= j < old_list.len() ==> has_id(w, #[trigger] old_list[j]))
            && (forall|t: int|
            0 <= t < w.len() ==> ((#[trigger] w[t]).1 == id && dp.ensures((k, id), w[t].0)) || (w[t].1
                != id && dp.ensures((w[t].1, k), w[t].0)))
}

/// Each neighbour of the new element `id` whose list in `before` was full
/// (`deg` entries or more) kept the nearest ones, as `pruned` says.
pub open spec fn kept_nearest<G: Fn(u64, u64) -> u64>(
    dp: &G,
    before: Map<u64, Seq<u64>>,
    after: Map<u64, Seq<u64>>,
    id: u64,
    deg: nat,
) -> bool {
    forall|k: u64|
        #[trigger] before.contains_key(k) && after[id].contains(k) && before[k].len() >= deg ==> pruned(
            dp,
            before[k],
            after[k],
            k,
            id,
            deg,
        )
}

/// `v` is the id of some entry of `s`.
pub open spec fn has_id(s: Seq<PriorityNode>, v: u64) -> bool {
    exists|t: int| 0 <= t < s.len() && (#[trigger] s[t]).1 == v
}

/// Every neighbour of `v` in `m` is in `vis`.
pub open spec fn expanded(m: Map<u64, Seq<u64>>, vis: Set<int>, v: u64) -> bool {
    forall|j: int| 0 <= j < m[v].len() ==> vis.contains(#[trigger] m[v][j] as int)
}

/// The ids of `w` hold every neighbour in `m` of each of them.
pub open spec fn beam_closed(m: Map<u64, Seq<u64>>, w: Seq<PriorityNode>) -> bool {
    forall|t: int, j: int|
        0 <= t < w.len() && 0 <= j < m[w[t].1].len() ==> has_id(w, #[trigger] m[w[t].1][j])
}

/// While the beam `w` has fewer than `ef` entries it has dropped nothing: it
/// holds every visited node and every candidate, and each visited node that is
/// neither a candidate nor `cur` (the one being expanded) has all its
/// neighbours visited.
spec fn beam_complete(
    m: Map<u64, Seq<u64>>,
    w: Seq<PriorityNode>,
    cand: Seq<PriorityNode>,
    vis: Set<int>,
    ef: int,
    cur: Option<u64>,
) -> bool {
    w.len() < ef ==> {
        &&& forall|v: u64| #[trigger] vis.contains(v as int) ==> has_id(w, v)
        &&& forall|i: int| 0 <= i < cand.len() ==> w.contains(#[trigger] cand[i])
        &&& forall|v: u64|
            #[trigger] vis.contains(v as int) && m.contains_key(v) && !has_id(cand, v) && cur != Some(v)
                ==> expanded(m, vis, v)
    }
}

proof fn lemma_has_id_grow(a: Seq<PriorityNode>, b: Seq<PriorityNode>, v: u64)
    requires
        a.to_set().subset_of(b.to_set()),
        has_id(a, v),
    ensures
        has_id(b, v),
{
    let t = choose|t: int| 0 <= t < a.len() && (#[trigger] a[t]).1 == v;
    assert(a.to_set().contains(a[t]));
    assert(b.to_set().contains(a[t]));
    let k = choose|k: int| 0 <= k < b.len() && b[k] == a[t];
    assert(b[k].1 == v);
}

proof fn lemma_expanded_mono(m: Map<u64, Seq<u64>>, vis0: Set<int>, vis: Set<int>, v: u64)
    requires
        vis0.subset_of(vis),
        expanded(m, vis0, v),
    ensures
        expanded(m, vis, v),
{
    assert forall|j: int| 0 <= j < m[v].len() implies vis.contains(#[trigger] m[v][j] as int) by {
        assert(vis0.contains(m[v][j] as int));
    }
}

/// `list` with `x` added at the end.
fn appended(list: &Vec<u64>, x: u64) -> (r: Vec<u64>)
    ensures
        r@ == list@.push(x),
{
    let mut r: Vec<u64> = Vec::new();
    let mut i: usize = 0;
    while i < list.len()
        invariant
            i <= list@.len(),
            r@ == list@.take(i as int),
        decreases list@.len() - i,
    {
        r.push(list[i]);
        i = i + 1;
        assert(r@ =~= list@.take(i as int));
    }
    assert(list@.take(list@.len() as int) =~= list@);
    r.push(x);
    r
}

/// A layer whose nodes are below `bound`, have at most `deg` neighbours each,
/// and link only to other nodes of the same layer (no node links to itself,
/// none twice).
pub open spec fn layer_ok(m: Map<u64, Seq<u64>>, bound: nat, deg: nat) -> bool {
    &&& forall|k: u64|
        #[trigger] m.contains_key(k) ==> (k as int) < bound && m[k].len() <= deg
            && m[k].no_duplicates()
    &&& forall|k: u64, j: int|
        #[trigger] m.contains_key(k) && 0 <= j < m[k].len() ==> m.contains_key(#[trigger] m[k][j])
            && m[k][j] != k
}

/// The hierarchical proximity graph. Element ids are dense and given in
/// insertion order; vectors themselves are held by the caller, and distances
/// come from a caller-supplied function of element ids.
pub struct Hnsw {
    m: usize,
    m0: usize,
    efc: usize,
    layers: Vec<Layer>,
    enter_point: Option<u64>,
    count: usize,
}

impl Hnsw {
    /// Number of elements inserted so far.
    pub closed spec fn spec_len(&self) -> nat {
        self.count as nat
    }

    /// Number of elements inserted so far.
    pub fn len(&self) -> (r: usize)
        ensures
            r == self.spec_len(),
    {
        self.count
    }

    /// Number of layers.
    pub fn layer_count(&self) -> (r: usize)
        ensures
            r == self.num_layers(),
    {
        self.layers.len()
    }

    /// The current entry point, if the graph is not empty.
    pub fn enter_point(&self) -> (r: Option<u64>)
        ensures
            r == self.entry(),
    {
        self.enter_point
    }

    /// Whether element `id` is present in layer `l`.
    pub fn contains(&self, l: usize, id: u64) -> (r: bool)
        requires
            l < self.num_layers(),
        ensures
            r == self.layer(l as int).contains_key(id),
    {
        self.layers[l].contains(id)
    }

    /// The neighbour list of `id` in layer `l`, if `id` is present there.
    pub fn neighbors(&self, l: usize, id: u64) -> (r: Option<&Vec<u64>>)
        requires
            l < self.num_layers(),
        ensures
            match r {
                Some(v) => self.layer(l as int).contains_key(id) && v@ == self.layer(l as int)[id],
                None => !self.layer(l as int).contains_key(id),
            },
    {
        self.layers[l].neighbors(id)
    }

    /// The number of neighbours of `id` in layer `l`, if `id` is present there.
    pub fn degree(&self, l: usize, id: u64) -> (r: Option<usize>)
        requires
            l < self.num_layers(),
        ensures
            match r {
                Some(d) => self.layer(l as int).contains_key(id) && d == self.layer(
                    l as int,
                )[id].len(),
                None => !self.layer(l as int).contains_key(id),
            },
    {
        match self.layers[l].neighbors(id) {
            Some(v) => Some(v.len()),
            None => None,
        }
    }

    pub closed spec fn num_layers(&self) -> nat {
        self.layers@.len()
    }

    /// Adjacency of layer `l` (0 is the base layer).
    pub closed spec fn layer(&self, l: int) -> Map<u64, Seq<u64>> {
        self.layers@[l]@
    }

    pub closed spec fn entry(&self) -> Option<u64> {
        self.enter_point
    }

    pub closed spec fn spec_m(&self) -> nat {
        self.m as nat
    }

    pub closed spec fn spec_m0(&self) -> nat {
        self.m0 as nat
    }

    pub closed spec fn spec_efc(&self) -> nat {
        self.efc as nat
    }

    /// The degree bound of layer `l`: M0 on the base layer, M above it.
    pub open spec fn max_degree(&self, l: int) -> nat {
        if l == 0 {
            self.spec_m0()
        } else {
            self.spec_m()
        }
    }

    /// Every node of every layer has at most `max_degree` neighbours.
    pub open spec fn degrees_bounded(&self) -> bool {
        forall|l: int, k: u64|
            0 <= l < self.num_layers() && #[trigger] self.layer(l).contains_key(k)
                ==> self.layer(l)[k].len() <= self.max_degree(l)
    }

    /// A node present in a layer above the base is present in the layer below.
    pub open spec fn layers_nested(&self) -> bool {
        forall|l: int, k: u64|
            0 < l < self.num_layers() && #[trigger] self.layer(l).contains_key(k)
                ==> self.layer(l - 1).contains_key(k)
    }

    /// No node is its own neighbour, no neighbour list repeats a node, and
    /// every neighbour is a node of the same layer.
    pub open spec fn links_proper(&self) -> bool {
        &&& forall|l: int, k: u64|
            0 <= l < self.num_layers() && #[trigger] self.layer(l).contains_key(k)
                ==> self.layer(l)[k].no_duplicates()
        &&& forall|l: int, k: u64, j: int|
            0 <= l < self.num_layers() && #[trigger] self.layer(l).contains_key(k) && 0 <= j
                < self.layer(l)[k].len() ==> self.layer(l)[k][j] != k && self.layer(l).contains_key(
                #[trigger] self.layer(l)[k][j],
            )
    }

    /// The entry point is present in the top layer; there is one exactly when
    /// the graph holds an element.
    pub open spec fn entry_on_top(&self) -> bool {
        match self.entry() {
            Some(e) => self.num_layers() > 0 && self.layer(self.num_layers() - 1).contains_key(e),
            None => self.spec_len() == 0,
        }
    }

    /// The ids in use are exactly 0..len: each is in the base layer, and no
    /// layer holds another.
    pub open spec fn ids_dense(&self) -> bool {
        &&& forall|k: u64| (k as int) < self.spec_len() ==> #[trigger] self.layer(0).contains_key(k)
        &&& forall|l: int, k: u64|
            0 <= l < self.num_layers() && #[trigger] self.layer(l).contains_key(k) ==> (k as int)
                < self.spec_len()
    }

    /// The graph's invariant, which `new` establishes and `insert` keeps.
    pub open spec fn wf(&self) -> bool {
        &&& (self.spec_len() == 0) == (self.num_layers() == 0)
        &&& match self.entry() {
            Some(e) => self.num_layers() > 0 && self.layer(self.num_layers() - 1).contains_key(e),
            None => self.spec_len() == 0,
        }
        &&& forall|l: int|
            0 <= l < self.num_layers() ==> layer_ok(
                #[trigger] self.layer(l),
                self.spec_len(),
                self.max_degree(l),
            )
        &&& forall|l: int|
            0 < l < self.num_layers() ==> #[trigger] self.layer(l).dom().subset_of(
                self.layer(l - 1).dom(),
            )
        &&& forall|k: u64| (k as int) < self.spec_len() ==> #[trigger] self.layer(0).contains_key(k)
    }

    /// Beam search within layer `lc`, from `ep`, keeping at most `ef` entries
    /// (at least one): the nearest candidate is taken and its neighbours are
    /// visited, until that candidate is farther than the farthest entry kept.
    /// `dq(e)` is the distance key of element `e` to the query. The result is
    /// ascending, non-empty, holds each node once, and only nodes of the layer
    /// with the keys that `dq` gave for them.
    fn search_layer<F: Fn(u64) -> u64>(&self, dq: &F, ep: u64, ef: usize, lc: usize) -> (w: Vec<
        PriorityNode,
    >)
        requires
            lc < self.num_layers(),
            layer_ok(self.layer(lc as int), self.spec_len(), self.max_degree(lc as int)),
            self.layer(lc as int).contains_key(ep),
            forall|i: u64| (i as int) < self.spec_len() ==> #[trigger] dq.requires((i,)),
        ensures
            sorted(w@),
            ids_distinct(w@),
            exists|k0: u64| dq.ensures((ep,), k0) && w@[0].0 <= k0,
            w@.len() < ef ==> has_id(w@, ep) && beam_closed(self.layer(lc as int), w@),
            1 <= w@.len() <= if ef == 0 {
                1
            } else {
                ef as int
            },
            forall|i: int|
                0 <= i < w@.len() ==> #[trigger] self.layer(lc as int).contains_key(w@[i].1)
                    && dq.ensures((w@[i].1,), w@[i].0),
    {
        let layer = &self.layers[lc];
        let n = self.count;
        let mut visited: Vec<bool> = Vec::new();
        while visited.len() < n
            invariant
                visited@.len() <= n,
                forall|i: int| 0 <= i < visited@.len() ==> !visited@[i],
            decreases n - visited@.len(),
        {
            visited.push(false);
        }
        let ep_dist = dq(ep);
        let mut candidates: Vec<PriorityNode> = Vec::new();
        candidates.push((ep_dist, ep));
        let mut w: Vec<PriorityNode> = Vec::new();
        w.push((ep_dist, ep));
        assert(self.layer(lc as int).contains_key(ep));
        visited.set(ep as usize, true);
        let ghost mut vis: Set<int> = set![ep as int];
        proof {
            lemma_int_range(0, n as int);
            assert(w@[0] == (ep_dist, ep));
            assert(candidates@[0] == (ep_dist, ep));
            assert(w@.contains(candidates@[0]));
            assert forall|v: u64| #[trigger] vis.contains(v as int) && layer@.contains_key(v) && !has_id(candidates@, v)
                implies expanded(layer@, vis, v) by {
                assert(v == ep);
            }
        }
        let mut done = false;
        while candidates.len() > 0 && !done
            invariant
                done ==> w@.len() >= ef,
                beam_complete(layer@, w@, candidates@, vis, ef as int, None),
                vis.contains(ep as int),
                layer_ok(self.layer(lc as int), self.spec_len(), self.max_degree(lc as int)),
                layer == &self.layers@[lc as int],
                lc < self.num_layers(),
                n == self.spec_len(),
                forall|i: u64| (i as int) < self.spec_len() ==> #[trigger] dq.requires((i,)),
                visited@.len() == n,
                forall|i: int| 0 <= i < n ==> (visited@[i] <==> #[trigger] vis.contains(i)),
                vis.subset_of(set_int_range(0, n as int)),
                vis.finite(),
                sorted(candidates@),
                sorted(w@),
                ids_distinct(w@),
                dq.ensures((ep,), ep_dist),
                w@[0].0 <= ep_dist,
                1 <= w@.len() <= if ef == 0 {
                    1
                } else {
                    ef as int
                },
                forall|i: int|
                    0 <= i < w@.len() ==> layer@.contains_key(#[trigger] w@[i].1) && dq.ensures(
                        (w@[i].1,),
                        w@[i].0,
                    ) && vis.contains(w@[i].1 as int),
                forall|i: int|
                    0 <= i < candidates@.len() ==> #[trigger] layer@.contains_key(
                        candidates@[i].1,
                    ),
            decreases 2 * (n - vis.len()) + candidates@.len(),
        {
            proof {
                lemma_int_range(0, n as int);
                lemma_len_subset(vis, set_int_range(0, n as int));
            }
            let ghost cand_before = candidates@;
            let c = candidates.remove(0);
            assert(sorted(candidates@)) by {
                assert forall|i: int, j: int| 0 <= i < j < candidates@.len() implies node_lt(
                    #[trigger] candidates@[i],
                    #[trigger] candidates@[j],
                ) by {
                    assert(candidates@[i] == cand_before[i + 1]);
                    assert(node_lt(cand_before[i + 1], cand_before[j + 1]));
                }
            }
            let f_dist = w[w.len() - 1].0;
            proof {
                if w@.len() < ef {
                    assert(w@.contains(cand_before[0]));
                    let t = choose|t: int| 0 <= t < w@.len() && w@[t] == cand_before[0];
                    if t < w@.len() - 1 {
                        assert(node_lt(w@[t], w@[w@.len() - 1]));
                    }
                    assert(c.0 <= f_dist);
                    assert forall|i: int| 0 <= i < candidates@.len() implies w@.contains(#[trigger] candidates@[i]) by {
                        assert(candidates@[i] == cand_before[i + 1]);
                    }
                    assert forall|v: u64|
                        #[trigger] vis.contains(v as int) && layer@.contains_key(v) && !has_id(candidates@, v) && Some(c.1) != Some(v)
                            implies expanded(layer@, vis, v) by {
                        if has_id(cand_before, v) {
                            let t = choose|t: int| 0 <= t < cand_before.len() && (#[trigger] cand_before[t]).1 == v;
                            if t > 0 {
                                assert(candidates@[t - 1] == cand_before[t]);
                            }
                        }
                    }
                }
            }
            let ghost measure0 = 2 * (n - vis.len()) + candidates@.len();
            assert(measure0 < 2 * (n - vis.len()) + cand_before.len());
            if c.0 > f_dist {
                done = true;
            } else {
            match layer.neighbors(c.1) {
                None => {},
                Some(nbrs) => {
                    let mut j: usize = 0;
                    while j < nbrs.len()
                        invariant
                            layer_ok(self.layer(lc as int), self.spec_len(), self.max_degree(lc as int)),
                            layer == &self.layers@[lc as int],
                            lc < self.num_layers(),
                            n == self.spec_len(),
                            layer@.contains_key(c.1),
                            nbrs@ == layer@[c.1],
                            j <= nbrs@.len(),
                            forall|i: u64| (i as int) < self.spec_len() ==> #[trigger] dq.requires((i,)),
                            visited@.len() == n,
                            forall|i: int| 0 <= i < n ==> (visited@[i] <==> #[trigger] vis.contains(i)),
                            vis.subset_of(set_int_range(0, n as int)),
                            vis.finite(),
                            sorted(candidates@),
                            sorted(w@),
                            ids_distinct(w@),
                            dq.ensures((ep,), ep_dist),
                            w@[0].0 <= ep_dist,
                            1 <= w@.len() <= if ef == 0 {
                                1
                            } else {
                                ef as int
                            },
                            forall|i: int|
                                0 <= i < w@.len() ==> layer@.contains_key(#[trigger] w@[i].1)
                                    && dq.ensures((w@[i].1,), w@[i].0) && vis.contains(
                                    w@[i].1 as int,
                                ),
                            forall|i: int|
                                0 <= i < candidates@.len() ==> #[trigger] layer@.contains_key(
                                    candidates@[i].1,
                                ),
                            2 * (n - vis.len()) + candidates@.len() <= measure0,
                            beam_complete(layer@, w@, candidates@, vis, ef as int, Some(c.1)),
                            vis.contains(ep as int),
                            w@.len() < ef ==> forall|jj: int| 0 <= jj < j ==> vis.contains(#[trigger] nbrs@[jj] as int),
                        decreases nbrs@.len() - j,
                    {
                        let e = nbrs[j];
                        assert(layer@.contains_key(e)) by {
                            assert(layer@[c.1][j as int] == e);
                        }
                        assert(self.layer(lc as int).contains_key(e));
                        assert((e as int) < n);
                        if !visited[e as usize] {
                            visited.set(e as usize, true);
                            let ghost vis0 = vis;
                            let ghost cand_s = candidates@;
                            let ghost w_s = w@;
                            proof {
                                vis = vis.insert(e as int);
                                assert(!vis0.contains(e as int));
                                assert(vis.len() == vis0.len() + 1);
                                lemma_int_range(0, n as int);
                                lemma_len_subset(vis, set_int_range(0, n as int));
                                assert forall|i: int| 0 <= i < w@.len() implies vis.contains(#[trigger] w@[i].1 as int) by {
                                    assert(vis0.contains(w@[i].1 as int));
                                }
                            }
                            let e_dist = dq(e);
                            if e_dist < f_dist || w.len() < ef {
                                let ghost cand0 = candidates@;
                                let ghost w0 = w@;
                                insert_sorted(&mut candidates, (e_dist, e));
                                assert forall|i: int| 0 <= i < candidates@.len() implies #[trigger] layer@.contains_key(candidates@[i].1) by {
                                    assert(candidates@.to_set().contains(candidates@[i]));
                                    if candidates@[i] != (e_dist, e) {
                                        assert(cand0.to_set().contains(candidates@[i]));
                                    }
                                }
                                assert forall|t: int| 0 <= t < w0.len() implies (#[trigger] w0[t]).1 != e by {
                                    assert(vis0.contains(w0[t].1 as int));
                                }
                                assert(!w0.contains((e_dist, e))) by {
                                    if w0.contains((e_dist, e)) {
                                        let k = choose|k: int| 0 <= k < w0.len() && w0[k] == (e_dist, e);
                                        assert(vis.contains(w0[k].1 as int));
                                    }
                                }
                                insert_sorted(&mut w, (e_dist, e));
                                assert(w@[0].0 <= ep_dist) by {
                                    assert(w@.to_set().contains(w0[0]));
                                    let k = choose|k: int| 0 <= k < w@.len() && w@[k] == w0[0];
                                    if k > 0 {
                                        assert(node_lt(w@[0], w@[k]));
                                    }
                                }
                                assert forall|i: int| 0 <= i < w@.len() implies layer@.contains_key(#[trigger] w@[i].1)
                                    && dq.ensures((w@[i].1,), w@[i].0) && vis.contains(w@[i].1 as int) by {
                                    assert(w@.to_set().contains(w@[i]));
                                    if w@[i] != (e_dist, e) {
                                        assert(w0.to_set().contains(w@[i]));
                                        let k = choose|k: int| 0 <= k < w0.len() && w0[k] == w@[i];
                                        assert(layer@.contains_key(w0[k].1));
                                    }
                                }
                                if w.len() > ef {
                                    let ghost w1 = w@;
                                    w.pop();
                                    assert(w@[0] == w1[0]);
                                    assert forall|i: int| 0 <= i < w@.len() implies layer@.contains_key(#[trigger] w@[i].1)
                                        && dq.ensures((w@[i].1,), w@[i].0) && vis.contains(w@[i].1 as int) by {
                                        assert(w@[i] == w1[i]);
                                    }
                                    assert(ids_distinct(w@)) by {
                                        assert forall|a: int, b: int| 0 <= a < w@.len() && 0 <= b < w@.len() && a != b implies (#[trigger] w@[a]).1 != (#[trigger] w@[b]).1 by {
                                            assert(w@[a] == w1[a] && w@[b] == w1[b]);
                                        }
                                    }
                                    assert(sorted(w@)) by {
                                        assert forall|a: int, b: int| 0 <= a < b < w@.len() implies node_lt(
                                            #[trigger] w@[a],
                                            #[trigger] w@[b],
                                        ) by {
                                            assert(w@[a] == w1[a] && w@[b] == w1[b]);
                                        }
                                    }
                                }
                                proof {
                                    if w@.len() < ef {
                                        assert(w_s.len() < ef);
                                        assert(w_s == w0 && cand_s == cand0);
                                        let x = (e_dist, e);
                                        assert(w@.to_set() == w0.to_set().insert(x));
                                        assert(candidates@.to_set() == cand0.to_set().insert(x));
                                        assert(w@.contains(x)) by {
                                            assert(w@.to_set().contains(x));
                                        }
                                        assert(has_id(w@, e)) by {
                                            let k = choose|k: int| 0 <= k < w@.len() && w@[k] == x;
                                            assert(w@[k].1 == e);
                                        }
                                        assert(has_id(candidates@, e)) by {
                                            assert(candidates@.to_set().contains(x));
                                            let k = choose|k: int| 0 <= k < candidates@.len() && candidates@[k] == x;
                                            assert(candidates@[k].1 == e);
                                        }
                                        assert forall|v: u64| #[trigger] vis.contains(v as int) implies has_id(w@, v) by {
                                            if v != e {
                                                assert(vis0.contains(v as int));
                                                lemma_has_id_grow(w0, w@, v);
                                            }
                                        }
                                        assert forall|i: int| 0 <= i < candidates@.len() implies w@.contains(#[trigger] candidates@[i]) by {
                                            assert(candidates@.to_set().contains(candidates@[i]));
                                            if candidates@[i] != x {
                                                assert(cand0.to_set().contains(candidates@[i]));
                                                let k = choose|k: int| 0 <= k < cand0.len() && cand0[k] == candidates@[i];
                                                assert(w0.contains(cand0[k]));
                                                assert(w0.to_set().contains(cand0[k]));
                                                assert(w@.to_set().contains(cand0[k]));
                                            }
                                        }
                                        assert forall|v: u64|
                                            #[trigger] vis.contains(v as int) && layer@.contains_key(v) && !has_id(candidates@, v) && Some(c.1) != Some(v)
                                                implies expanded(layer@, vis, v) by {
                                            assert(v != e);
                                            assert(vis0.contains(v as int));
                                            if has_id(cand0, v) {
                                                lemma_has_id_grow(cand0, candidates@, v);
                                            }
                                            lemma_expanded_mono(layer@, vis0, vis, v);
                                        }
                                        assert forall|jj: int| 0 <= jj < j + 1 implies vis.contains(#[trigger] nbrs@[jj] as int) by {
                                            if jj < j {
                                                assert(vis0.contains(nbrs@[jj] as int));
                                            }
                                        }
                                    }
                                }
                            }
                        } else {
                            proof {
                                assert(vis.contains(e as int));
                            }
                        }
                        j = j + 1;
                    }
                    proof {
                        if w@.len() < ef {
                            assert(expanded(layer@, vis, c.1)) by {
                                assert forall|jj: int| 0 <= jj < layer@[c.1].len() implies vis.contains(#[trigger] layer@[c.1][jj] as int) by {
                                    assert(nbrs@[jj] == layer@[c.1][jj]);
                                }
                            }
                        }
                    }
                },
            }
            }
            proof {
                lemma_int_range(0, n as int);
                lemma_len_subset(vis, set_int_range(0, n as int));
            }
        }
        proof {
            if w@.len() < ef {
                assert(candidates@.len() == 0);
                assert(vis.contains(ep as int));
                assert(has_id(w@, ep));
                assert forall|t: int, j: int|
                    0 <= t < w@.len() && 0 <= j < layer@[w@[t].1].len() implies has_id(w@, #[trigger] layer@[w@[t].1][j]) by {
                    let v = w@[t].1;
                    assert(vis.contains(v as int));
                    assert(layer@.contains_key(v));
                    assert(!has_id(candidates@, v));
                    assert(expanded(layer@, vis, v));
                    let u = layer@[v][j];
                    assert(vis.contains(u as int));
                }
            }
        }
        w
    }

    /// The ids of the first `m_max` entries of the ascending beam `w`, in order.
    fn select_neighbors_simple(w: &Vec<PriorityNode>, m_max: usize) -> (r: Vec<u64>)
        ensures
            ids_distinct(w@) ==> r@.no_duplicates(),
            r@ == ids_of(w@).take(if m_max < w@.len() {
                m_max as int
            } else {
                w@.len() as int
            }),
    {
        let ghost lim: int = if m_max < w@.len() {
            m_max as int
        } else {
            w@.len() as int
        };
        let mut r: Vec<u64> = Vec::new();
        let mut i: usize = 0;
        while i < w.len() && i < m_max
            invariant
                i <= lim,
                lim == (if m_max < w@.len() {
                    m_max as int
                } else {
                    w@.len() as int
                }),
                r@ == ids_of(w@).take(i as int),
            decreases w@.len() - i,
        {
            r.push(w[i].1);
            i = i + 1;
            assert(r@ =~= ids_of(w@).take(i as int));
        }
        proof {
            if ids_distinct(w@) {
                assert forall|a: int, b: int| 0 <= a < r@.len() && 0 <= b < r@.len() && a != b implies r@[a] != r@[b] by {
                    assert(r@[a] == w@[a].1 && r@[b] == w@[b].1);
                }
            }
        }
        r
    }

    /// The new neighbour list of `e_id` once `new_id` joins its current list
    /// `list`: the `m_max` closest to `e_id` among them. `dp(a, b)` is the
    /// distance key between elements `a` and `b`.
    fn select_and_shrink_neighbors_simple<G: Fn(u64, u64) -> u64>(
        dp: &G,
        e_id: u64,
        new_id: u64,
        list: &Vec<u64>,
        m_max: usize,
    ) -> (r: Vec<u64>)
        requires
            dp.requires((e_id, new_id)),
            forall|j: int| 0 <= j < list@.len() ==> dp.requires((#[trigger] list@[j], e_id)),
            list@.no_duplicates(),
            !list@.contains(new_id),
        ensures
            r@.no_duplicates(),
            r@.len() == if m_max <= list@.len() + 1 {
                m_max as int
            } else {
                list@.len() + 1int
            },
            m_max > 0 ==> r@.len() > 0,
            forall|j: int| 0 <= j < r@.len() ==> #[trigger] r@[j] == new_id || list@.contains(r@[j]),
            m_max <= list@.len() + 1 ==> pruned(dp, list@, r@, e_id, new_id, m_max as nat),
    {
        let mut w: Vec<PriorityNode> = Vec::new();
        let d0 = dp(e_id, new_id);
        w.push((d0, new_id));
        assert(w@[0] == (d0, new_id));
        assert(has_id(w@, new_id));
        let mut i: usize = 0;
        while i < list.len()
            invariant
                i <= list@.len(),
                forall|j: int| 0 <= j < list@.len() ==> dp.requires((#[trigger] list@[j], e_id)),
                sorted(w@),
                ids_distinct(w@),
                list@.no_duplicates(),
                !list@.contains(new_id),
                w@.len() == i + 1,
                forall|j: int| 0 <= j < w@.len() ==> #[trigger] w@[j].1 == new_id || list@.take(i as int).contains(w@[j].1),
                has_id(w@, new_id),
                forall|j: int| 0 <= j < i ==> has_id(w@, #[trigger] list@[j]),
                forall|t: int|
                    0 <= t < w@.len() ==> ((#[trigger] w@[t]).1 == new_id && dp.ensures((e_id, new_id), w@[t].0))
                        || (w@[t].1 != new_id && dp.ensures((w@[t].1, e_id), w@[t].0)),
            decreases list@.len() - i,
        {
            let f_id = list[i];
            let f_dist = dp(f_id, e_id);
            let ghost w0 = w@;
            assert forall|t: int| 0 <= t < w0.len() implies (#[trigger] w0[t]).1 != f_id by {
                assert(list@[i as int] == f_id);
                if w0[t].1 == f_id {
                    if w0[t].1 != new_id {
                        let k = choose|k: int| 0 <= k < list@.take(i as int).len() && list@.take(i as int)[k] == f_id;
                        assert(list@[k] == f_id);
                    }
                }
            }
            assert(!w0.contains((f_dist, f_id))) by {
                if w0.contains((f_dist, f_id)) {
                    let k = choose|k: int| 0 <= k < w0.len() && w0[k] == (f_dist, f_id);
                }
            }
            insert_sorted(&mut w, (f_dist, f_id));
            assert forall|j: int| 0 <= j < w@.len() implies #[trigger] w@[j].1 == new_id || list@.take(i + 1).contains(w@[j].1) by {
                assert(w@.to_set().contains(w@[j]));
                if w@[j] != (f_dist, f_id) {
                    assert(w0.to_set().contains(w@[j]));
                    let k = choose|k: int| 0 <= k < w0.len() && w0[k] == w@[j];
                    assert(w0[k].1 == new_id || list@.take(i as int).contains(w0[k].1));
                    if w0[k].1 != new_id {
                        let t = choose|t: int| 0 <= t < list@.take(i as int).len() && list@.take(i as int)[t] == w0[k].1;
                        assert(list@.take(i + 1)[t] == w0[k].1);
                    }
                } else {
                    assert(list@.take(i + 1)[i as int] == f_id);
                }
            }
            proof {
                let x = (f_dist, f_id);
                assert(w0.to_set().subset_of(w@.to_set()));
                lemma_has_id_grow(w0, w@, new_id);
                assert forall|j: int| 0 <= j < i + 1 implies has_id(w@, #[trigger] list@[j]) by {
                    if j < i {
                        lemma_has_id_grow(w0, w@, list@[j]);
                    } else {
                        assert(w@.to_set().contains(x));
                        let k = choose|k: int| 0 <= k < w@.len() && w@[k] == x;
                        assert(w@[k].1 == list@[j]);
                    }
                }
                assert(f_id != new_id) by {
                    assert(list@[i as int] == f_id);
                }
                assert forall|t: int| 0 <= t < w@.len() implies ((#[trigger] w@[t]).1 == new_id && dp.ensures((e_id, new_id), w@[t].0))
                    || (w@[t].1 != new_id && dp.ensures((w@[t].1, e_id), w@[t].0)) by {
                    assert(w@.to_set().contains(w@[t]));
                    if w@[t] != x {
                        assert(w0.to_set().contains(w@[t]));
                        let k = choose|k: int| 0 <= k < w0.len() && w0[k] == w@[t];
                    }
                }
            }
            i = i + 1;
        }
        let r = Self::select_neighbors_simple(&w, m_max);
        assert forall|j: int| 0 <= j < r@.len() implies #[trigger] r@[j] == new_id || list@.contains(r@[j]) by {
            assert(r@[j] == w@[j].1);
            assert(list@.take(i as int) =~= list@);
        }
        proof {
            if m_max <= list@.len() + 1 {
                assert(sorted(w@));
                assert(pruned(dp, list@, r@, e_id, new_id, m_max as nat));
            }
        }
        r
    }

    /// An empty graph with degree bounds `m` (upper layers) and `m0` (base
    /// layer), and beam width `efc` during construction.
    pub fn new(m: usize, m0: usize, efc: usize) -> (r: Self)
        ensures
            r.wf(),
            r.spec_len() == 0,
            r.num_layers() == 0,
            r.entry() == None::<u64>,
            r.spec_m() == m,
            r.spec_m0() == m0,
            r.spec_efc() == efc,
    {
        Hnsw { m, m0, efc, layers: Vec::new(), enter_point: None, count: 0 }
    }

    /// Adds element `len()` to the graph, present in layers `0..=level`.
    /// `dp(a, b)` is the distance key between elements `a` and `b`; it is
    /// called on ids up to the new one.
    pub fn insert<G: Fn(u64, u64) -> u64>(&mut self, dp: &G, level: usize) -> (id: u64)
        requires
            old(self).wf(),
            old(self).spec_len() < usize::MAX,
            level < usize::MAX,
            forall|a: u64, b: u64|
                (a as int) <= old(self).spec_len() && (b as int) <= old(self).spec_len()
                    ==> #[trigger] dp.requires((a, b)),
        ensures
            final(self).wf(),
            id as int == old(self).spec_len(),
            final(self).spec_len() == old(self).spec_len() + 1,
            final(self).num_layers() == if level < old(self).num_layers() {
                old(self).num_layers() as int
            } else {
                level + 1
            },
            forall|l: int|
                0 <= l < final(self).num_layers() ==> (#[trigger] final(self).layer(l).contains_key(
                    id,
                ) <==> l <= level),
            forall|l: int, k: u64|
                0 <= l < old(self).num_layers() && k != id ==> (#[trigger] final(self).layer(
                    l,
                ).contains_key(k) <==> old(self).layer(l).contains_key(k)),
            final(self).entry() == if level >= old(self).num_layers() {
                Some(id)
            } else {
                old(self).entry()
            },
            forall|l: int|
                0 <= l <= level && l < old(self).num_layers() ==> linked_in(
                    old(self).layer(l),
                    #[trigger] final(self).layer(l),
                    id,
                    final(self).max_degree(l),
                ) && chose_nearest(
                    dp,
                    old(self).layer(l),
                    final(self).layer(l),
                    id,
                    final(self).max_degree(l),
                    final(self).spec_efc(),
                ) && kept_nearest(
                    dp,
                    old(self).layer(l),
                    final(self).layer(l),
                    id,
                    final(self).max_degree(l),
                ),
            forall|l: int|
                level < l < old(self).num_layers() ==> #[trigger] final(self).layer(l) == old(
                    self,
                ).layer(l),
            forall|l: int|
                old(self).num_layers() <= l <= level ==> #[trigger] final(self).layer(l) == map![
                    id => Seq::<u64>::empty(),
                ],
            final(self).spec_m() == old(self).spec_m(),
            final(self).spec_m0() == old(self).spec_m0(),
            final(self).spec_efc() == old(self).spec_efc(),
    {
        let id: u64 = self.count as u64;
        let nl = self.layers.len();
        let cnt: usize = if nl <= level {
            nl
        } else {
            level + 1
        };
        let dq = |e: u64| -> (r: u64)
            requires
                dp.requires((e, id)),
            ensures
                dp.ensures((e, id), r),
            { dp(e, id) };
        assert forall|i: u64| (i as int) < self.spec_len() implies #[trigger] dq.requires((i,)) by {
            assert(dp.requires((i, id)));
        }
        let mut ep: u64 = 0;
        match self.enter_point {
            Some(e) => {
                ep = e;
            },
            None => {},
        }
        // Greedy descent through the layers above the new element's level.
        let mut cur: usize = nl;
        while cur > cnt
            invariant
                self == old(self),
                self.wf(),
                id as int == self.spec_len(),
                nl == self.num_layers(),
                cnt <= cur <= nl,
                cnt == (if nl <= level { nl } else { (level + 1) as usize }),
                forall|a: u64, b: u64|
                    (a as int) <= self.spec_len() && (b as int) <= self.spec_len() ==> #[trigger] dp.requires((a, b)),
                cur > 0 ==> self.layer(cur - 1).contains_key(ep),
                forall|i: u64| (i as int) < self.spec_len() ==> #[trigger] dq.requires((i,)),
            decreases cur,
        {
            let lc = cur - 1;
            let w = self.search_layer(&dq, ep, 1, lc);
            ep = w[0].1;
            assert(self.layer(lc as int).dom().subset_of(self.layer(lc - 1).dom()));
            cur = lc;
        }
        // Connect the new element on each layer it shares with the graph.
        let ghost old_layers = self.layers@;
        while cur > 0
            invariant
                self.m == old(self).m,
                self.m0 == old(self).m0,
                self.efc == old(self).efc,
                self.count == old(self).count,
                self.enter_point == old(self).enter_point,
                old_layers == old(self).layers@,
                old(self).wf(),
                id as int == self.spec_len(),
                nl == self.num_layers(),
                nl == old(self).num_layers(),
                cur <= cnt <= nl,
                cnt == (if nl <= level { nl } else { (level + 1) as usize }),
                forall|a: u64, b: u64|
                    (a as int) <= self.spec_len() && (b as int) <= self.spec_len() ==> #[trigger] dp.requires((a, b)),
                cur > 0 ==> self.layer(cur - 1).contains_key(ep),
                forall|i: u64| (i as int) < self.spec_len() ==> #[trigger] dq.requires((i,)),
                forall|l: int| 0 <= l < cur || cnt <= l < nl ==> #[trigger] self.layer(l) == old(self).layer(l),
                forall|l: int|
                    cur <= l < cnt ==> #[trigger] self.layer(l).dom() == old(self).layer(l).dom().insert(id)
                        && layer_ok(self.layer(l), self.spec_len() + 1, self.max_degree(l))
                        && linked_in(old(self).layer(l), self.layer(l), id, self.max_degree(l))
                        && chose_nearest(dp, old(self).layer(l), self.layer(l), id, self.max_degree(l), self.spec_efc()) && kept_nearest(dp, old(self).layer(l), self.layer(l), id, self.max_degree(l)),
                forall|e: u64, r: u64| #[trigger] dq.ensures((e,), r) ==> dp.ensures((e, id), r),
            decreases cur,
        {
            let lc = cur - 1;
            let m_max = if lc == 0 {
                self.m0
            } else {
                self.m
            };
            assert(self.layer(lc as int) == old(self).layer(lc as int));
            assert(layer_ok(old(self).layer(lc as int), old(self).spec_len(), old(self).max_degree(lc as int)));
            let w = self.search_layer(&dq, ep, self.efc, lc);
            assert(old(self).layer(lc as int).contains_key(w@[0].1));
            let neighbors = Self::select_neighbors_simple(&w, m_max);
            let ghost l0 = self.layer(lc as int);
            assert forall|t: int| 0 <= t < w@.len() implies l0.contains_key(#[trigger] w@[t].1) && dp.ensures(
                (w@[t].1, id),
                w@[t].0,
            ) by {
                assert(self.layer(lc as int).contains_key(w@[t].1));
                assert(dq.ensures((w@[t].1,), w@[t].0));
            }
            let ghost pre_layers = self.layers@;
            assert forall|l: int| 0 <= l < cur || cnt <= l < nl implies #[trigger] pre_layers[l]@ == old(self).layer(l) by {
                assert(self.layer(l) == pre_layers[l]@);
            }
            assert forall|l: int| cur <= l < cnt implies #[trigger] pre_layers[l]@.dom() == old(self).layer(l).dom().insert(id)
                && layer_ok(pre_layers[l]@, self.spec_len() + 1, self.max_degree(l))
                && linked_in(old(self).layer(l), pre_layers[l]@, id, self.max_degree(l))
                && chose_nearest(dp, old(self).layer(l), pre_layers[l]@, id, self.max_degree(l), self.spec_efc()) && kept_nearest(dp, old(self).layer(l), pre_layers[l]@, id, self.max_degree(l)) by {
                assert(self.layer(l) == pre_layers[l]@);
            }
            let mut layer = self.layers.remove(lc);
            assert(layer@ == l0);
            assert forall|j: int| 0 <= j < neighbors@.len() implies l0.contains_key(#[trigger] neighbors@[j]) by {
                assert(neighbors@[j] == w@[j].1);
            }
            assert(layer_ok(l0, id as nat, m_max as nat));
            assert(!l0.contains_key(id));
            let mut j: usize = 0;
            while j < neighbors.len()
                invariant
                    0 <= j <= neighbors@.len(),
                    layer@.dom() == l0.dom(),
                    !l0.contains_key(id),
                    forall|i: int| 0 <= i < neighbors@.len() ==> l0.contains_key(#[trigger] neighbors@[i]),
                    forall|a: u64, b: u64|
                        (a as int) <= id && (b as int) <= id ==> #[trigger] dp.requires((a, b)),
                    forall|k: u64| #[trigger] layer@.contains_key(k) ==> (k as int) < id && layer@[k].len() <= m_max
                        && layer@[k].no_duplicates() && (layer@[k].contains(id) ==> neighbors@.take(j as int).contains(k)),
                    neighbors@.no_duplicates(),
                    forall|a: u64, b: u64|
                        (a as int) <= id && (b as int) <= id ==> #[trigger] dp.requires((a, b)),
                    forall|k: u64|
                        #[trigger] l0.contains_key(k) && neighbors@.take(j as int).contains(k) && l0[k].len() >= m_max
                            ==> pruned(dp, l0[k], layer@[k], k, id, m_max as nat),
                    forall|k: u64|
                        #[trigger] l0.contains_key(k) ==> if neighbors@.take(j as int).contains(k) {
                            &&& l0[k].len() < m_max ==> layer@[k] == l0[k].push(id)
                            &&& l0[k].len() >= m_max ==> layer@[k].len() == m_max
                            &&& forall|t: int|
                                0 <= t < layer@[k].len() ==> l0[k].contains(#[trigger] layer@[k][t]) || layer@[k][t] == id
                        } else {
                            layer@[k] == l0[k]
                        },
                    forall|k: u64, i: int|
                        #[trigger] layer@.contains_key(k) && 0 <= i < layer@[k].len() ==> (layer@.contains_key(
                            #[trigger] layer@[k][i],
                        ) || layer@[k][i] == id) && layer@[k][i] != k,
                decreases neighbors@.len() - j,
            {
                let e = neighbors[j];
                let ghost pre_layer = layer@;
                assert(!neighbors@.take(j as int).contains(e)) by {
                    if neighbors@.take(j as int).contains(e) {
                        let t = choose|t: int| 0 <= t < j && neighbors@.take(j as int)[t] == e;
                        assert(neighbors@[t] == neighbors@[j as int]);
                    }
                }
                match layer.neighbors(e) {
                    Some(list) => {
                        let ghost lv = list@;
                        assert(!lv.contains(id));
                        assert(forall|i: int| 0 <= i < lv.len() ==> (layer@.contains_key(#[trigger] lv[i]) || lv[i] == id) && lv[i] != e);
                        let new_list = if list.len() >= m_max {
                            Self::select_and_shrink_neighbors_simple(dp, e, id, list, m_max)
                        } else {
                            appended(list, id)
                        };
                        assert forall|i: int| 0 <= i < new_list@.len() implies (layer@.contains_key(#[trigger] new_list@[i]) || new_list@[i] == id) && new_list@[i] != e by {
                            if new_list@[i] != id {
                                let t = choose|t: int| 0 <= t < lv.len() && lv[t] == new_list@[i];
                            }
                        }
                        assert(new_list@.no_duplicates()) by {
                            if list.len() < m_max {
                                assert forall|a: int, b: int| 0 <= a < new_list@.len() && 0 <= b < new_list@.len() && a != b
                                    implies new_list@[a] != new_list@[b] by {
                                    if a < lv.len() && b < lv.len() {
                                    } else if a < lv.len() {
                                        assert(lv[a] == new_list@[a]);
                                    } else if b < lv.len() {
                                        assert(lv[b] == new_list@[b]);
                                    }
                                }
                            }
                        }
                        layer.set(e, new_list);
                    },
                    None => {},
                }
                proof {
                    assert forall|k: u64|
                        #[trigger] l0.contains_key(k) && neighbors@.take(j + 1).contains(k) && l0[k].len() >= m_max
                            implies pruned(dp, l0[k], layer@[k], k, id, m_max as nat) by {
                        if k != e {
                            assert(layer@[k] == pre_layer[k]);
                            let t = choose|t: int| 0 <= t < j + 1 && #[trigger] neighbors@.take(j + 1)[t] == k;
                            assert(neighbors@.take(j as int)[t] == k);
                        }
                    }
                    assert forall|k: u64| #[trigger] l0.contains_key(k) implies if neighbors@.take(j + 1).contains(k) {
                        &&& l0[k].len() < m_max ==> layer@[k] == l0[k].push(id)
                        &&& l0[k].len() >= m_max ==> layer@[k].len() == m_max
                        &&& forall|t: int|
                            0 <= t < layer@[k].len() ==> l0[k].contains(#[trigger] layer@[k][t]) || layer@[k][t] == id
                    } else {
                        layer@[k] == l0[k]
                    } by {
                        if k == e {
                            assert(neighbors@.take(j + 1)[j as int] == e);
                            assert(pre_layer[e] == l0[e]);
                        } else {
                            assert(layer@[k] == pre_layer[k]);
                            if neighbors@.take(j + 1).contains(k) {
                                let t = choose|t: int| 0 <= t < j + 1 && #[trigger] neighbors@.take(j + 1)[t] == k;
                                assert(neighbors@.take(j as int)[t] == k);
                            } else {
                                if neighbors@.take(j as int).contains(k) {
                                    let t = choose|t: int| 0 <= t < j && neighbors@.take(j as int)[t] == k;
                                    assert(neighbors@.take(j + 1)[t] == k);
                                }
                            }
                        }
                    }
                    assert forall|k: u64| #[trigger] layer@.contains_key(k) && layer@[k].contains(id) implies neighbors@.take(j + 1).contains(k) by {
                        if k == e {
                            assert(neighbors@.take(j + 1)[j as int] == e);
                        } else {
                            assert(layer@[k] == pre_layer[k]);
                            let t = choose|t: int| 0 <= t < j && neighbors@.take(j as int)[t] == k;
                            assert(neighbors@.take(j + 1)[t] == k);
                        }
                    }
                }
                j = j + 1;
            }
            let ghost before_set = layer@;
            let ghost nb = neighbors@;
            proof {
                assert(nb.take(nb.len() as int) =~= nb);
                assert(w@.len() >= 1);
                if m_max > 0 {
                    assert(nb.len() > 0);
                }
            }
            layer.set(id, neighbors);
            proof {
                assert(layer@[id] == nb);
                assert forall|k: u64| #[trigger] l0.contains_key(k) implies layer@[k] == before_set[k] by {
                    assert(k != id);
                }
                assert(linked_in(l0, layer@, id, m_max as nat));
                assert(layer@[id] == ids_of(w@).take(if m_max < w@.len() { m_max as int } else { w@.len() as int }));
                assert(sorted(w@) && w@.len() >= 1);
                assert(chose_nearest(dp, l0, layer@, id, m_max as nat, self.efc as nat));
                assert forall|k: u64|
                    #[trigger] l0.contains_key(k) && layer@[id].contains(k) && l0[k].len() >= m_max
                        implies pruned(dp, l0[k], layer@[k], k, id, m_max as nat) by {
                    assert(k != id);
                    assert(layer@[k] == before_set[k]);
                }
                assert(kept_nearest(dp, l0, layer@, id, m_max as nat));
            }
            self.layers.insert(lc, layer);
            proof {
                assert(self.layers@ =~= pre_layers.update(lc as int, layer));
                assert forall|l: int| 0 <= l < lc || cnt <= l < nl implies #[trigger] self.layer(l) == old(self).layer(l) by {
                    assert(self.layers@[l] == pre_layers[l]);
                }
                assert forall|l: int| lc < l < cnt implies #[trigger] self.layer(l).dom() == old(self).layer(l).dom().insert(id)
                    && layer_ok(self.layer(l), self.spec_len() + 1, self.max_degree(l))
                    && linked_in(old(self).layer(l), self.layer(l), id, self.max_degree(l))
                    && chose_nearest(dp, old(self).layer(l), self.layer(l), id, self.max_degree(l), self.spec_efc()) && kept_nearest(dp, old(self).layer(l), self.layer(l), id, self.max_degree(l)) by {
                    assert(self.layers@[l] == pre_layers[l]);
                    assert(pre_layers[l]@.dom() == old(self).layer(l).dom().insert(id));
                    assert(linked_in(old(self).layer(l), pre_layers[l]@, id, self.max_degree(l)));
                    assert(chose_nearest(dp, old(self).layer(l), pre_layers[l]@, id, self.max_degree(l), self.spec_efc()) && kept_nearest(dp, old(self).layer(l), pre_layers[l]@, id, self.max_degree(l)));
                }
                assert(layer_ok(self.layer(lc as int), self.spec_len() + 1, self.max_degree(lc as int)));
                assert(self.layer(lc as int) == layer@);
                assert(chose_nearest(dp, old(self).layer(lc as int), self.layer(lc as int), id, self.max_degree(lc as int), self.spec_efc()) && kept_nearest(dp, old(self).layer(lc as int), self.layer(lc as int), id, self.max_degree(lc as int)));
                assert(self.layer(lc as int).dom() =~= old(self).layer(lc as int).dom().insert(id));
            }
            ep = w[0].1;
            proof {
                if lc > 0 {
                    assert(self.layer(lc - 1) == old(self).layer(lc - 1));
                    assert(old(self).layer(lc as int).dom().subset_of(old(self).layer(lc - 1).dom()));
                }
            }
            cur = lc;
        }
        // Layers above the former top hold the new element alone.
        let ghost mid = self.layers@;
        assert forall|l: int| cnt <= l < nl implies #[trigger] mid[l]@ == old(self).layer(l) by {
            assert(self.layer(l) == mid[l]@);
        }
        assert forall|l: int| 0 <= l < cnt implies #[trigger] mid[l]@.dom() == old(self).layer(l).dom().insert(id)
            && layer_ok(mid[l]@, (id + 1) as nat, self.max_degree(l))
            && linked_in(old(self).layer(l), mid[l]@, id, self.max_degree(l))
            && chose_nearest(dp, old(self).layer(l), mid[l]@, id, self.max_degree(l), self.spec_efc()) && kept_nearest(dp, old(self).layer(l), mid[l]@, id, self.max_degree(l)) by {
            assert(self.layer(l) == mid[l]@);
        }
        if nl <= level {
            let mut l: usize = nl;
            while l <= level
                invariant
                    nl <= l <= level + 1,
                    level < usize::MAX,
                    mid.len() == nl,
                    self.count == old(self).count,
                    self.m == old(self).m,
                    self.m0 == old(self).m0,
                    self.efc == old(self).efc,
                    self.layers@.len() == l,
                    forall|t: int| 0 <= t < nl ==> #[trigger] self.layers@[t] == mid[t],
                    forall|t: int| nl <= t < l ==> #[trigger] self.layers@[t]@ == map![id => Seq::<u64>::empty()],
                decreases level + 1 - l,
            {
                let mut layer = Layer::new();
                layer.set(id, Vec::new());
                assert(layer@ =~= map![id => Seq::<u64>::empty()]);
                self.layers.push(layer);
                l = l + 1;
            }
            self.enter_point = Some(id);
        }
        self.count = self.count + 1;
        proof {
            assert(forall|t: int| 0 <= t < nl ==> #[trigger] self.layer(t) == mid[t]@);
            assert(forall|t: int| nl <= t < self.num_layers() ==> #[trigger] self.layer(t) == map![id => Seq::<u64>::empty()]);
            assert forall|l: int| 0 <= l < self.num_layers() implies layer_ok(
                #[trigger] self.layer(l),
                self.spec_len(),
                self.max_degree(l),
            ) by {
                if l < cnt {
                    assert(self.layer(l) == mid[l]@);
                } else if l < nl {
                    assert(self.layer(l) == mid[l]@);
                    assert(layer_ok(old(self).layer(l), old(self).spec_len(), old(self).max_degree(l)));
                } else {
                    assert(self.layer(l) == map![id => Seq::<u64>::empty()]);
                }
            }
            assert forall|l: int| 0 < l < self.num_layers() implies #[trigger] self.layer(l).dom().subset_of(
                self.layer(l - 1).dom(),
            ) by {
                if l < nl {
                    assert(self.layer(l) == mid[l]@);
                    assert(self.layer(l - 1) == mid[l - 1]@);
                    assert(old(self).layer(l).dom().subset_of(old(self).layer(l - 1).dom()));
                } else if l == nl {
                    assert(self.layer(l - 1) == mid[l - 1]@);
                    assert(self.layer(l) == map![id => Seq::<u64>::empty()]);
                    assert(mid[l - 1]@.dom().contains(id));
                } else {
                    assert(self.layer(l) == map![id => Seq::<u64>::empty()]);
                    assert(self.layer(l - 1) == map![id => Seq::<u64>::empty()]);
                }
            }
            assert forall|k: u64| (k as int) < self.spec_len() implies #[trigger] self.layer(0).contains_key(k) by {
                if (k as int) < old(self).spec_len() {
                    assert(old(self).layer(0).contains_key(k));
                }
            }
            match self.enter_point {
                Some(e) => {
                    if level < nl {
                        assert(old(self).layer(nl - 1).contains_key(e));
                    }
                },
                None => {},
            }
            assert forall|l: int| 0 <= l < self.num_layers() implies (#[trigger] self.layer(l).contains_key(id) <==> l <= level) by {
                if l < cnt {
                    assert(self.layer(l).dom().contains(id));
                } else if l < nl {
                    assert(layer_ok(old(self).layer(l), old(self).spec_len(), old(self).max_degree(l)));
                }
            }
            assert forall|l: int| level < l < old(self).num_layers() implies #[trigger] self.layer(l) == old(self).layer(l) by {
                assert(self.layer(l) == mid[l]@);
            }
            assert forall|l: int| 0 <= l <= level && l < old(self).num_layers() implies linked_in(
                old(self).layer(l),
                #[trigger] self.layer(l),
                id,
                self.max_degree(l),
            ) && chose_nearest(dp, old(self).layer(l), self.layer(l), id, self.max_degree(l), self.spec_efc()) && kept_nearest(dp, old(self).layer(l), self.layer(l), id, self.max_degree(l)) by {
                assert(self.layer(l) == mid[l]@);
            }
            assert forall|l: int, k: u64| 0 <= l < old(self).num_layers() && k != id implies (#[trigger] self.layer(
                l,
            ).contains_key(k) <==> old(self).layer(l).contains_key(k)) by {
                if l < cnt {
                    assert(self.layer(l).dom().contains(k) == old(self).layer(l).dom().insert(id).contains(k));
                }
            }
        }
        id
    }

    /// The approximate `k` nearest elements to the query, ascending by distance
    /// key: a greedy descent to the base layer, then a beam search of width
    /// `ef` there. When fewer than `k` and `ef` come back, the beam dropped
    /// nothing: the result holds every base-layer neighbour of each of its
    /// elements, hence every element reachable from them. `dq(e)` is the distance key of element `e` to the query.
    pub fn knn_search<F: Fn(u64) -> u64>(&self, dq: &F, k: usize, ef: usize) -> (r: Vec<
        PriorityNode,
    >)
        requires
            self.wf(),
            forall|i: u64| (i as int) < self.spec_len() ==> #[trigger] dq.requires((i,)),
        ensures
            sorted(r@),
            r@.len() <= k,
            r@.len() <= ef,
            r@.len() < k && r@.len() < ef ==> beam_closed(self.layer(0), r@),
            self.spec_len() == 0 ==> r@.len() == 0,
            self.spec_len() > 0 && k > 0 && ef > 0 ==> r@.len() > 0,
            forall|i: int|
                0 <= i < r@.len() ==> (#[trigger] r@[i].1 as int) < self.spec_len() && dq.ensures(
                    (r@[i].1,),
                    r@[i].0,
                ),
    {
        if ef == 0 {
            let r: Vec<PriorityNode> = Vec::new();
            assert(r@ =~= Seq::<PriorityNode>::empty());
            return r;
        }
        match self.enter_point {
            None => {
                let r: Vec<PriorityNode> = Vec::new();
                assert(r@ =~= Seq::<PriorityNode>::empty());
                r
            },
            Some(e) => {
                let mut ep = e;
                let mut cur: usize = self.layers.len() - 1;
                while cur > 0
                    invariant
                        self.wf(),
                        cur < self.num_layers(),
                        self.layer(cur as int).contains_key(ep),
                        forall|i: u64| (i as int) < self.spec_len() ==> #[trigger] dq.requires((i,)),
                    decreases cur,
                {
                    let w = self.search_layer(dq, ep, 1, cur);
                    ep = w[0].1;
                    assert(self.layer(cur as int).dom().subset_of(self.layer(cur - 1).dom()));
                    cur = cur - 1;
                }
                let w = self.search_layer(dq, ep, ef, 0);
                assert forall|i: int| 0 <= i < w@.len() implies (#[trigger] w@[i].1 as int) < self.spec_len()
                    && dq.ensures((w@[i].1,), w@[i].0) by {
                    assert(self.layer(0).contains_key(w@[i].1));
                }
                let mut r: Vec<PriorityNode> = Vec::new();
                let mut i: usize = 0;
                while i < w.len() && i < k
                    invariant
                        i <= w@.len(),
                        i <= k,
                        r@ == w@.take(i as int),
                    decreases w@.len() - i,
                {
                    r.push(w[i]);
                    i = i + 1;
                    assert(r@ =~= w@.take(i as int));
                }
                proof {
                    if r@.len() < k {
                        assert(r@ =~= w@);
                    }
                }
                assert forall|j: int| 0 <= j < r@.len() implies (#[trigger] r@[j].1 as int) < self.spec_len()
                    && dq.ensures((r@[j].1,), r@[j].0) by {
                    assert(r@[j] == w@[j]);
                }
                r
            },
        }
    }
}

/// Degree bound: in any graph built by `new` and `insert`, every node has at
/// most M0 neighbours on the base layer and at most M on each layer above it.
pub proof fn lemma_degrees_bounded(h: &Hnsw)
    requires
        h.wf(),
    ensures
        h.degrees_bounded(),
{
    assert forall|l: int, k: u64|
        0 <= l < h.num_layers() && #[trigger] h.layer(l).contains_key(k) implies h.layer(l)[k].len()
        <= h.max_degree(l) by {
        assert(layer_ok(h.layer(l), h.spec_len(), h.max_degree(l)));
    }
}

/// Nesting: a node present in a layer above the base is present in the
/// layer just below it.
pub proof fn lemma_layers_nested(h: &Hnsw)
    requires
        h.wf(),
    ensures
        h.layers_nested(),
{
    assert forall|l: int, k: u64|
        0 < l < h.num_layers() && #[trigger] h.layer(l).contains_key(k) implies h.layer(
        l - 1,
    ).contains_key(k) by {
        assert(h.layer(l).dom().subset_of(h.layer(l - 1).dom()));
    }
}

/// Proper links: no node is its own neighbour, no neighbour list repeats a
/// node, and neighbours are present in the same layer.
pub proof fn lemma_links_proper(h: &Hnsw)
    requires
        h.wf(),
    ensures
        h.links_proper(),
{
    assert forall|l: int, k: u64, j: int|
        0 <= l < h.num_layers() && #[trigger] h.layer(l).contains_key(k) && 0 <= j < h.layer(
            l,
        )[k].len() implies h.layer(l)[k][j] != k && h.layer(l).contains_key(
        #[trigger] h.layer(l)[k][j],
    ) by {
        assert(layer_ok(h.layer(l), h.spec_len(), h.max_degree(l)));
    }
    assert forall|l: int, k: u64|
        0 <= l < h.num_layers() && #[trigger] h.layer(l).contains_key(k) implies h.layer(
            l,
        )[k].no_duplicates() by {
        assert(layer_ok(h.layer(l), h.spec_len(), h.max_degree(l)));
    }
}

/// Entry point: it is present in the top layer, and there is one exactly
/// when the graph is not empty.
pub proof fn lemma_entry_on_top(h: &Hnsw)
    requires
        h.wf(),
    ensures
        h.entry_on_top(),
{
}

/// Dense ids: the element ids in the graph are exactly 0..len.
pub proof fn lemma_ids_dense(h: &Hnsw)
    requires
        h.wf(),
    ensures
        h.ids_dense(),
{
    assert forall|l: int, k: u64|
        0 <= l < h.num_layers() && #[trigger] h.layer(l).contains_key(k) implies (k as int) < h.spec_len() by {
        assert(layer_ok(h.layer(l), h.spec_len(), h.max_degree(l)));
    }
}

} // verus!
