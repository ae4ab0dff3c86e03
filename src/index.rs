use crate::hnsw::Hnsw;
use crate::beam::{sorted, PriorityNode};
use crate::hnsw::beam_closed;
use crate::knn::{add_docs, docs_of, lemma_add_docs, Docs, KnnResult, KnnResultBuilder};
use crate::vector::{canonical_of, same_vector, TreeVector};
use vstd::prelude::*;

verus! {

/// A nearest-neighbour index: the graph over the inserted vectors, and for
/// each distinct vector the documents registered on it.
///
/// Distances come from the caller as a function `dist(a, b)` returning a
/// distance key: a `u64` that orders as the distances do.
pub struct HnswIndex {
    h: Hnsw,
    vectors: Vec<TreeVector>,
    docs: Vec<Docs>,
    element_vector: Vec<usize>,
}

impl HnswIndex {
    pub closed spec fn graph(&self) -> Hnsw {
        self.h
    }

    /// Number of inserted elements.
    pub closed spec fn spec_len(&self) -> nat {
        self.element_vector@.len()
    }

    /// Number of inserted elements.
    pub fn len(&self) -> (r: usize)
        requires
            self.wf(),
        ensures
            r == self.spec_len(),
    {
        self.element_vector.len()
    }

    /// The graph over the inserted elements.
    pub fn hnsw(&self) -> (r: &Hnsw)
        ensures
            *r == self.graph(),
    {
        &self.h
    }

    /// The distinct vectors, in the order in which each was first inserted.
    pub closed spec fn vectors(&self) -> Seq<TreeVector> {
        self.vectors@
    }

    /// For each distinct vector, its documents in registration order.
    pub closed spec fn docs(&self) -> Seq<Seq<u64>> {
        self.docs@.map_values(|d: Docs| d@)
    }

    /// For each element id, the position of its vector in `vectors()`.
    pub closed spec fn element_vector(&self) -> Seq<int> {
        self.element_vector@.map_values(|i: usize| i as int)
    }

    /// The index's invariant: a well-formed graph with one element per
    /// insert, each element mapped to one of the distinct vectors, and each
    /// vector with a non-empty list of documents without repeats.
    pub closed spec fn wf(&self) -> bool {
        &&& self.h.wf()
        &&& self.h.spec_len() == self.element_vector@.len()
        &&& self.vectors@.len() == self.docs@.len()
        &&& forall|i: int|
            0 <= i < self.element_vector@.len() ==> (#[trigger] self.element_vector@[i] as int)
                < self.vectors@.len()
        &&& forall|g: int|
            0 <= g < self.docs@.len() ==> (#[trigger] self.docs@[g]).wf() && self.docs@[g]@.len()
                > 0
        &&& forall|g1: int, g2: int|
            0 <= g1 < self.vectors@.len() && 0 <= g2 < self.vectors@.len() && g1 != g2
                ==> !same_vector(#[trigger] self.vectors@[g1], #[trigger] self.vectors@[g2])
        &&& forall|g: int| 0 <= g < self.vectors@.len() ==> (#[trigger] self.vectors@[g]).is_canonical()
    }

    /// For each distinct vector, its documents as stored: a single id or a list.
    pub closed spec fn doc_sets(&self) -> Seq<Docs> {
        self.docs@
    }

    /// The documents of the elements `es`, taken in order, each element's in
    /// registration order, each document once, until there are `n`.
    pub open spec fn gathered(&self, es: Seq<PriorityNode>, n: nat) -> Seq<(u64, u64)>
        decreases es.len(),
    {
        if es.len() == 0 {
            Seq::empty()
        } else {
            add_docs(
                self.gathered(es.drop_last(), n),
                self.docs()[self.element_vector()[es.last().1 as int]],
                es.last().0,
                n,
            )
        }
    }

    /// Document `doc` was found at distance key `key`: it is registered on the
    /// vector of some element, whose distance key to `q` is `key`.
    pub open spec fn found<D: Fn(&TreeVector, &TreeVector) -> u64>(
        &self,
        q: &TreeVector,
        dist: &D,
        doc: u64,
        key: u64,
    ) -> bool {
        exists|e: int|
            0 <= e < self.spec_len() && #[trigger] self.docs()[self.element_vector()[e]].contains(doc)
                && dist.ensures((&self.vectors()[self.element_vector()[e]], q), key)
    }

    /// An empty index with degree bounds `m` (upper layers) and `m0` (base
    /// layer), and beam width `efc` during construction.
    pub fn new(m: usize, m0: usize, efc: usize) -> (r: Self)
        ensures
            r.wf(),
            r.spec_len() == 0,
            r.vectors() == Seq::<TreeVector>::empty(),
            r.docs() == Seq::<Seq<u64>>::empty(),
            r.element_vector() == Seq::<int>::empty(),
            r.graph().spec_m() == m,
            r.graph().spec_m0() == m0,
            r.graph().spec_efc() == efc,
    {
        let r = HnswIndex {
            h: Hnsw::new(m, m0, efc),
            vectors: Vec::new(),
            docs: Vec::new(),
            element_vector: Vec::new(),
        };
        assert(r.docs() =~= Seq::<Seq<u64>>::empty());
        assert(r.element_vector() =~= Seq::<int>::empty());
        r
    }

    /// The position of a vector equal to `o` among the distinct vectors.
    fn find_vector(&self, o: &TreeVector) -> (r: Option<usize>)
        ensures
            match r {
                Some(g) => g < self.vectors@.len() && same_vector(self.vectors@[g as int], *o),
                None => forall|g: int|
                    0 <= g < self.vectors@.len() ==> !same_vector(#[trigger] self.vectors@[g], *o),
            },
    {
        let mut g: usize = 0;
        while g < self.vectors.len()
            invariant
                g <= self.vectors@.len(),
                forall|j: int| 0 <= j < g ==> !same_vector(#[trigger] self.vectors@[j], *o),
            decreases self.vectors@.len() - g,
        {
            if self.vectors[g] == *o {
                return Some(g);
            }
            g = g + 1;
        }
        None
    }

    /// Inserts vector `o` as element `len()`, on graph levels `0..=level`, and
    /// registers document `d` on it. A vector equal to one already inserted
    /// shares that vector's documents.
    pub fn insert<D: Fn(&TreeVector, &TreeVector) -> u64>(
        &mut self,
        o: TreeVector,
        d: u64,
        level: usize,
        dist: &D,
    )
        requires
            old(self).wf(),
            old(self).spec_len() + 1 < usize::MAX,
            level < usize::MAX,
            forall|a: &TreeVector, b: &TreeVector| #[trigger] dist.requires((a, b)),
        ensures
            final(self).wf(),
            final(self).spec_len() == old(self).spec_len() + 1,
            final(self).graph().spec_m() == old(self).graph().spec_m(),
            final(self).graph().spec_m0() == old(self).graph().spec_m0(),
            final(self).graph().spec_efc() == old(self).graph().spec_efc(),
            forall|l: int|
                0 <= l < final(self).graph().num_layers() ==> (#[trigger] final(self).graph().layer(
                    l,
                ).contains_key(old(self).spec_len() as u64) <==> l <= level),
            (exists|g: int|
                0 <= g < old(self).vectors().len() && same_vector(old(self).vectors()[g], o))
                ==> exists|g: int|
                0 <= g < old(self).vectors().len() && same_vector(
                    #[trigger] old(self).vectors()[g],
                    o,
                ) && final(self).vectors() == old(self).vectors() && final(self).element_vector()
                    == old(self).element_vector().push(g) && final(self).docs() == old(
                    self,
                ).docs().update(
                    g,
                    if old(self).docs()[g].contains(d) {
                        old(self).docs()[g]
                    } else {
                        old(self).docs()[g].push(d)
                    },
                ),
            !(exists|g: int|
                0 <= g < old(self).vectors().len() && same_vector(old(self).vectors()[g], o))
                ==> final(self).vectors().len() == old(self).vectors().len() + 1
                && final(self).vectors().drop_last() == old(self).vectors() && canonical_of(
                final(self).vectors().last(),
                o,
            ) && final(self).docs()
                == old(self).docs().push(seq![d]) && final(self).element_vector() == old(
                self,
            ).element_vector().push(old(self).vectors().len() as int),
    {
        let ghost old_docs = self.docs@;
        let ghost o0 = o;
        let o = o.canonicalize();
        let g: usize = match self.find_vector(&o) {
            Some(g) => {
                let mut dg = self.docs.remove(g);
                let promoted = dg.insert(d);
                match promoted {
                    Some(n) => {
                        self.docs.insert(g, n);
                    },
                    None => {
                        self.docs.insert(g, dg);
                    },
                }
                proof {
                    assert(self.docs@ =~= old_docs.update(g as int, self.docs@[g as int]));
                    assert(self.docs() =~= old(self).docs().update(
                        g as int,
                        if old(self).docs()[g as int].contains(d) {
                            old(self).docs()[g as int]
                        } else {
                            old(self).docs()[g as int].push(d)
                        },
                    ));
                }
                g
            },
            None => {
                let g = self.vectors.len();
                self.vectors.push(o);
                self.docs.push(Docs::One(d));
                proof {
                    assert(seq![d].no_duplicates());
                    assert(self.docs() =~= old(self).docs().push(seq![d]));
                    assert forall|g1: int, g2: int|
                        0 <= g1 < self.vectors@.len() && 0 <= g2 < self.vectors@.len() && g1 != g2
                            implies !same_vector(#[trigger] self.vectors@[g1], #[trigger] self.vectors@[g2]) by {
                        if g1 < g && g2 < g {
                            assert(self.vectors@[g1] == old(self).vectors@[g1]);
                            assert(self.vectors@[g2] == old(self).vectors@[g2]);
                        } else if g1 < g {
                            assert(self.vectors@[g1] == old(self).vectors@[g1]);
                        } else {
                            assert(self.vectors@[g2] == old(self).vectors@[g2]);
                        }
                    }
                }
                g
            },
        };
        self.element_vector.push(g);
        assert(self.element_vector() =~= old(self).element_vector().push(g as int));
        let vs = &self.vectors;
        let ev = &self.element_vector;
        let dp = |a: u64, b: u64| -> (r: u64)
            requires
                (a as int) < ev@.len(),
                (b as int) < ev@.len(),
                (ev@[a as int] as int) < vs@.len(),
                (ev@[b as int] as int) < vs@.len(),
                dist.requires((&vs@[ev@[a as int] as int], &vs@[ev@[b as int] as int])),
            ensures
                dist.ensures((&vs@[ev@[a as int] as int], &vs@[ev@[b as int] as int]), r),
            { dist(&vs[ev[a as usize]], &vs[ev[b as usize]]) };
        assert forall|a: u64, b: u64|
            (a as int) <= self.h.spec_len() && (b as int) <= self.h.spec_len() implies #[trigger] dp.requires((a, b)) by {
            assert((ev@[a as int] as int) < vs@.len());
            assert((ev@[b as int] as int) < vs@.len());
        }
        let id = self.h.insert(&dp, level);
        assert(id as int == old(self).spec_len());
    }

    /// The documents of the approximate `n` nearest elements to `q`, nearest
    /// first, each document once and at most `n` of them; `ef` is the beam
    /// width on the base layer, and `ef == 0` finds nothing. The elements
    /// found are recorded in `r.elements`, ascending by (distance key, id); the
    /// documents are theirs in that order, each element's in registration
    /// order. When fewer than `n` and `ef` elements come back, they hold every
    /// base-layer neighbour of each of them.
    pub fn search<D: Fn(&TreeVector, &TreeVector) -> u64>(
        &self,
        q: &TreeVector,
        n: usize,
        ef: usize,
        dist: &D,
    ) -> (r: KnnResult)
        requires
            self.wf(),
            forall|a: &TreeVector, b: &TreeVector| #[trigger] dist.requires((a, b)),
        ensures
            r.docs@ == self.gathered(r.elements@, n as nat),
            sorted(r.elements@),
            r.elements@.len() <= n,
            r.elements@.len() <= ef,
            forall|t: int|
                0 <= t < r.elements@.len() ==> (#[trigger] r.elements@[t]).1 < self.spec_len()
                    && dist.ensures(
                    (&self.vectors()[self.element_vector()[r.elements@[t].1 as int]], q),
                    r.elements@[t].0,
                ),
            self.spec_len() > 0 && n > 0 && ef > 0 ==> r.elements@.len() > 0,
            r.elements@.len() < n && r.elements@.len() < ef ==> beam_closed(
                self.graph().layer(0),
                r.elements@,
            ),
            r.docs@.len() <= n,
            docs_of(r.docs@).no_duplicates(),
            forall|i: int, j: int|
                0 <= i < j < r.docs@.len() ==> (#[trigger] r.docs@[i]).1 <= (#[trigger] r.docs@[j]).1,
            forall|i: int|
                0 <= i < r.docs@.len() ==> self.found(q, dist, (#[trigger] r.docs@[i]).0, r.docs@[i].1),
            self.spec_len() == 0 ==> r.docs@.len() == 0,
            self.spec_len() > 0 && n > 0 && ef > 0 ==> r.docs@.len() > 0,
    {
        let vs = &self.vectors;
        let ev = &self.element_vector;
        let dq = |e: u64| -> (r: u64)
            requires
                (e as int) < ev@.len(),
                (ev@[e as int] as int) < vs@.len(),
                dist.requires((&vs@[ev@[e as int] as int], q)),
            ensures
                dist.ensures((&vs@[ev@[e as int] as int], q), r),
            {
                let len = ev.len();
                assert((e as int) < len);
                let x = ev[e as usize];
                let v = &vs[x];
                let r = dist(v, q);
                r
            };
        assert forall|e: u64| (e as int) < self.h.spec_len() implies #[trigger] dq.requires((e,)) by {
            assert((ev@[e as int] as int) < vs@.len());
        }
        let neighbors = self.h.knn_search(&dq, n, ef);
        assert forall|t: int| 0 <= t < neighbors@.len() implies (#[trigger] neighbors@[t]).1 < self.spec_len()
            && dq.ensures((neighbors@[t].1,), neighbors@[t].0) by {
            assert((neighbors@[t].1 as int) < self.h.spec_len());
        }
        assert(forall|e: u64, r: u64|
            #[trigger] dq.ensures((e,), r) ==> dist.ensures((&vs@[ev@[e as int] as int], q), r));
        let mut builder = KnnResultBuilder::new(n);
        let mut i: usize = 0;
        while i < neighbors.len()
            invariant
                self.wf(),
                vs == &self.vectors,
                ev == &self.element_vector,
                i <= neighbors@.len(),
                neighbors@.len() <= n,
                crate::beam::sorted(neighbors@),
                forall|t: int|
                    0 <= t < neighbors@.len() ==> (#[trigger] neighbors@[t]).1 < self.spec_len()
                        && dq.ensures((neighbors@[t].1,), neighbors@[t].0),
                i == 0 ==> builder@.len() == 0,
                forall|e: u64, r: u64|
                    #[trigger] dq.ensures((e,), r) ==> dist.ensures((&vs@[ev@[e as int] as int], q), r),
                self.spec_len() == 0 ==> neighbors@.len() == 0,
                builder.spec_knn() == n,
                builder@.len() <= n,
                docs_of(builder@).no_duplicates(),
                forall|a: int, b: int|
                    0 <= a < b < builder@.len() ==> (#[trigger] builder@[a]).1 <= (#[trigger] builder@[b]).1,
                forall|a: int, t: int|
                    0 <= a < builder@.len() && i <= t < neighbors@.len() ==> (#[trigger] builder@[a]).1
                        <= (#[trigger] neighbors@[t]).0,
                forall|a: int|
                    0 <= a < builder@.len() ==> self.found(q, dist, (#[trigger] builder@[a]).0, builder@[a].1),
                i > 0 && n > 0 && ef > 0 ==> builder@.len() > 0,
                builder@ == self.gathered(neighbors@.take(i as int), n as nat),
            decreases neighbors@.len() - i,
        {
            let (key, e) = neighbors[i];
            proof {
                assert(neighbors@.take(i + 1).drop_last() =~= neighbors@.take(i as int));
                assert(neighbors@.take(i + 1).last() == neighbors@[i as int]);
            }
            assert(neighbors@[i as int] == (key, e));
            assert((e as int) < self.spec_len() && dq.ensures((e,), key));
            if builder.check_add(key) {
                let len = self.element_vector.len();
                assert((e as int) < len);
                let g = self.element_vector[e as usize];
                let ghost acc = builder@;
                let ghost ds = self.docs@[g as int]@;
                builder.add(key, &self.docs[g]);
                proof {
                    assert(self.docs()[self.element_vector()[e as int]] == ds);
                    assert(self.gathered(neighbors@.take(i + 1), n as nat) == add_docs(
                        self.gathered(neighbors@.take(i as int), n as nat), ds, key, n as nat));
                    lemma_add_docs(acc, ds, key, n as nat);
                    assert forall|a: int| 0 <= a < acc.len() implies #[trigger] builder@[a] == acc[a] by {
                        assert(builder@.subrange(0, acc.len() as int)[a] == builder@[a]);
                    }
                    assert(dist.ensures((&vs@[ev@[e as int] as int], q), key));
                    assert(self.element_vector()[e as int] == g as int);
                    assert(self.docs()[g as int] == ds);
                    assert forall|a: int| 0 <= a < builder@.len() implies self.found(
                        q,
                        dist,
                        (#[trigger] builder@[a]).0,
                        builder@[a].1,
                    ) by {
                        if a >= acc.len() {
                            assert(self.docs()[self.element_vector()[e as int]].contains(builder@[a].0));
                        }
                    }
                    assert forall|a: int, t: int|
                        0 <= a < builder@.len() && i + 1 <= t < neighbors@.len() implies (#[trigger] builder@[a]).1
                            <= (#[trigger] neighbors@[t]).0 by {
                        assert(crate::beam::node_lt(neighbors@[i as int], neighbors@[t]));
                        if a < acc.len() {
                            assert(builder@[a] == acc[a]);
                        }
                    }
                    assert forall|a: int, b: int|
                        0 <= a < b < builder@.len() implies (#[trigger] builder@[a]).1 <= (#[trigger] builder@[b]).1 by {
                        if b < acc.len() {
                            assert(builder@[a] == acc[a] && builder@[b] == acc[b]);
                        } else if a < acc.len() {
                            assert(builder@[a] == acc[a]);
                        }
                    }
                }
            } else {
                proof {
                    let ds = self.docs()[self.element_vector()[e as int]];
                    assert(add_docs(builder@, ds, key, n as nat) == builder@);
                    assert(self.gathered(neighbors@.take(i + 1), n as nat) == add_docs(
                        self.gathered(neighbors@.take(i as int), n as nat), ds, key, n as nat));
                    assert forall|a: int, t: int|
                        0 <= a < builder@.len() && i + 1 <= t < neighbors@.len() implies (#[trigger] builder@[a]).1
                            <= (#[trigger] neighbors@[t]).0 by {
                        assert(crate::beam::node_lt(neighbors@[i as int], neighbors@[t]));
                    }
                }
            }
            i = i + 1;
        }
        proof {
            assert(neighbors@.take(neighbors@.len() as int) =~= neighbors@);
        }
        let mut r = builder.build();
        r.elements = Ghost(neighbors@);
        r
    }
}

/// What every index built by `new` and `insert` satisfies: its graph is well
/// formed with one element per insert (so the graph's laws hold: degree
/// bound, nesting, entry point, dense ids, proper links); each element maps
/// to one of the stored vectors; stored vectors are pairwise unequal and in
/// stored form; each has a non-empty list of documents without repeats, in
/// single-id form exactly when it holds one document.
pub proof fn lemma_index_invariant(idx: &HnswIndex)
    requires
        idx.wf(),
    ensures
        idx.graph().wf(),
        idx.graph().spec_len() == idx.spec_len(),
        idx.element_vector().len() == idx.spec_len(),
        forall|i: int|
            0 <= i < idx.spec_len() ==> 0 <= #[trigger] idx.element_vector()[i] < idx.vectors().len(),
        idx.docs().len() == idx.vectors().len(),
        idx.doc_sets().len() == idx.vectors().len(),
        forall|g: int|
            0 <= g < idx.vectors().len() ==> (#[trigger] idx.doc_sets()[g]).wf() && idx.docs()[g]
                == idx.doc_sets()[g]@ && idx.docs()[g].len() > 0 && (idx.doc_sets()[g] is One
                <==> idx.docs()[g].len() == 1),
        forall|g1: int, g2: int|
            0 <= g1 < idx.vectors().len() && 0 <= g2 < idx.vectors().len() && g1 != g2 ==> !same_vector(
                #[trigger] idx.vectors()[g1],
                #[trigger] idx.vectors()[g2],
            ),
        forall|g: int| 0 <= g < idx.vectors().len() ==> (#[trigger] idx.vectors()[g]).is_canonical(),
{
    assert forall|g: int| 0 <= g < idx.vectors().len() implies (#[trigger] idx.doc_sets()[g]).wf()
        && idx.docs()[g] == idx.doc_sets()[g]@ && idx.docs()[g].len() > 0 && (idx.doc_sets()[g] is One
        <==> idx.docs()[g].len() == 1) by {
        assert(idx.docs@[g].wf());
    }
}

} // verus!
