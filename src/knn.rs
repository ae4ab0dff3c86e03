use vstd::prelude::*;

verus! {

/// The documents that share one vector: a single id, or several ids in the
/// order in which they were registered.
pub enum Docs {
    One(u64),
    Many(Vec<u64>),
}

impl Docs {
    /// The ids, in registration order.
    pub open spec fn view(&self) -> Seq<u64> {
        match self {
            Docs::One(d) => seq![*d],
            Docs::Many(v) => v@,
        }
    }

    /// Ids are never repeated, and the list form holds at least two.
    pub open spec fn wf(&self) -> bool {
        &&& self@.no_duplicates()
        &&& self is Many ==> self@.len() >= 2
    }

    /// Registers `d`. Registering an id that is already there changes nothing.
    /// A single id that gets a second, distinct one is promoted: the promoted
    /// set is returned, for the caller to store, and `self` is left as it was.
    /// Otherwise `None` is returned and `self` holds the new set.
    pub fn insert(&mut self, d: u64) -> (r: Option<Docs>)
        requires
            old(self).wf(),
        ensures
            final(self).wf(),
            old(self)@.contains(d) ==> r is None && final(self)@ == old(self)@,
            !old(self)@.contains(d) ==> match r {
                Some(n) => *old(self) is One && final(self)@ == old(self)@ && n is Many && n@ == old(
                    self,
                )@.push(d) && n.wf(),
                None => *old(self) is Many && final(self)@ == old(self)@.push(d),
            },
    {
        match self {
            Docs::One(x) => {
                assert(seq![*x][0] == *x);
                if *x == d {
                    None
                } else {
                    let mut v: Vec<u64> = Vec::new();
                    v.push(*x);
                    v.push(d);
                    assert(v@ =~= seq![*x].push(d));
                    assert(v@[0] != v@[1]);
                    assert(v@.no_duplicates());
                    Some(Docs::Many(v))
                }
            },
            Docs::Many(v) => {
                if contains(v, d) {
                    None
                } else {
                    v.push(d);
                    None
                }
            },
        }
    }

    /// Whether `d` is registered.
    pub fn contains(&self, d: u64) -> (r: bool)
        ensures
            r == self@.contains(d),
    {
        match self {
            Docs::One(x) => {
                assert(seq![*x][0] == *x);
                *x == d
            },
            Docs::Many(v) => contains(v, d),
        }
    }

    /// The ids, in registration order.
    pub fn to_vec(&self) -> (r: Vec<u64>)
        ensures
            r@ == self@,
    {
        match self {
            Docs::One(x) => {
                let mut v: Vec<u64> = Vec::new();
                v.push(*x);
                assert(v@ =~= seq![*x]);
                v
            },
            Docs::Many(v) => {
                let mut r: Vec<u64> = Vec::new();
                let mut i: usize = 0;
                while i < v.len()
                    invariant
                        i <= v@.len(),
                        r@ == v@.take(i as int),
                    decreases v@.len() - i,
                {
                    r.push(v[i]);
                    i = i + 1;
                    assert(r@ =~= v@.take(i as int));
                }
                assert(v@.take(v@.len() as int) =~= v@);
                r
            },
        }
    }
}

/// Whether `d` occurs in `v`.
fn contains(v: &Vec<u64>, d: u64) -> (r: bool)
    ensures
        r == v@.contains(d),
{
    let mut i: usize = 0;
    while i < v.len()
        invariant
            i <= v@.len(),
            forall|j: int| 0 <= j < i ==> v@[j] != d,
        decreases v@.len() - i,
    {
        if v[i] == d {
            return true;
        }
        i = i + 1;
    }
    false
}

/// The document ids of a result, in order.
pub open spec fn docs_of(s: Seq<(u64, u64)>) -> Seq<u64> {
    s.map_values(|p: (u64, u64)| p.0)
}

/// `acc` extended by the ids of `ds` (each with distance key `key`) that it
/// does not already hold, in order, until it has `knn` entries.
pub open spec fn add_docs(acc: Seq<(u64, u64)>, ds: Seq<u64>, key: u64, knn: nat) -> Seq<
    (u64, u64),
>
    decreases ds.len(),
{
    if ds.len() == 0 || acc.len() >= knn {
        acc
    } else {
        let acc1 = if docs_of(acc).contains(ds[0]) {
            acc
        } else {
            acc.push((ds[0], key))
        };
        add_docs(acc1, ds.drop_first(), key, knn)
    }
}

/// What `add_docs` keeps: `acc` as a prefix, at most `knn` entries, each
/// document once, and new entries only from `ds`, at `key`.
pub proof fn lemma_add_docs(acc: Seq<(u64, u64)>, ds: Seq<u64>, key: u64, knn: nat)
    ensures
        add_docs(acc, ds, key, knn).len() >= acc.len(),
        add_docs(acc, ds, key, knn).subrange(0, acc.len() as int) == acc,
        acc.len() <= knn ==> add_docs(acc, ds, key, knn).len() <= knn,
        forall|i: int|
            acc.len() <= i < add_docs(acc, ds, key, knn).len() ==> (#[trigger] add_docs(
                acc,
                ds,
                key,
                knn,
            )[i]).1 == key && ds.contains(add_docs(acc, ds, key, knn)[i].0),
        docs_of(acc).no_duplicates() ==> docs_of(add_docs(acc, ds, key, knn)).no_duplicates(),
        acc.len() == 0 && ds.len() > 0 && knn > 0 ==> add_docs(acc, ds, key, knn).len() > 0,
    decreases ds.len(),
{
    let r = add_docs(acc, ds, key, knn);
    if ds.len() == 0 || acc.len() >= knn {
        assert(acc.subrange(0, acc.len() as int) =~= acc);
    } else {
        let acc1 = if docs_of(acc).contains(ds[0]) {
            acc
        } else {
            acc.push((ds[0], key))
        };
        let rest = ds.drop_first();
        lemma_add_docs(acc1, rest, key, knn);
        assert(r == add_docs(acc1, rest, key, knn));
        assert(r.subrange(0, acc.len() as int) =~= r.subrange(0, acc1.len() as int).subrange(
            0,
            acc.len() as int,
        ));
        assert(acc1.subrange(0, acc.len() as int) =~= acc);
        assert forall|i: int| acc.len() <= i < r.len() implies (#[trigger] r[i]).1 == key
            && ds.contains(r[i].0) by {
            if i < acc1.len() {
                assert(r[i] == r.subrange(0, acc1.len() as int)[i]);
                assert(r[i] == (ds[0], key));
            } else {
                assert(rest.contains(r[i].0));
                let j = choose|j: int| 0 <= j < rest.len() && rest[j] == r[i].0;
                assert(ds[j + 1] == r[i].0);
            }
        }
        if docs_of(acc).no_duplicates() && !docs_of(acc).contains(ds[0]) {
            assert(docs_of(acc1) =~= docs_of(acc).push(ds[0]));
        }
        if acc.len() == 0 && knn > 0 && !docs_of(acc).contains(ds[0]) {
            assert(acc1.len() == 1);
        }
        if acc.len() == 0 {
            assert(docs_of(acc).len() == 0);
        }
    }
}

/// The result of a nearest-neighbour search: document ids with the distance
/// key at which each was found, ascending by key.
pub struct KnnResult {
    pub docs: Vec<(u64, u64)>,
    /// The graph elements the documents were gathered from, as (distance
    /// key, element id), nearest first.
    pub elements: Ghost<Seq<(u64, u64)>>,
}

/// Gathers the documents of the nearest elements, nearest first, keeping each
/// document once and at most `knn` of them.
pub struct KnnResultBuilder {
    knn: usize,
    docs: Vec<(u64, u64)>,
}

impl KnnResultBuilder {
    pub closed spec fn spec_knn(&self) -> nat {
        self.knn as nat
    }

    /// The entries gathered so far.
    pub closed spec fn view(&self) -> Seq<(u64, u64)> {
        self.docs@
    }

    pub fn new(knn: usize) -> (r: Self)
        ensures
            r.spec_knn() == knn,
            r@ == Seq::<(u64, u64)>::empty(),
    {
        KnnResultBuilder { knn, docs: Vec::new() }
    }

    /// Whether an element at distance key `dist` could still add a document.
    pub fn check_add(&self, dist: u64) -> (r: bool)
        ensures
            r == (self@.len() < self.spec_knn()),
    {
        self.docs.len() < self.knn
    }

    /// Adds the documents of `docs`, found at distance key `dist`.
    pub fn add(&mut self, dist: u64, docs: &Docs)
        ensures
            final(self)@ == add_docs(old(self)@, docs@, dist, old(self).spec_knn()),
            final(self).spec_knn() == old(self).spec_knn(),
    {
        let ds = docs.to_vec();
        assert(ds@.skip(0) =~= ds@);
        let mut i: usize = 0;
        while i < ds.len() && self.docs.len() < self.knn
            invariant
                i <= ds@.len(),
                self.knn == old(self).knn,
                add_docs(self.docs@, ds@.skip(i as int), dist, self.knn as nat) == add_docs(
                    old(self).docs@,
                    ds@,
                    dist,
                    self.knn as nat,
                ),
            decreases ds@.len() - i,
        {
            let d = ds[i];
            let ghost rest = ds@.skip(i as int);
            assert(rest.drop_first() =~= ds@.skip(i + 1));
            if !self.has_doc(d) {
                self.docs.push((d, dist));
            }
            i = i + 1;
        }
        proof {
            if i == ds@.len() {
                assert(ds@.skip(i as int).len() == 0);
            }
        }
    }

    /// Whether document `d` is already in the result.
    fn has_doc(&self, d: u64) -> (r: bool)
        ensures
            r == docs_of(self@).contains(d),
    {
        let mut i: usize = 0;
        while i < self.docs.len()
            invariant
                i <= self.docs@.len(),
                forall|j: int| 0 <= j < i ==> self.docs@[j].0 != d,
            decreases self.docs@.len() - i,
        {
            if self.docs[i].0 == d {
                assert(docs_of(self@)[i as int] == d);
                return true;
            }
            i = i + 1;
        }
        proof {
            if docs_of(self@).contains(d) {
                let j = choose|j: int| 0 <= j < docs_of(self@).len() && docs_of(self@)[j] == d;
                assert(self.docs@[j].0 == d);
            }
        }
        false
    }

    pub fn build(self) -> (r: KnnResult)
        ensures
            r.docs@ == self@,
    {
        KnnResult { docs: self.docs, elements: Ghost(Seq::empty()) }
    }
}

} // verus!
