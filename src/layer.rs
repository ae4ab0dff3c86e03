use std::collections::HashMap;
use vstd::prelude::*;

verus! {

broadcast use vstd::std_specs::hash::group_hash_axioms;

/// The adjacency of one level of the graph: each node present at this level,
/// mapped to its list of neighbours.
pub struct Layer {
    links: HashMap<u64, Vec<u64>>,
}

impl Layer {
    /// Each node present at this level, with its neighbour list.
    pub closed spec fn view(&self) -> Map<u64, Seq<u64>> {
        Map::new(|k: u64| self.links@.contains_key(k), |k: u64| self.links@[k]@)
    }

    /// An empty layer.
    pub fn new() -> (r: Self)
        ensures
            r@ == Map::<u64, Seq<u64>>::empty(),
    {
        let r = Layer { links: HashMap::with_capacity(1) };
        assert(r@ =~= Map::<u64, Seq<u64>>::empty());
        r
    }

    /// Whether node `id` is present at this level.
    pub fn contains(&self, id: u64) -> (r: bool)
        ensures
            r == self@.contains_key(id),
    {
        self.links.contains_key(&id)
    }

    /// The neighbour list of `id`, if `id` is present at this level.
    pub fn neighbors(&self, id: u64) -> (r: Option<&Vec<u64>>)
        ensures
            match r {
                Some(v) => self@.contains_key(id) && v@ == self@[id],
                None => !self@.contains_key(id),
            },
    {
        self.links.get(&id)
    }

    /// Sets the neighbour list of `id`, adding `id` to the layer if absent.
    pub fn set(&mut self, id: u64, list: Vec<u64>)
        ensures
            final(self)@ == old(self)@.insert(id, list@),
    {
        let ghost l = list@;
        self.links.insert(id, list);
        assert(final(self)@ =~= old(self)@.insert(id, l));
    }
}

} // verus!
