use vstd::prelude::*;
use crate::position::Position;

verus! {

/// A finite set of positions, kept as a list without repeats.
pub struct PositionSet {
    items: Vec<Position>,
}

impl View for PositionSet {
    type V = Set<Position>;

    closed spec fn view(&self) -> Set<Position> {
        self.items@.to_set()
    }
}

impl PositionSet {
    pub closed spec fn wf(&self) -> bool {
        self.items@.no_duplicates()
    }

    pub fn new() -> (r: Self)
        ensures
            r.wf(),
            r@ == Set::<Position>::empty(),
    {
        let r = PositionSet { items: Vec::new() };
        assert(r@ =~= Set::<Position>::empty());
        r
    }

    pub fn contains(&self, p: &Position) -> (r: bool)
        ensures
            r == self@.contains(*p),
    {
        let mut i: usize = 0;
        while i < self.items.len()
            invariant
                i <= self.items@.len(),
                forall|j: int| 0 <= j < i ==> self.items@[j] != *p,
            decreases self.items@.len() - i,
        {
            if self.items[i] == *p {
                assert(self.items@.contains(*p));
                return true;
            }
            i = i + 1;
        }
        false
    }

    pub fn insert(&mut self, p: Position)
        requires
            old(self).wf(),
        ensures
            final(self).wf(),
            final(self)@ == old(self)@.insert(p),
    {
        if !self.contains(&p) {
            let ghost before = self.items@;
            self.items.push(p);
            proof {
                assert(self.items@ == before.push(p));
                before.lemma_push_to_set_commute(p);
            }
        } else {
            assert(old(self)@.insert(p) =~= old(self)@);
        }
    }

    pub fn len(&self) -> (r: usize)
        requires
            self.wf(),
        ensures
            r == self@.len(),
            self@.finite(),
    {
        proof {
            self.items@.unique_seq_to_set();
        }
        self.items.len()
    }

    /// The elements, each once, in an unspecified order.
    pub fn as_slice(&self) -> (r: &[Position])
        ensures
            r@.to_set() == self@,
            forall|q: Position| self@.contains(q) <==> #[trigger] r@.contains(q),
    {
        self.items.as_slice()
    }
}

/// A finite map from positions to values, kept as parallel lists without repeated keys.
pub struct PositionMap<V> {
    keys: Vec<Position>,
    vals: Vec<V>,
    model: Ghost<Map<Position, V>>,
}

impl<V> View for PositionMap<V> {
    type V = Map<Position, V>;

    closed spec fn view(&self) -> Map<Position, V> {
        self.model@
    }
}

impl<V: Copy> PositionMap<V> {
    pub closed spec fn wf(&self) -> bool {
        &&& self.keys@.len() == self.vals@.len()
        &&& self.keys@.no_duplicates()
        &&& self.model@.dom() == self.keys@.to_set()
        &&& forall|i: int| 0 <= i < self.keys@.len() ==> #[trigger] self.model@[self.keys@[i]] == self.vals@[i]
    }

    pub fn new() -> (r: Self)
        ensures
            r.wf(),
            r@ == Map::<Position, V>::empty(),
    {
        let r = PositionMap { keys: Vec::new(), vals: Vec::new(), model: Ghost(Map::empty()) };
        assert(r.keys@.to_set() =~= Set::<Position>::empty());
        r
    }

    fn find(&self, k: &Position) -> (r: Option<usize>)
        requires
            self.wf(),
        ensures
            match r {
                Some(i) => i < self.keys@.len() && self.keys@[i as int] == *k,
                None => !self@.dom().contains(*k),
            },
    {
        let mut i: usize = 0;
        while i < self.keys.len()
            invariant
                i <= self.keys@.len(),
                forall|j: int| 0 <= j < i ==> self.keys@[j] != *k,
            decreases self.keys@.len() - i,
        {
            if self.keys[i] == *k {
                return Some(i);
            }
            i = i + 1;
        }
        proof {
            if self.keys@.to_set().contains(*k) {
                assert(self.keys@.contains(*k));
            }
        }
        None
    }

    pub fn contains_key(&self, k: &Position) -> (r: bool)
        requires
            self.wf(),
        ensures
            r == self@.dom().contains(*k),
    {
        match self.find(k) {
            Some(i) => {
                assert(self.keys@.contains(*k));
                true
            },
            None => false,
        }
    }

    pub fn get(&self, k: &Position) -> (r: Option<V>)
        requires
            self.wf(),
        ensures
            r == if self@.dom().contains(*k) { Some(self@[*k]) } else { None::<V> },
    {
        match self.find(k) {
            Some(i) => {
                assert(self.keys@.contains(*k));
                Some(self.vals[i])
            },
            None => None,
        }
    }

    pub fn insert(&mut self, k: Position, v: V)
        requires
            old(self).wf(),
        ensures
            final(self).wf(),
            final(self)@ == old(self)@.insert(k, v),
    {
        match self.find(&k) {
            Some(i) => {
                self.vals.set(i, v);
                self.model = Ghost(self.model@.insert(k, v));
                assert(self.keys@.contains(k));
                assert(self.model@.dom() =~= self.keys@.to_set());
                assert forall|j: int| 0 <= j < self.keys@.len() implies #[trigger] self.model@[self.keys@[j]]
                    == self.vals@[j] by {
                    if j != i {
                        assert(self.keys@[j] != self.keys@[i as int]);
                    }
                }
            },
            None => {
                let ghost before = self.keys@;
                self.keys.push(k);
                self.vals.push(v);
                self.model = Ghost(self.model@.insert(k, v));
                proof {
                    before.lemma_push_to_set_commute(k);
                    assert(!before.contains(k));
                    assert(self.model@.dom() =~= self.keys@.to_set());
                    assert forall|j: int| 0 <= j < self.keys@.len() implies #[trigger] self.model@[self.keys@[j]]
                        == self.vals@[j] by {
                        if j < before.len() {
                            assert(before.contains(before[j]));
                        }
                    }
                }
            },
        }
    }

    pub fn len(&self) -> (r: usize)
        requires
            self.wf(),
        ensures
            r == self@.dom().len(),
            self@.dom().finite(),
    {
        proof {
            self.keys@.unique_seq_to_set();
        }
        self.keys.len()
    }

    /// The keys, each once, in an unspecified order.
    pub fn keys(&self) -> (r: &[Position])
        requires
            self.wf(),
        ensures
            forall|q: Position| self@.dom().contains(q) <==> #[trigger] r@.contains(q),
    {
        self.keys.as_slice()
    }
}

} // verus!
