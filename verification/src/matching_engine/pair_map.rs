//! A map keyed by trading pair: the pairs in a vector, the values beside them.
use super::types::{TradingPair, TradingPairView};
use vstd::prelude::*;

verus! {

#[derive(Debug)]
#[verifier::reject_recursive_types(V)]
pub struct PairMap<V> {
    pub keys: Vec<TradingPair>,
    pub vals: Vec<V>,
}

impl<V> PairMap<V> {
    /// One value per key, and no pair twice.
    pub open spec fn wf(&self) -> bool {
        &&& self.keys@.len() == self.vals@.len()
        &&& forall|i: int, j: int|
            0 <= i < self.keys@.len() && 0 <= j < self.keys@.len() && i != j ==> (
            #[trigger] self.keys@[i])@ != (#[trigger] self.keys@[j])@
    }

    /// The pair `k` is stored at position `i`.
    pub open spec fn key_at(&self, k: TradingPairView, i: int) -> bool {
        0 <= i < self.keys@.len() && (#[trigger] self.keys@[i])@ == k
    }

    pub open spec fn contains(&self, k: TradingPairView) -> bool {
        exists|i: int| self.key_at(k, i)
    }

    /// The map from pairs to values.
    pub open spec fn map(&self) -> Map<TradingPairView, V> {
        Map::new(|k: TradingPairView| self.contains(k), |k: TradingPairView| self.vals@[choose|i: int| self.key_at(k, i)])
    }

    pub proof fn lemma_map_at(&self, i: int)
        requires
            self.wf(),
            0 <= i < self.keys@.len(),
        ensures
            self.map().contains_key(self.keys@[i]@),
            self.map()[self.keys@[i]@] == self.vals@[i],
    {
        let k = self.keys@[i]@;
        assert(self.key_at(k, i));
        let j = choose|j: int| self.key_at(k, j);
        assert(j == i);
    }

    pub fn new() -> (r: Self)
        ensures
            r.wf(),
            r.map() == Map::<TradingPairView, V>::empty(),
            r.keys@.len() == 0,
    {
        let r = PairMap { keys: Vec::new(), vals: Vec::new() };
        assert(r.map() =~= Map::<TradingPairView, V>::empty());
        r
    }

    /// Where the pair is stored, if it is.
    pub fn position(&self, pair: &TradingPair) -> (r: Option<usize>)
        requires
            self.wf(),
        ensures
            match r {
                Some(i) => self.key_at(pair@, i as int),
                None => !self.contains(pair@),
            },
    {
        let n = self.keys.len();
        let mut i: usize = 0;
        while i < n
            invariant
                n == self.keys@.len(),
                0 <= i <= n,
                forall|j: int| 0 <= j < i ==> (#[trigger] self.keys@[j])@ != pair@,
            decreases n - i,
        {
            if self.keys[i].same_as(pair) {
                return Some(i);
            }
            i += 1;
        }
        None
    }

    pub fn get(&self, pair: &TradingPair) -> (r: Option<&V>)
        requires
            self.wf(),
        ensures
            match r {
                Some(v) => self.map().contains_key(pair@) && *v == self.map()[pair@],
                None => !self.map().contains_key(pair@),
            },
    {
        match self.position(pair) {
            Some(i) => {
                proof {
                    self.lemma_map_at(i as int);
                }
                Some(&self.vals[i])
            },
            None => None,
        }
    }

    /// Adds a pair that is not in the map yet.
    pub fn insert_new(&mut self, pair: TradingPair, v: V)
        requires
            old(self).wf(),
            !old(self).contains(pair@),
        ensures
            final(self).wf(),
            final(self).map() == old(self).map().insert(pair@, v),
            final(self).keys@ == old(self).keys@.push(pair),
            final(self).vals@ == old(self).vals@.push(v),
    {
        let ghost k = pair@;
        let ghost old_map = self.map();
        self.keys.push(pair);
        self.vals.push(v);
        proof {
            let n = self.keys@.len() - 1;
            assert forall|i: int, j: int|
                0 <= i < self.keys@.len() && 0 <= j < self.keys@.len() && i != j implies (
                #[trigger] self.keys@[i])@ != (#[trigger] self.keys@[j])@ by {
                if i == n {
                    assert(!old(self).key_at(k, j));
                } else if j == n {
                    assert(!old(self).key_at(k, i));
                } else {
                    assert(self.keys@[i] == old(self).keys@[i]);
                    assert(self.keys@[j] == old(self).keys@[j]);
                }
            }
            assert forall|q: TradingPairView| #[trigger] self.map().contains_key(q) == old_map.insert(k, v).contains_key(q) by {
                if q != k && self.contains(q) {
                    let i = choose|i: int| self.key_at(q, i);
                    assert(old(self).key_at(q, i));
                }
                if q == k {
                    assert(self.key_at(k, n));
                } else if old(self).contains(q) {
                    let i = choose|i: int| old(self).key_at(q, i);
                    assert(self.key_at(q, i));
                }
            }
            assert forall|q: TradingPairView| #[trigger] self.map().contains_key(q) implies self.map()[q] == old_map.insert(k, v)[q] by {
                let i = choose|i: int| self.key_at(q, i);
                self.lemma_map_at(i);
                if q != k {
                    assert(old(self).key_at(q, i));
                    old(self).lemma_map_at(i);
                } else {
                    assert(self.key_at(k, n));
                    self.lemma_map_at(n);
                }
            }
            assert(self.map() =~= old_map.insert(k, v));
        }
    }

    /// Setting the value at a position sets the value of its pair.
    pub proof fn lemma_set_at(old_map: &Self, new_map: &Self, i: int, v: V)
        requires
            old_map.wf(),
            0 <= i < old_map.keys@.len(),
            new_map.keys@ == old_map.keys@,
            new_map.vals@ == old_map.vals@.update(i, v),
        ensures
            new_map.wf(),
            new_map.map() == old_map.map().insert(old_map.keys@[i]@, v),
    {
        let k = old_map.keys@[i]@;
        assert forall|q: TradingPairView| #[trigger] new_map.map().contains_key(q) == old_map.map().insert(k, v).contains_key(q) by {
            if new_map.contains(q) {
                let j = choose|j: int| new_map.key_at(q, j);
                assert(old_map.key_at(q, j));
            }
            if old_map.contains(q) {
                let j = choose|j: int| old_map.key_at(q, j);
                assert(new_map.key_at(q, j));
            }
            if q == k {
                assert(new_map.key_at(k, i));
            }
        }
        assert forall|q: TradingPairView| #[trigger] new_map.map().contains_key(q) implies new_map.map()[q] == old_map.map().insert(k, v)[q] by {
            let j = choose|j: int| new_map.key_at(q, j);
            new_map.lemma_map_at(j);
            old_map.lemma_map_at(j);
            if q == k {
                assert(old_map.key_at(k, i));
                assert(j == i);
            }
        }
        assert(new_map.map() =~= old_map.map().insert(k, v));
    }
}

} // verus!
