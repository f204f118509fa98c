use crate::pool::{Pool, PoolId};
use dashmap::DashMap;
use vstd::prelude::*;

verus! {

/// Pool ids are unique within a sequence of pools.
pub open spec fn unique_ids(s: Seq<Pool>) -> bool {
    forall|i: int, j: int| 0 <= i < j < s.len() ==> s[i].id != s[j].id
}

/// Some pool of `s` has the id `id`.
pub open spec fn has_id(s: Seq<Pool>, id: PoolId) -> bool {
    exists|k: int| 0 <= k < s.len() && s[k].id == id
}

/// The pool of `s` with the id `id`, if there is one.
pub open spec fn lookup(s: Seq<Pool>, id: PoolId) -> Option<Pool> {
    if has_id(s, id) {
        Some(s[choose|k: int| 0 <= k < s.len() && s[k].id == id])
    } else {
        None
    }
}

#[verifier::external_type_specification]
#[verifier::external_body]
#[verifier::reject_recursive_types(K)]
#[verifier::reject_recursive_types(V)]
#[verifier::reject_recursive_types(S)]
pub struct ExDashMap<K, V, S>(DashMap<K, V, S>);

/// What a concurrent pool map holds: the state stored under each pool id.
pub uninterp spec fn stored_pools(m: DashMap<PoolId, Pool>) -> Map<PoolId, Pool>;

/// Relies on `DashMap::new`: a new map holds nothing.
#[verifier::external_body]
fn map_new() -> (r: DashMap<PoolId, Pool>)
    ensures
        stored_pools(r).dom() == Set::<PoolId>::empty(),
{
    DashMap::new()
}

/// Relies on `DashMap::insert`: afterwards `k` maps to `v` and every other key keeps
/// its value.
#[verifier::external_body]
fn map_insert(m: &mut DashMap<PoolId, Pool>, k: PoolId, v: Pool)
    ensures
        stored_pools(*final(m)) == stored_pools(*old(m)).insert(k, v),
{
    m.insert(k, v);
}

/// Relies on `DashMap::get`: the value stored under `k`, if any.
#[verifier::external_body]
fn map_get(m: &DashMap<PoolId, Pool>, k: PoolId) -> (r: Option<Pool>)
    ensures
        r == (if stored_pools(*m).contains_key(k) {
            Some(stored_pools(*m)[k])
        } else {
            None
        }),
{
    m.get(&k).map(|e| *e.value())
}

/// The authoritative store of pool states, keyed by pool id. Each pool's state is
/// replaced whole; pools are never removed by confirmed events. Beside the map the
/// registry keeps the order in which pools were first observed, so that every
/// projection walks them in one stable order.
pub struct PoolRegistry {
    map: DashMap<PoolId, Pool>,
    order: Vec<PoolId>,
}

impl PoolRegistry {
    /// The stored pools, in the order in which they were first observed.
    pub closed spec fn pools(&self) -> Seq<Pool> {
        self.order@.map_values(|id: PoolId| stored_pools(self.map)[id])
    }

    /// The order lists each stored id once, and each id stores a pool of that id.
    pub closed spec fn inv(&self) -> bool {
        &&& forall|i: int, j: int|
            0 <= i < j < self.order@.len() ==> self.order@[i] != self.order@[j]
        &&& forall|id: PoolId|
            #[trigger] stored_pools(self.map).contains_key(id) <==> self.order@.contains(id)
        &&& forall|id: PoolId|
            #[trigger] stored_pools(self.map).contains_key(id) ==> stored_pools(self.map)[id].id
                == id
    }

    pub open spec fn wf(&self) -> bool {
        &&& self.inv()
        &&& unique_ids(self.pools())
        &&& forall|k: int| 0 <= k < self.pools().len() ==> (#[trigger] self.pools()[k]).wf()
    }

    /// The stored state of each known pool.
    pub open spec fn view(&self) -> Map<PoolId, Pool> {
        Map::new(|id: PoolId| has_id(self.pools(), id), |id: PoolId| lookup(self.pools(), id)->0)
    }

    pub fn new() -> (r: Self)
        ensures
            r.wf(),
            r.pools() == Seq::<Pool>::empty(),
    {
        let r = PoolRegistry { map: map_new(), order: Vec::new() };
        assert(r.pools() =~= Seq::<Pool>::empty());
        r
    }

    proof fn lemma_has_id(&self, id: PoolId)
        requires
            self.inv(),
        ensures
            has_id(self.pools(), id) <==> stored_pools(self.map).contains_key(id),
            has_id(self.pools(), id) ==> lookup(self.pools(), id) == Some(stored_pools(self.map)[id]),
    {
        let m = stored_pools(self.map);
        if m.contains_key(id) {
            let k = choose|k: int| 0 <= k < self.order@.len() && self.order@[k] == id;
            assert(self.pools()[k].id == id);
        }
        if has_id(self.pools(), id) {
            let k = choose|k: int| 0 <= k < self.pools().len() && self.pools()[k].id == id;
            let x = self.order@[k];
            assert(self.order@.contains(x));
            assert(m.contains_key(x));
        }
    }

    /// The stored state of pool `id`, or `None` where it was never observed.
    pub fn get(&self, id: PoolId) -> (r: Option<Pool>)
        requires
            self.wf(),
        ensures
            r == lookup(self.pools(), id),
            r is Some <==> self@.contains_key(id),
            r matches Some(p) ==> p == self@[id] && p.id == id && p.wf(),
    {
        proof {
            self.lemma_has_id(id);
            if has_id(self.pools(), id) {
                let k = choose|k: int| 0 <= k < self.pools().len() && self.pools()[k].id == id;
                assert(self.pools()[k].wf());
            }
        }
        map_get(&self.map, id)
    }

    /// Replaces the whole state of `pool.id`, or adds it when it is new.
    pub fn upsert(&mut self, pool: Pool)
        requires
            old(self).wf(),
            pool.wf(),
        ensures
            final(self).wf(),
            final(self)@ == old(self)@.insert(pool.id, pool),
            has_id(old(self).pools(), pool.id) ==> final(self).pools().len() == old(self).pools().len(),
            !has_id(old(self).pools(), pool.id) ==> final(self).pools() == old(self).pools().push(pool),
    {
        let ghost before = self.pools();
        let ghost m0 = stored_pools(self.map);
        proof {
            self.lemma_has_id(pool.id);
        }
        let present = map_get(&self.map, pool.id).is_some();
        map_insert(&mut self.map, pool.id, pool);
        let ghost pos: int;
        if present {
            proof {
                pos = choose|k: int| 0 <= k < self.order@.len() && self.order@[k] == pool.id;
            }
        } else {
            self.order.push(pool.id);
            proof {
                pos = before.len() as int;
            }
        }
        proof {
            let after = self.pools();
            let m1 = stored_pools(self.map);
            assert(m1 == m0.insert(pool.id, pool));
            assert(0 <= pos < self.order@.len() && self.order@[pos] == pool.id);
            assert(forall|j: int| 0 <= j < self.order@.len() && j != pos ==> self.order@[j] != pool.id);
            assert(after.len() == self.order@.len());
            assert(after[pos] == pool);
            assert(forall|j: int| 0 <= j < after.len() && j != pos ==> after[j] == before[j]);
            assert forall|id: PoolId| #[trigger] m1.contains_key(id) <==> self.order@.contains(id) by {
                if m1.contains_key(id) && id != pool.id {
                    assert(m0.contains_key(id));
                    let k = choose|k: int| 0 <= k < old(self).order@.len() && old(self).order@[k] == id;
                    assert(self.order@[k] == id);
                }
                if self.order@.contains(id) && id != pool.id {
                    let k = choose|k: int| 0 <= k < self.order@.len() && self.order@[k] == id;
                    assert(old(self).order@[k] == id);
                    assert(old(self).order@.contains(id));
                }
            };
            assert(self.inv());
            assert forall|k: int| 0 <= k < after.len() implies (#[trigger] after[k]).id == self.order@[k] by {
                assert(self.order@.contains(self.order@[k]));
                assert(m1.contains_key(self.order@[k]));
            };
            assert(forall|j: int| 0 <= j < after.len() && j != pos ==> after[j].id != pool.id);
            assert(forall|k: int| 0 <= k < after.len() ==> (#[trigger] after[k]).wf());
            assert forall|id: PoolId| #[trigger] has_id(after, id) == (has_id(before, id) || id
                == pool.id) by {
                if has_id(before, id) && id != pool.id {
                    let j = choose|j: int| 0 <= j < before.len() && before[j].id == id;
                    assert(after[j].id == id);
                }
                if id == pool.id {
                    assert(after[pos].id == id);
                } else if has_id(after, id) {
                    let j = choose|j: int| 0 <= j < after.len() && after[j].id == id;
                    assert(before[j] == after[j]);
                }
            };
            assert forall|id: PoolId| has_id(after, id) implies #[trigger] lookup(after, id)->0 == (
            if id == pool.id {
                pool
            } else {
                lookup(before, id)->0
            }) by {
                let j = choose|j: int| 0 <= j < after.len() && after[j].id == id;
                if id == pool.id {
                    assert(j == pos);
                } else {
                    let c = choose|c: int| 0 <= c < before.len() && before[c].id == id;
                    assert(after[c] == before[c]);
                    assert(j == c);
                }
            };
            assert(self@ =~= old(self)@.insert(pool.id, pool));
            if !present {
                assert(after =~= before.push(pool));
            }
        }
    }

    /// A copy of every stored pool, in the registry's order.
    pub fn get_all(&self) -> (r: Vec<Pool>)
        requires
            self.wf(),
        ensures
            r@ == self.pools(),
    {
        let mut out: Vec<Pool> = Vec::new();
        let mut i: usize = 0;
        while i < self.order.len()
            invariant
                self.wf(),
                0 <= i <= self.order@.len(),
                out@ == self.pools().subrange(0, i as int),
            decreases self.order@.len() - i,
        {
            let id = self.order[i];
            proof {
                assert(self.order@.contains(id));
            }
            let p = map_get(&self.map, id).unwrap();
            out.push(p);
            i = i + 1;
            assert(out@ =~= self.pools().subrange(0, i as int));
        }
        assert(out@ =~= self.pools());
        out
    }

    /// Number of known pools.
    pub fn len(&self) -> (r: usize)
        ensures
            r == self.pools().len(),
    {
        self.order.len()
    }
}

} // verus!
