use vstd::prelude::*;

use crate::order::Order;

verus! {

/// An order takes part in an execution when it stands on either side.
pub open spec fn participates(p: (Order, Order), oid: u32) -> bool {
    p.0.id == oid || p.1.id == oid
}

/// Abstract image of an execution pair: both orders' views.
pub open spec fn pair_view(p: (Order, Order)) -> (crate::order::OrderV, crate::order::OrderV) {
    (p.0@, p.1@)
}

/// Execution id `e` is on record for order id `oid`.
pub open spec fn listed(l: Seq<(u32, Vec<usize>)>, oid: u32, e: int) -> bool {
    exists|i: int, k: int|
        {
            &&& 0 <= i < l.len()
            &&& 0 <= k < l[i].1@.len()
            &&& l[i].0 == oid
            &&& l[i].1@[k] as int == e
        }
}

/// The pair `p` is (as a value) one of the ledger's records in which order
/// `oid` took part.
pub open spec fn appears(el: ExecutionList, oid: u32, p: (Order, Order)) -> bool {
    exists|m: int|
        {
            &&& 0 <= m < el.matches@.len()
            &&& pair_view(p) == pair_view(#[trigger] el.matches@[m])
            &&& participates(el.matches@[m], oid)
        }
}

/// What any result of `get_matches_for_id(oid)` must look like: a sequence
/// holding (as values) exactly the recorded pairs the order took part in.
pub open spec fn result_matches(el: ExecutionList, oid: u32, rs: Seq<(Order, Order)>) -> bool {
    &&& forall|j: int| 0 <= j < rs.len() ==> appears(el, oid, #[trigger] rs[j])
    &&& forall|m: int|
        0 <= m < el.matches@.len() && #[trigger] participates(el.matches@[m], oid) ==> exists|j: int|
            {
                &&& 0 <= j < rs.len()
                &&& pair_view(rs[j]) == pair_view(el.matches@[m])
            }
}

/// `listed` reads only the id and the list view of each entry, so two tables
/// equal in those are listed-equivalent.
proof fn lemma_listed_congruent(a: Seq<(u32, Vec<usize>)>, b: Seq<(u32, Vec<usize>)>)
    requires
        a.len() == b.len(),
        forall|i: int| 0 <= i < a.len() ==> a[i].0 == b[i].0 && a[i].1@ == b[i].1@,
    ensures
        forall|oid: u32, e: int| listed(a, oid, e) <==> listed(b, oid, e),
{
    assert forall|oid: u32, e: int| listed(a, oid, e) implies listed(b, oid, e) by {
        let (i, k): (int, int) = choose|i: int, k: int|
            {
                &&& 0 <= i < a.len()
                &&& 0 <= k < a[i].1@.len()
                &&& a[i].0 == oid
                &&& a[i].1@[k] as int == e
            };
        assert(b[i].1@[k] as int == e);
    }
    assert forall|oid: u32, e: int| listed(b, oid, e) implies listed(a, oid, e) by {
        let (i, k): (int, int) = choose|i: int, k: int|
            {
                &&& 0 <= i < b.len()
                &&& 0 <= k < b[i].1@.len()
                &&& b[i].0 == oid
                &&& b[i].1@[k] as int == e
            };
        assert(a[i].1@[k] as int == e);
    }
}

/// Two ledgers hold the same records: pairwise equal views in the same
/// order.
pub open spec fn same_records(a: ExecutionList, b: ExecutionList) -> bool {
    &&& a.matches@.len() == b.matches@.len()
    &&& forall|m: int|
        0 <= m < a.matches@.len() ==> pair_view(#[trigger] a.matches@[m]) == pair_view(
            b.matches@[m],
        )
}

/// The ledger of executed trades. `matches` holds the pairs in execution
/// order — the execution id of `matches[m]` is `m + 1`, ids start at 1 and
/// are never reused since records are never deleted. `lookup` indexes the
/// ledger by order id.
pub struct ExecutionList {
    pub matches: Vec<(Order, Order)>,
    pub lookup: Vec<(u32, Vec<usize>)>,
}

impl ExecutionList {
    /// The ledger invariant: lookup entries are keyed by distinct order ids;
    /// every listed execution id names a recorded pair that the order took
    /// part in; each entry's list ascends strictly; and every recorded pair
    /// is listed under both of its order ids.
    pub open spec fn wf(&self) -> bool {
        &&& (forall|i: int, j: int|
            0 <= i < j < self.lookup@.len() ==> self.lookup@[i].0 != self.lookup@[j].0)
        &&& (forall|i: int, k: int|
            0 <= i < self.lookup@.len() && 0 <= k < self.lookup@[i].1@.len() ==> {
                &&& 1 <= #[trigger] self.lookup@[i].1@[k] <= self.matches@.len()
                &&& participates(self.matches@[self.lookup@[i].1@[k] - 1], self.lookup@[i].0)
            })
        &&& (forall|i: int, k1: int, k2: int|
            0 <= i < self.lookup@.len() && 0 <= k1 < k2 < self.lookup@[i].1@.len()
                ==> #[trigger] self.lookup@[i].1@[k1] < #[trigger] self.lookup@[i].1@[k2])
        &&& (forall|m: int|
            0 <= m < self.matches@.len() ==> {
                &&& listed(self.lookup@, #[trigger] self.matches@[m].0.id, m + 1)
                &&& listed(self.lookup@, self.matches@[m].1.id, m + 1)
            })
    }

    /// An empty ledger.
    pub fn new() -> (r: ExecutionList)
        ensures
            r.wf(),
            r.matches@.len() == 0,
            r.lookup@.len() == 0,
    {
        ExecutionList { matches: Vec::new(), lookup: Vec::new() }
    }

    /// A copy whose records are field-for-field images of the original's.
    pub fn duplicate(&self) -> (r: ExecutionList)
        ensures
            same_records(r, *self),
            self.wf() ==> r.wf(),
    {
        let mut ms: Vec<(Order, Order)> = Vec::new();
        let mut m: usize = 0;
        while m < self.matches.len()
            invariant
                m <= self.matches@.len(),
                ms@.len() == m,
                forall|x: int|
                    0 <= x < m ==> pair_view(#[trigger] ms@[x]) == pair_view(self.matches@[x]),
            decreases self.matches@.len() - m,
        {
            let p = &self.matches[m];
            ms.push((p.0.duplicate(), p.1.duplicate()));
            m = m + 1;
        }
        let mut lk: Vec<(u32, Vec<usize>)> = Vec::new();
        let mut i: usize = 0;
        while i < self.lookup.len()
            invariant
                i <= self.lookup@.len(),
                lk@.len() == i,
                forall|x: int|
                    0 <= x < i ==> (#[trigger] lk@[x]).0 == self.lookup@[x].0 && lk@[x].1@
                        == self.lookup@[x].1@,
            decreases self.lookup@.len() - i,
        {
            let src = &self.lookup[i];
            let mut ids: Vec<usize> = Vec::new();
            let mut k: usize = 0;
            while k < src.1.len()
                invariant
                    k <= src.1@.len(),
                    ids@ == src.1@.take(k as int),
                decreases src.1@.len() - k,
            {
                ids.push(src.1[k]);
                proof {
                    assert(ids@ =~= src.1@.take((k + 1) as int));
                }
                k = k + 1;
            }
            proof {
                assert(ids@ =~= src.1@);
            }
            lk.push((src.0, ids));
            i = i + 1;
        }
        let r = ExecutionList { matches: ms, lookup: lk };
        proof {
            if self.wf() {
                lemma_listed_congruent(r.lookup@, self.lookup@);
                assert forall|x: int, k: int|
                    0 <= x < r.lookup@.len() && 0 <= k < r.lookup@[x].1@.len() implies {
                    &&& 1 <= #[trigger] r.lookup@[x].1@[k] <= r.matches@.len()
                    &&& participates(r.matches@[r.lookup@[x].1@[k] - 1], r.lookup@[x].0)
                } by {
                    assert(r.lookup@[x].1@[k] == self.lookup@[x].1@[k]);
                    let e = self.lookup@[x].1@[k];
                    assert(participates(self.matches@[e - 1], self.lookup@[x].0));
                    assert(pair_view(r.matches@[e - 1]) == pair_view(self.matches@[e - 1]));
                }
                assert forall|m2: int| 0 <= m2 < r.matches@.len() implies {
                    &&& listed(r.lookup@, #[trigger] r.matches@[m2].0.id, m2 + 1)
                    &&& listed(r.lookup@, r.matches@[m2].1.id, m2 + 1)
                } by {
                    assert(pair_view(r.matches@[m2]) == pair_view(self.matches@[m2]));
                    assert(listed(self.lookup@, self.matches@[m2].0.id, m2 + 1));
                    assert(listed(self.lookup@, self.matches@[m2].1.id, m2 + 1));
                }
                assert(r.wf());
            }
        }
        r
    }

    /// Records an execution under the next sequential id and lists it for
    /// both orders. The id is always the current record count plus one.
    pub fn insert(&mut self, execution_id: usize, execution: (Order, Order))
        requires
            old(self).wf(),
            execution_id == old(self).matches@.len() + 1,
        ensures
            final(self).wf(),
            final(self).matches@ == old(self).matches@.push(execution),
            forall|oid: u32, e: int|
                listed(final(self).lookup@, oid, e) <==> (listed(old(self).lookup@, oid, e) || (
                participates(execution, oid) && e == execution_id as int)),
    {
        let id0 = execution.0.id;
        let id1 = execution.1.id;
        let ghost l0 = self.lookup@;
        Self::add_to_lookup(&mut self.lookup, id0, execution_id);
        let ghost l1 = self.lookup@;
        if id1 != id0 {
            proof {
                assert forall|i: int, k: int|
                    0 <= i < l1.len() && 0 <= k < l1[i].1@.len() && l1[i].0 == id1
                        implies #[trigger] l1[i].1@[k] < execution_id by {
                    assert(listed(l1, id1, l1[i].1@[k] as int));
                    assert(listed(l0, id1, l1[i].1@[k] as int));
                    let (x, kk): (int, int) = choose|x: int, kk: int|
                        {
                            &&& 0 <= x < l0.len()
                            &&& 0 <= kk < l0[x].1@.len()
                            &&& l0[x].0 == id1
                            &&& l0[x].1@[kk] as int == l1[i].1@[k] as int
                        };
                }
            }
            Self::add_to_lookup(&mut self.lookup, id1, execution_id);
        }
        self.matches.push(execution);
        proof {
            let lk = self.lookup@;
            let ms = self.matches@;
            assert forall|oid: u32, e: int| listed(lk, oid, e) <==> (listed(l0, oid, e) || (
            participates(execution, oid) && e == execution_id as int)) by {}
            assert forall|i: int, k: int|
                0 <= i < lk.len() && 0 <= k < lk[i].1@.len() implies {
                &&& 1 <= #[trigger] lk[i].1@[k] <= ms.len()
                &&& participates(ms[lk[i].1@[k] - 1], lk[i].0)
            } by {
                let e = lk[i].1@[k];
                assert(listed(lk, lk[i].0, e as int));
                if listed(l0, lk[i].0, e as int) {
                    let (x, kk): (int, int) = choose|x: int, kk: int|
                        {
                            &&& 0 <= x < l0.len()
                            &&& 0 <= kk < l0[x].1@.len()
                            &&& l0[x].0 == lk[i].0
                            &&& l0[x].1@[kk] as int == e as int
                        };
                    assert(old(self).wf());
                    assert(participates(old(self).matches@[e - 1], lk[i].0));
                    assert(ms[e - 1] == old(self).matches@[e - 1]);
                } else {
                    assert(participates(execution, lk[i].0) && e == execution_id);
                    assert(ms[e - 1] == execution);
                }
            }
            assert forall|m: int| 0 <= m < ms.len() implies {
                &&& listed(lk, #[trigger] ms[m].0.id, m + 1)
                &&& listed(lk, ms[m].1.id, m + 1)
            } by {
                if m < ms.len() - 1 {
                    assert(ms[m] == old(self).matches@[m]);
                    assert(listed(old(self).lookup@, old(self).matches@[m].0.id, m + 1));
                    assert(listed(old(self).lookup@, old(self).matches@[m].1.id, m + 1));
                    assert(listed(l0, ms[m].0.id, m + 1));
                    assert(listed(l0, ms[m].1.id, m + 1));
                } else {
                    assert(participates(execution, id0));
                    assert(participates(execution, id1));
                    assert(listed(lk, id0, execution_id as int));
                    assert(listed(lk, id1, execution_id as int));
                }
            }
            assert(self.wf());
        }
    }

    /// Adds execution id `e` to the entry for `oid`, creating the entry if
    /// the order has no executions yet.
    #[verifier::loop_isolation(false)]
    fn add_to_lookup(l: &mut Vec<(u32, Vec<usize>)>, oid: u32, e: usize)
        requires
            forall|i: int, j: int| 0 <= i < j < old(l)@.len() ==> old(l)@[i].0 != old(l)@[j].0,
            forall|i: int, k1: int, k2: int|
                0 <= i < old(l)@.len() && 0 <= k1 < k2 < old(l)@[i].1@.len()
                    ==> #[trigger] old(l)@[i].1@[k1] < #[trigger] old(l)@[i].1@[k2],
            forall|i: int, k: int|
                0 <= i < old(l)@.len() && 0 <= k < old(l)@[i].1@.len()
                    ==> #[trigger] old(l)@[i].1@[k] <= e,
            forall|i: int, k: int|
                0 <= i < old(l)@.len() && 0 <= k < old(l)@[i].1@.len() && old(l)@[i].0 == oid
                    ==> #[trigger] old(l)@[i].1@[k] < e,
        ensures
            forall|i: int, j: int| 0 <= i < j < final(l)@.len() ==> final(l)@[i].0 != final(l)@[j].0,
            forall|i: int, k1: int, k2: int|
                0 <= i < final(l)@.len() && 0 <= k1 < k2 < final(l)@[i].1@.len()
                    ==> #[trigger] final(l)@[i].1@[k1] < #[trigger] final(l)@[i].1@[k2],
            forall|i: int, k: int|
                0 <= i < final(l)@.len() && 0 <= k < final(l)@[i].1@.len()
                    ==> #[trigger] final(l)@[i].1@[k] <= e,
            forall|oid2: u32, e2: int|
                listed(final(l)@, oid2, e2) <==> (listed(old(l)@, oid2, e2) || (oid2 == oid && e2
                    == e as int)),
    {
        let ghost l0 = l@;
        let mut i: usize = 0;
        while i < l.len()
            invariant
                l@ == l0,
                i <= l0.len(),
                forall|j: int| 0 <= j < i ==> l0[j].0 != oid,
            decreases l0.len() - i,
        {
            if l[i].0 == oid {
                let entry = &mut l[i];
                entry.1.push(e);
                proof {
                    let lf = l@;
                    assert(lf[i as int].1@ == l0[i as int].1@.push(e));
                    assert(forall|j: int| 0 <= j < lf.len() ==> (#[trigger] lf[j]).0 == l0[j].0);
                    assert(forall|j: int|
                        0 <= j < lf.len() && j != i as int ==> (#[trigger] lf[j]).1@ == l0[j].1@);
                    let li = lf[i as int].1@;
                    assert forall|k1: int, k2: int|
                        0 <= k1 < k2 < li.len() implies #[trigger] li[k1] < #[trigger] li[k2] by {
                        if k2 == l0[i as int].1@.len() as int {
                            assert(l0[i as int].1@[k1] < e);
                        }
                    }
                    assert forall|oid2: u32, e2: int| listed(lf, oid2, e2) implies (listed(
                        l0,
                        oid2,
                        e2,
                    ) || (oid2 == oid && e2 == e as int)) by {
                        let (x, k): (int, int) = choose|x: int, k: int|
                            {
                                &&& 0 <= x < lf.len()
                                &&& 0 <= k < lf[x].1@.len()
                                &&& lf[x].0 == oid2
                                &&& lf[x].1@[k] as int == e2
                            };
                        if x == i as int && k == l0[i as int].1@.len() as int {
                        } else {
                            assert(l0[x].1@[k] as int == e2);
                            assert(listed(l0, oid2, e2));
                        }
                    }
                    assert forall|oid2: u32, e2: int| (listed(l0, oid2, e2) || (oid2 == oid && e2
                        == e as int)) implies listed(lf, oid2, e2) by {
                        if oid2 == oid && e2 == e as int {
                            assert(lf[i as int].1@[l0[i as int].1@.len() as int] == e);
                        } else {
                            let (x, k): (int, int) = choose|x: int, k: int|
                                {
                                    &&& 0 <= x < l0.len()
                                    &&& 0 <= k < l0[x].1@.len()
                                    &&& l0[x].0 == oid2
                                    &&& l0[x].1@[k] as int == e2
                                };
                            assert(lf[x].1@[k] as int == e2);
                        }
                    }
                }
                return ;
            }
            i = i + 1;
        }
        let fresh: Vec<usize> = vec![e];
        l.push((oid, fresh));
        proof {
            let lf = l@;
            assert(lf[l0.len() as int].1@ =~= seq![e]);
            assert(forall|j: int| 0 <= j < l0.len() ==> #[trigger] lf[j] == l0[j]);
            assert forall|oid2: u32, e2: int| listed(lf, oid2, e2) implies (listed(l0, oid2, e2)
                || (oid2 == oid && e2 == e as int)) by {
                let (x, k): (int, int) = choose|x: int, k: int|
                    {
                        &&& 0 <= x < lf.len()
                        &&& 0 <= k < lf[x].1@.len()
                        &&& lf[x].0 == oid2
                        &&& lf[x].1@[k] as int == e2
                    };
                if x < l0.len() {
                    assert(listed(l0, oid2, e2));
                }
            }
            assert forall|oid2: u32, e2: int| (listed(l0, oid2, e2) || (oid2 == oid && e2
                == e as int)) implies listed(lf, oid2, e2) by {
                if oid2 == oid && e2 == e as int {
                    assert(lf[l0.len() as int].1@[0] == e);
                } else {
                    let (x, k): (int, int) = choose|x: int, k: int|
                        {
                            &&& 0 <= x < l0.len()
                            &&& 0 <= k < l0[x].1@.len()
                            &&& l0[x].0 == oid2
                            &&& l0[x].1@[k] as int == e2
                        };
                    assert(lf[x].1@[k] as int == e2);
                }
            }
        }
    }

    /// Every execution the order took part in, as field-for-field copies;
    /// an order id the ledger has never seen yields the empty list.
    #[verifier::loop_isolation(false)]
    pub fn get_matches_for_id(&self, order_id: u32) -> (r: Vec<(Order, Order)>)
        requires
            self.wf(),
        ensures
            result_matches(*self, order_id, r@),
    {
        let mut i: usize = 0;
        while i < self.lookup.len()
            invariant
                self.wf(),
                i <= self.lookup@.len(),
                forall|j: int| 0 <= j < i ==> self.lookup@[j].0 != order_id,
            decreases self.lookup@.len() - i,
        {
            if self.lookup[i].0 == order_id {
                let mut r: Vec<(Order, Order)> = Vec::new();
                let mut k: usize = 0;
                let n = self.lookup[i].1.len();
                while k < n
                    invariant
                        self.wf(),
                        i < self.lookup@.len(),
                        self.lookup@[i as int].0 == order_id,
                        n == self.lookup@[i as int].1@.len(),
                        k <= n,
                        r@.len() == k,
                        forall|x: int|
                            0 <= x < k ==> pair_view(#[trigger] r@[x]) == pair_view(
                                self.matches@[self.lookup@[i as int].1@[x] - 1],
                            ),
                    decreases n - k,
                {
                    let e = self.lookup[i].1[k];
                    let p = &self.matches[e - 1];
                    r.push((p.0.duplicate(), p.1.duplicate()));
                    k = k + 1;
                }
                proof {
                    assert forall|m: int|
                        0 <= m < self.matches@.len() && #[trigger] participates(
                            self.matches@[m],
                            order_id,
                        ) implies exists|j: int|
                        {
                            &&& 0 <= j < r@.len()
                            &&& pair_view(r@[j]) == pair_view(self.matches@[m])
                        } by {
                        assert(listed(self.lookup@, self.matches@[m].0.id, m + 1));
                        assert(listed(self.lookup@, self.matches@[m].1.id, m + 1));
                        assert(listed(self.lookup@, order_id, m + 1));
                        let (x, kk): (int, int) = choose|x: int, kk: int|
                            {
                                &&& 0 <= x < self.lookup@.len()
                                &&& 0 <= kk < self.lookup@[x].1@.len()
                                &&& self.lookup@[x].0 == order_id
                                &&& self.lookup@[x].1@[kk] as int == m + 1
                            };
                        assert(x == i as int) by {
                            if x < i as int {
                                assert(self.lookup@[x].0 != self.lookup@[i as int].0);
                            } else if x > i as int {
                                assert(self.lookup@[i as int].0 != self.lookup@[x].0);
                            }
                        }
                        assert(self.lookup@[i as int].1@[kk] - 1 == m);
                        assert(pair_view(r@[kk]) == pair_view(self.matches@[m]));
                    }
                    assert forall|j: int| 0 <= j < r@.len() implies appears(
                        *self,
                        order_id,
                        #[trigger] r@[j],
                    ) by {
                        let e2 = self.lookup@[i as int].1@[j];
                        assert(participates(self.matches@[e2 - 1], order_id));
                        assert(pair_view(r@[j]) == pair_view(self.matches@[e2 - 1]));
                    }
                }
                return r;
            }
            i = i + 1;
        }
        let r: Vec<(Order, Order)> = Vec::new();
        proof {
            assert forall|m: int|
                0 <= m < self.matches@.len() && #[trigger] participates(
                    self.matches@[m],
                    order_id,
                ) implies false by {
                assert(listed(self.lookup@, self.matches@[m].0.id, m + 1));
                assert(listed(self.lookup@, self.matches@[m].1.id, m + 1));
                assert(listed(self.lookup@, order_id, m + 1));
                let (x, kk): (int, int) = choose|x: int, kk: int|
                    {
                        &&& 0 <= x < self.lookup@.len()
                        &&& 0 <= kk < self.lookup@[x].1@.len()
                        &&& self.lookup@[x].0 == order_id
                        &&& self.lookup@[x].1@[kk] as int == m + 1
                    };
            }
        }
        r
    }
}

/// Law: any result meeting `get_matches_for_id`'s contract for an order id
/// holds every recorded execution that order took part in — in particular,
/// once a pair is recorded, looking up either side's id yields the pair.
pub proof fn lemma_execution_lookup_symmetry(
    el: ExecutionList,
    m: int,
    rs_buy: Seq<(Order, Order)>,
    rs_sell: Seq<(Order, Order)>,
)
    requires
        el.wf(),
        0 <= m < el.matches@.len(),
        result_matches(el, el.matches@[m].0.id, rs_buy),
        result_matches(el, el.matches@[m].1.id, rs_sell),
    ensures
        exists|j: int| 0 <= j < rs_buy.len() && pair_view(rs_buy[j]) == pair_view(el.matches@[m]),
        exists|j: int| 0 <= j < rs_sell.len() && pair_view(rs_sell[j]) == pair_view(el.matches@[m]),
{
    assert(participates(el.matches@[m], el.matches@[m].0.id));
    assert(participates(el.matches@[m], el.matches@[m].1.id));
}

} // verus!
