use vstd::prelude::*;

verus! {

/// One resting order as a side book stores it: `(sort key, id, quantity)`.
/// The sort key already encodes the side's direction (see `orderbook`), so
/// plain ascending tuple order is priority order within a side.
pub type Entry = (u64, u32, u32);

/// `a` at or before `b` under the list order: ascending lexicographic tuple
/// order, exactly the `Ord` that std derives for integer tuples.
pub open spec fn entry_le(a: Entry, b: Entry) -> bool {
    ||| a.0 < b.0
    ||| (a.0 == b.0 && a.1 < b.1)
    ||| (a.0 == b.0 && a.1 == b.1 && a.2 <= b.2)
}

/// Every pair of positions is ordered.
pub open spec fn entries_sorted(s: Seq<Entry>) -> bool {
    forall|i: int, j: int| 0 <= i < j < s.len() ==> entry_le(s[i], s[j])
}

/// Where an insert lands: the first position whose element is at or after
/// `e`, so a new entry goes in front of any equal ones.
pub open spec fn insert_pos(s: Seq<Entry>, e: Entry) -> int
    decreases s.len(),
{
    if s.len() == 0 {
        0
    } else if entry_le(e, s[0]) {
        0
    } else {
        1 + insert_pos(s.drop_first(), e)
    }
}

/// `s` with `e` at its sorted position.
pub open spec fn insert_sorted(s: Seq<Entry>, e: Entry) -> Seq<Entry> {
    s.insert(insert_pos(s, e), e)
}

/// Some entry carries the order id.
pub open spec fn has_id(s: Seq<Entry>, id: u32) -> bool {
    exists|k: int| 0 <= k < s.len() && (#[trigger] s[k]).1 == id
}

/// A healthy side list: sorted, every resting quantity positive, and no
/// order id twice.
pub open spec fn entries_ok(s: Seq<Entry>) -> bool {
    &&& entries_sorted(s)
    &&& (forall|k: int| 0 <= k < s.len() ==> (#[trigger] s[k]).2 > 0)
    &&& (forall|k1: int, k2: int|
        0 <= k1 < k2 < s.len() ==> (#[trigger] s[k1]).1 != (#[trigger] s[k2]).1)
}

/// `entry_le` is a total order, so `insert_pos` splits the sequence into a
/// strictly-smaller prefix and an at-or-after suffix.
pub proof fn lemma_insert_pos(s: Seq<Entry>, e: Entry)
    ensures
        0 <= insert_pos(s, e) <= s.len(),
        forall|j: int| 0 <= j < insert_pos(s, e) ==> !entry_le(e, #[trigger] s[j]),
        insert_pos(s, e) < s.len() ==> entry_le(e, s[insert_pos(s, e)]),
    decreases s.len(),
{
    if s.len() > 0 && !entry_le(e, s[0]) {
        lemma_insert_pos(s.drop_first(), e);
        assert forall|j: int| 0 <= j < insert_pos(s, e) implies !entry_le(e, #[trigger] s[j]) by {
            if j > 0 {
                assert(s[j] == s.drop_first()[j - 1]);
            }
        }
        if insert_pos(s, e) < s.len() {
            assert(s[insert_pos(s, e)] == s.drop_first()[insert_pos(s.drop_first(), e) as int]);
        }
    }
}

/// `entry_le` orders every pair of entries.
pub proof fn lemma_entry_le_total(a: Entry, b: Entry)
    ensures
        entry_le(a, b) || entry_le(b, a),
        entry_le(a, b) || entry_le(b, a) || a == b,
{
}

/// Inserting keeps the list sorted.
pub proof fn lemma_insert_sorted(s: Seq<Entry>, e: Entry)
    requires
        entries_sorted(s),
    ensures
        entries_sorted(insert_sorted(s, e)),
        insert_sorted(s, e).len() == s.len() + 1,
{
    lemma_insert_pos(s, e);
    let p = insert_pos(s, e);
    let t = insert_sorted(s, e);
    assert forall|i: int, j: int| 0 <= i < j < t.len() implies entry_le(t[i], t[j]) by {
        if i < p && j == p {
            assert(t[i] == s[i]);
            assert(!entry_le(e, s[i]));
            lemma_entry_le_total(s[i], e);
        } else if i == p && j > p {
            assert(t[j] == s[j - 1]);
            assert(entry_le(e, s[p]));
            if j - 1 > p {
                assert(entry_le(s[p], s[j - 1]));
            }
        } else if i < p && j > p {
            assert(t[i] == s[i] && t[j] == s[j - 1]);
            assert(entry_le(s[i], s[j - 1]));
        } else if j < p {
            assert(t[i] == s[i] && t[j] == s[j]);
        } else if i > p {
            assert(t[i] == s[i - 1] && t[j] == s[j - 1]);
        }
    }
}

/// Inserting an entry with a fresh id and positive quantity keeps a side
/// list healthy.
pub proof fn lemma_insert_ok(s: Seq<Entry>, e: Entry)
    requires
        entries_ok(s),
        e.2 > 0,
        !has_id(s, e.1),
    ensures
        entries_ok(insert_sorted(s, e)),
        forall|id: u32| has_id(insert_sorted(s, e), id) <==> (has_id(s, id) || id == e.1),
{
    lemma_insert_pos(s, e);
    lemma_insert_sorted(s, e);
    let p = insert_pos(s, e);
    let t = insert_sorted(s, e);
    assert forall|k: int| 0 <= k < t.len() implies (#[trigger] t[k]).2 > 0 by {
        if k < p {
            assert(t[k] == s[k]);
        } else if k > p {
            assert(t[k] == s[k - 1]);
        }
    }
    assert forall|k1: int, k2: int| 0 <= k1 < k2 < t.len() implies (#[trigger] t[k1]).1 != (
    #[trigger] t[k2]).1 by {
        if k1 != p && k2 != p {
            let o1: int = if k1 < p { k1 } else { k1 - 1 };
            let o2: int = if k2 < p { k2 } else { k2 - 1 };
            assert(t[k1] == s[o1] && t[k2] == s[o2]);
        } else if k1 == p {
            assert(t[k2] == s[k2 - 1]);
            assert(!has_id(s, e.1));
            assert(s[k2 - 1].1 != e.1);
        } else {
            assert(t[k1] == s[k1]);
            assert(s[k1].1 != e.1);
        }
    }
    assert forall|id: u32| has_id(t, id) implies (has_id(s, id) || id == e.1) by {
        let k: int = choose|k: int| 0 <= k < t.len() && (#[trigger] t[k]).1 == id;
        if k < p {
            assert(s[k].1 == id);
        } else if k > p {
            assert(s[k - 1].1 == id);
        }
    }
    assert forall|id: u32| (has_id(s, id) || id == e.1) implies has_id(t, id) by {
        if id == e.1 {
            assert(t[p].1 == id);
        } else {
            let k: int = choose|k: int| 0 <= k < s.len() && (#[trigger] s[k]).1 == id;
            if k < p {
                assert(t[k].1 == id);
            } else {
                assert(t[k + 1].1 == id);
            }
        }
    }
}

/// Dropping the head keeps a side list healthy.
pub proof fn lemma_drop_first_ok(s: Seq<Entry>)
    requires
        entries_ok(s),
        s.len() > 0,
    ensures
        entries_ok(s.drop_first()),
        forall|id: u32| has_id(s.drop_first(), id) ==> has_id(s, id),
        !has_id(s.drop_first(), s[0].1),
{
    let t = s.drop_first();
    assert(forall|k: int| 0 <= k < t.len() ==> #[trigger] t[k] == s[k + 1]);
    assert forall|id: u32| has_id(t, id) implies has_id(s, id) by {
        let k: int = choose|k: int| 0 <= k < t.len() && (#[trigger] t[k]).1 == id;
        assert(s[k + 1].1 == id);
    }
    if has_id(t, s[0].1) {
        let k: int = choose|k: int| 0 <= k < t.len() && (#[trigger] t[k]).1 == s[0].1;
        assert(s[k + 1].1 == s[0].1);
        assert(false);
    }
}

/// Taking one entry out keeps a side list healthy, and the removed entry's
/// id is gone.
pub proof fn lemma_remove_ok(s: Seq<Entry>, i: int)
    requires
        entries_ok(s),
        0 <= i < s.len(),
    ensures
        entries_ok(s.remove(i)),
        forall|id: u32| has_id(s.remove(i), id) ==> has_id(s, id),
        !has_id(s.remove(i), s[i].1),
{
    let t = s.remove(i);
    assert(forall|k: int| 0 <= k < i ==> #[trigger] t[k] == s[k]);
    assert(forall|k: int| i <= k < t.len() ==> #[trigger] t[k] == s[k + 1]);
    assert forall|id: u32| has_id(t, id) implies has_id(s, id) by {
        let k: int = choose|k: int| 0 <= k < t.len() && (#[trigger] t[k]).1 == id;
        if k < i {
            assert(s[k].1 == id);
        } else {
            assert(s[k + 1].1 == id);
        }
    }
    if has_id(t, s[i].1) {
        let k: int = choose|k: int| 0 <= k < t.len() && (#[trigger] t[k]).1 == s[i].1;
        if k < i {
            assert(s[k].1 == s[i].1);
        } else {
            assert(s[k + 1].1 == s[i].1);
        }
        assert(false);
    }
}

/// Putting a sorted list's head back where it came from restores the list.
pub proof fn lemma_reinsert_head(s: Seq<Entry>)
    requires
        entries_sorted(s),
        s.len() > 0,
    ensures
        insert_sorted(s.drop_first(), s[0]) == s,
{
    let t = s.drop_first();
    if t.len() > 0 {
        assert(entry_le(s[0], t[0]));
    }
    assert(insert_pos(t, s[0]) == 0);
    assert(insert_sorted(t, s[0]) =~= s);
}

/// An ordered collection of [`Entry`] values, kept sorted under [`entry_le`].
/// The storage is a skip list of the `skiplist` crate; everything Verus knows
/// of it is said through [`entry_seq`] by the trusted methods below, each of
/// which names the library call it relies on.
#[verifier::external_body]
pub struct EntryList {
    inner: skiplist::OrderedSkipList<Entry>,
}

/// The entries a list holds, in list order (ascending under the comparator).
pub uninterp spec fn entry_seq(l: EntryList) -> Seq<Entry>;

impl EntryList {
    /// Relies on skiplist's `OrderedSkipList::new`: a new list is empty.
    #[verifier::external_body]
    pub fn new() -> (r: EntryList)
        ensures
            entry_seq(r) =~= Seq::<Entry>::empty(),
    {
        EntryList { inner: skiplist::OrderedSkipList::new() }
    }

    /// Relies on skiplist's `OrderedSkipList::len`: the element count.
    #[verifier::external_body]
    pub fn len(&self) -> (n: usize)
        ensures
            n == entry_seq(*self).len(),
    {
        self.inner.len()
    }

    /// Relies on skiplist's `OrderedSkipList::is_empty`.
    #[verifier::external_body]
    pub fn is_empty(&self) -> (b: bool)
        ensures
            b == (entry_seq(*self).len() == 0),
    {
        self.inner.is_empty()
    }

    /// Relies on skiplist's `OrderedSkipList::insert`: the value goes in at
    /// its sorted position, in front of any elements comparing equal to it.
    #[verifier::external_body]
    pub fn insert(&mut self, e: Entry)
        requires
            entries_sorted(entry_seq(*old(self))),
        ensures
            entry_seq(*final(self)) =~= entry_seq(*old(self)).insert(
                insert_pos(entry_seq(*old(self)), e),
                e,
            ),
    {
        self.inner.insert(e);
    }

    /// Relies on skiplist's `OrderedSkipList::pop_first`: removes and returns
    /// the head of the list, or `None` when the list is empty.
    #[verifier::external_body]
    pub fn pop_first(&mut self) -> (r: Option<Entry>)
        ensures
            entry_seq(*old(self)).len() == 0 ==> {
                &&& r is None
                &&& entry_seq(*final(self)) =~= entry_seq(*old(self))
            },
            entry_seq(*old(self)).len() > 0 ==> {
                &&& r == Some(entry_seq(*old(self))[0])
                &&& entry_seq(*final(self)) =~= entry_seq(*old(self)).drop_first()
            },
    {
        self.inner.pop_first()
    }

    /// Relies on skiplist's `OrderedSkipList::first`: the head of the list
    /// without removing it.
    #[verifier::external_body]
    pub fn first(&self) -> (r: Option<Entry>)
        ensures
            entry_seq(*self).len() == 0 ==> r is None,
            entry_seq(*self).len() > 0 ==> r == Some(entry_seq(*self)[0]),
    {
        self.inner.first().copied()
    }

    /// Relies on skiplist's `OrderedSkipList::take`: removes and returns the
    /// first element comparing equal to `e` (for integer tuples, identical to
    /// `e`), or returns `None` leaving the list as it was.
    #[verifier::external_body]
    pub fn take(&mut self, e: Entry) -> (r: Option<Entry>)
        requires
            entries_sorted(entry_seq(*old(self))),
        ensures
            !entry_seq(*old(self)).contains(e) ==> {
                &&& r is None
                &&& entry_seq(*final(self)) =~= entry_seq(*old(self))
            },
            entry_seq(*old(self)).contains(e) ==> {
                &&& r == Some(e)
                &&& exists|i: int|
                    {
                        &&& 0 <= i < entry_seq(*old(self)).len()
                        &&& entry_seq(*old(self))[i] == e
                        &&& (forall|j: int| 0 <= j < i ==> entry_seq(*old(self))[j] != e)
                        &&& entry_seq(*final(self)) =~= entry_seq(*old(self)).remove(i)
                    }
            },
    {
        self.inner.take(&e)
    }

    /// Relies on skiplist's `OrderedSkipList::iter`: yields the elements in
    /// list order.
    #[verifier::external_body]
    pub fn to_vec(&self) -> (v: Vec<Entry>)
        ensures
            v@ =~= entry_seq(*self),
    {
        self.inner.iter().copied().collect()
    }
}

} // verus!
