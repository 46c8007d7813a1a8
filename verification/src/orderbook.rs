use vstd::prelude::*;

use crate::entries::Entry;
use crate::entries::EntryList;
use crate::entries::entries_ok;
use crate::entries::entry_seq;
use crate::entries::has_id;
use crate::entries::insert_sorted;
use crate::entries::lemma_drop_first_ok;
use crate::entries::lemma_insert_ok;
use crate::entries::lemma_reinsert_head;
use crate::executions::ExecutionList;
use crate::executions::pair_view;
use crate::order::Order;
use crate::order::OrderV;
use crate::order::Side;
use crate::strutil::str_eq;

verus! {

/// One symbol's resting interest on one side of the market.
pub struct SideBook {
    pub symbol: String,
    pub entries: EntryList,
}

/// Sort key of a resting order: ascending key order is priority order, so a
/// Buy's key inverts the price (higher price first) while a Sell's key is the
/// price itself (lower price first). The id breaks ties in the entry tuple.
pub open spec fn spec_key(side: Side, price: u64) -> u64 {
    if side == Side::Buy {
        (u64::MAX - price) as u64
    } else {
        price
    }
}

/// Price recovered from a sort key.
pub open spec fn spec_price_of(side: Side, key: u64) -> u64 {
    if side == Side::Buy {
        (u64::MAX - key) as u64
    } else {
        key
    }
}

/// The book entry an order rests as.
pub open spec fn order_entry(o: OrderV) -> Entry {
    (spec_key(o.side, o.price), o.id, o.quantity)
}

/// The order a book entry stands for, given its list's symbol and side.
pub open spec fn order_view_of(sym: Seq<char>, side: Side, e: Entry) -> OrderV {
    OrderV { id: e.1, symbol: sym, quantity: e.2, price: spec_price_of(side, e.0), side }
}

/// First position holding the symbol, or the length when absent.
pub open spec fn find_book(bs: Seq<SideBook>, sym: Seq<char>) -> int
    decreases bs.len(),
{
    if bs.len() == 0 {
        0
    } else if bs[0].symbol@ == sym {
        0
    } else {
        1 + find_book(bs.drop_first(), sym)
    }
}

/// The symbol has a (necessarily non-empty) book on this side.
pub open spec fn has_book(bs: Seq<SideBook>, sym: Seq<char>) -> bool {
    find_book(bs, sym) < bs.len()
}

/// The symbol's resting entries on this side; empty when it has no book.
pub open spec fn book_entries(bs: Seq<SideBook>, sym: Seq<char>) -> Seq<Entry> {
    if has_book(bs, sym) {
        entry_seq(bs[find_book(bs, sym)].entries)
    } else {
        Seq::empty()
    }
}

/// `find_book` lands on the first occurrence of the symbol, or past the end.
pub proof fn lemma_find_book(bs: Seq<SideBook>, sym: Seq<char>)
    ensures
        0 <= find_book(bs, sym) <= bs.len(),
        find_book(bs, sym) < bs.len() ==> bs[find_book(bs, sym)].symbol@ == sym,
        forall|j: int| 0 <= j < find_book(bs, sym) ==> (#[trigger] bs[j]).symbol@ != sym,
    decreases bs.len(),
{
    if bs.len() > 0 && bs[0].symbol@ != sym {
        lemma_find_book(bs.drop_first(), sym);
        assert forall|j: int| 0 <= j < find_book(bs, sym) implies (#[trigger] bs[j]).symbol@
            != sym by {
            if j > 0 {
                assert(bs[j] == bs.drop_first()[j - 1]);
            }
        }
        if find_book(bs, sym) < bs.len() {
            assert(bs[find_book(bs, sym)] == bs.drop_first()[find_book(bs.drop_first(), sym)]);
        }
    }
}

/// `find_book` reads only the symbols, so two shelves with the same symbols
/// in the same places agree on it.
pub proof fn lemma_find_book_congruent(a: Seq<SideBook>, b: Seq<SideBook>, sym: Seq<char>)
    requires
        a.len() == b.len(),
        forall|i: int| 0 <= i < a.len() ==> (#[trigger] a[i]).symbol@ == b[i].symbol@,
    ensures
        find_book(a, sym) == find_book(b, sym),
    decreases a.len(),
{
    if a.len() > 0 && a[0].symbol@ != sym {
        assert(forall|i: int|
            0 <= i < a.drop_first().len() ==> (#[trigger] a.drop_first()[i]).symbol@
                == b.drop_first()[i].symbol@);
        lemma_find_book_congruent(a.drop_first(), b.drop_first(), sym);
    }
}

/// Appending a new book does not move any existing one.
pub proof fn lemma_find_book_push(bs: Seq<SideBook>, nb: SideBook, sym: Seq<char>)
    ensures
        find_book(bs, sym) < bs.len() ==> find_book(bs.push(nb), sym) == find_book(bs, sym),
        find_book(bs, sym) == bs.len() && nb.symbol@ == sym ==> find_book(bs.push(nb), sym)
            == bs.len(),
        find_book(bs, sym) == bs.len() && nb.symbol@ != sym ==> find_book(bs.push(nb), sym)
            == bs.len() + 1,
    decreases bs.len(),
{
    lemma_find_book(bs, sym);
    if bs.len() == 0 {
        assert(bs.push(nb)[0] == nb);
        assert(bs.push(nb).drop_first() =~= Seq::<SideBook>::empty());
        assert(find_book(Seq::<SideBook>::empty(), sym) == 0);
        if nb.symbol@ != sym {
            assert(find_book(bs.push(nb), sym) == 1 + find_book(bs.push(nb).drop_first(), sym));
        }
    } else if bs[0].symbol@ != sym {
        assert(bs.push(nb)[0] == bs[0]);
        assert(bs.push(nb).drop_first() =~= bs.drop_first().push(nb));
        lemma_find_book_push(bs.drop_first(), nb, sym);
        lemma_find_book(bs.drop_first(), sym);
        assert(bs.push(nb).len() > 0 && bs.push(nb)[0].symbol@ != sym);
        assert(find_book(bs.push(nb), sym) == 1 + find_book(bs.push(nb).drop_first(), sym));
        assert(find_book(bs.push(nb), sym) == 1 + find_book(bs.drop_first().push(nb), sym));
        if find_book(bs, sym) == bs.len() && nb.symbol@ != sym {
            assert(find_book(bs.drop_first(), sym) == bs.drop_first().len());
            assert(find_book(bs.drop_first().push(nb), sym) == bs.drop_first().len() + 1);
        }
    } else {
        assert(bs.push(nb)[0] == bs[0]);
        assert(find_book(bs.push(nb), sym) == 0);
    }
}

/// A healthy shelf of books: distinct symbols, every list healthy, and no
/// empty book left behind.
pub open spec fn books_wf(bs: Seq<SideBook>) -> bool {
    &&& (forall|i: int, j: int|
        0 <= i < j < bs.len() ==> (#[trigger] bs[i]).symbol@ != (#[trigger] bs[j]).symbol@)
    &&& (forall|i: int|
        0 <= i < bs.len() ==> entries_ok(entry_seq((#[trigger] bs[i]).entries)))
    &&& (forall|i: int| 0 <= i < bs.len() ==> entry_seq((#[trigger] bs[i]).entries).len() > 0)
}

/// Some book on this side rests an order with the id.
pub open spec fn side_has_id(bs: Seq<SideBook>, id: u32) -> bool {
    exists|i: int| 0 <= i < bs.len() && has_id(entry_seq((#[trigger] bs[i]).entries), id)
}

/// Per-symbol order books for both sides, plus the ledger of executions the
/// matching has produced.
pub struct OrderBook {
    pub buy_orders: Vec<SideBook>,
    pub sell_orders: Vec<SideBook>,
    pub executions: ExecutionList,
}

impl OrderBook {
    /// The books of one side.
    pub open spec fn side_books(&self, side: Side) -> Seq<SideBook> {
        if side == Side::Buy {
            self.buy_orders@
        } else {
            self.sell_orders@
        }
    }

    /// The symbol's resting entries on one side, in priority order.
    pub open spec fn entries_for(&self, side: Side, sym: Seq<char>) -> Seq<Entry> {
        book_entries(self.side_books(side), sym)
    }

    /// The symbol has resting interest on this side.
    pub open spec fn has_symbol(&self, side: Side, sym: Seq<char>) -> bool {
        has_book(self.side_books(side), sym)
    }

    /// Some resting order (on either side) carries the id.
    pub open spec fn contains_id(&self, id: u32) -> bool {
        side_has_id(self.buy_orders@, id) || side_has_id(self.sell_orders@, id)
    }

    /// The whole book is healthy.
    pub open spec fn wf(&self) -> bool {
        &&& books_wf(self.buy_orders@)
        &&& books_wf(self.sell_orders@)
        &&& self.executions.wf()
    }

    /// An empty book.
    pub fn new() -> (r: OrderBook)
        ensures
            r.wf(),
            r.buy_orders@.len() == 0,
            r.sell_orders@.len() == 0,
            r.executions.matches@.len() == 0,
    {
        OrderBook {
            buy_orders: Vec::new(),
            sell_orders: Vec::new(),
            executions: ExecutionList::new(),
        }
    }

    /// Rests the order in its side's book for its symbol, opening the book
    /// when the symbol has none. The order lands at its priority position;
    /// everything else stands untouched.
    pub fn add_order(&mut self, order: Order)
        requires
            old(self).wf(),
            order.quantity > 0,
            !old(self).contains_id(order.id),
        ensures
            final(self).wf(),
            final(self).executions == old(self).executions,
            final(self).side_books(opposite(order.side)) == old(self).side_books(
                opposite(order.side),
            ),
            final(self).entries_for(order.side, order.symbol@) == insert_sorted(
                old(self).entries_for(order.side, order.symbol@),
                order_entry(order@),
            ),
            forall|sym2: Seq<char>|
                sym2 != order.symbol@ ==> final(self).entries_for(order.side, sym2) == old(
                    self,
                ).entries_for(order.side, sym2),
            forall|sym2: Seq<char>|
                final(self).has_symbol(order.side, sym2) <==> (old(self).has_symbol(
                    order.side,
                    sym2,
                ) || sym2 == order.symbol@),
            forall|id: u32|
                final(self).contains_id(id) <==> (old(self).contains_id(id) || id == order.id),
    {
        let e: Entry = (key_of(order.side, order.price), order.id, order.quantity);
        match order.side {
            Side::Buy => {
                Self::add_to_side(&mut self.buy_orders, &order.symbol, e);
            },
            Side::Sell => {
                Self::add_to_side(&mut self.sell_orders, &order.symbol, e);
            },
        }
        proof {
            assert(order_entry(order@) == (spec_key(order.side, order.price), order.id, order.quantity));
        }
    }

    /// The side half of `add_order`: rests the entry in the book for the
    /// symbol on one shelf of books.
    fn add_to_side(bs: &mut Vec<SideBook>, symbol: &String, e: Entry)
        requires
            books_wf(old(bs)@),
            e.2 > 0,
            !side_has_id(old(bs)@, e.1),
        ensures
            books_wf(final(bs)@),
            book_entries(final(bs)@, symbol@) == insert_sorted(
                book_entries(old(bs)@, symbol@),
                e,
            ),
            forall|sym2: Seq<char>|
                sym2 != symbol@ ==> book_entries(final(bs)@, sym2) == book_entries(old(bs)@, sym2),
            forall|sym2: Seq<char>|
                has_book(final(bs)@, sym2) <==> (has_book(old(bs)@, sym2) || sym2 == symbol@),
            forall|id: u32| side_has_id(final(bs)@, id) <==> (side_has_id(old(bs)@, id) || id == e.1),
    {
        let ghost b0 = bs@;
        proof {
            lemma_find_book(b0, symbol@);
        }
        match Self::find_book_idx(bs, symbol.as_str()) {
            Some(i) => {
                proof {
                    assert(has_id(entry_seq(b0[i as int].entries), e.1) ==> side_has_id(b0, e.1));
                    lemma_insert_ok(entry_seq(b0[i as int].entries), e);
                }
                let book = &mut bs[i];
                book.entries.insert(e);
                proof {
                    let bf = bs@;
                    assert(bf[i as int].symbol@ == symbol@);
                    assert(forall|j: int|
                        0 <= j < bf.len() ==> (#[trigger] bf[j]).symbol@ == b0[j].symbol@);
                    assert(entry_seq(bf[i as int].entries) == insert_sorted(
                        entry_seq(b0[i as int].entries),
                        e,
                    ));
                    assert forall|sym2: Seq<char>| true implies find_book(bf, sym2) == find_book(
                        b0,
                        sym2,
                    ) by {
                        lemma_find_book_congruent(bf, b0, sym2);
                    }
                    assert(book_entries(bf, symbol@) == insert_sorted(
                        book_entries(b0, symbol@),
                        e,
                    ));
                    assert forall|sym2: Seq<char>| sym2 != symbol@ implies book_entries(bf, sym2)
                        == book_entries(b0, sym2) by {
                        lemma_find_book(b0, sym2);
                        if has_book(b0, sym2) {
                            assert(find_book(b0, sym2) != i as int);
                        }
                    }
                    assert forall|id: u32| side_has_id(bf, id) implies (side_has_id(b0, id) || id
                        == e.1) by {
                        let x: int = choose|x: int|
                            0 <= x < bf.len() && has_id(entry_seq((#[trigger] bf[x]).entries), id);
                        if x == i as int {
                            if id != e.1 {
                                assert(has_id(entry_seq(b0[x].entries), id));
                            }
                        } else {
                            assert(has_id(entry_seq(b0[x].entries), id));
                        }
                    }
                    assert forall|id: u32| (side_has_id(b0, id) || id == e.1) implies side_has_id(
                        bf,
                        id,
                    ) by {
                        if id == e.1 {
                            assert(has_id(entry_seq(bf[i as int].entries), id));
                        } else {
                            let x: int = choose|x: int|
                                0 <= x < b0.len() && has_id(
                                    entry_seq((#[trigger] b0[x]).entries),
                                    id,
                                );
                            if x == i as int {
                                assert(has_id(entry_seq(bf[x].entries), id));
                            } else {
                                assert(bf[x] == b0[x]);
                                assert(has_id(entry_seq(bf[x].entries), id));
                            }
                        }
                    }
                }
            },
            None => {
                let mut nl = EntryList::new();
                proof {
                    lemma_insert_ok(entry_seq(nl), e);
                    assert(insert_sorted(entry_seq(nl), e) =~= seq![e]);
                }
                nl.insert(e);
                let nb = SideBook { symbol: symbol.clone(), entries: nl };
                proof {
                    assert(entry_seq(nb.entries) =~= seq![e]);
                }
                bs.push(nb);
                proof {
                    let bf = bs@;
                    assert(bf =~= b0.push(nb));
                    lemma_find_book_push(b0, nb, symbol@);
                    assert(find_book(bf, symbol@) == b0.len());
                    assert(book_entries(bf, symbol@) =~= seq![e]);
                    assert(book_entries(b0, symbol@) =~= Seq::<Entry>::empty());
                    assert(insert_sorted(book_entries(b0, symbol@), e) =~= seq![e]);
                    assert forall|sym2: Seq<char>| sym2 != symbol@ implies book_entries(bf, sym2)
                        == book_entries(b0, sym2) && (has_book(bf, sym2) == has_book(
                        b0,
                        sym2,
                    )) by {
                        lemma_find_book_push(b0, nb, sym2);
                        lemma_find_book(b0, sym2);
                        if has_book(b0, sym2) {
                            assert(bf[find_book(b0, sym2)] == b0[find_book(b0, sym2)]);
                        }
                    }
                    assert forall|i: int, j: int| 0 <= i < j < bf.len() implies (
                    #[trigger] bf[i]).symbol@ != (#[trigger] bf[j]).symbol@ by {
                        if j == bf.len() - 1 {
                            lemma_find_book(b0, symbol@);
                            assert(b0[i].symbol@ != symbol@);
                        }
                    }
                    assert(books_wf(bf));
                    assert forall|id: u32| side_has_id(bf, id) implies (side_has_id(b0, id) || id
                        == e.1) by {
                        let x: int = choose|x: int|
                            0 <= x < bf.len() && has_id(entry_seq((#[trigger] bf[x]).entries), id);
                        if x < b0.len() {
                            assert(has_id(entry_seq(b0[x].entries), id));
                        }
                    }
                    assert forall|id: u32| (side_has_id(b0, id) || id == e.1) implies side_has_id(
                        bf,
                        id,
                    ) by {
                        if id == e.1 {
                            assert(bf[b0.len() as int] == nb);
                            assert(entry_seq(bf[b0.len() as int].entries)[0].1 == id);
                            assert(has_id(entry_seq(bf[b0.len() as int].entries), id));
                        } else {
                            let x: int = choose|x: int|
                                0 <= x < b0.len() && has_id(
                                    entry_seq((#[trigger] b0[x]).entries),
                                    id,
                                );
                            assert(bf[x] == b0[x]);
                            assert(has_id(entry_seq(bf[x].entries), id));
                        }
                    }
                }
            },
        }
    }

    /// Index of the symbol's book on a shelf.
    fn find_book_idx(bs: &Vec<SideBook>, symbol: &str) -> (r: Option<usize>)
        ensures
            match r {
                Some(i) => i as int == find_book(bs@, symbol@) && (i as int) < bs@.len(),
                None => find_book(bs@, symbol@) == bs@.len(),
            },
    {
        proof {
            lemma_find_book(bs@, symbol@);
        }
        let mut i: usize = 0;
        while i < bs.len()
            invariant
                i <= bs@.len(),
                forall|j: int| 0 <= j < i ==> (#[trigger] bs@[j]).symbol@ != symbol@,
            decreases bs@.len() - i,
        {
            if str_eq(bs[i].symbol.as_str(), symbol) {
                proof {
                    lemma_find_book(bs@, symbol@);
                    assert forall|j: int| 0 <= j < i implies (#[trigger] bs@[j]).symbol@
                        != symbol@ by {}
                    assert(find_book(bs@, symbol@) == i as int) by {
                        lemma_find_book_at(bs@, symbol@, i as int);
                    }
                }
                return Some(i);
            }
            i = i + 1;
        }
        proof {
            lemma_find_book(bs@, symbol@);
            if find_book(bs@, symbol@) < bs@.len() {
                assert(bs@[find_book(bs@, symbol@)].symbol@ == symbol@);
            }
        }
        None
    }
}

/// The other side of the market.
pub open spec fn opposite(side: Side) -> Side {
    if side == Side::Buy {
        Side::Sell
    } else {
        Side::Buy
    }
}

/// If position `i` holds the symbol and nothing before it does, `find_book`
/// lands exactly there.
pub proof fn lemma_find_book_at(bs: Seq<SideBook>, sym: Seq<char>, i: int)
    requires
        0 <= i < bs.len(),
        bs[i].symbol@ == sym,
        forall|j: int| 0 <= j < i ==> (#[trigger] bs[j]).symbol@ != sym,
    ensures
        find_book(bs, sym) == i,
{
    lemma_find_book(bs, sym);
    let f = find_book(bs, sym);
    if f < i {
        assert(bs[f].symbol@ != sym);
    }
    if f > i {
        assert(bs[i].symbol@ != sym);
    }
}

/// The sort key of an order's entry.
pub fn key_of(side: Side, price: u64) -> (r: u64)
    ensures
        r == spec_key(side, price),
{
    match side {
        Side::Buy => u64::MAX - price,
        Side::Sell => price,
    }
}

/// The price a key encodes.
pub fn price_of(side: Side, key: u64) -> (r: u64)
    ensures
        r == spec_price_of(side, key),
{
    match side {
        Side::Buy => u64::MAX - key,
        Side::Sell => key,
    }
}

/// The best resting buy is willing to pay at least what the best resting
/// sell asks: a trade can happen.
pub open spec fn crossed(b: Entry, s: Entry) -> bool {
    u64::MAX - b.0 >= s.0
}

/// The entry after a partial fill takes `by` off its quantity.
pub open spec fn reduced(e: Entry, by: u32) -> Entry {
    (e.0, e.1, (e.2 - by) as u32)
}

/// The buy side after the heads trade: a partially filled buy rests again at
/// the front (same key and id, smaller quantity); a fully consumed one is
/// gone.
pub open spec fn step_buys(buys: Seq<Entry>, sells: Seq<Entry>) -> Seq<Entry> {
    if buys[0].2 > sells[0].2 {
        seq![reduced(buys[0], sells[0].2)] + buys.drop_first()
    } else {
        buys.drop_first()
    }
}

/// The sell side after the heads trade, mirroring `step_buys`.
pub open spec fn step_sells(buys: Seq<Entry>, sells: Seq<Entry>) -> Seq<Entry> {
    if sells[0].2 > buys[0].2 {
        seq![reduced(sells[0], buys[0].2)] + sells.drop_first()
    } else {
        sells.drop_first()
    }
}

/// What matching a symbol does: as long as the two best resting orders
/// cross, the pair trades `min` of their quantities and is recorded, the
/// larger side rests on with the difference, and matching continues. The
/// result is the two sides as they rest afterwards and the executions in
/// order, each recorded as the orders stood at trade time.
pub open spec fn spec_match(buys: Seq<Entry>, sells: Seq<Entry>) -> (
    Seq<Entry>,
    Seq<Entry>,
    Seq<(Entry, Entry)>,
)
    decreases buys.len() + sells.len(),
{
    if buys.len() == 0 || sells.len() == 0 {
        (buys, sells, Seq::empty())
    } else if crossed(buys[0], sells[0]) {
        let rec = spec_match(step_buys(buys, sells), step_sells(buys, sells));
        (rec.0, rec.1, seq![(buys[0], sells[0])] + rec.2)
    } else {
        (buys, sells, Seq::empty())
    }
}

/// A partially filled head re-enters its own list at the front: the sorted
/// insert of the reduced head is exactly consing it on.
pub proof fn lemma_step_insert(s: Seq<Entry>, q: u32)
    requires
        crate::entries::entries_sorted(s),
        s.len() > 0,
        0 < q < s[0].2,
    ensures
        insert_sorted(s.drop_first(), reduced(s[0], q)) == seq![reduced(s[0], q)]
            + s.drop_first(),
{
    let rest = s.drop_first();
    let e2 = reduced(s[0], q);
    if rest.len() > 0 {
        assert(crate::entries::entry_le(s[0], s[1]));
        assert(rest[0] == s[1]);
        assert(crate::entries::entry_le(e2, rest[0]));
    }
    assert(crate::entries::insert_pos(rest, e2) == 0);
    assert(insert_sorted(rest, e2) =~= seq![e2] + rest);
}

/// The order a book entry stands for, rebuilt as a value.
fn entry_to_order(symbol: &str, side: Side, e: Entry) -> (r: Order)
    ensures
        r@ == order_view_of(symbol@, side, e),
{
    Order { id: e.1, symbol: symbol.to_owned(), quantity: e.2, price: price_of(side, e.0), side }
}

/// The matching loop on one symbol's two lists: pops the two best resting
/// orders, trades them while they cross, and rests what remains.
fn run_match(buys: &mut EntryList, sells: &mut EntryList, executions: &mut ExecutionList, symbol: &str)
    requires
        entries_ok(entry_seq(*old(buys))),
        entries_ok(entry_seq(*old(sells))),
        old(executions).wf(),
        old(executions).matches@.len() + entry_seq(*old(buys)).len() + entry_seq(
            *old(sells),
        ).len() <= usize::MAX,
    ensures
        ({
            let mr = spec_match(entry_seq(*old(buys)), entry_seq(*old(sells)));
            &&& entry_seq(*final(buys)) == mr.0
            &&& entry_seq(*final(sells)) == mr.1
            &&& entries_ok(mr.0)
            &&& entries_ok(mr.1)
            &&& (mr.0.len() > 0 && mr.1.len() > 0 ==> !crossed(mr.0[0], mr.1[0]))
            &&& (forall|id: u32| has_id(mr.0, id) ==> has_id(entry_seq(*old(buys)), id))
            &&& (forall|id: u32| has_id(mr.1, id) ==> has_id(entry_seq(*old(sells)), id))
            &&& final(executions).wf()
            &&& final(executions).matches@.len() == old(executions).matches@.len() + mr.2.len()
            &&& (forall|m: int|
                0 <= m < old(executions).matches@.len() ==> final(executions).matches@[m] == old(
                    executions,
                ).matches@[m])
            &&& (forall|k: int|
                0 <= k < mr.2.len() ==> pair_view(
                    #[trigger] final(executions).matches@[old(executions).matches@.len() + k],
                ) == (
                    order_view_of(symbol@, Side::Buy, mr.2[k].0),
                    order_view_of(symbol@, Side::Sell, mr.2[k].1),
                ))
        }),
    decreases entry_seq(*buys).len() + entry_seq(*sells).len(),
{
    let ghost b0 = entry_seq(*buys);
    let ghost s0 = entry_seq(*sells);
    let ghost ex0 = executions.matches@;
    let b = match buys.pop_first() {
        None => {
            return ;
        },
        Some(b) => b,
    };
    proof {
        lemma_drop_first_ok(b0);
    }
    let s = match sells.pop_first() {
        None => {
            proof {
                lemma_reinsert_head(b0);
            }
            buys.insert(b);
            return ;
        },
        Some(s) => s,
    };
    proof {
        lemma_drop_first_ok(s0);
    }
    if u64::MAX - b.0 >= s.0 {
        let buy_order = entry_to_order(symbol, Side::Buy, b);
        let sell_order = entry_to_order(symbol, Side::Sell, s);
        let eid = executions.matches.len() + 1;
        executions.insert(eid, (buy_order, sell_order));
        let ghost pair = (buy_order, sell_order);
        if b.2 > s.2 {
            let b2 = (b.0, b.1, b.2 - s.2);
            proof {
                assert(b2 == reduced(b, s.2));
                lemma_step_insert(b0, s.2);
                crate::entries::lemma_insert_ok(b0.drop_first(), b2);
            }
            buys.insert(b2);
            proof {
                assert(entry_seq(*buys) == step_buys(b0, s0));
                assert(entry_seq(*sells) == step_sells(b0, s0));
            }
            run_match(buys, sells, executions, symbol);
        } else if b.2 < s.2 {
            let s2 = (s.0, s.1, s.2 - b.2);
            proof {
                assert(s2 == reduced(s, b.2));
                lemma_step_insert(s0, b.2);
                crate::entries::lemma_insert_ok(s0.drop_first(), s2);
            }
            sells.insert(s2);
            proof {
                assert(entry_seq(*buys) == step_buys(b0, s0));
                assert(entry_seq(*sells) == step_sells(b0, s0));
            }
            run_match(buys, sells, executions, symbol);
        } else {
            proof {
                assert(entry_seq(*buys) == step_buys(b0, s0));
                assert(entry_seq(*sells) == step_sells(b0, s0));
            }
            run_match(buys, sells, executions, symbol);
        }
        proof {
            let mr = spec_match(b0, s0);
            let mrec = spec_match(step_buys(b0, s0), step_sells(b0, s0));
            assert(mr.2 == seq![(b, s)] + mrec.2);
            assert(final(executions).matches@.len() == ex0.len() + mr.2.len());
            assert forall|k: int| 0 <= k < mr.2.len() implies pair_view(
                #[trigger] final(executions).matches@[ex0.len() + k],
            ) == (
                order_view_of(symbol@, Side::Buy, mr.2[k].0),
                order_view_of(symbol@, Side::Sell, mr.2[k].1),
            ) by {
                if k == 0 {
                    assert(final(executions).matches@[ex0.len() as int] == ex0.push(pair)[ex0.len() as int]);
                    assert(mr.2[0] == (b, s));
                } else {
                    let fex = final(executions).matches@;
                    assert(fex[ex0.push(pair).len() + (k - 1)] == fex[ex0.len() + k]);
                    assert(mr.2[k] == mrec.2[k - 1]);
                }
            }
            assert forall|id: u32| has_id(mr.0, id) implies has_id(b0, id) by {
                if b.2 > s.2 {
                    if has_id(step_buys(b0, s0), id) {
                        let k: int = choose|k: int|
                            0 <= k < step_buys(b0, s0).len() && (#[trigger] step_buys(b0, s0)[k]).1
                                == id;
                        if k == 0 {
                            assert(b0[0].1 == id);
                        } else {
                            assert(step_buys(b0, s0)[k] == b0.drop_first()[k - 1]);
                        }
                    }
                }
            }
            assert forall|id: u32| has_id(mr.1, id) implies has_id(s0, id) by {
                if s.2 > b.2 {
                    if has_id(step_sells(b0, s0), id) {
                        let k: int = choose|k: int|
                            0 <= k < step_sells(b0, s0).len() && (#[trigger] step_sells(
                                b0,
                                s0,
                            )[k]).1 == id;
                        if k == 0 {
                            assert(s0[0].1 == id);
                        } else {
                            assert(step_sells(b0, s0)[k] == s0.drop_first()[k - 1]);
                        }
                    }
                }
            }
        }
    } else {
        proof {
            lemma_reinsert_head(b0);
            lemma_reinsert_head(s0);
        }
        if b.2 > 0 {
            buys.insert(b);
        }
        if s.2 > 0 {
            sells.insert(s);
        }
        proof {
            assert(entry_seq(*buys) == b0);
            assert(entry_seq(*sells) == s0);
            assert(!crossed(b0[0], s0[0]));
        }
    }
}

/// Taking one book off a shelf with distinct symbols touches no other
/// symbol's book and leaves no book for the removed symbol.
pub proof fn lemma_books_remove(bs: Seq<SideBook>, i: int)
    requires
        0 <= i < bs.len(),
        forall|a: int, b: int|
            0 <= a < b < bs.len() ==> (#[trigger] bs[a]).symbol@ != (#[trigger] bs[b]).symbol@,
    ensures
        forall|sym2: Seq<char>|
            sym2 != bs[i].symbol@ ==> book_entries(bs.remove(i), sym2) == book_entries(bs, sym2)
                && (has_book(bs.remove(i), sym2) <==> has_book(bs, sym2)),
        !has_book(bs.remove(i), bs[i].symbol@),
        forall|id: u32| side_has_id(bs.remove(i), id) ==> side_has_id(bs, id),
{
    let t = bs.remove(i);
    assert(forall|j: int| 0 <= j < i ==> #[trigger] t[j] == bs[j]);
    assert(forall|j: int| i <= j < t.len() ==> #[trigger] t[j] == bs[j + 1]);
    assert forall|sym2: Seq<char>| sym2 != bs[i].symbol@ implies book_entries(t, sym2)
        == book_entries(bs, sym2) && (has_book(t, sym2) <==> has_book(bs, sym2)) by {
        lemma_find_book(bs, sym2);
        lemma_find_book(t, sym2);
        let f = find_book(bs, sym2);
        if f < bs.len() {
            if f < i {
                lemma_find_book_at(t, sym2, f);
            } else {
                assert(f != i);
                assert(t[f - 1] == bs[f]);
                assert forall|j: int| 0 <= j < f - 1 implies (#[trigger] t[j]).symbol@ != sym2 by {
                    if j < i {
                        assert(t[j] == bs[j]);
                    } else {
                        assert(t[j] == bs[j + 1]);
                    }
                }
                lemma_find_book_at(t, sym2, f - 1);
            }
        } else {
            if has_book(t, sym2) {
                let g = find_book(t, sym2);
                assert(t[g].symbol@ == sym2);
                if g < i {
                    assert(bs[g].symbol@ == sym2);
                } else {
                    assert(bs[g + 1].symbol@ == sym2);
                }
            }
        }
    }
    lemma_find_book(t, bs[i].symbol@);
    if has_book(t, bs[i].symbol@) {
        let g = find_book(t, bs[i].symbol@);
        assert(t[g].symbol@ == bs[i].symbol@);
        if g < i {
            assert(bs[g].symbol@ == bs[i].symbol@);
            assert(false);
        } else {
            assert(bs[g + 1].symbol@ == bs[i].symbol@);
            assert(false);
        }
    }
    assert forall|id: u32| side_has_id(t, id) implies side_has_id(bs, id) by {
        let x: int = choose|x: int|
            0 <= x < t.len() && has_id(entry_seq((#[trigger] t[x]).entries), id);
        if x < i {
            assert(has_id(entry_seq(bs[x].entries), id));
        } else {
            assert(has_id(entry_seq(bs[x + 1].entries), id));
        }
    }
}

/// Position of the resting entry carrying the key and id, or the length
/// when none does.
pub open spec fn find_entry(s: Seq<Entry>, key: u64, id: u32) -> int
    decreases s.len(),
{
    if s.len() == 0 {
        0
    } else if s[0].0 == key && s[0].1 == id {
        0
    } else {
        1 + find_entry(s.drop_first(), key, id)
    }
}

/// An entry with the key and id rests in the list.
pub open spec fn has_entry(s: Seq<Entry>, key: u64, id: u32) -> bool {
    find_entry(s, key, id) < s.len()
}

/// `find_entry` lands on the first entry with the key and id, or past the
/// end.
pub proof fn lemma_find_entry(s: Seq<Entry>, key: u64, id: u32)
    ensures
        0 <= find_entry(s, key, id) <= s.len(),
        find_entry(s, key, id) < s.len() ==> s[find_entry(s, key, id)].0 == key && s[find_entry(
            s,
            key,
            id,
        )].1 == id,
        forall|j: int|
            0 <= j < find_entry(s, key, id) ==> !((#[trigger] s[j]).0 == key && s[j].1 == id),
    decreases s.len(),
{
    if s.len() > 0 && !(s[0].0 == key && s[0].1 == id) {
        lemma_find_entry(s.drop_first(), key, id);
        assert forall|j: int| 0 <= j < find_entry(s, key, id) implies !((#[trigger] s[j]).0 == key
            && s[j].1 == id) by {
            if j > 0 {
                assert(s[j] == s.drop_first()[j - 1]);
            }
        }
        if find_entry(s, key, id) < s.len() {
            assert(s[find_entry(s, key, id)] == s.drop_first()[find_entry(
                s.drop_first(),
                key,
                id,
            )]);
        }
    }
}

impl OrderBook {
    /// Takes the resting order with the argument's identity — its id, on its
    /// side, under its symbol, at its price — out of the book, handing back
    /// the order as it rested (with whatever quantity partial fills had left
    /// it). A symbol whose book empties is pruned. When no such order rests,
    /// nothing changes and nothing is returned: cancelling twice, or
    /// cancelling what was never resting, is a no-op.
    pub fn remove_order(&mut self, order: Order) -> (r: Option<Order>)
        requires
            old(self).wf(),
        ensures
            final(self).wf(),
            final(self).executions == old(self).executions,
            final(self).side_books(opposite(order.side)) == old(self).side_books(
                opposite(order.side),
            ),
            ({
                let sym = order.symbol@;
                let side = order.side;
                let key = spec_key(side, order.price);
                let es = old(self).entries_for(side, sym);
                let p = find_entry(es, key, order.id);
                &&& !has_entry(es, key, order.id) ==> r is None && *final(self) == *old(self)
                &&& has_entry(es, key, order.id) ==> {
                    &&& match r {
                        Some(o) => o@ == order_view_of(sym, side, es[p]),
                        None => false,
                    }
                    &&& final(self).entries_for(side, sym) == es.remove(p)
                    &&& (final(self).has_symbol(side, sym) <==> es.len() > 1)
                    &&& (forall|sym2: Seq<char>|
                        sym2 != sym ==> final(self).entries_for(side, sym2) == old(
                            self,
                        ).entries_for(side, sym2) && (final(self).has_symbol(side, sym2) <==> old(
                            self,
                        ).has_symbol(side, sym2)))
                    &&& (forall|id2: u32|
                        final(self).contains_id(id2) ==> old(self).contains_id(id2))
                }
            }),
    {
        let key = key_of(order.side, order.price);
        let r = match order.side {
            Side::Buy => Self::remove_from_side(
                &mut self.buy_orders,
                order.symbol.as_str(),
                key,
                order.id,
                Side::Buy,
            ),
            Side::Sell => Self::remove_from_side(
                &mut self.sell_orders,
                order.symbol.as_str(),
                key,
                order.id,
                Side::Sell,
            ),
        };
        proof {
            let sym = order.symbol@;
            let es = old(self).entries_for(order.side, sym);
            if has_entry(es, spec_key(order.side, order.price), order.id) {
                assert forall|id2: u32| self.contains_id(id2) implies old(self).contains_id(
                    id2,
                ) by {}
            }
        }
        r
    }

    /// Position of the entry with the key and id in a list copy.
    fn find_entry_idx(v: &Vec<Entry>, key: u64, id: u32) -> (r: Option<usize>)
        ensures
            match r {
                Some(f) => f as int == find_entry(v@, key, id) && (f as int) < v@.len(),
                None => !has_entry(v@, key, id),
            },
    {
        proof {
            lemma_find_entry(v@, key, id);
        }
        let mut k: usize = 0;
        while k < v.len()
            invariant
                k <= v@.len(),
                forall|j: int| 0 <= j < k ==> !((#[trigger] v@[j]).0 == key && v@[j].1 == id),
            decreases v@.len() - k,
        {
            let e = v[k];
            if e.0 == key && e.1 == id {
                proof {
                    lemma_find_entry_at(v@, key, id, k as int);
                }
                return Some(k);
            }
            k = k + 1;
        }
        proof {
            if has_entry(v@, key, id) {
                let p = find_entry(v@, key, id);
                assert(v@[p].0 == key && v@[p].1 == id);
            }
        }
        None
    }

    /// The side half of `remove_order`.
    fn remove_from_side(bs: &mut Vec<SideBook>, symbol: &str, key: u64, id: u32, side: Side) -> (r:
        Option<Order>)
        requires
            books_wf(old(bs)@),
        ensures
            books_wf(final(bs)@),
            ({
                let es = book_entries(old(bs)@, symbol@);
                let p = find_entry(es, key, id);
                &&& !has_entry(es, key, id) ==> r is None && *final(bs) == *old(bs)
                &&& has_entry(es, key, id) ==> {
                    &&& match r {
                        Some(o) => o@ == order_view_of(symbol@, side, es[p]),
                        None => false,
                    }
                    &&& book_entries(final(bs)@, symbol@) == es.remove(p)
                    &&& (has_book(final(bs)@, symbol@) <==> es.len() > 1)
                    &&& (forall|sym2: Seq<char>|
                        sym2 != symbol@ ==> book_entries(final(bs)@, sym2) == book_entries(
                            old(bs)@,
                            sym2,
                        ) && (has_book(final(bs)@, sym2) <==> has_book(old(bs)@, sym2)))
                    &&& (forall|id2: u32|
                        side_has_id(final(bs)@, id2) ==> side_has_id(old(bs)@, id2))
                }
            }),
    {
        let ghost b0 = bs@;
        let ghost es = book_entries(b0, symbol@);
        proof {
            lemma_find_entry(es, key, id);
        }
        let i = match Self::find_book_idx(bs, symbol) {
            None => {
                return None;
            },
            Some(i) => i,
        };
        let v = bs[i].entries.to_vec();
        proof {
            assert(v@ == es);
        }
        let found = Self::find_entry_idx(&v, key, id);
        let f = match found {
            None => {
                return None;
            },
            Some(f) => f,
        };
        let qty = v[f].2;
        let ghost p = find_entry(es, key, id);
        proof {
            assert(es[p] == (key, id, qty));
            crate::entries::lemma_remove_ok(es, p);
        }
        let book = &mut bs[i];
        let taken = book.entries.take((key, id, qty));
        let now_empty = book.entries.is_empty();
        proof {
            let (x): int = choose|x: int|
                {
                    &&& 0 <= x < es.len()
                    &&& es[x] == (key, id, qty)
                    &&& (forall|j: int| 0 <= j < x ==> es[j] != (key, id, qty))
                    &&& entry_seq(final(book).entries) =~= es.remove(x)
                };
            assert(x == p) by {
                if x != p {
                    assert(es[x].1 == es[p].1);
                }
            }
            assert(entry_seq(bs@[i as int].entries) == es.remove(p));
        }
        let ghost mid = bs@;
        let removed = Order {
            id,
            symbol: symbol.to_owned(),
            quantity: qty,
            price: price_of(side, key),
            side,
        };
        proof {
            lemma_find_book(b0, symbol@);
            assert(b0[i as int].symbol@ == symbol@);
            assert(mid[i as int].symbol@ == symbol@);
            assert(forall|j: int|
                0 <= j < mid.len() && j != i as int ==> #[trigger] mid[j] == b0[j]);
            assert forall|sym2: Seq<char>| true implies find_book(mid, sym2) == find_book(
                b0,
                sym2,
            ) by {
                lemma_find_book_congruent(mid, b0, sym2);
            }
        }
        if now_empty {
            bs.remove(i);
            proof {
                lemma_books_remove(mid, i as int);
                assert(es.remove(p) =~= Seq::<Entry>::empty());
                assert(!has_book(bs@, symbol@));
            }
        }
        proof {
            assert forall|sym2: Seq<char>| sym2 != symbol@ implies book_entries(bs@, sym2)
                == book_entries(b0, sym2) && (has_book(bs@, sym2) <==> has_book(b0, sym2)) by {
                lemma_find_book(b0, sym2);
                lemma_find_book(mid, sym2);
                assert(book_entries(mid, sym2) == book_entries(b0, sym2));
                if now_empty {
                    assert(book_entries(bs@, sym2) == book_entries(mid, sym2));
                } else {
                    assert(bs@ == mid);
                }
            }
            if !now_empty {
                assert(book_entries(bs@, symbol@) == es.remove(p));
            } else {
                assert(!has_book(bs@, symbol@));
                assert(book_entries(bs@, symbol@) =~= es.remove(p));
            }
            assert forall|id2: u32| side_has_id(mid, id2) implies side_has_id(b0, id2) by {
                let x: int = choose|x: int|
                    0 <= x < mid.len() && has_id(entry_seq((#[trigger] mid[x]).entries), id2);
                if x == i as int {
                    assert(has_id(es, id2));
                    assert(has_id(entry_seq(b0[x].entries), id2));
                } else {
                    assert(mid[x] == b0[x]);
                }
            }
            assert forall|id2: u32| side_has_id(bs@, id2) implies side_has_id(b0, id2) by {
                if now_empty {
                    assert(side_has_id(mid, id2));
                }
            }
        }
        Some(removed)
    }
}

/// Some string in the list reads as the symbol.
pub open spec fn symbol_listed(r: Seq<String>, sym: Seq<char>) -> bool {
    exists|j: int| 0 <= j < r.len() && (#[trigger] r[j])@ == sym
}

/// A side has a book for the symbol exactly when some book on the shelf
/// carries it.
pub proof fn lemma_has_book_exists(bs: Seq<SideBook>, sym: Seq<char>)
    ensures
        has_book(bs, sym) <==> exists|i: int|
            0 <= i < bs.len() && (#[trigger] bs[i]).symbol@ == sym,
{
    lemma_find_book(bs, sym);
    if has_book(bs, sym) {
        assert(bs[find_book(bs, sym)].symbol@ == sym);
    } else {
        if exists|i: int| 0 <= i < bs.len() && (#[trigger] bs[i]).symbol@ == sym {
            let i: int = choose|i: int| 0 <= i < bs.len() && (#[trigger] bs[i]).symbol@ == sym;
            assert(bs[i].symbol@ != sym);
        }
    }
}

/// Law: a symbol's resting orders stand in price-time priority. Among two
/// resting Buy orders, the earlier one has the strictly higher price, or the
/// same price and the strictly lower (earlier-assigned) id; a Sell book
/// mirrors this with ascending prices. This holds of every well-formed book,
/// whatever order the orders went in.
pub proof fn lemma_priority_ordering(ob: OrderBook, side: Side, sym: Seq<char>, i: int, j: int)
    requires
        ob.wf(),
        0 <= i < j < ob.entries_for(side, sym).len(),
    ensures
        ({
            let es = ob.entries_for(side, sym);
            let oi = order_view_of(sym, side, es[i]);
            let oj = order_view_of(sym, side, es[j]);
            &&& side == Side::Buy ==> (oi.price > oj.price || (oi.price == oj.price && oi.id
                < oj.id))
            &&& side == Side::Sell ==> (oi.price < oj.price || (oi.price == oj.price && oi.id
                < oj.id))
        }),
{
    let bs = ob.side_books(side);
    lemma_find_book(bs, sym);
    let es = ob.entries_for(side, sym);
    assert(entries_ok(es));
    assert(crate::entries::entry_le(es[i], es[j]));
    assert(es[i].1 != es[j].1);
}

/// Law: when the two best resting orders cross, the traded quantity is the
/// smaller of the two resting quantities; the execution records both orders
/// exactly as they rested; the side with the larger quantity rests on at the
/// front of its book with the difference; and the other side leaves its book
/// entirely (its id no longer rests).
pub proof fn lemma_fill_conservation(buys: Seq<Entry>, sells: Seq<Entry>)
    requires
        entries_ok(buys),
        entries_ok(sells),
        buys.len() > 0,
        sells.len() > 0,
        crossed(buys[0], sells[0]),
    ensures
        ({
            let b = buys[0];
            let s = sells[0];
            let traded: u32 = if b.2 < s.2 {
                b.2
            } else {
                s.2
            };
            &&& spec_match(buys, sells).2.len() >= 1
            &&& spec_match(buys, sells).2[0] == (b, s)
            &&& (b.2 > s.2 ==> step_buys(buys, sells).len() == buys.len() && step_buys(
                buys,
                sells,
            )[0] == (b.0, b.1, (b.2 - traded) as u32))
            &&& (b.2 <= s.2 ==> !has_id(step_buys(buys, sells), b.1))
            &&& (s.2 > b.2 ==> step_sells(buys, sells).len() == sells.len() && step_sells(
                buys,
                sells,
            )[0] == (s.0, s.1, (s.2 - traded) as u32))
            &&& (s.2 <= b.2 ==> !has_id(step_sells(buys, sells), s.1))
        }),
{
    let b = buys[0];
    let s = sells[0];
    assert(spec_match(buys, sells).2 == seq![(b, s)] + spec_match(
        step_buys(buys, sells),
        step_sells(buys, sells),
    ).2);
    assert(spec_match(buys, sells).2[0] == (b, s));
    lemma_drop_first_ok(buys);
    lemma_drop_first_ok(sells);
    if b.2 > s.2 {
        assert(step_buys(buys, sells)[0] == reduced(b, s.2));
    }
    if s.2 > b.2 {
        assert(step_sells(buys, sells)[0] == reduced(s, b.2));
    }
}

impl OrderBook {
    /// Every order resting under the symbol: the buy side in its priority
    /// order, then the sell side in its.
    pub fn open_orders(&self, symbol: &str) -> (r: Vec<Order>)
        requires
            self.wf(),
        ensures
            ({
                let bs = self.entries_for(Side::Buy, symbol@);
                let ss = self.entries_for(Side::Sell, symbol@);
                &&& r@.len() == bs.len() + ss.len()
                &&& (forall|k: int|
                    0 <= k < bs.len() ==> (#[trigger] r@[k])@ == order_view_of(
                        symbol@,
                        Side::Buy,
                        bs[k],
                    ))
                &&& (forall|k: int|
                    0 <= k < ss.len() ==> (#[trigger] r@[bs.len() + k])@ == order_view_of(
                        symbol@,
                        Side::Sell,
                        ss[k],
                    ))
            }),
    {
        let mut r: Vec<Order> = Vec::new();
        let ghost bs = self.entries_for(Side::Buy, symbol@);
        let ghost ss = self.entries_for(Side::Sell, symbol@);
        match Self::find_book_idx(&self.buy_orders, symbol) {
            Some(i) => {
                let v = self.buy_orders[i].entries.to_vec();
                let mut k: usize = 0;
                while k < v.len()
                    invariant
                        v@ == bs,
                        k <= bs.len(),
                        r@.len() == k,
                        forall|x: int|
                            0 <= x < k ==> (#[trigger] r@[x])@ == order_view_of(
                                symbol@,
                                Side::Buy,
                                bs[x],
                            ),
                    decreases v@.len() - k,
                {
                    r.push(entry_to_order(symbol, Side::Buy, v[k]));
                    k = k + 1;
                }
            },
            None => {
                proof {
                    assert(bs =~= Seq::<Entry>::empty());
                }
            },
        }
        match Self::find_book_idx(&self.sell_orders, symbol) {
            Some(i) => {
                let v = self.sell_orders[i].entries.to_vec();
                let mut k: usize = 0;
                while k < v.len()
                    invariant
                        v@ == ss,
                        k <= ss.len(),
                        r@.len() == bs.len() + k,
                        forall|x: int|
                            0 <= x < bs.len() ==> (#[trigger] r@[x])@ == order_view_of(
                                symbol@,
                                Side::Buy,
                                bs[x],
                            ),
                        forall|x: int|
                            0 <= x < k ==> (#[trigger] r@[bs.len() + x])@ == order_view_of(
                                symbol@,
                                Side::Sell,
                                ss[x],
                            ),
                    decreases v@.len() - k,
                {
                    r.push(entry_to_order(symbol, Side::Sell, v[k]));
                    k = k + 1;
                }
            },
            None => {
                proof {
                    assert(ss =~= Seq::<Entry>::empty());
                }
            },
        }
        r
    }

    /// Every symbol with resting interest on either side, each once.
    pub fn active_symbols(&self) -> (r: Vec<String>)
        requires
            self.wf(),
        ensures
            forall|j: int|
                0 <= j < r@.len() ==> self.has_symbol(Side::Buy, (#[trigger] r@[j])@)
                    || self.has_symbol(Side::Sell, r@[j]@),
            forall|i: int|
                0 <= i < self.buy_orders@.len() ==> symbol_listed(
                    r@,
                    (#[trigger] self.buy_orders@[i]).symbol@,
                ),
            forall|i: int|
                0 <= i < self.sell_orders@.len() ==> symbol_listed(
                    r@,
                    (#[trigger] self.sell_orders@[i]).symbol@,
                ),
            forall|j1: int, j2: int| 0 <= j1 < j2 < r@.len() ==> (#[trigger] r@[j1])@ != (
            #[trigger] r@[j2])@,
    {
        let mut r: Vec<String> = Vec::new();
        let mut i: usize = 0;
        while i < self.buy_orders.len()
            invariant
                self.wf(),
                i <= self.buy_orders@.len(),
                r@.len() == i,
                forall|x: int|
                    0 <= x < i ==> (#[trigger] r@[x])@ == (#[trigger] self.buy_orders@[x]).symbol@,
            decreases self.buy_orders@.len() - i,
        {
            r.push(self.buy_orders[i].symbol.clone());
            i = i + 1;
        }
        proof {
            assert forall|x: int| 0 <= x < r@.len() implies self.has_symbol(
                Side::Buy,
                (#[trigger] r@[x])@,
            ) by {
                assert(self.buy_orders@[x].symbol@ == r@[x]@);
                lemma_has_book_exists(self.buy_orders@, r@[x]@);
            }
            assert forall|x: int| 0 <= x < self.buy_orders@.len() implies symbol_listed(
                r@,
                (#[trigger] self.buy_orders@[x]).symbol@,
            ) by {
                assert(r@[x]@ == self.buy_orders@[x].symbol@);
            }
            assert forall|j1: int, j2: int| 0 <= j1 < j2 < r@.len() implies (#[trigger] r@[j1])@
                != (#[trigger] r@[j2])@ by {
                assert(r@[j1]@ == self.buy_orders@[j1].symbol@);
                assert(r@[j2]@ == self.buy_orders@[j2].symbol@);
            }
        }
        let mut i: usize = 0;
        while i < self.sell_orders.len()
            invariant
                self.wf(),
                i <= self.sell_orders@.len(),
                forall|x: int|
                    0 <= x < r@.len() ==> self.has_symbol(Side::Buy, (#[trigger] r@[x])@)
                        || self.has_symbol(Side::Sell, r@[x]@),
                forall|x: int|
                    0 <= x < self.buy_orders@.len() ==> symbol_listed(
                        r@,
                        (#[trigger] self.buy_orders@[x]).symbol@,
                    ),
                forall|x: int|
                    0 <= x < i ==> symbol_listed(r@, (#[trigger] self.sell_orders@[x]).symbol@),
                forall|j1: int, j2: int| 0 <= j1 < j2 < r@.len() ==> (#[trigger] r@[j1])@ != (
                #[trigger] r@[j2])@,
            decreases self.sell_orders@.len() - i,
        {
            let ghost rpre = r@;
            let sym = &self.sell_orders[i].symbol;
            if !Self::contains_string(&r, sym.as_str()) {
                r.push(sym.clone());
                proof {
                    lemma_has_book_exists(self.sell_orders@, sym@);
                    assert(self.sell_orders@[i as int].symbol@ == sym@);
                    assert(r@[r@.len() - 1]@ == sym@);
                }
            }
            proof {
                assert(forall|j: int| 0 <= j < rpre.len() ==> #[trigger] r@[j] == rpre[j]);
                assert forall|x: int|
                    0 <= x < self.buy_orders@.len() && symbol_listed(
                        rpre,
                        (#[trigger] self.buy_orders@[x]).symbol@,
                    ) implies symbol_listed(r@, self.buy_orders@[x].symbol@) by {
                    let j: int = choose|j: int|
                        0 <= j < rpre.len() && (#[trigger] rpre[j])@
                            == self.buy_orders@[x].symbol@;
                    assert(r@[j]@ == self.buy_orders@[x].symbol@);
                }
                assert forall|x: int|
                    0 <= x < i && symbol_listed(
                        rpre,
                        (#[trigger] self.sell_orders@[x]).symbol@,
                    ) implies symbol_listed(r@, self.sell_orders@[x].symbol@) by {
                    let j: int = choose|j: int|
                        0 <= j < rpre.len() && (#[trigger] rpre[j])@
                            == self.sell_orders@[x].symbol@;
                    assert(r@[j]@ == self.sell_orders@[x].symbol@);
                }
                assert(symbol_listed(r@, self.sell_orders@[i as int].symbol@)) by {
                    if r@.len() > rpre.len() {
                        assert(r@[r@.len() - 1]@ == self.sell_orders@[i as int].symbol@);
                    } else {
                        let j: int = choose|j: int|
                            0 <= j < rpre.len() && (#[trigger] rpre[j])@ == sym@;
                        assert(r@[j]@ == self.sell_orders@[i as int].symbol@);
                    }
                }
            }
            i = i + 1;
        }
        r
    }

    /// Whether some string in the vector reads the same as `s`.
    fn contains_string(v: &Vec<String>, s: &str) -> (b: bool)
        ensures
            b == exists|j: int| 0 <= j < v@.len() && (#[trigger] v@[j])@ == s@,
    {
        let mut j: usize = 0;
        while j < v.len()
            invariant
                j <= v@.len(),
                forall|x: int| 0 <= x < j ==> (#[trigger] v@[x])@ != s@,
            decreases v@.len() - j,
        {
            if str_eq(v[j].as_str(), s) {
                return true;
            }
            j = j + 1;
        }
        false
    }
}

/// If position `i` holds the key and id and nothing before it does,
/// `find_entry` lands exactly there.
pub proof fn lemma_find_entry_at(s: Seq<Entry>, key: u64, id: u32, i: int)
    requires
        0 <= i < s.len(),
        s[i].0 == key && s[i].1 == id,
        forall|j: int| 0 <= j < i ==> !((#[trigger] s[j]).0 == key && s[j].1 == id),
    ensures
        find_entry(s, key, id) == i,
{
    lemma_find_entry(s, key, id);
    let f = find_entry(s, key, id);
    if f < i {
        assert(!(s[f].0 == key && s[f].1 == id));
    }
    if f > i {
        assert(!(s[i].0 == key && s[i].1 == id));
    }
}

/// What matching does to the book for one symbol when both sides held
/// resting interest: exactly what [`spec_match`] says, everything else as it
/// was, and the two sides no longer crossed.
pub open spec fn match_updates(pre: OrderBook, post: OrderBook, sym: Seq<char>) -> bool {
    let mr = spec_match(book_entries(pre.buy_orders@, sym), book_entries(pre.sell_orders@, sym));
    &&& book_entries(post.buy_orders@, sym) == mr.0
    &&& book_entries(post.sell_orders@, sym) == mr.1
    &&& (has_book(post.buy_orders@, sym) <==> mr.0.len() > 0)
    &&& (has_book(post.sell_orders@, sym) <==> mr.1.len() > 0)
    &&& (forall|sym2: Seq<char>|
        sym2 != sym ==> book_entries(post.buy_orders@, sym2) == book_entries(pre.buy_orders@, sym2)
            && (has_book(post.buy_orders@, sym2) <==> has_book(pre.buy_orders@, sym2)))
    &&& (forall|sym2: Seq<char>|
        sym2 != sym ==> book_entries(post.sell_orders@, sym2) == book_entries(
            pre.sell_orders@,
            sym2,
        ) && (has_book(post.sell_orders@, sym2) <==> has_book(pre.sell_orders@, sym2)))
    &&& post.executions.matches@.len() == pre.executions.matches@.len() + mr.2.len()
    &&& (forall|m: int|
        0 <= m < pre.executions.matches@.len() ==> #[trigger] post.executions.matches@[m]
            == pre.executions.matches@[m])
    &&& (forall|k: int|
        0 <= k < mr.2.len() ==> pair_view(
            #[trigger] post.executions.matches@[pre.executions.matches@.len() + k],
        ) == (
            order_view_of(sym, Side::Buy, mr.2[k].0),
            order_view_of(sym, Side::Sell, mr.2[k].1),
        ))
    &&& (mr.0.len() > 0 && mr.1.len() > 0 ==> !crossed(mr.0[0], mr.1[0]))
    &&& (forall|id: u32| post.contains_id(id) ==> pre.contains_id(id))
}

impl OrderBook {
    /// Crosses the symbol's book: while the best resting buy bids at least
    /// the best resting sell's ask, the pair trades the smaller quantity and
    /// is recorded as both orders stood; the larger side rests on with the
    /// remainder. A side whose book empties is pruned. When either side has
    /// no book for the symbol there is nothing to match and the book stands
    /// untouched; otherwise the ledger (as a copy) is handed back, and the
    /// two sides are guaranteed not to remain crossed.
    pub fn match_orders(&mut self, symbol: &str) -> (r: Option<ExecutionList>)
        requires
            old(self).wf(),
            old(self).executions.matches@.len() + old(self).entries_for(
                Side::Buy,
                symbol@,
            ).len() + old(self).entries_for(Side::Sell, symbol@).len() <= usize::MAX,
        ensures
            final(self).wf(),
            !(old(self).has_symbol(Side::Buy, symbol@) && old(self).has_symbol(
                Side::Sell,
                symbol@,
            )) ==> r is None && *final(self) == *old(self),
            old(self).has_symbol(Side::Buy, symbol@) && old(self).has_symbol(Side::Sell, symbol@)
                ==> {
                &&& match_updates(*old(self), *final(self), symbol@)
                &&& match r {
                    Some(el) => el.wf() && crate::executions::same_records(
                        el,
                        final(self).executions,
                    ),
                    None => false,
                }
            },
    {
        let bi = match Self::find_book_idx(&self.buy_orders, symbol) {
            None => {
                return None;
            },
            Some(i) => i,
        };
        let si = match Self::find_book_idx(&self.sell_orders, symbol) {
            None => {
                return None;
            },
            Some(i) => i,
        };
        let ghost pre = *self;
        proof {
            lemma_find_book(pre.buy_orders@, symbol@);
            lemma_find_book(pre.sell_orders@, symbol@);
        }
        let buy_book = &mut self.buy_orders[bi];
        let sell_book = &mut self.sell_orders[si];
        run_match(&mut buy_book.entries, &mut sell_book.entries, &mut self.executions, symbol);
        proof {
            let mr = spec_match(
                book_entries(pre.buy_orders@, symbol@),
                book_entries(pre.sell_orders@, symbol@),
            );
            assert(self.buy_orders@.len() == pre.buy_orders@.len());
            assert(forall|j: int|
                0 <= j < pre.buy_orders@.len() && j != bi as int
                    ==> #[trigger] self.buy_orders@[j] == pre.buy_orders@[j]);
            assert(self.buy_orders@[bi as int].symbol@ == pre.buy_orders@[bi as int].symbol@);
            assert(entry_seq(self.buy_orders@[bi as int].entries) == mr.0);
            assert(entry_seq(self.sell_orders@[si as int].entries) == mr.1);
            assert forall|sym2: Seq<char>| true implies find_book(self.buy_orders@, sym2)
                == find_book(pre.buy_orders@, sym2) && find_book(self.sell_orders@, sym2)
                == find_book(pre.sell_orders@, sym2) by {
                lemma_find_book_congruent(self.buy_orders@, pre.buy_orders@, sym2);
                lemma_find_book_congruent(self.sell_orders@, pre.sell_orders@, sym2);
            }
            assert forall|sym2: Seq<char>| sym2 != symbol@ implies book_entries(
                self.buy_orders@,
                sym2,
            ) == book_entries(pre.buy_orders@, sym2) && book_entries(self.sell_orders@, sym2)
                == book_entries(pre.sell_orders@, sym2) by {
                lemma_find_book(pre.buy_orders@, sym2);
                lemma_find_book(pre.sell_orders@, sym2);
            }
        }
        let ghost mid = *self;
        if self.buy_orders[bi].entries.is_empty() {
            self.buy_orders.remove(bi);
            proof {
                lemma_books_remove(mid.buy_orders@, bi as int);
            }
        }
        let ghost mid2 = *self;
        if self.sell_orders[si].entries.is_empty() {
            self.sell_orders.remove(si);
            proof {
                lemma_books_remove(mid2.sell_orders@, si as int);
            }
        }
        proof {
            let mr = spec_match(
                book_entries(pre.buy_orders@, symbol@),
                book_entries(pre.sell_orders@, symbol@),
            );
            if mr.0.len() > 0 {
                assert(self.buy_orders@ == mid.buy_orders@);
                assert(book_entries(self.buy_orders@, symbol@) == mr.0);
            } else {
                assert(!has_book(self.buy_orders@, symbol@));
                assert(book_entries(self.buy_orders@, symbol@) =~= mr.0);
            }
            if mr.1.len() > 0 {
                assert(self.sell_orders@ == mid2.sell_orders@);
                assert(book_entries(self.sell_orders@, symbol@) == mr.1);
            } else {
                assert(!has_book(self.sell_orders@, symbol@));
                assert(book_entries(self.sell_orders@, symbol@) =~= mr.1);
            }
            assert forall|sym2: Seq<char>| sym2 != symbol@ implies book_entries(
                self.buy_orders@,
                sym2,
            ) == book_entries(pre.buy_orders@, sym2) && (has_book(self.buy_orders@, sym2)
                <==> has_book(pre.buy_orders@, sym2)) by {
                assert(book_entries(mid.buy_orders@, sym2) == book_entries(pre.buy_orders@, sym2));
                lemma_find_book(pre.buy_orders@, sym2);
                lemma_find_book(mid.buy_orders@, sym2);
            }
            assert forall|sym2: Seq<char>| sym2 != symbol@ implies book_entries(
                self.sell_orders@,
                sym2,
            ) == book_entries(pre.sell_orders@, sym2) && (has_book(self.sell_orders@, sym2)
                <==> has_book(pre.sell_orders@, sym2)) by {
                assert(book_entries(mid2.sell_orders@, sym2) == book_entries(
                    pre.sell_orders@,
                    sym2,
                ));
                lemma_find_book(pre.sell_orders@, sym2);
                lemma_find_book(mid2.sell_orders@, sym2);
            }
            assert forall|id: u32| side_has_id(mid.buy_orders@, id) implies side_has_id(
                pre.buy_orders@,
                id,
            ) by {
                let x: int = choose|x: int|
                    0 <= x < mid.buy_orders@.len() && has_id(
                        entry_seq((#[trigger] mid.buy_orders@[x]).entries),
                        id,
                    );
                if x == bi as int {
                    assert(has_id(book_entries(pre.buy_orders@, symbol@), id));
                    assert(has_id(entry_seq(pre.buy_orders@[bi as int].entries), id));
                } else {
                    assert(mid.buy_orders@[x] == pre.buy_orders@[x]);
                }
            }
            assert forall|id: u32| side_has_id(mid2.sell_orders@, id) implies side_has_id(
                pre.sell_orders@,
                id,
            ) by {
                let x: int = choose|x: int|
                    0 <= x < mid2.sell_orders@.len() && has_id(
                        entry_seq((#[trigger] mid2.sell_orders@[x]).entries),
                        id,
                    );
                if x == si as int {
                    assert(has_id(book_entries(pre.sell_orders@, symbol@), id));
                    assert(has_id(entry_seq(pre.sell_orders@[si as int].entries), id));
                } else {
                    assert(mid2.sell_orders@[x] == pre.sell_orders@[x]);
                }
            }
            assert forall|id: u32| self.contains_id(id) implies pre.contains_id(id) by {
                if side_has_id(self.buy_orders@, id) {
                    assert(side_has_id(mid.buy_orders@, id));
                }
                if side_has_id(self.sell_orders@, id) {
                    assert(side_has_id(mid2.sell_orders@, id));
                }
            }
            assert(match_updates(pre, *self, symbol@));
            assert(books_wf(self.buy_orders@)) by {
                if mr.0.len() > 0 {
                    assert(forall|j: int|
                        0 <= j < self.buy_orders@.len() && j != bi as int
                            ==> #[trigger] self.buy_orders@[j] == pre.buy_orders@[j]);
                } else {
                    assert(forall|j: int|
                        0 <= j < self.buy_orders@.len() ==> #[trigger] self.buy_orders@[j]
                            == mid.buy_orders@.remove(bi as int)[j]);
                }
            }
            assert(books_wf(self.sell_orders@)) by {
                if mr.1.len() > 0 {
                } else {
                    assert(forall|j: int|
                        0 <= j < self.sell_orders@.len() ==> #[trigger] self.sell_orders@[j]
                            == mid2.sell_orders@.remove(si as int)[j]);
                }
            }
        }
        Some(self.executions.duplicate())
    }
}

} // verus!
