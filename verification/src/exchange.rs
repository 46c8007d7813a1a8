use vstd::prelude::*;

use crate::entries::insert_sorted;
use crate::executions::pair_view;
use crate::executions::result_matches;
use crate::order::Order;
use crate::order::Side;
use crate::orderbook::OrderBook;
use crate::orderbook::crossed;
use crate::orderbook::find_entry;
use crate::orderbook::has_entry;
use crate::orderbook::order_entry;
use crate::orderbook::order_view_of;
use crate::orderbook::opposite;
use crate::orderbook::spec_key;
use crate::orderbook::spec_match;
use crate::orderbook::symbol_listed;

verus! {

/// The engine: one order book with its execution ledger behind a single
/// entry point. Each call completes one whole operation on the book —
/// resting an order and crossing its symbol happen inside one
/// `execute_order` call, so callers that serialize their calls (one engine
/// owner, or one lock around it) get the add-then-match step atomically.
pub struct Exchange {
    pub orderbook: OrderBook,
}

impl Exchange {
    /// The engine's invariant: its book is healthy.
    pub open spec fn wf(&self) -> bool {
        self.orderbook.wf()
    }

    /// An engine with nothing resting and nothing executed.
    pub fn new() -> (r: Exchange)
        ensures
            r.wf(),
            r.orderbook.buy_orders@.len() == 0,
            r.orderbook.sell_orders@.len() == 0,
            r.orderbook.executions.matches@.len() == 0,
    {
        Exchange { orderbook: OrderBook::new() }
    }

    /// Accepts an order: rests it in its symbol's book and immediately
    /// crosses that symbol, recording an execution for every trade. The
    /// post-state is exactly `spec_match` run on the two sides with the new
    /// order resting, and the symbol's book never remains crossed.
    pub fn execute_order(&mut self, order: Order)
        requires
            old(self).wf(),
            order.quantity > 0,
            !old(self).orderbook.contains_id(order.id),
            old(self).orderbook.executions.matches@.len() + old(self).orderbook.entries_for(
                Side::Buy,
                order.symbol@,
            ).len() + old(self).orderbook.entries_for(Side::Sell, order.symbol@).len() + 1
                <= usize::MAX,
        ensures
            final(self).wf(),
            ({
                let sym = order.symbol@;
                let pre = old(self).orderbook;
                let post = final(self).orderbook;
                let bm = if order.side == Side::Buy {
                    insert_sorted(pre.entries_for(Side::Buy, sym), order_entry(order@))
                } else {
                    pre.entries_for(Side::Buy, sym)
                };
                let sm = if order.side == Side::Sell {
                    insert_sorted(pre.entries_for(Side::Sell, sym), order_entry(order@))
                } else {
                    pre.entries_for(Side::Sell, sym)
                };
                let mr = spec_match(bm, sm);
                &&& post.entries_for(Side::Buy, sym) == mr.0
                &&& post.entries_for(Side::Sell, sym) == mr.1
                &&& (post.has_symbol(Side::Buy, sym) <==> mr.0.len() > 0)
                &&& (post.has_symbol(Side::Sell, sym) <==> mr.1.len() > 0)
                &&& (forall|sym2: Seq<char>|
                    sym2 != sym ==> post.entries_for(Side::Buy, sym2) == pre.entries_for(
                        Side::Buy,
                        sym2,
                    ) && (post.has_symbol(Side::Buy, sym2) <==> pre.has_symbol(Side::Buy, sym2)))
                &&& (forall|sym2: Seq<char>|
                    sym2 != sym ==> post.entries_for(Side::Sell, sym2) == pre.entries_for(
                        Side::Sell,
                        sym2,
                    ) && (post.has_symbol(Side::Sell, sym2) <==> pre.has_symbol(Side::Sell, sym2)))
                &&& post.executions.matches@.len() == pre.executions.matches@.len() + mr.2.len()
                &&& (forall|m: int|
                    0 <= m < pre.executions.matches@.len() ==> #[trigger] post.executions.matches@[m]
                        == pre.executions.matches@[m])
                &&& (forall|k: int|
                    0 <= k < mr.2.len() ==> pair_view(
                        #[trigger] post.executions.matches@[pre.executions.matches@.len() + k],
                    ) == (
                        order_view_of(sym, Side::Buy, mr.2[k].0),
                        order_view_of(sym, Side::Sell, mr.2[k].1),
                    ))
                &&& (mr.0.len() > 0 && mr.1.len() > 0 ==> !crossed(mr.0[0], mr.1[0]))
                &&& (forall|id: u32|
                    post.contains_id(id) ==> pre.contains_id(id) || id == order.id)
            }),
    {
        let symbol = order.symbol.clone();
        let ghost pre = self.orderbook;
        let ghost side = order.side;
        let ghost entry = order_entry(order@);
        self.orderbook.add_order(order);
        let ghost mid = self.orderbook;
        proof {
            crate::entries::lemma_insert_pos(pre.entries_for(side, symbol@), entry);
            assert(mid.entries_for(side, symbol@).len() == pre.entries_for(side, symbol@).len()
                + 1);
        }
        self.orderbook.match_orders(symbol.as_str());
        proof {
            let sym = symbol@;
            let bm = mid.entries_for(Side::Buy, sym);
            let sm = mid.entries_for(Side::Sell, sym);
            if !(mid.has_symbol(Side::Buy, sym) && mid.has_symbol(Side::Sell, sym)) {
                assert(self.orderbook == mid);
                if side == Side::Buy {
                    assert(!mid.has_symbol(Side::Sell, sym));
                    assert(sm =~= Seq::<crate::entries::Entry>::empty());
                    assert(spec_match(bm, sm) == (bm, sm, Seq::<(
                        crate::entries::Entry,
                        crate::entries::Entry,
                    )>::empty()));
                } else {
                    assert(!mid.has_symbol(Side::Buy, sym));
                    assert(bm =~= Seq::<crate::entries::Entry>::empty());
                    assert(spec_match(bm, sm) == (bm, sm, Seq::<(
                        crate::entries::Entry,
                        crate::entries::Entry,
                    )>::empty()));
                }
                assert(mid.has_symbol(side, sym));
            }
        }
    }

    /// Withdraws a resting order by identity: only the resting order with
    /// the argument's id (on its side, under its symbol, at its price)
    /// leaves the book, and it is returned as it rested. Cancelling an order
    /// that is not resting — already filled, already cancelled, or never
    /// seen — changes nothing and returns nothing. Recorded executions are
    /// never touched.
    pub fn cancel_order(&mut self, order: Order) -> (r: Option<Order>)
        requires
            old(self).wf(),
        ensures
            final(self).wf(),
            final(self).orderbook.executions == old(self).orderbook.executions,
            final(self).orderbook.side_books(opposite(order.side)) == old(
                self,
            ).orderbook.side_books(opposite(order.side)),
            ({
                let sym = order.symbol@;
                let side = order.side;
                let key = spec_key(side, order.price);
                let es = old(self).orderbook.entries_for(side, sym);
                let p = find_entry(es, key, order.id);
                &&& !has_entry(es, key, order.id) ==> r is None && *final(self) == *old(self)
                &&& has_entry(es, key, order.id) ==> {
                    &&& match r {
                        Some(o) => o@ == order_view_of(sym, side, es[p]),
                        None => false,
                    }
                    &&& final(self).orderbook.entries_for(side, sym) == es.remove(p)
                    &&& (final(self).orderbook.has_symbol(side, sym) <==> es.len() > 1)
                    &&& (forall|sym2: Seq<char>|
                        sym2 != sym ==> final(self).orderbook.entries_for(side, sym2) == old(
                            self,
                        ).orderbook.entries_for(side, sym2))
                    &&& (forall|id2: u32|
                        final(self).orderbook.contains_id(id2) ==> old(self).orderbook.contains_id(
                            id2,
                        ))
                }
            }),
    {
        self.orderbook.remove_order(order)
    }

    /// Every recorded execution the order id took part in.
    pub fn check_execution(&self, order_id: u32) -> (r: Vec<(Order, Order)>)
        requires
            self.wf(),
        ensures
            result_matches(self.orderbook.executions, order_id, r@),
    {
        self.orderbook.executions.get_matches_for_id(order_id)
    }

    /// Every execution recorded so far, in execution-id order.
    pub fn get_executions(&self) -> (r: Vec<(Order, Order)>)
        requires
            self.wf(),
        ensures
            r@.len() == self.orderbook.executions.matches@.len(),
            forall|m: int|
                0 <= m < r@.len() ==> pair_view(#[trigger] r@[m]) == pair_view(
                    self.orderbook.executions.matches@[m],
                ),
    {
        let ms = &self.orderbook.executions.matches;
        let mut r: Vec<(Order, Order)> = Vec::new();
        let mut m: usize = 0;
        while m < ms.len()
            invariant
                m <= ms@.len(),
                r@.len() == m,
                forall|x: int|
                    0 <= x < m ==> pair_view(#[trigger] r@[x]) == pair_view(ms@[x]),
            decreases ms@.len() - m,
        {
            let p = &ms[m];
            r.push((p.0.duplicate(), p.1.duplicate()));
            m = m + 1;
        }
        r
    }

    /// Every order resting under the symbol: buys in priority order, then
    /// sells in priority order.
    pub fn get_open_orders(&self, symbol: &str) -> (r: Vec<Order>)
        requires
            self.wf(),
        ensures
            ({
                let bs = self.orderbook.entries_for(Side::Buy, symbol@);
                let ss = self.orderbook.entries_for(Side::Sell, symbol@);
                &&& r@.len() == bs.len() + ss.len()
                &&& (forall|k: int|
                    0 <= k < bs.len() ==> (#[trigger] r@[k])@ == order_view_of(
                        symbol@,
                        Side::Buy,
                        bs[k],
                    ))
                &&& (forall|k: int|
                    0 <= k < ss.len() ==> (#[trigger] r@[bs.len() + k])@ == order_view_of(
                        symbol@,
                        Side::Sell,
                        ss[k],
                    ))
            }),
    {
        self.orderbook.open_orders(symbol)
    }

    /// Every symbol with resting interest on either side, each exactly once.
    pub fn get_active_symbols(&self) -> (r: Vec<String>)
        requires
            self.wf(),
        ensures
            forall|j: int|
                0 <= j < r@.len() ==> self.orderbook.has_symbol(Side::Buy, (#[trigger] r@[j])@)
                    || self.orderbook.has_symbol(Side::Sell, r@[j]@),
            forall|i: int|
                0 <= i < self.orderbook.buy_orders@.len() ==> symbol_listed(
                    r@,
                    (#[trigger] self.orderbook.buy_orders@[i]).symbol@,
                ),
            forall|i: int|
                0 <= i < self.orderbook.sell_orders@.len() ==> symbol_listed(
                    r@,
                    (#[trigger] self.orderbook.sell_orders@[i]).symbol@,
                ),
            forall|j1: int, j2: int| 0 <= j1 < j2 < r@.len() ==> (#[trigger] r@[j1])@ != (
            #[trigger] r@[j2])@,
    {
        self.orderbook.active_symbols()
    }

    /// Alias for [`Exchange::get_active_symbols`], kept for callers that ask
    /// for the book's symbols under that name.
    pub fn get_symbols(&self) -> (r: Vec<String>)
        requires
            self.wf(),
        ensures
            forall|j: int|
                0 <= j < r@.len() ==> self.orderbook.has_symbol(Side::Buy, (#[trigger] r@[j])@)
                    || self.orderbook.has_symbol(Side::Sell, r@[j]@),
            forall|i: int|
                0 <= i < self.orderbook.buy_orders@.len() ==> symbol_listed(
                    r@,
                    (#[trigger] self.orderbook.buy_orders@[i]).symbol@,
                ),
            forall|i: int|
                0 <= i < self.orderbook.sell_orders@.len() ==> symbol_listed(
                    r@,
                    (#[trigger] self.orderbook.sell_orders@[i]).symbol@,
                ),
            forall|j1: int, j2: int| 0 <= j1 < j2 < r@.len() ==> (#[trigger] r@[j1])@ != (
            #[trigger] r@[j2])@,
    {
        self.orderbook.active_symbols()
    }
}

} // verus!
