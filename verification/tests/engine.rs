use fix_engine::exchange::Exchange;
use fix_engine::executions::ExecutionList;
use fix_engine::order::Order;
use fix_engine::order::Side;
use fix_engine::orderbook::OrderBook;

/// Price in ticks (four decimal places) for a whole-number quote.
fn px(units: u64) -> u64 {
    units * 10_000
}

#[test]
fn test_side_eq() {
    let buy_side = Side::Buy;
    let sell_side = Side::Sell;
    assert_eq!(buy_side, Side::Buy);
    assert_eq!(sell_side, Side::Sell);
}

#[test]
fn test_side_clone() {
    let buy_side = Side::Buy;
    let sell_side = Side::Sell;
    assert_eq!(buy_side.clone(), Side::Buy);
    assert_eq!(sell_side.clone(), Side::Sell);
}

#[test]
fn test_order_cmp() {
    let order1 = Order::new(0, "AAPL", 100, px(100), Side::Buy);
    let order2 = Order::new(1, "AAPL", 100, px(150), Side::Sell);
    let order3 = Order::new(2, "AAPL", 100, px(200), Side::Sell);
    let order4 = Order::new(3, "AAPL", 100, px(200), Side::Buy);
    assert_eq!(order1.cmp(&order4), std::cmp::Ordering::Greater);
    assert_eq!(order3.cmp(&order2), std::cmp::Ordering::Greater);
}

#[test]
fn test_order_clone() {
    let order1 = Order::new(0, "AAPL", 100, px(150), Side::Buy);
    assert_eq!(order1.clone(), order1);
}

#[test]
fn create_order_book() {
    let order_book = OrderBook::new();
    assert_eq!(order_book.buy_orders.len(), 0);
    assert_eq!(order_book.sell_orders.len(), 0);
}

#[test]
fn test_order_book_add_order() {
    let mut order_book = OrderBook::new();
    let order1 = Order::new(0, "AAPL", 100, px(150), Side::Buy);
    let order2 = Order::new(1, "AAPL", 100, px(150), Side::Sell);
    let order3 = Order::new(2, "AAPL", 100, px(200), Side::Sell);
    order_book.add_order(order1);
    order_book.add_order(order2);
    order_book.add_order(order3);
    assert_eq!(order_book.buy_orders.len(), 1);
    assert_eq!(order_book.sell_orders.len(), 1);
    assert_eq!(order_book.buy_orders[0].entries.len(), 1);
    assert_eq!(order_book.sell_orders[0].entries.len(), 2);
}

#[test]
fn test_order_book_remove_order() {
    let mut order_book = OrderBook::new();
    let order1 = Order::new(0, "AAPL", 100, px(150), Side::Buy);
    let order2 = Order::new(1, "AAPL", 100, px(150), Side::Sell);
    let order3 = Order::new(2, "AAPL", 100, px(200), Side::Sell);
    order_book.add_order(order1.clone());
    order_book.add_order(order2.clone());
    order_book.add_order(order3.clone());
    assert_eq!(order_book.buy_orders.len(), 1);
    assert_eq!(order_book.sell_orders.len(), 1);
    assert_eq!(order_book.buy_orders[0].entries.len(), 1);
    assert_eq!(order_book.sell_orders[0].entries.len(), 2);
    order_book.remove_order(order1);
    assert_eq!(order_book.buy_orders.len(), 0);
    assert_eq!(order_book.sell_orders.len(), 1);
    assert_eq!(order_book.sell_orders[0].entries.len(), 2);
    order_book.remove_order(order2);
    assert_eq!(order_book.buy_orders.len(), 0);
    assert_eq!(order_book.sell_orders.len(), 1);
    assert_eq!(order_book.sell_orders[0].entries.len(), 1);
    order_book.remove_order(order3);
    assert_eq!(order_book.buy_orders.len(), 0);
    assert_eq!(order_book.sell_orders.len(), 0);
}

#[test]
fn test_order_book_priority() {
    let mut order_book = OrderBook::new();
    let order1 = Order::new(0, "AAPL", 100, px(200), Side::Buy);
    let order2 = Order::new(1, "AAPL", 100, px(150), Side::Buy);
    let order3 = Order::new(2, "AAPL", 100, px(200), Side::Sell);
    let order4 = Order::new(3, "AAPL", 100, px(150), Side::Sell);
    order_book.add_order(order1.clone());
    order_book.add_order(order2.clone());
    order_book.add_order(order3.clone());
    order_book.add_order(order4.clone());
    let open = order_book.open_orders("AAPL");
    // buys in priority order, then sells in priority order
    assert_eq!(open.len(), 4);
    assert_eq!(open[0], order1);
    assert_eq!(open[1], order2);
    assert_eq!(open[2], order4);
    assert_eq!(open[3], order3);
}

/// The executions recorded for one order id.
fn matches_for(executions: &ExecutionList, id: u32) -> Vec<(Order, Order)> {
    executions.get_matches_for_id(id)
}

#[test]
fn orderbook_test_match_orders() {
    let mut order_book = OrderBook::new();
    let order1 = Order::new(0, "AAPL", 100, px(150), Side::Buy);
    let order2 = Order::new(1, "AAPL", 100, px(150), Side::Buy);
    let order3 = Order::new(2, "AAPL", 100, px(150), Side::Sell);
    let order4 = Order::new(3, "AAPL", 100, px(200), Side::Sell);
    order_book.add_order(order1.clone());
    order_book.add_order(order2.clone());
    order_book.add_order(order3.clone());
    order_book.add_order(order4.clone());
    let executions = order_book.match_orders("AAPL").unwrap();
    let got = matches_for(&executions, order1.id);
    assert!(got.contains(&(order1.clone(), order3.clone())));
}

#[test]
fn test_multiple_match_orders() {
    let mut order_book = OrderBook::new();
    let order1 = Order::new(0, "AAPL", 100, px(200), Side::Buy);
    let order2 = Order::new(1, "AAPL", 100, px(150), Side::Buy);
    let order3 = Order::new(2, "AAPL", 100, px(200), Side::Buy);
    let order4 = Order::new(3, "AAPL", 100, px(150), Side::Sell);
    let order5 = Order::new(4, "AAPL", 100, px(200), Side::Sell);
    order_book.add_order(order1.clone());
    order_book.add_order(order2.clone());
    order_book.add_order(order3.clone());
    order_book.add_order(order4.clone());
    order_book.add_order(order5.clone());
    let executions = order_book.match_orders("AAPL").unwrap();
    let got1 = matches_for(&executions, order1.id);
    assert_eq!(got1.len(), 1);
    assert!(got1.contains(&(order1.clone(), order4.clone())));
    let got3 = matches_for(&executions, order3.id);
    assert_eq!(got3.len(), 1);
    assert!(got3.contains(&(order3.clone(), order5.clone())));
}

#[test]
fn test_partial_match_orders() {
    let mut order_book = OrderBook::new();
    let order1 = Order::new(0, "AAPL", 100, px(200), Side::Buy);
    let order2 = Order::new(1, "AAPL", 200, px(150), Side::Buy);
    let order3 = Order::new(2, "AAPL", 150, px(200), Side::Sell);
    let order4 = Order::new(3, "AAPL", 300, px(300), Side::Sell);
    order_book.add_order(order1.clone());
    order_book.add_order(order2.clone());
    order_book.add_order(order3.clone());
    order_book.add_order(order4.clone());
    let executions = order_book.match_orders("AAPL").unwrap();
    let got = matches_for(&executions, order1.id);
    assert!(got.contains(&(order1.clone(), order3.clone())));
}

#[test]
fn test_multiple_partial_match_orders() {
    let mut order_book = OrderBook::new();
    let order1 = Order::new(0, "AAPL", 100, px(200), Side::Buy);
    let order2 = Order::new(1, "AAPL", 200, px(150), Side::Buy);
    let order3 = Order::new(2, "AAPL", 150, px(200), Side::Sell);
    let order4 = Order::new(3, "AAPL", 300, px(300), Side::Sell);
    let order5 = Order::new(4, "AAPL", 100, px(200), Side::Buy);
    let order6 = Order::new(5, "AAPL", 200, px(150), Side::Buy);
    let order7 = Order::new(6, "AAPL", 150, px(200), Side::Sell);
    let order8 = Order::new(7, "AAPL", 300, px(300), Side::Sell);
    order_book.add_order(order1.clone());
    order_book.add_order(order2.clone());
    order_book.add_order(order3.clone());
    order_book.add_order(order4.clone());
    order_book.add_order(order5.clone());
    order_book.add_order(order6.clone());
    order_book.add_order(order7.clone());
    order_book.add_order(order8.clone());
    let executions = order_book.match_orders("AAPL").unwrap();
    let got1 = matches_for(&executions, order1.id);
    assert_eq!(got1.len(), 1);
    assert!(got1.contains(&(order1.clone(), order3.clone())));
    let got5 = matches_for(&executions, order5.id);
    assert_eq!(got5.len(), 2);
    assert!(got5.contains(&(order5.clone(), order7.clone())));
    assert!(got5.contains(&(order5.clone(), order3.clone())));
}

#[test]
fn test_new_execution_list() {
    let executions = ExecutionList::new();
    assert!(executions.lookup.is_empty());
    assert!(executions.matches.is_empty());
}

#[test]
fn test_insert_execution() {
    let mut executions = ExecutionList::new();
    let order1 = Order::new(0, "AAPL", 100, px(150), Side::Buy);
    let order2 = Order::new(1, "AAPL", 100, px(150), Side::Sell);
    let execution = (order1.clone(), order2.clone());
    executions.insert(1, execution.clone());
    assert_eq!(executions.lookup.len(), 2);
    assert_eq!(executions.matches.len(), 1);
    let for1 = executions.lookup.iter().find(|e| e.0 == order1.id).unwrap();
    assert_eq!(for1.1.len(), 1);
    let for2 = executions.lookup.iter().find(|e| e.0 == order2.id).unwrap();
    assert_eq!(for2.1.len(), 1);
    assert_eq!(executions.matches[0].0.id, execution.0.id);
    assert_eq!(executions.matches[0].1.id, execution.1.id);
}

#[test]
fn test_lookup_with_order_id() {
    let mut executions = ExecutionList::new();
    let order1 = Order::new(0, "AAPL", 100, px(150), Side::Buy);
    let order2 = Order::new(1, "AAPL", 100, px(150), Side::Sell);
    let execution = (order1.clone(), order2.clone());
    executions.insert(1, execution.clone());
    assert!(executions.get_matches_for_id(order1.id).contains(&execution));
    assert!(executions.get_matches_for_id(order2.id).contains(&execution));
}

#[test]
fn exchange_test_new_exchange() {
    let exchange = Exchange::new();
    assert!(exchange.get_active_symbols().is_empty());
    assert!(exchange.get_open_orders("AAPL").is_empty());
}

#[test]
fn exchange_test_add_orders() {
    let mut exchange = Exchange::new();
    let order = Order::new(0, "AAPL", 100, px(150), Side::Buy);
    exchange.execute_order(order.clone());
    assert_eq!(exchange.get_open_orders("AAPL").len(), 1);
    assert_eq!(exchange.get_open_orders("AAPL")[0], order);
}

#[test]
fn exchange_test_match_orders() {
    let mut exchange = Exchange::new();
    let order1 = Order::new(0, "AAPL", 10, px(100), Side::Buy);
    let order2 = Order::new(1, "AAPL", 10, px(100), Side::Sell);
    exchange.execute_order(order1);
    exchange.execute_order(order2);
    assert_eq!(exchange.get_open_orders("AAPL").len(), 0);
}

#[test]
fn test_cancel_orders() {
    let mut exchange = Exchange::new();
    let order = Order::new(0, "AAPL", 100, px(150), Side::Buy);
    exchange.execute_order(order.clone());
    exchange.cancel_order(order);
    assert!(exchange.get_open_orders("AAPL").is_empty());
}

#[test]
fn test_get_executions() {
    let mut exchange = Exchange::new();
    let order1 = Order::new(0, "AAPL", 10, px(100), Side::Buy);
    let order2 = Order::new(1, "AAPL", 10, px(100), Side::Sell);
    exchange.execute_order(order1.clone());
    exchange.execute_order(order2.clone());
    assert_eq!(exchange.get_executions().len(), 1);
    assert_eq!(exchange.get_executions()[0], (order1, order2));
}

#[test]
fn test_get_open_orders() {
    let mut exchange = Exchange::new();
    let order1 = Order::new(0, "AAPL", 10, px(100), Side::Buy);
    let order2 = Order::new(1, "AAPL", 10, px(100), Side::Sell);
    exchange.execute_order(order1.clone());
    exchange.execute_order(order2.clone());
    assert_eq!(exchange.get_open_orders("AAPL").len(), 0);
}

#[test]
fn test_get_active_symbols() {
    let mut exchange = Exchange::new();
    let order1 = Order::new(0, "AAPL", 10, px(100), Side::Buy);
    let order2 = Order::new(1, "GOOG", 10, px(100), Side::Sell);
    exchange.execute_order(order1.clone());
    exchange.execute_order(order2.clone());
    let mut symbols = exchange.get_active_symbols();
    symbols.sort();
    assert_eq!(symbols, vec!["AAPL".to_string(), "GOOG".to_string()]);
}

#[test]
fn scenario_full_fill() {
    // Buy 100@150 then Sell 100@150: one execution, book empty afterwards.
    let mut exchange = Exchange::new();
    let buy = Order::new(0, "AAPL", 100, px(150), Side::Buy);
    let sell = Order::new(1, "AAPL", 100, px(150), Side::Sell);
    exchange.execute_order(buy.clone());
    exchange.execute_order(sell.clone());
    assert_eq!(exchange.get_executions().len(), 1);
    assert_eq!(exchange.get_executions()[0], (buy, sell));
    assert!(exchange.get_open_orders("AAPL").is_empty());
}

#[test]
fn scenario_partial_fill() {
    // Buy 100@200 then Sell 150@200: one execution of 100, Sell rests with 50.
    let mut exchange = Exchange::new();
    let buy = Order::new(0, "AAPL", 100, px(200), Side::Buy);
    let sell = Order::new(1, "AAPL", 150, px(200), Side::Sell);
    exchange.execute_order(buy.clone());
    exchange.execute_order(sell.clone());
    let execs = exchange.get_executions();
    assert_eq!(execs.len(), 1);
    assert_eq!(execs[0].0.quantity, 100);
    assert_eq!(execs[0].1.quantity, 150);
    let open = exchange.get_open_orders("AAPL");
    assert_eq!(open.len(), 1);
    assert_eq!(open[0].id, sell.id);
    assert_eq!(open[0].quantity, 50);
}

#[test]
fn scenario_cancel() {
    // Buy 100@150, cancel it: nothing rests, nothing executed.
    let mut exchange = Exchange::new();
    let buy = Order::new(0, "AAPL", 100, px(150), Side::Buy);
    exchange.execute_order(buy.clone());
    let removed = exchange.cancel_order(buy.clone());
    assert_eq!(removed, Some(buy));
    assert!(exchange.get_open_orders("AAPL").is_empty());
    assert!(exchange.get_executions().is_empty());
}

#[test]
fn scenario_price_time_crossing() {
    // Buys at 200 and 150, sells at 150 and 300: the 200 buy takes the 150
    // sell; the 150 buy rests against the 300 sell without crossing.
    let mut exchange = Exchange::new();
    let buy_hi = Order::new(0, "AAPL", 100, px(200), Side::Buy);
    let buy_lo = Order::new(1, "AAPL", 100, px(150), Side::Buy);
    let sell_lo = Order::new(2, "AAPL", 100, px(150), Side::Sell);
    let sell_hi = Order::new(3, "AAPL", 100, px(300), Side::Sell);
    exchange.execute_order(buy_hi.clone());
    exchange.execute_order(buy_lo.clone());
    exchange.execute_order(sell_lo.clone());
    exchange.execute_order(sell_hi.clone());
    let execs = exchange.get_executions();
    assert_eq!(execs.len(), 1);
    assert_eq!(execs[0], (buy_hi, sell_lo));
    let open = exchange.get_open_orders("AAPL");
    assert_eq!(open.len(), 2);
    assert_eq!(open[0].id, buy_lo.id);
    assert_eq!(open[1].id, sell_hi.id);
}

#[test]
fn cancel_unknown_is_noop() {
    let mut exchange = Exchange::new();
    let resting = Order::new(0, "AAPL", 100, px(150), Side::Buy);
    exchange.execute_order(resting.clone());
    let stranger = Order::new(9, "AAPL", 50, px(150), Side::Buy);
    assert_eq!(exchange.cancel_order(stranger), None);
    let wrong_symbol = Order::new(0, "GOOG", 100, px(150), Side::Buy);
    assert_eq!(exchange.cancel_order(wrong_symbol), None);
    assert_eq!(exchange.get_open_orders("AAPL").len(), 1);
}

#[test]
fn check_execution_unknown_is_empty() {
    let exchange = Exchange::new();
    assert!(exchange.check_execution(123).is_empty());
}

#[test]
fn match_is_idempotent_without_cross() {
    let mut book = OrderBook::new();
    book.add_order(Order::new(0, "AAPL", 100, px(100), Side::Buy));
    book.add_order(Order::new(1, "AAPL", 100, px(200), Side::Sell));
    let first = book.match_orders("AAPL").unwrap();
    assert!(first.matches.is_empty());
    let again = book.match_orders("AAPL").unwrap();
    assert!(again.matches.is_empty());
    assert_eq!(book.open_orders("AAPL").len(), 2);
}

#[test]
fn equal_price_fills_by_earliest_id() {
    let mut exchange = Exchange::new();
    let early = Order::new(0, "AAPL", 100, px(150), Side::Buy);
    let late = Order::new(1, "AAPL", 100, px(150), Side::Buy);
    let sell = Order::new(2, "AAPL", 100, px(150), Side::Sell);
    exchange.execute_order(early.clone());
    exchange.execute_order(late.clone());
    exchange.execute_order(sell.clone());
    let execs = exchange.get_executions();
    assert_eq!(execs.len(), 1);
    assert_eq!(execs[0], (early, sell));
    let open = exchange.get_open_orders("AAPL");
    assert_eq!(open.len(), 1);
    assert_eq!(open[0].id, late.id);
}
