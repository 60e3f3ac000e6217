use exchange::orderbook::{Order, OrderSide, Orderbook};
use rand::distributions::{Alphanumeric, DistString};
use rand::thread_rng;

fn generate_order_id() -> String {
    Alphanumeric.sample_string(&mut thread_rng(), 24)
}

fn order(id: &str, user: &str, price: u64, quantity: u64, side: OrderSide) -> Order {
    Order {
        order_id: id.to_string(),
        user_id: user.to_string(),
        price,
        quantity,
        filled: 0,
        side,
    }
}

#[test]
fn test_add_bid_order() {
    let mut orderbook = Orderbook::new("TEST_MARKET".to_string());
    let mut order = Order {
        order_id: generate_order_id(),
        user_id: "user1".to_string(),
        price: 100,
        quantity: 10,
        filled: 0,
        side: OrderSide::Buy,
    };

    let (fills, executed_qty) = orderbook.add_order(&mut order).unwrap();
    assert_eq!(fills.len(), 0);
    assert_eq!(executed_qty, 0);
    assert_eq!(orderbook.bids.len(), 1);
    assert_eq!(orderbook.asks.len(), 0);
}

#[test]
fn test_add_ask_order() {
    let mut orderbook = Orderbook::new("TEST_MARKET".to_string());
    let mut order = Order {
        order_id: generate_order_id(),
        user_id: "user1".to_string(),
        price: 100,
        quantity: 10,
        filled: 0,
        side: OrderSide::Sell,
    };

    let (fills, executed_qty) = orderbook.add_order(&mut order).unwrap();
    assert_eq!(fills.len(), 0);
    assert_eq!(executed_qty, 0);
    assert_eq!(orderbook.bids.len(), 0);
    assert_eq!(orderbook.asks.len(), 1);
}

#[test]
fn test_match_orders_different_users() {
    let mut orderbook = Orderbook::new("TEST_MARKET".to_string());

    let mut buy_order = Order {
        order_id: generate_order_id(),
        user_id: "user1".to_string(),
        price: 100,
        quantity: 5,
        filled: 0,
        side: OrderSide::Buy,
    };

    let (fills, executed_qty) = orderbook.add_order(&mut buy_order).unwrap();
    assert_eq!(fills.len(), 0);
    assert_eq!(executed_qty, 0);

    let mut sell_order = Order {
        order_id: generate_order_id(),
        user_id: "user2".to_string(),
        price: 100,
        quantity: 5,
        filled: 0,
        side: OrderSide::Sell,
    };

    let (fills, executed_qty) = orderbook.add_order(&mut sell_order).unwrap();
    assert_eq!(fills.len(), 1);
    assert_eq!(executed_qty, 5);
    assert_eq!(orderbook.bids.len(), 0);
    assert_eq!(orderbook.asks.len(), 0);
}

#[test]
fn test_match_orders_same_user() {
    let mut orderbook = Orderbook::new("TEST_MARKET".to_string());

    let mut buy_order = Order {
        order_id: generate_order_id(),
        user_id: "user1".to_string(),
        price: 100,
        quantity: 5,
        filled: 0,
        side: OrderSide::Buy,
    };

    let (fills, executed_qty) = orderbook.add_order(&mut buy_order).unwrap();
    assert_eq!(fills.len(), 0);
    assert_eq!(executed_qty, 0);

    let mut sell_order = Order {
        order_id: generate_order_id(),
        user_id: "user1".to_string(),
        price: 100,
        quantity: 5,
        filled: 0,
        side: OrderSide::Sell,
    };

    let (fills, executed_qty) = orderbook.add_order(&mut sell_order).unwrap();
    assert_eq!(fills.len(), 0);
    assert_eq!(executed_qty, 0);
    assert_eq!(orderbook.bids.len(), 1);
    assert_eq!(orderbook.asks.len(), 1);
}

#[test]
fn test_partial_match() {
    let mut orderbook = Orderbook::new("TEST_MARKET".to_string());

    let mut buy_order = Order {
        order_id: generate_order_id(),
        user_id: "user1".to_string(),
        price: 100,
        quantity: 10,
        filled: 0,
        side: OrderSide::Buy,
    };

    let (fills, executed_qty) = orderbook.add_order(&mut buy_order).unwrap();
    assert_eq!(fills.len(), 0);
    assert_eq!(executed_qty, 0);

    let mut sell_order = Order {
        order_id: generate_order_id(),
        user_id: "user2".to_string(),
        price: 100,
        quantity: 5,
        filled: 0,
        side: OrderSide::Sell,
    };

    let (fills, executed_qty) = orderbook.add_order(&mut sell_order).unwrap();
    assert_eq!(fills.len(), 1);
    assert_eq!(executed_qty, 5);
    assert_eq!(orderbook.bids.len(), 1);
    assert_eq!(orderbook.asks.len(), 0);

    let remaining_qty = orderbook.bids.values().next().unwrap()[0].quantity
        - orderbook.bids.values().next().unwrap()[0].filled;
    assert_eq!(remaining_qty, 5);
}

#[test]
fn test_price_priority() {
    let mut orderbook = Orderbook::new("TEST_MARKET".to_string());

    let mut buy_order1 = Order {
        order_id: generate_order_id(),
        user_id: "user1".to_string(),
        price: 100,
        quantity: 5,
        filled: 0,
        side: OrderSide::Buy,
    };

    let mut buy_order2 = Order {
        order_id: generate_order_id(),
        user_id: "user2".to_string(),
        price: 102,
        quantity: 5,
        filled: 0,
        side: OrderSide::Buy,
    };

    orderbook.add_order(&mut buy_order1).unwrap();
    orderbook.add_order(&mut buy_order2).unwrap();

    let mut sell_order = Order {
        order_id: generate_order_id(),
        user_id: "user3".to_string(),
        price: 99,
        quantity: 5,
        filled: 0,
        side: OrderSide::Sell,
    };

    let (fills, executed_qty) = orderbook.add_order(&mut sell_order).unwrap();
    assert_eq!(fills.len(), 1);
    assert_eq!(executed_qty, 5);
    assert_eq!(fills[0].price, 102);
    assert_eq!(orderbook.bids.len(), 1);
}

#[test]
fn ticker_names_the_market() {
    let orderbook = Orderbook::new("SOL_USDC".to_string());
    assert_eq!(orderbook.ticker(), "SOL_USDC");
}

#[test]
fn buy_sweeps_asks_lowest_first_in_time_order() {
    let mut book = Orderbook::new("M".to_string());
    book.add_order(&mut order("a1", "bob", 104, 3, OrderSide::Sell)).unwrap();
    book.add_order(&mut order("a2", "bob", 103, 7, OrderSide::Sell)).unwrap();
    book.add_order(&mut order("a3", "carol", 103, 5, OrderSide::Sell)).unwrap();
    book.add_order(&mut order("a4", "dave", 105, 4, OrderSide::Sell)).unwrap();

    let mut buy = order("b1", "alice", 104, 14, OrderSide::Buy);
    let (fills, executed) = book.add_order(&mut buy).unwrap();
    assert_eq!(executed, 14);
    assert_eq!(buy.filled, 14);
    assert_eq!(fills.len(), 3);
    assert_eq!((fills[0].price, fills[0].qty, fills[0].marker_order_id.as_str()), (103, 7, "a2"));
    assert_eq!((fills[1].price, fills[1].qty, fills[1].marker_order_id.as_str()), (103, 5, "a3"));
    assert_eq!(fills[1].other_user_id, "carol");
    assert_eq!((fills[2].price, fills[2].qty, fills[2].marker_order_id.as_str()), (104, 2, "a1"));
    assert_eq!(
        fills.iter().map(|f| f.trade_id).collect::<Vec<i64>>(),
        vec![1, 2, 3]
    );
    // level 103 traded out and is gone; a1 keeps 1 open at 104
    assert_eq!(book.asks.len(), 2);
    assert!(!book.asks.contains_key(&103));
    assert_eq!(book.asks[&104][0].filled, 2);
    assert_eq!(book.bids.len(), 0);

    let depth = book.get_depth();
    assert_eq!(
        depth.asks,
        vec![("104".to_string(), "1".to_string()), ("105".to_string(), "4".to_string())]
    );
    assert!(depth.bids.is_empty());
}

#[test]
fn buy_beyond_limit_rests_with_remainder() {
    let mut book = Orderbook::new("M".to_string());
    book.add_order(&mut order("a1", "bob", 101, 2, OrderSide::Sell)).unwrap();
    book.add_order(&mut order("a2", "bob", 110, 2, OrderSide::Sell)).unwrap();
    let mut buy = order("b1", "alice", 105, 5, OrderSide::Buy);
    let (fills, executed) = book.add_order(&mut buy).unwrap();
    assert_eq!(executed, 2);
    assert_eq!(fills.len(), 1);
    assert_eq!(buy.filled, 2);
    assert_eq!(book.bids.len(), 1);
    assert_eq!(book.bids[&105][0].filled, 2);
    assert_eq!(book.asks.len(), 1);
    assert!(book.asks.contains_key(&110));
    // later trade ids continue after the first fill
    let mut sell = order("s1", "carol", 100, 1, OrderSide::Sell);
    let (fills, _) = book.add_order(&mut sell).unwrap();
    assert_eq!(fills[0].trade_id, 2);
    assert_eq!(fills[0].price, 105);
    assert_eq!(fills[0].other_user_id, "alice");
}

#[test]
fn depth_aggregates_levels_best_first() {
    let mut book = Orderbook::new("M".to_string());
    book.add_order(&mut order("b1", "u1", 99, 4, OrderSide::Buy)).unwrap();
    book.add_order(&mut order("b2", "u2", 102, 1, OrderSide::Buy)).unwrap();
    book.add_order(&mut order("b3", "u3", 99, 6, OrderSide::Buy)).unwrap();
    book.add_order(&mut order("a1", "u1", 120, 3, OrderSide::Sell)).unwrap();
    book.add_order(&mut order("a2", "u2", 110, 8, OrderSide::Sell)).unwrap();
    let depth = book.get_depth();
    assert_eq!(
        depth.bids,
        vec![("102".to_string(), "1".to_string()), ("99".to_string(), "10".to_string())]
    );
    assert_eq!(
        depth.asks,
        vec![("110".to_string(), "8".to_string()), ("120".to_string(), "3".to_string())]
    );
}

#[test]
fn open_orders_lists_bids_then_asks() {
    let mut book = Orderbook::new("M".to_string());
    book.add_order(&mut order("b1", "alice", 99, 4, OrderSide::Buy)).unwrap();
    book.add_order(&mut order("b2", "bob", 98, 4, OrderSide::Buy)).unwrap();
    book.add_order(&mut order("b3", "alice", 97, 4, OrderSide::Buy)).unwrap();
    book.add_order(&mut order("a1", "alice", 150, 2, OrderSide::Sell)).unwrap();
    let open = book.get_open_orders("alice");
    let ids: Vec<&str> = open.iter().map(|o| o.order_id.as_str()).collect();
    assert_eq!(ids, vec!["b3", "b1", "a1"]);
    assert!(book.get_open_orders("nobody").is_empty());
}

#[test]
fn cancel_removes_the_order_and_drops_an_emptied_level() {
    let mut book = Orderbook::new("M".to_string());
    book.add_order(&mut order("b1", "alice", 99, 4, OrderSide::Buy)).unwrap();
    book.add_order(&mut order("b2", "dave", 99, 1, OrderSide::Buy)).unwrap();
    book.add_order(&mut order("a1", "bob", 120, 2, OrderSide::Sell)).unwrap();
    assert_eq!(book.cancel_bid("b1"), Ok(99));
    assert_eq!(book.bids.len(), 1);
    assert_eq!(book.bids[&99].len(), 1);
    assert_eq!(book.cancel_bid("b1"), Err("Order not found".to_string()));
    assert_eq!(book.cancel_ask("b1"), Err("Order not found".to_string()));
    assert_eq!(book.cancel_bid("b2"), Ok(99));
    assert_eq!(book.bids.len(), 0);
    assert_eq!(book.cancel_ask("a1"), Ok(120));
    assert_eq!(book.asks.len(), 0);
    assert!(book.get_depth().asks.is_empty());
    assert!(book.get_depth().bids.is_empty());
}

#[test]
fn cancelled_only_bid_leaves_no_level() {
    let mut ob = Orderbook::new("TEST".to_string());
    let mut o = Order {
        order_id: "abc".to_string(),
        user_id: "alice".to_string(),
        price: 100,
        quantity: 10,
        filled: 0,
        side: OrderSide::Buy,
    };
    ob.add_order(&mut o).unwrap();
    assert_eq!(ob.bids.len(), 1);
    ob.cancel_bid("abc").unwrap();
    assert_eq!(ob.bids.len(), 0);
}

#[test]
fn snapshot_copies_the_book() {
    let mut book = Orderbook::new("M".to_string());
    book.add_order(&mut order("b1", "alice", 99, 4, OrderSide::Buy)).unwrap();
    let copy = book.get_snapshot();
    assert_eq!(copy.ticker(), "M");
    assert_eq!(copy.bids.len(), 1);
    assert_eq!(copy.bids[&99][0].order_id, "b1");
    assert_eq!(copy.asks.len(), 0);
}

#[test]
fn fill_count_headroom() {
    let book = Orderbook::new("M".to_string());
    assert!(book.can_number_fills(5));
    assert!(book.can_number_fills(i64::MAX as u64));
    assert!(!book.can_number_fills(i64::MAX as u64 + 1));
}

#[test]
fn cancel_undoes_a_resting_order() {
    let mut book = Orderbook::new("M".to_string());
    book.add_order(&mut order("b1", "alice", 99, 4, OrderSide::Buy)).unwrap();
    book.add_order(&mut order("a1", "bob", 105, 2, OrderSide::Sell)).unwrap();
    let before: Vec<String> = book.get_open_orders("alice").iter().map(|o| o.order_id.clone()).collect();
    let mut resting = order("b2", "alice", 101, 3, OrderSide::Buy);
    let (fills, executed) = book.add_order(&mut resting).unwrap();
    assert!(fills.is_empty());
    assert_eq!(executed, 0);
    assert_eq!(book.cancel_bid("b2"), Ok(101));
    let after: Vec<String> = book.get_open_orders("alice").iter().map(|o| o.order_id.clone()).collect();
    assert_eq!(before, after);
    assert!(book.bids.get(&101).is_none());
    assert_eq!(book.bids.get(&99).map(|l| l.len()), Some(1));
    assert_eq!(book.cancel_bid("b2"), Err("Order not found".to_string()));
}

#[test]
fn makers_give_what_the_taker_gets() {
    let mut book = Orderbook::new("M".to_string());
    book.add_order(&mut order("a1", "bob", 100, 3, OrderSide::Sell)).unwrap();
    book.add_order(&mut order("a2", "carol", 101, 2, OrderSide::Sell)).unwrap();
    let total = |b: &Orderbook| -> u64 { b.get_depth().asks.iter().map(|(_, q)| q.parse::<u64>().unwrap()).sum() };
    let before = total(&book);
    let (fills, executed) = book.add_order(&mut order("b1", "alice", 101, 4, OrderSide::Buy)).unwrap();
    assert_eq!(executed, 4);
    assert_eq!(fills.iter().map(|f| f.qty).sum::<u64>(), 4);
    assert_eq!(before, 5);
    assert_eq!(total(&book), before - executed);
    assert_eq!(book.get_depth().asks, vec![("101".to_string(), "1".to_string())]);
}

#[test]
fn snapshot_is_independent_of_the_book() {
    let mut book = Orderbook::new("M".to_string());
    book.add_order(&mut order("b1", "alice", 99, 4, OrderSide::Buy)).unwrap();
    let mut copy = book.get_snapshot();
    assert_eq!(copy.cancel_bid("b1"), Ok(99));
    assert_eq!(book.get_open_orders("alice").len(), 1);
    book.add_order(&mut order("a1", "bob", 120, 2, OrderSide::Sell)).unwrap();
    assert!(copy.asks.is_empty());
    assert_eq!(copy.ticker(), book.ticker());
}

#[test]
fn trade_ids_grow_across_matches() {
    let mut book = Orderbook::new("M".to_string());
    book.add_order(&mut order("a1", "bob", 100, 2, OrderSide::Sell)).unwrap();
    book.add_order(&mut order("a2", "carol", 100, 2, OrderSide::Sell)).unwrap();
    let (first, _) = book.add_order(&mut order("b1", "alice", 100, 3, OrderSide::Buy)).unwrap();
    let (second, _) = book.add_order(&mut order("b2", "dave", 100, 1, OrderSide::Buy)).unwrap();
    let ids: Vec<i64> = first.iter().chain(second.iter()).map(|f| f.trade_id).collect();
    assert_eq!(ids, vec![1, 2, 3]);
}

#[test]
fn buy_on_an_empty_book_leaves_the_asks_empty() {
    let mut book = Orderbook::new("M".to_string());
    let (fills, executed) = book.add_order(&mut order("b1", "alice", 100, 3, OrderSide::Buy)).unwrap();
    assert!(fills.is_empty());
    assert_eq!(executed, 0);
    assert!(book.asks.is_empty());
    assert_eq!(book.ticker(), "M");
}
