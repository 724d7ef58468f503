use matching_engine::account_book::AccountBook;
use matching_engine::dec::Dec;
use matching_engine::enums::{OrderSide, OrderStatus, OrderType};
use matching_engine::message::{MessageType, Outbox};
use matching_engine::order::{Order, Timestamp};
use matching_engine::order_book::OrderBook;
use matching_engine::product_book::{Product, ProductBook};

fn ob_dec(m: i128, s: u32) -> Dec {
    Dec::new(m, s)
}

fn ob_norm(d: Dec) -> (i128, u32) {
    let mut m = d.mantissa;
    let mut s = d.scale;
    while s > 0 && m % 10 == 0 {
        m /= 10;
        s -= 1;
    }
    (m, s)
}

fn ob_order(id: &str, user: &str, side: OrderSide, order_type: OrderType, size: Dec, price: Dec, funds: Dec) -> Order {
    Order {
        id: id.to_string(),
        sequence: 0,
        user_id: user.to_string(),
        order_type,
        side,
        remaining_size: size,
        price,
        remaining_funds: funds,
        size,
        funds,
        post_only: false,
        time: Timestamp { secs: 1, nanos: 0 },
        product_id: "ETH-USD".to_string(),
        status: OrderStatus::RECEIVED,
        client_oid: None,
    }
}

fn ob_world() -> (ProductBook, AccountBook, Outbox) {
    let mut products = ProductBook::new();
    let mut out = Outbox::new(0);
    products.put_product(
        &mut out,
        Product { id: "ETH-USD".to_string(), base_currency: "ETH".to_string(), quote_currency: "USD".to_string() },
    );
    let mut accounts = AccountBook::new();
    accounts.deposit(&mut out, "maker", "ETH", ob_dec(100, 0));
    accounts.deposit(&mut out, "taker", "USD", ob_dec(100, 0));
    (products, accounts, out)
}

#[test]
fn a_market_buy_with_funds_buys_what_they_pay_for() {
    let (products, mut accounts, mut out) = ob_world();
    let mut book = OrderBook::new("ETH-USD", 0, 0, 0);
    book.place_order(ob_order("a1", "maker", OrderSide::SELL, OrderType::LIMIT, ob_dec(10, 0), ob_dec(3, 0), ob_dec(0, 0)), &products, &mut accounts, &mut out);
    assert!(book.place_order_checked(
        ob_order("m1", "taker", OrderSide::BUY, OrderType::MARKET, ob_dec(5, 0), ob_dec(0, 0), ob_dec(10, 0)),
        &products,
        &mut accounts,
        &mut out
    ));
    // 10 / 3 rounded to 4 places is 3.3333, costing 9.9999; the order is cancelled with
    // size left and the rest of its funds is released
    let te = accounts.get_account("taker", "ETH").unwrap();
    assert_eq!(ob_norm(te.available), (33333, 4));
    let tu = accounts.get_account("taker", "USD").unwrap();
    assert_eq!(ob_norm(tu.available), (900001, 4));
    assert_eq!(ob_norm(tu.hold), (0, 0));
    assert_eq!(ob_norm(book.asks()[0].orders[0].remaining_size), (66667, 4));
}

#[test]
fn levels_are_kept_by_price_and_time() {
    let (products, mut accounts, mut out) = ob_world();
    let mut book = OrderBook::new("ETH-USD", 0, 0, 0);
    book.place_order(ob_order("a1", "maker", OrderSide::SELL, OrderType::LIMIT, ob_dec(1, 0), ob_dec(5, 0), ob_dec(0, 0)), &products, &mut accounts, &mut out);
    book.place_order(ob_order("a2", "maker", OrderSide::SELL, OrderType::LIMIT, ob_dec(1, 0), ob_dec(4, 0), ob_dec(0, 0)), &products, &mut accounts, &mut out);
    book.place_order(ob_order("a3", "maker", OrderSide::SELL, OrderType::LIMIT, ob_dec(1, 0), ob_dec(5, 0), ob_dec(0, 0)), &products, &mut accounts, &mut out);
    let asks = book.asks();
    assert_eq!(asks.len(), 2);
    assert_eq!(ob_norm(asks[0].price), (4, 0));
    assert_eq!(ob_norm(asks[1].price), (5, 0));
    assert_eq!(asks[1].orders[0].id, "a1");
    assert_eq!(asks[1].orders[1].id, "a3");
    assert_eq!(asks[1].orders[1].sequence, 3);

    // a buy at 5 for 2 takes the 4 and then the earlier order at 5
    book.place_order(ob_order("b1", "taker", OrderSide::BUY, OrderType::LIMIT, ob_dec(2, 0), ob_dec(5, 0), ob_dec(10, 0)), &products, &mut accounts, &mut out);
    let asks = book.asks();
    assert_eq!(asks.len(), 1);
    assert_eq!(asks[0].orders.len(), 1);
    assert_eq!(asks[0].orders[0].id, "a3");
    assert!(book.bids().is_empty());
    let tu = accounts.get_account("taker", "USD").unwrap();
    assert_eq!(ob_norm(tu.available), (91, 0));
    let trades = out
        .messages
        .iter()
        .filter(|m| matches!(m.message_type, MessageType::Trade(_)))
        .count();
    assert_eq!(trades, 2);
}

#[test]
fn a_book_stays_uncrossed_after_a_partial_fill() {
    let (products, mut accounts, mut out) = ob_world();
    let mut book = OrderBook::new("ETH-USD", 0, 0, 0);
    book.place_order(ob_order("a1", "maker", OrderSide::SELL, OrderType::LIMIT, ob_dec(1, 0), ob_dec(5, 0), ob_dec(0, 0)), &products, &mut accounts, &mut out);
    book.place_order(ob_order("b1", "taker", OrderSide::BUY, OrderType::LIMIT, ob_dec(3, 0), ob_dec(6, 0), ob_dec(18, 0)), &products, &mut accounts, &mut out);
    assert!(book.asks().is_empty());
    assert_eq!(book.bids().len(), 1);
    assert_eq!(ob_norm(book.bids()[0].price), (6, 0));
    assert_eq!(ob_norm(book.bids()[0].orders[0].remaining_size), (2, 0));
    assert_eq!(book.bids()[0].orders[0].status, OrderStatus::OPEN);
}

#[test]
fn cancelling_an_unknown_order_changes_nothing() {
    let (products, mut accounts, mut out) = ob_world();
    let mut book = OrderBook::new("ETH-USD", 0, 0, 0);
    let before = out.sequence;
    book.cancel_order(&"nope".to_string(), &products, &mut accounts, &mut out);
    assert_eq!(out.sequence, before);
    assert_eq!(book.sequences(), (0, 0, 0));
}

#[test]
fn an_unknown_product_leaves_the_book_alone() {
    let (_, mut accounts, mut out) = ob_world();
    let products = ProductBook::new();
    let mut book = OrderBook::new("ETH-USD", 0, 0, 0);
    book.place_order(ob_order("a1", "maker", OrderSide::SELL, OrderType::LIMIT, ob_dec(1, 0), ob_dec(5, 0), ob_dec(0, 0)), &products, &mut accounts, &mut out);
    assert!(book.asks().is_empty());
    assert_eq!(book.sequences(), (0, 0, 0));
}

#[test]
fn cancelling_an_added_order_gives_the_levels_back() {
    let (products, mut accounts, mut out) = ob_world();
    let mut book = OrderBook::new("ETH-USD", 0, 0, 0);
    book.add_order(ob_order("r1", "maker", OrderSide::SELL, OrderType::LIMIT, ob_dec(1, 0), ob_dec(7, 0), ob_dec(0, 0)));
    book.add_order(ob_order("r2", "maker", OrderSide::SELL, OrderType::LIMIT, ob_dec(2, 0), ob_dec(7, 0), ob_dec(0, 0)));
    assert_eq!(book.asks()[0].orders.len(), 2);
    book.cancel_order(&"r2".to_string(), &products, &mut accounts, &mut out);
    assert_eq!(book.asks().len(), 1);
    assert_eq!(book.asks()[0].orders.len(), 1);
    assert_eq!(book.asks()[0].orders[0].id, "r1");
    book.cancel_order(&"r1".to_string(), &products, &mut accounts, &mut out);
    assert!(book.asks().is_empty());
}

#[test]
fn a_market_order_never_rests() {
    let (products, mut accounts, mut out) = ob_world();
    let mut book = OrderBook::new("ETH-USD", 0, 0, 0);
    // nothing to match: the market buy is cancelled rather than left in the book
    book.place_order(ob_order("m1", "taker", OrderSide::BUY, OrderType::MARKET, ob_dec(5, 0), ob_dec(0, 0), ob_dec(10, 0)), &products, &mut accounts, &mut out);
    assert!(book.bids().is_empty());
    assert!(book.asks().is_empty());
    let tu = accounts.get_account("taker", "USD").unwrap();
    assert_eq!(ob_norm(tu.hold), (0, 0));
    assert_eq!(ob_norm(tu.available), (100, 0));
}

#[test]
fn resting_orders_sit_at_their_level_price_and_side() {
    let (products, mut accounts, mut out) = ob_world();
    let mut book = OrderBook::new("ETH-USD", 0, 0, 0);
    book.place_order(ob_order("a1", "maker", OrderSide::SELL, OrderType::LIMIT, ob_dec(2, 0), ob_dec(30, 1), ob_dec(0, 0)), &products, &mut accounts, &mut out);
    book.place_order(ob_order("a2", "maker", OrderSide::SELL, OrderType::LIMIT, ob_dec(1, 0), ob_dec(3, 0), ob_dec(0, 0)), &products, &mut accounts, &mut out);
    assert_eq!(book.asks().len(), 1);
    for o in &book.asks()[0].orders {
        assert_eq!(ob_norm(o.price), ob_norm(book.asks()[0].price));
        assert_eq!(o.side, OrderSide::SELL);
        assert!(o.status != OrderStatus::FILLED);
    }
}

#[test]
fn a_limit_buy_below_the_best_ask_makes_no_trade() {
    let (products, mut accounts, mut out) = ob_world();
    let mut book = OrderBook::new("ETH-USD", 0, 0, 0);
    book.place_order(ob_order("a1", "maker", OrderSide::SELL, OrderType::LIMIT, ob_dec(1, 0), ob_dec(10, 0), ob_dec(0, 0)), &products, &mut accounts, &mut out);
    book.place_order(ob_order("b1", "taker", OrderSide::BUY, OrderType::LIMIT, ob_dec(1, 0), ob_dec(9, 0), ob_dec(9, 0)), &products, &mut accounts, &mut out);
    assert!(!out.messages.iter().any(|m| matches!(m.message_type, MessageType::Trade(_))));
    assert_eq!(book.asks().len(), 1);
    assert_eq!(book.bids().len(), 1);
    assert_eq!(ob_norm(book.bids()[0].price), (9, 0));
}

#[test]
fn the_fills_add_up_to_what_the_taker_lost() {
    let (products, mut accounts, mut out) = ob_world();
    let mut book = OrderBook::new("ETH-USD", 0, 0, 0);
    book.place_order(ob_order("a1", "maker", OrderSide::SELL, OrderType::LIMIT, ob_dec(1, 0), ob_dec(10, 0), ob_dec(0, 0)), &products, &mut accounts, &mut out);
    book.place_order(ob_order("a2", "maker", OrderSide::SELL, OrderType::LIMIT, ob_dec(1, 0), ob_dec(11, 0), ob_dec(0, 0)), &products, &mut accounts, &mut out);
    let start = out.messages.len();
    book.place_order(ob_order("b1", "taker", OrderSide::BUY, OrderType::LIMIT, ob_dec(3, 0), ob_dec(12, 0), ob_dec(36, 0)), &products, &mut accounts, &mut out);
    let mut traded: i128 = 0;
    for m in &out.messages[start..] {
        if let MessageType::Trade(t) = &m.message_type {
            let (m, sc) = ob_norm(t.size);
            assert_eq!(sc, 0);
            traded += m;
        }
    }
    assert_eq!(traded, 2);
    match &out.messages[out.messages.len() - 1].message_type {
        MessageType::Order(o) => {
            assert_eq!(o.order.id, "b1");
            assert_eq!(ob_norm(o.order.remaining_size), (1, 0));
            assert_eq!(o.order.status, OrderStatus::OPEN);
        }
        _ => panic!("the placement ends with the taker's order"),
    }
}
