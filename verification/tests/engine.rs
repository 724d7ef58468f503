use matching_engine::command::{CancelOrderCommand, Command, DepositCommand, PlaceOrderCommand, PutProductCommand};
use matching_engine::dec::Dec;
use matching_engine::engine::{command_amounts_valid, MatchingEngine};
use matching_engine::enums::{OrderSide, OrderStatus, OrderType};
use matching_engine::message::MessageType;
use matching_engine::order::Timestamp;

fn eng_dec(m: i128, s: u32) -> Dec {
    Dec::new(m, s)
}

fn eng_norm(d: Dec) -> (i128, u32) {
    let mut m = d.mantissa;
    let mut s = d.scale;
    while s > 0 && m % 10 == 0 {
        m /= 10;
        s -= 1;
    }
    (m, s)
}

fn eng_order(id: &str, user: &str, side: OrderSide, order_type: OrderType, size: Dec, price: Dec, funds: Dec) -> Command {
    Command::PlaceOrder(PlaceOrderCommand {
        product_id: "BTC-USD".to_string(),
        order_id: id.to_string(),
        user_id: user.to_string(),
        size,
        price,
        funds,
        order_type,
        order_side: side,
        time: Timestamp { secs: 1_700_000_000, nanos: 0 },
    })
}

fn eng_setup() -> MatchingEngine {
    let mut e = MatchingEngine::new();
    e.execute_command(
        Command::PutProduct(PutProductCommand {
            product_id: "BTC-USD".to_string(),
            base_currency: "BTC".to_string(),
            quote_currency: "USD".to_string(),
        }),
        1,
    );
    e.execute_command(
        Command::Deposit(DepositCommand {
            user_id: "seller".to_string(),
            currency: "BTC".to_string(),
            amount: eng_dec(10, 0),
            transaction_id: "t1".to_string(),
        }),
        2,
    );
    e.execute_command(
        Command::Deposit(DepositCommand {
            user_id: "buyer".to_string(),
            currency: "USD".to_string(),
            amount: eng_dec(1000, 0),
            transaction_id: "t2".to_string(),
        }),
        3,
    );
    e
}

#[test]
fn a_crossing_limit_buy_trades_at_the_resting_price() {
    let mut e = eng_setup();
    e.execute_command(eng_order("o1", "seller", OrderSide::SELL, OrderType::LIMIT, eng_dec(2, 0), eng_dec(100, 0), eng_dec(0, 0)), 4);
    assert!(e.execute_command_checked(
        eng_order("o2", "buyer", OrderSide::BUY, OrderType::LIMIT, eng_dec(1, 0), eng_dec(101, 0), eng_dec(0, 0)),
        5
    ));
    let bu = e.account("buyer", "USD").unwrap();
    assert_eq!(eng_norm(bu.available), (900, 0));
    assert_eq!(eng_norm(bu.hold), (0, 0));
    let bb = e.account("buyer", "BTC").unwrap();
    assert_eq!(eng_norm(bb.available), (1, 0));
    let sb = e.account("seller", "BTC").unwrap();
    assert_eq!(eng_norm(sb.available), (8, 0));
    assert_eq!(eng_norm(sb.hold), (1, 0));
    let su = e.account("seller", "USD").unwrap();
    assert_eq!(eng_norm(su.available), (100, 0));

    let book = e.order_book(&"BTC-USD".to_string()).unwrap();
    assert_eq!(book.asks().len(), 1);
    assert!(book.bids().is_empty());
    assert_eq!(eng_norm(book.asks()[0].price), (100, 0));
    assert_eq!(book.asks()[0].orders.len(), 1);
    assert_eq!(eng_norm(book.asks()[0].orders[0].remaining_size), (1, 0));
    assert_eq!(book.asks()[0].orders[0].status, OrderStatus::OPEN);
    assert_eq!(book.sequences(), (2, 1, 2));

    let msgs = e.take_messages();
    for (i, m) in msgs.iter().enumerate() {
        assert_eq!(m.sequence, (i + 1) as u64);
    }
    let trades: Vec<_> = msgs
        .iter()
        .filter_map(|m| match &m.message_type {
            MessageType::Trade(t) => Some(t),
            _ => None,
        })
        .collect();
    assert_eq!(trades.len(), 1);
    assert_eq!(eng_norm(trades[0].size), (1, 0));
    assert_eq!(eng_norm(trades[0].price), (100, 0));
    assert_eq!(eng_norm(trades[0].funds), (100, 0));
    assert_eq!(trades[0].side, OrderSide::SELL);
    assert_eq!(trades[0].taker_order_id, "o2");
    assert_eq!(trades[0].maker_order_id, "o1");
    assert!(matches!(msgs[0].message_type, MessageType::CommandStart(1)));
    assert!(matches!(msgs[msgs.len() - 1].message_type, MessageType::CommandEnd(5)));
}

#[test]
fn a_limit_order_without_a_match_rests_and_can_be_cancelled() {
    let mut e = eng_setup();
    e.execute_command(eng_order("b1", "buyer", OrderSide::BUY, OrderType::LIMIT, eng_dec(2, 0), eng_dec(50, 0), eng_dec(0, 0)), 4);
    {
        let bu = e.account("buyer", "USD").unwrap();
        assert_eq!(eng_norm(bu.available), (900, 0));
        assert_eq!(eng_norm(bu.hold), (100, 0));
        let book = e.order_book(&"BTC-USD".to_string()).unwrap();
        assert_eq!(book.bids().len(), 1);
    }
    e.execute_command(
        Command::CancelOrder(CancelOrderCommand { product_id: "BTC-USD".to_string(), order_id: "b1".to_string() }),
        5,
    );
    let bu = e.account("buyer", "USD").unwrap();
    assert_eq!(eng_norm(bu.available), (1000, 0));
    assert_eq!(eng_norm(bu.hold), (0, 0));
    let book = e.order_book(&"BTC-USD".to_string()).unwrap();
    assert!(book.bids().is_empty());
    let msgs = e.take_messages();
    let last_order = msgs
        .iter()
        .rev()
        .find_map(|m| match &m.message_type {
            MessageType::Order(om) => Some(om),
            _ => None,
        })
        .unwrap();
    assert_eq!(last_order.order.status, OrderStatus::CANCELLED);
}

#[test]
fn an_order_beyond_the_balance_is_rejected() {
    let mut e = eng_setup();
    e.execute_command(eng_order("b2", "buyer", OrderSide::BUY, OrderType::LIMIT, eng_dec(20, 0), eng_dec(100, 0), eng_dec(0, 0)), 4);
    let book = e.order_book(&"BTC-USD".to_string()).unwrap();
    assert!(book.bids().is_empty());
    let msgs = e.take_messages();
    let last_order = msgs
        .iter()
        .rev()
        .find_map(|m| match &m.message_type {
            MessageType::Order(om) => Some(om),
            _ => None,
        })
        .unwrap();
    assert_eq!(last_order.order.status, OrderStatus::REJECTED);
}

#[test]
fn a_market_sell_fills_against_the_best_bid() {
    let mut e = eng_setup();
    e.execute_command(eng_order("b1", "buyer", OrderSide::BUY, OrderType::LIMIT, eng_dec(2, 0), eng_dec(50, 0), eng_dec(0, 0)), 4);
    e.execute_command(eng_order("s1", "seller", OrderSide::SELL, OrderType::MARKET, eng_dec(1, 0), eng_dec(0, 0), eng_dec(0, 0)), 5);
    let sb = e.account("seller", "BTC").unwrap();
    assert_eq!(eng_norm(sb.available), (9, 0));
    assert_eq!(eng_norm(sb.hold), (0, 0));
    let su = e.account("seller", "USD").unwrap();
    assert_eq!(eng_norm(su.available), (50, 0));
    let bu = e.account("buyer", "USD").unwrap();
    assert_eq!(eng_norm(bu.available), (900, 0));
    assert_eq!(eng_norm(bu.hold), (50, 0));
    let book = e.order_book(&"BTC-USD".to_string()).unwrap();
    assert_eq!(eng_norm(book.bids()[0].orders[0].remaining_size), (1, 0));
}

#[test]
fn a_market_buy_command_reserves_no_funds_and_is_rejected() {
    let mut e = eng_setup();
    e.execute_command(eng_order("s1", "seller", OrderSide::SELL, OrderType::LIMIT, eng_dec(10, 0), eng_dec(3, 0), eng_dec(0, 0)), 4);
    e.execute_command(eng_order("m1", "buyer", OrderSide::BUY, OrderType::MARKET, eng_dec(0, 0), eng_dec(0, 0), eng_dec(10, 0)), 5);
    let bu = e.account("buyer", "USD").unwrap();
    assert_eq!(eng_norm(bu.available), (1000, 0));
    let msgs = e.take_messages();
    let last_order = msgs
        .iter()
        .rev()
        .find_map(|m| match &m.message_type {
            MessageType::Order(om) => Some(om),
            _ => None,
        })
        .unwrap();
    assert_eq!(last_order.order.status, OrderStatus::REJECTED);
}

#[test]
fn orders_for_an_unknown_product_change_nothing_but_the_markers() {
    let mut e = MatchingEngine::new();
    e.execute_command(eng_order("z", "u", OrderSide::BUY, OrderType::LIMIT, eng_dec(1, 0), eng_dec(1, 0), eng_dec(0, 0)), 9);
    assert!(e.order_book(&"BTC-USD".to_string()).is_none());
    let msgs = e.take_messages();
    assert_eq!(msgs.len(), 2);
}

#[test]
fn commands_up_to_the_restored_offset_are_not_new() {
    let mut e = MatchingEngine::new();
    assert!(e.is_new_command(0));
    e.startup_command_offset = Some(10);
    assert!(!e.is_new_command(10));
    assert!(!e.is_new_command(3));
    assert!(e.is_new_command(11));
}

#[test]
fn command_amounts_are_checked_as_decimals() {
    let ok = Command::Deposit(DepositCommand { user_id: "u".to_string(), currency: "USD".to_string(), amount: Dec::new(5, 28), transaction_id: "t1".to_string() });
    assert!(command_amounts_valid(&ok));
    let bad_scale = Command::Deposit(DepositCommand { user_id: "u".to_string(), currency: "USD".to_string(), amount: Dec::new(5, 29), transaction_id: "t2".to_string() });
    assert!(!command_amounts_valid(&bad_scale));
    let bad_digits = Command::Deposit(DepositCommand { user_id: "u".to_string(), currency: "USD".to_string(), amount: Dec::new(1i128 << 96, 0), transaction_id: "t3".to_string() });
    assert!(!command_amounts_valid(&bad_digits));
    assert!(Dec::new(-((1i128 << 96) - 1), 0).is_wf());
}

#[test]
fn each_command_is_framed_by_its_markers_without_gaps() {
    let mut e = eng_setup();
    let before = e.take_messages();
    let last = before.last().unwrap().sequence;
    assert!(e.execute_command_checked(
        eng_order("o9", "seller", OrderSide::SELL, OrderType::LIMIT, eng_dec(1, 0), eng_dec(100, 0), eng_dec(0, 0)),
        8
    ));
    let msgs = e.take_messages();
    assert!(msgs.len() >= 2);
    assert!(matches!(msgs[0].message_type, MessageType::CommandStart(8)));
    assert!(matches!(msgs[msgs.len() - 1].message_type, MessageType::CommandEnd(8)));
    for (i, m) in msgs.iter().enumerate() {
        assert_eq!(m.sequence, last + 1 + i as u64);
    }
}
