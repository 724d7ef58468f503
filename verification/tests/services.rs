use matching_engine::account_book::Account;
use matching_engine::auth::{bearer_token, JWTAuth};
use matching_engine::config::{get, lookup, parse_port, AppConfig, ConfigError};
use matching_engine::controller::ApiError;
use matching_engine::dec::Dec;
use matching_engine::enums::{OrderSide, OrderStatus, OrderType};
use matching_engine::feed::{account_channel, handle_request, market_channel, order_channel, AuthParams, Request};
use matching_engine::message::{MessageType, OrderMessage};
use matching_engine::order::{Order, Timestamp, Trade};
use matching_engine::records::{to_decimal, AccountRecord, OrderRecord, TradeRecord};
use matching_engine::session::{SessionManager, SubRequest};

fn svc_dec(m: i128, s: u32) -> Dec {
    Dec::new(m, s)
}

fn svc_order() -> Order {
    Order {
        id: "o1".to_string(),
        sequence: 7,
        user_id: "u1".to_string(),
        order_type: OrderType::LIMIT,
        side: OrderSide::SELL,
        remaining_size: svc_dec(25, 1),
        price: svc_dec(10, 0),
        remaining_funds: svc_dec(0, 0),
        size: svc_dec(4, 0),
        funds: svc_dec(0, 0),
        post_only: false,
        time: Timestamp { secs: 10, nanos: 0 },
        product_id: "BTC-USD".to_string(),
        status: OrderStatus::OPEN,
        client_oid: None,
    }
}

fn svc_vars(pairs: &[(&str, &str)]) -> Vec<(String, String)> {
    pairs.iter().map(|(k, v)| (k.to_string(), v.to_string())).collect()
}

#[test]
fn numbers_are_spelled_in_decimal() {
    assert_eq!(to_decimal(0), "0");
    assert_eq!(to_decimal(7), "7");
    assert_eq!(to_decimal(1234), "1234");
    assert_eq!(to_decimal(u64::MAX), "18446744073709551615");
}

#[test]
fn records_take_their_ids_and_fills() {
    let t = Trade {
        product_id: "BTC-USD".to_string(),
        sequence: 42,
        size: svc_dec(1, 0),
        funds: svc_dec(100, 0),
        price: svc_dec(100, 0),
        time: Timestamp { secs: 1, nanos: 0 },
        side: OrderSide::BUY,
        taker_order_id: "t".to_string(),
        maker_order_id: "m".to_string(),
    };
    assert_eq!(TradeRecord::from_trade(t).id, "BTC-USD-42");
    let a = Account {
        id: "x".to_string(),
        user_id: "u1".to_string(),
        currency: "USD".to_string(),
        available: svc_dec(1, 0),
        hold: svc_dec(2, 0),
    };
    let r = AccountRecord::from_account(a);
    assert_eq!(r.id, "u1-USD");
    assert_eq!(r.hold.mantissa, 2);
    let o = OrderRecord::from_order(svc_order());
    assert_eq!(o.filled_size.mantissa, 15);
    assert_eq!(o.filled_size.scale, 1);
    assert_eq!(o.executed_value.mantissa, 0);
    assert_eq!(o.client_oid, "");
    assert_eq!(o.sequence, 7);
    assert!(OrderRecord::try_from_order(svc_order()).is_some());
}

#[test]
fn ports_are_read_like_u16() {
    assert_eq!(parse_port("8080"), Some(8080));
    assert_eq!(parse_port("+80"), Some(80));
    assert_eq!(parse_port("007"), Some(7));
    assert_eq!(parse_port("65535"), Some(65535));
    assert_eq!(parse_port("65536"), None);
    assert_eq!(parse_port("100000"), None);
    assert_eq!(parse_port(""), None);
    assert_eq!(parse_port("+"), None);
    assert_eq!(parse_port("-1"), None);
    assert_eq!(parse_port("80a"), None);
    for p in ["0", "1", "443", "65535", "+65535"] {
        assert_eq!(parse_port(p), p.parse::<u16>().ok());
    }
}

#[test]
fn settings_come_from_the_variables() {
    let all = svc_vars(&[
        ("SERVER_PORT", "3000"),
        ("DATABASE_URL", "mongodb://db"),
        ("DATABASE_NAME", "exchange"),
        ("KAFKA_BOOTSTRAP_SERVER", "kafka:9092"),
        ("MATCHING_ENGINE_COMMAND_TOPIC", "cmd"),
        ("MATCHING_ENGINE_MESSAGE_TOPIC", "msg"),
    ]);
    let c: AppConfig = get(&all).unwrap();
    assert_eq!(c.server_port, 3000);
    assert_eq!(c.database_url, "mongodb://db");
    assert_eq!(c.message_topic, "msg");
    assert_eq!(lookup(&all, "DATABASE_NAME"), Some("exchange".to_string()));
    assert_eq!(lookup(&all, "NOPE"), None);

    let missing = svc_vars(&[("SERVER_PORT", "x")]);
    match AppConfig::load(&missing) {
        Err(ConfigError::Missing(k)) => assert_eq!(k, "DATABASE_URL"),
        other => panic!("unexpected {:?}", other),
    }
    let mut bad = all.clone();
    bad[0].1 = "port".to_string();
    match AppConfig::load(&bad) {
        Err(ConfigError::InvalidPort(t)) => assert_eq!(t, "port"),
        other => panic!("unexpected {:?}", other),
    }
    match AppConfig::load(&Vec::new()) {
        Err(ConfigError::Missing(k)) => assert_eq!(k, "SERVER_PORT"),
        other => panic!("unexpected {:?}", other),
    }
}

#[test]
fn bearer_tokens_are_taken_from_the_header() {
    assert_eq!(bearer_token(Some(&b"Bearer abc.def"[..])).unwrap(), b"abc.def".to_vec());
    assert_eq!(bearer_token(Some(&b"Bearer "[..])).unwrap(), Vec::<u8>::new());
    match bearer_token(None) {
        Err(ApiError::Unauthenticated(m)) => assert_eq!(m, "Authorization must be existed!"),
        other => panic!("unexpected {:?}", other),
    }
    match bearer_token(Some(&b"Basic abc"[..])) {
        Err(ApiError::Unauthenticated(m)) => assert_eq!(m, "Authorization must start with \"Bearer\"!"),
        other => panic!("unexpected {:?}", other),
    }
    match bearer_token(Some(&[66u8, 0x80][..])) {
        Err(ApiError::Unauthenticated(m)) => assert_eq!(m, "Authorization is not a valid string!"),
        other => panic!("unexpected {:?}", other),
    }
    let guard = JWTAuth::new(5u8);
    assert_eq!(*guard.jwt(), 5u8);
}

#[test]
fn sockets_subscribe_unsubscribe_and_ping() {
    let mut m = SessionManager::new();
    let sub = SubRequest {
        product_ids: vec!["BTC-USD".to_string()],
        channels: vec!["order".to_string(), "funds".to_string(), "ticker".to_string()],
        currency_ids: Some(vec!["USD".to_string()]),
    };
    assert_eq!(handle_request(&mut m, Request::Subscribe(sub), "u1", "s1"), None);
    assert_eq!(m.subscribers("u1.BTC-USD.order"), Some(vec!["s1".to_string()]));
    assert_eq!(m.subscribers("u1.USD.funds"), Some(vec!["s1".to_string()]));
    assert_eq!(m.subscribers("u1.BTC-USD.ticker"), None);
    assert_eq!(handle_request(&mut m, Request::Ping, "u1", "s1"), Some("{\"type\":\"pong\"}"));
    let unsub = SubRequest {
        product_ids: vec!["BTC-USD".to_string()],
        channels: vec!["order".to_string(), "funds".to_string()],
        currency_ids: Some(vec!["USD".to_string()]),
    };
    assert_eq!(handle_request(&mut m, Request::Unsubscribe(unsub), "u1", "s1"), None);
    assert_eq!(m.subscribers("u1.BTC-USD.order"), None);
    assert_eq!(m.subscribers("u1.USD.funds"), None);
}

#[test]
fn closed_sessions_leave_every_channel() {
    let mut m = SessionManager::new();
    let sub = SubRequest { product_ids: vec!["A-B".to_string()], channels: vec!["order".to_string()], currency_ids: None };
    m.sub_or_unsub(sub, "s1", "u", true);
    let sub2 = SubRequest { product_ids: vec!["A-B".to_string()], channels: vec!["order".to_string()], currency_ids: None };
    m.sub_or_unsub(sub2, "s2", "u", true);
    let mut ids = m.subscribers("u.A-B.order").unwrap();
    ids.sort();
    assert_eq!(ids, vec!["s1".to_string(), "s2".to_string()]);
    m.remove_session(&"s1".to_string());
    assert_eq!(m.subscribers("u.A-B.order"), Some(vec!["s2".to_string()]));
}

#[test]
fn feed_channels_and_tokens() {
    assert_eq!(order_channel(&svc_order()), "u1.BTC-USD.order");
    let a = Account {
        id: "x".to_string(),
        user_id: "u2".to_string(),
        currency: "ETH".to_string(),
        available: svc_dec(0, 0),
        hold: svc_dec(0, 0),
    };
    assert_eq!(account_channel(&a), "u2.ETH.funds");
    assert_eq!(AuthParams { access_token: Some("q".to_string()) }.token(Some("c".to_string())), Some("q".to_string()));
    assert_eq!(AuthParams { access_token: None }.token(Some("c".to_string())), Some("c".to_string()));
    assert_eq!(AuthParams { access_token: None }.token(None), None);
    let om = MessageType::Order(OrderMessage { order_book_sequence: 1, order: svc_order() });
    assert_eq!(market_channel(&om), Some("order"));
    assert_eq!(market_channel(&MessageType::CommandEnd(3)), None);
}

#[test]
fn subscribing_twice_is_subscribing_once_and_touches_no_other_session() {
    let mut m = SessionManager::new();
    let other = SubRequest { product_ids: vec!["A-B".to_string()], channels: vec!["order".to_string()], currency_ids: None };
    m.sub_or_unsub(other, "s2", "u", true);
    for _ in 0..2 {
        let sub = SubRequest { product_ids: vec!["A-B".to_string()], channels: vec!["order".to_string()], currency_ids: None };
        m.sub_or_unsub(sub, "s1", "u", true);
    }
    let mut ids = m.subscribers("u.A-B.order").unwrap();
    ids.sort();
    assert_eq!(ids, vec!["s1".to_string(), "s2".to_string()]);
    for _ in 0..2 {
        let unsub = SubRequest { product_ids: vec!["A-B".to_string()], channels: vec!["order".to_string()], currency_ids: None };
        m.sub_or_unsub(unsub, "s1", "u", false);
    }
    assert_eq!(m.subscribers("u.A-B.order"), Some(vec!["s2".to_string()]));
}
