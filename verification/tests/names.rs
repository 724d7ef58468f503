use matching_engine::enums::{eq_ignore_case, OrderSide, OrderStatus, OrderType};

#[test]
fn sides_and_types_read_in_any_case() {
    assert_eq!(OrderSide::parse("buy"), Some(OrderSide::BUY));
    assert_eq!(OrderSide::parse("SeLL"), Some(OrderSide::SELL));
    assert_eq!(OrderSide::parse("bye"), None);
    assert_eq!(OrderType::parse("limit"), Some(OrderType::LIMIT));
    assert_eq!(OrderType::parse("MARKET"), Some(OrderType::MARKET));
    assert_eq!(OrderType::parse("stop"), None);
    assert!(eq_ignore_case("oPeN", "OPEN"));
    assert!(!eq_ignore_case("OPENED", "OPEN"));
}

#[test]
fn names_read_back_as_themselves() {
    for s in [OrderSide::BUY, OrderSide::SELL] {
        assert_eq!(OrderSide::parse(s.as_str()), Some(s));
    }
    for t in [OrderType::LIMIT, OrderType::MARKET] {
        assert_eq!(OrderType::parse(t.as_str()), Some(t));
    }
    assert_eq!(OrderStatus::CANCELLED.as_str(), "CANCELLED");
    assert_eq!(OrderStatus::RECEIVED.as_str(), "RECEIVED");
}
