use matching_engine::command::{Command, DepositCommand, PlaceOrderCommand, PutProductCommand};
use matching_engine::controller::{
    cancel_request, check_login, format_place_order_command, order_filter, page_skip, place_order_command,
    try_format_place_order_command, ApiError, ApiResponse, DepositParam, PlaceOrderError, PlaceOrderParam,
    PutProductParam,
};
use matching_engine::dec::Dec;
use matching_engine::enums::{OrderSide, OrderStatus, OrderType};
use matching_engine::order::Timestamp;
use matching_engine::records::{OrderRecord, ProductRecord, UserRecord};

fn api_dec(m: i128, s: u32) -> Dec {
    Dec::new(m, s)
}

fn api_norm(d: Dec) -> (i128, u32) {
    let mut m = d.mantissa;
    let mut s = d.scale;
    while s > 0 && m % 10 == 0 {
        m /= 10;
        s -= 1;
    }
    (m, s)
}

fn api_cmd(order_type: OrderType, side: OrderSide, size: Dec, price: Dec, funds: Dec) -> PlaceOrderCommand {
    PlaceOrderCommand {
        product_id: "BTC-USD".to_string(),
        order_id: "o".to_string(),
        user_id: "u".to_string(),
        size,
        price,
        funds,
        order_type,
        order_side: side,
        time: Timestamp { secs: 0, nanos: 0 },
    }
}

#[test]
fn api_response_constructors() {
    let r: ApiResponse<u32> = ApiResponse::ok("place order success", Some(3));
    assert!(r.success);
    assert_eq!(r.message, "place order success");
    assert_eq!(r.data, Some(3));
    let e: ApiResponse<u32> = ApiResponse::err("product not found");
    assert!(!e.success);
    assert_eq!(e.message, "product not found");
    assert_eq!(e.data, None);
    let n: ApiResponse<u32> = ApiResponse::new(true, "x".to_string(), None);
    assert!(n.success && n.data.is_none());
}

#[test]
fn api_errors_have_their_status_and_text() {
    assert_eq!(ApiError::NotFound.status_code(), 404);
    assert_eq!(ApiError::MethodNotAllowed.status_code(), 405);
    assert_eq!(ApiError::Json("bad".to_string()).status_code(), 400);
    assert_eq!(ApiError::Internal("boom".to_string()).status_code(), 500);
    assert_eq!(ApiError::Unauthenticated("no".to_string()).status_code(), 401);
    assert_eq!(ApiError::NotFound.message(), "page not found");
    assert_eq!(ApiError::MethodNotAllowed.message(), "request method not allowed");
    assert_eq!(ApiError::Internal("boom".to_string()).message(), "internal error: boom");
    assert_eq!(ApiError::Json("bad".to_string()).message(), "json error: bad");
    assert_eq!(ApiError::Unauthenticated("no".to_string()).message(), "Unauthenticated: no");
}

#[test]
fn a_placed_order_becomes_a_command() {
    let p = PlaceOrderParam {
        client_oid: "c".to_string(),
        product_id: "BTC-USD".to_string(),
        size: api_dec(1, 0),
        funds: api_dec(0, 0),
        price: api_dec(100, 0),
        side: "buy".to_string(),
        order_type: "Limit".to_string(),
        time_in_force: "GTC".to_string(),
    };
    let c = p.into_command("id-1".to_string(), Timestamp { secs: 5, nanos: 6 });
    assert_eq!(c.order_id, "id-1");
    assert_eq!(c.user_id, "");
    assert_eq!(c.order_side, OrderSide::BUY);
    assert_eq!(c.order_type, OrderType::LIMIT);
    assert_eq!(c.time, Timestamp { secs: 5, nanos: 6 });
}

#[test]
fn limit_orders_are_truncated_and_buys_reserve_size_times_price() {
    let mut c = api_cmd(OrderType::LIMIT, OrderSide::BUY, api_dec(123456789, 8), api_dec(100129, 3), api_dec(7, 0));
    format_place_order_command(&mut c, 6, 2);
    assert_eq!(api_norm(c.size), (1234567, 6));
    assert_eq!(api_norm(c.price), (10012, 2));
    assert_eq!(api_norm(c.funds), (12360484804, 8));
    let mut s = api_cmd(OrderType::LIMIT, OrderSide::SELL, api_dec(19, 1), api_dec(1005, 1), api_dec(7, 0));
    format_place_order_command(&mut s, 0, 0);
    assert_eq!(api_norm(s.size), (1, 0));
    assert_eq!(api_norm(s.price), (100, 0));
    assert_eq!(api_norm(s.funds), (0, 0));
}

#[test]
fn market_orders_keep_only_what_they_spend() {
    let mut b = api_cmd(OrderType::MARKET, OrderSide::BUY, api_dec(5, 0), api_dec(9, 0), api_dec(12345, 3));
    format_place_order_command(&mut b, 6, 2);
    assert_eq!(api_norm(b.size), (0, 0));
    assert_eq!(api_norm(b.price), (0, 0));
    assert_eq!(api_norm(b.funds), (1234, 2));
    let mut s = api_cmd(OrderType::MARKET, OrderSide::SELL, api_dec(-15, 1), api_dec(9, 0), api_dec(3, 0));
    format_place_order_command(&mut s, 0, 2);
    assert_eq!(api_norm(s.size), (-1, 0));
    assert_eq!(api_norm(s.funds), (0, 0));
}

#[test]
fn an_overflowing_limit_buy_is_left_as_it_was() {
    let big = api_dec(79228162514264337593543950335, 0);
    let mut c = api_cmd(OrderType::LIMIT, OrderSide::BUY, big, big, api_dec(1, 0));
    assert!(!try_format_place_order_command(&mut c, 6, 2));
    assert_eq!(c.size.mantissa, big.mantissa);
    let mut ok = api_cmd(OrderType::LIMIT, OrderSide::BUY, api_dec(2, 0), api_dec(3, 0), api_dec(0, 0));
    assert!(try_format_place_order_command(&mut ok, 6, 2));
    assert_eq!(api_norm(ok.funds), (6, 0));
}

#[test]
fn deposits_and_products_become_commands() {
    let d = DepositParam { user_id: "u".to_string(), currency: "USD".to_string(), amount: api_dec(5, 0) }.into_command("tx".to_string());
    assert_eq!(d.transaction_id, "tx");
    assert_eq!(d.currency, "USD");
    let p = PutProductParam { base_currency: "BTC".to_string(), quote_currency: "USD".to_string() };
    assert_eq!(p.product_id(), "BTC-USD");
    let c = p.command();
    assert_eq!(c.product_id, "BTC-USD");
    assert_eq!(c.base_currency, "BTC");
    let r = p.into_record();
    assert_eq!(r.id, "BTC-USD");
    assert_eq!(r.base_scale, 6);
    assert_eq!(r.quote_scale, 2);
    assert_eq!(api_norm(r.base_max_size), (100000000, 0));
    assert_eq!(api_norm(r.quote_max_size), (10000000000, 0));
    assert_eq!(api_norm(r.base_min_size), (0, 0));
}

#[test]
fn commands_are_keyed_by_their_ids() {
    let c = Command::Deposit(DepositCommand {
        user_id: "u".to_string(),
        currency: "USD".to_string(),
        amount: api_dec(1, 0),
        transaction_id: "tx-9".to_string(),
    });
    assert_eq!(c.key(), "tx-9");
    let p = Command::PutProduct(PutProductCommand {
        product_id: "ETH-USD".to_string(),
        base_currency: "ETH".to_string(),
        quote_currency: "USD".to_string(),
    });
    assert_eq!(p.key(), "ETH-USD");
    let o = Command::PlaceOrder(api_cmd(OrderType::LIMIT, OrderSide::BUY, api_dec(1, 0), api_dec(1, 0), api_dec(0, 0)));
    assert_eq!(o.key(), "o");
}

#[test]
fn order_listings_filter_and_page() {
    let f = order_filter("u1", Some("BTC-USD".to_string()), Some(OrderStatus::OPEN), None);
    assert_eq!(
        f,
        vec![
            ("userId".to_string(), "u1".to_string()),
            ("productId".to_string(), "BTC-USD".to_string()),
            ("status".to_string(), "OPEN".to_string()),
        ]
    );
    let g = order_filter("u2", None, None, Some(OrderSide::SELL));
    assert_eq!(g, vec![("userId".to_string(), "u2".to_string()), ("side".to_string(), "SELL".to_string())]);
    assert_eq!(page_skip(1, 20), 0);
    assert_eq!(page_skip(3, 20), 40);
}

#[test]
fn logins_need_the_user_and_the_password() {
    let user = UserRecord { id: "1".to_string(), email: "a@b".to_string(), password: "pw".to_string() };
    assert_eq!(check_login(None, "pw"), Err("User not found"));
    assert_eq!(check_login(Some(&user), "bad"), Err("Invalid email or password"));
    assert_eq!(check_login(Some(&user), "pw"), Ok(()));
}

fn api_record(user: &str) -> OrderRecord {
    OrderRecord {
        id: "o1".to_string(),
        sequence: 1,
        product_id: "BTC-USD".to_string(),
        user_id: user.to_string(),
        client_oid: String::new(),
        time: Timestamp { secs: 0, nanos: 0 },
        size: api_dec(1, 0),
        funds: api_dec(1, 0),
        filled_size: api_dec(0, 0),
        executed_value: api_dec(0, 0),
        price: api_dec(1, 0),
        fill_fees: api_dec(0, 0),
        order_type: OrderType::LIMIT,
        side: OrderSide::BUY,
        status: OrderStatus::OPEN,
    }
}

#[test]
fn only_the_owner_cancels_an_order() {
    let mine = api_record("me");
    let c = cancel_request("o1".to_string(), Some(&mine), "me").unwrap();
    assert_eq!(c.product_id, "BTC-USD");
    assert_eq!(c.order_id, "o1");
    assert_eq!(cancel_request("o1".to_string(), Some(&mine), "you").unwrap_err(), "Current user id is incorrect");
    assert_eq!(cancel_request("o9".to_string(), None, "me").unwrap_err(), "order not found: o9");
}

fn api_place_param(order_type: &str, side: &str) -> PlaceOrderParam {
    PlaceOrderParam {
        client_oid: "c".to_string(),
        product_id: "BTC-USD".to_string(),
        size: api_dec(123456789, 8),
        funds: api_dec(7, 0),
        price: api_dec(100129, 3),
        side: side.to_string(),
        order_type: order_type.to_string(),
        time_in_force: "GTC".to_string(),
    }
}

fn api_product() -> ProductRecord {
    ProductRecord {
        id: "BTC-USD".to_string(),
        base_currency: "BTC".to_string(),
        quote_currency: "USD".to_string(),
        base_min_size: api_dec(0, 0),
        base_max_size: api_dec(1000, 0),
        quote_min_size: api_dec(0, 0),
        quote_max_size: api_dec(1000000, 0),
        base_scale: 6,
        quote_scale: 2,
        display_order: 0,
    }
}

#[test]
fn a_request_for_an_unknown_product_is_refused() {
    let r = place_order_command(api_place_param("limit", "buy"), None, "u1".to_string(), "o1".to_string(), Timestamp { secs: 1, nanos: 0 });
    assert!(matches!(r, Err(PlaceOrderError::ProductNotFound)));
}

#[test]
fn a_request_becomes_the_users_formatted_command() {
    let product = api_product();
    let r = place_order_command(api_place_param("limit", "buy"), Some(&product), "u1".to_string(), "o1".to_string(), Timestamp { secs: 1, nanos: 0 });
    let c = r.unwrap();
    assert_eq!(c.user_id, "u1");
    assert_eq!(c.order_id, "o1");
    assert_eq!(c.product_id, "BTC-USD");
    assert_eq!(api_norm(c.size), (1234567, 6));
    assert_eq!(api_norm(c.price), (10012, 2));
    assert_eq!(api_norm(c.funds), (12360484804, 8));
    let m = place_order_command(api_place_param("market", "sell"), Some(&product), "u2".to_string(), "o2".to_string(), Timestamp { secs: 1, nanos: 0 }).unwrap();
    assert_eq!(m.user_id, "u2");
    assert_eq!(api_norm(m.price), (0, 0));
    assert_eq!(api_norm(m.size), (1234567, 6));
    assert_eq!(api_norm(m.funds), (0, 0));
}
