use vstd::prelude::*;
use vstd::string::StringExecFns;

use crate::command::{CancelOrderCommand, DepositCommand, PlaceOrderCommand, PutProductCommand};
use crate::dec::{checked_product, dec_checked_mul, dec_truncate, truncated, Dec};
use crate::enums::{OrderSide, OrderStatus, OrderType};
use crate::order::{opt_string_view, Timestamp};
use crate::records::{dashed, OrderRecord, ProductRecord, UserRecord};

verus! {

/// The reply to an API call: whether it succeeded, a message, and data if any.
#[derive(Debug)]
pub struct ApiResponse<T> {
    pub success: bool,
    pub message: String,
    pub data: Option<T>,
}

impl<T> ApiResponse<T> {
    /// A reply with the given parts.
    pub fn new(success: bool, message: String, data: Option<T>) -> (r: Self)
        ensures
            r.success == success,
            r.message == message,
            r.data == data,
    {
        ApiResponse { success, message, data }
    }

    /// A successful reply.
    pub fn ok(message: &str, data: Option<T>) -> (r: Self)
        ensures
            r.success,
            r.message@ == message@,
            r.data == data,
    {
        Self::new(true, String::from_str(message), data)
    }

    /// A failed reply without data.
    pub fn err(message: &str) -> (r: Self)
        ensures
            !r.success,
            r.message@ == message@,
            r.data is None,
    {
        Self::new(false, String::from_str(message), None)
    }
}

/// Why an API call failed.
#[derive(Debug)]
pub enum ApiError {
    NotFound,
    MethodNotAllowed,
    /// An internal failure, with its description.
    Internal(String),
    /// A request body that is not the expected JSON, with the reason.
    Json(String),
    /// A missing or invalid credential, with the reason.
    Unauthenticated(String),
}

impl ApiError {
    /// The HTTP status the error is answered with.
    pub fn status_code(&self) -> (r: u16)
        ensures
            r == match self {
                ApiError::NotFound => 404u16,
                ApiError::MethodNotAllowed => 405u16,
                ApiError::Json(_) => 400u16,
                ApiError::Internal(_) => 500u16,
                ApiError::Unauthenticated(_) => 401u16,
            },
    {
        match self {
            ApiError::NotFound => 404,
            ApiError::MethodNotAllowed => 405,
            ApiError::Json(_) => 400,
            ApiError::Internal(_) => 500,
            ApiError::Unauthenticated(_) => 401,
        }
    }

    pub open spec fn message_spec(&self) -> Seq<char> {
        match self {
            ApiError::NotFound => seq!['p', 'a', 'g', 'e', ' ', 'n', 'o', 't', ' ', 'f', 'o', 'u', 'n', 'd'],
            ApiError::MethodNotAllowed => seq![
                'r', 'e', 'q', 'u', 'e', 's', 't', ' ', 'm', 'e', 't', 'h', 'o', 'd', ' ', 'n', 'o', 't', ' ', 'a', 'l', 'l',
                'o', 'w', 'e', 'd',
            ],
            ApiError::Internal(s) => seq!['i', 'n', 't', 'e', 'r', 'n', 'a', 'l', ' ', 'e', 'r', 'r', 'o', 'r', ':', ' '] + s@,
            ApiError::Json(s) => seq!['j', 's', 'o', 'n', ' ', 'e', 'r', 'r', 'o', 'r', ':', ' '] + s@,
            ApiError::Unauthenticated(s) => seq![
                'U', 'n', 'a', 'u', 't', 'h', 'e', 'n', 't', 'i', 'c', 'a', 't', 'e', 'd', ':', ' ',
            ] + s@,
        }
    }

    /// The error's text, as its reply carries it.
    pub fn message(&self) -> (r: String)
        ensures
            r@ == self.message_spec(),
    {
        match self {
            ApiError::NotFound => {
                let t = "page not found";
                proof {
                    reveal_strlit("page not found");
                }
                String::from_str(t)
            },
            ApiError::MethodNotAllowed => {
                let t = "request method not allowed";
                proof {
                    reveal_strlit("request method not allowed");
                }
                String::from_str(t)
            },
            ApiError::Internal(s) => {
                let t = "internal error: ";
                proof {
                    reveal_strlit("internal error: ");
                }
                String::from_str(t).concat(s.as_str())
            },
            ApiError::Json(s) => {
                let t = "json error: ";
                proof {
                    reveal_strlit("json error: ");
                }
                String::from_str(t).concat(s.as_str())
            },
            ApiError::Unauthenticated(s) => {
                let t = "Unauthenticated: ";
                proof {
                    reveal_strlit("Unauthenticated: ");
                }
                String::from_str(t).concat(s.as_str())
            },
        }
    }
}

/// An order as a client submits it.
#[derive(Debug)]
pub struct PlaceOrderParam {
    pub client_oid: String,
    pub product_id: String,
    pub size: Dec,
    pub funds: Dec,
    pub price: Dec,
    pub side: String,
    pub order_type: String,
    pub time_in_force: String,
}

impl PlaceOrderParam {
    /// The command for the order, under a fresh order id and the time of submission; the
    /// user is filled in later. Side and type are parsed ignoring ASCII case.
    pub fn into_command(self, order_id: String, time: Timestamp) -> (r: PlaceOrderCommand)
        requires
            OrderType::parse_spec(self.order_type@) is Some,
            OrderSide::parse_spec(self.side@) is Some,
        ensures
            r.product_id == self.product_id,
            r.order_id == order_id,
            r.user_id@ == Seq::<char>::empty(),
            r.size == self.size,
            r.price == self.price,
            r.funds == self.funds,
            r.order_type == OrderType::parse_spec(self.order_type@)->0,
            r.order_side == OrderSide::parse_spec(self.side@)->0,
            r.time == time,
    {
        let order_type = match OrderType::parse(self.order_type.as_str()) {
            Some(t) => t,
            None => OrderType::LIMIT,
        };
        let order_side = match OrderSide::parse(self.side.as_str()) {
            Some(s) => s,
            None => OrderSide::BUY,
        };
        PlaceOrderCommand {
            product_id: self.product_id,
            order_id,
            user_id: String::new(),
            size: self.size,
            price: self.price,
            funds: self.funds,
            order_type,
            order_side,
            time,
        }
    }
}

pub open spec fn zero_dec() -> Dec {
    Dec { mantissa: 0, scale: 0 }
}

/// The funds a formatted limit buy reserves: its truncated size times its truncated price.
pub open spec fn limit_buy_funds(cmd: PlaceOrderCommand, base_scale: i32, quote_scale: i32) -> Option<Dec> {
    checked_product(truncated(cmd.size, base_scale as u32), truncated(cmd.price, quote_scale as u32))
}

/// `after` is the command `before` brought to the product's precision (see
/// [`format_place_order_command`]).
pub open spec fn formatted(before: PlaceOrderCommand, after: PlaceOrderCommand, base_scale: i32, quote_scale: i32) -> bool {
    &&& after.product_id == before.product_id
    &&& after.order_id == before.order_id
    &&& after.user_id == before.user_id
    &&& after.order_type == before.order_type
    &&& after.order_side == before.order_side
    &&& after.time == before.time
    &&& before.order_type == OrderType::LIMIT ==> {
        &&& after.size == truncated(before.size, base_scale as u32)
        &&& after.price == truncated(before.price, quote_scale as u32)
        &&& after.funds == if before.order_side == OrderSide::BUY {
            limit_buy_funds(before, base_scale, quote_scale)->0
        } else {
            zero_dec()
        }
    }
    &&& before.order_type == OrderType::MARKET ==> {
        &&& after.price == zero_dec()
        &&& after.size == if before.order_side == OrderSide::BUY {
            zero_dec()
        } else {
            truncated(before.size, base_scale as u32)
        }
        &&& after.funds == if before.order_side == OrderSide::BUY {
            truncated(before.funds, quote_scale as u32)
        } else {
            zero_dec()
        }
    }
    &&& after.size.wf()
    &&& after.price.wf()
    &&& after.funds.wf()
}

/// Brings an order to the product's precision, rounding toward zero: a limit order gets
/// its size to the base scale and its price to the quote scale, and a buy reserves size
/// times price; a market order has no price, a market buy spends funds (to the quote scale)
/// and a market sell sells size (to the base scale).
pub fn format_place_order_command(cmd: &mut PlaceOrderCommand, base_scale: i32, quote_scale: i32)
    requires
        old(cmd).size.wf(),
        old(cmd).price.wf(),
        old(cmd).funds.wf(),
        old(cmd).order_type == OrderType::LIMIT && old(cmd).order_side == OrderSide::BUY ==> limit_buy_funds(
            *old(cmd),
            base_scale,
            quote_scale,
        ) is Some,
    ensures
        formatted(*old(cmd), *final(cmd), base_scale, quote_scale),
{
    let bs = base_scale as u32;
    let qs = quote_scale as u32;
    match cmd.order_type {
        OrderType::LIMIT => {
            cmd.size = dec_truncate(cmd.size, bs);
            cmd.price = dec_truncate(cmd.price, qs);
            cmd.funds = if cmd.order_side == OrderSide::BUY {
                match dec_checked_mul(cmd.size, cmd.price) {
                    Some(f) => f,
                    None => Dec::zero(),
                }
            } else {
                Dec::zero()
            };
        },
        OrderType::MARKET => {
            cmd.price = Dec::zero();
            if cmd.order_side == OrderSide::BUY {
                cmd.size = Dec::zero();
                cmd.funds = dec_truncate(cmd.funds, qs);
            } else {
                cmd.size = dec_truncate(cmd.size, bs);
                cmd.funds = Dec::zero();
            }
        },
    }
}

/// Formats the order (see [`format_place_order_command`]) unless it is a limit buy whose
/// truncated size times truncated price leaves the decimal range; then `false`, and the
/// command is unchanged.
pub fn try_format_place_order_command(cmd: &mut PlaceOrderCommand, base_scale: i32, quote_scale: i32) -> (r: bool)
    requires
        old(cmd).size.wf(),
        old(cmd).price.wf(),
        old(cmd).funds.wf(),
    ensures
        r == !(old(cmd).order_type == OrderType::LIMIT && old(cmd).order_side == OrderSide::BUY && limit_buy_funds(
            *old(cmd),
            base_scale,
            quote_scale,
        ) is None),
        !r ==> *final(cmd) == *old(cmd),
        r ==> formatted(*old(cmd), *final(cmd), base_scale, quote_scale),
{
    if cmd.order_type == OrderType::LIMIT && cmd.order_side == OrderSide::BUY {
        let size = dec_truncate(cmd.size, base_scale as u32);
        let price = dec_truncate(cmd.price, quote_scale as u32);
        if dec_checked_mul(size, price).is_none() {
            return false;
        }
    }
    format_place_order_command(cmd, base_scale, quote_scale);
    true
}

/// Why a place-order request is not turned into a command.
#[derive(Debug, PartialEq, Eq, Structural)]
pub enum PlaceOrderError {
    /// The product the order names does not exist; answered with "product not found".
    ProductNotFound,
    /// A limit buy whose truncated size times truncated price leaves the decimal range.
    Overflow,
}

/// The command a client's order request becomes before it is formatted: the request's
/// fields under the order id, the user and the time of submission.
pub open spec fn requested_command(param: PlaceOrderParam, user_id: String, order_id: String, time: Timestamp) -> PlaceOrderCommand {
    PlaceOrderCommand {
        product_id: param.product_id,
        order_id,
        user_id,
        size: param.size,
        price: param.price,
        funds: param.funds,
        order_type: OrderType::parse_spec(param.order_type@)->0,
        order_side: OrderSide::parse_spec(param.side@)->0,
        time,
    }
}

/// A place-order request, given the product it names (if found) and the requesting user:
/// no product, no order ("product not found"); otherwise the request as a command of the
/// user, brought to the product's precision (see [`format_place_order_command`]), unless
/// it is a limit buy whose reserved funds leave the decimal range.
pub fn place_order_command(
    param: PlaceOrderParam,
    product: Option<&ProductRecord>,
    user_id: String,
    order_id: String,
    time: Timestamp,
) -> (r: Result<PlaceOrderCommand, PlaceOrderError>)
    requires
        OrderType::parse_spec(param.order_type@) is Some,
        OrderSide::parse_spec(param.side@) is Some,
        param.size.wf(),
        param.price.wf(),
        param.funds.wf(),
    ensures
        product is None ==> r == Err::<PlaceOrderCommand, PlaceOrderError>(PlaceOrderError::ProductNotFound),
        product matches Some(p) ==> ({
            let c0 = requested_command(param, user_id, order_id, time);
            &&& (r is Ok <==> !(c0.order_type == OrderType::LIMIT && c0.order_side == OrderSide::BUY && limit_buy_funds(
                c0,
                p.base_scale,
                p.quote_scale,
            ) is None))
            &&& r matches Ok(c) ==> formatted(c0, c, p.base_scale, p.quote_scale)
            &&& r is Err ==> r == Err::<PlaceOrderCommand, PlaceOrderError>(PlaceOrderError::Overflow)
        }),
{
    let ghost c0 = requested_command(param, user_id, order_id, time);
    match product {
        None => Err(PlaceOrderError::ProductNotFound),
        Some(p) => {
            let mut cmd = param.into_command(order_id, time);
            cmd.user_id = user_id;
            proof {
                assert(cmd == c0);
            }
            if try_format_place_order_command(&mut cmd, p.base_scale, p.quote_scale) {
                Ok(cmd)
            } else {
                Err(PlaceOrderError::Overflow)
            }
        },
    }
}

/// A deposit as an administrator submits it.
#[derive(Debug)]
pub struct DepositParam {
    pub user_id: String,
    pub currency: String,
    pub amount: Dec,
}

impl DepositParam {
    /// The deposit command, under a fresh transaction id.
    pub fn into_command(self, transaction_id: String) -> (r: DepositCommand)
        ensures
            r.user_id == self.user_id,
            r.currency == self.currency,
            r.amount == self.amount,
            r.transaction_id == transaction_id,
    {
        DepositCommand { user_id: self.user_id, currency: self.currency, amount: self.amount, transaction_id }
    }
}

/// A product as an administrator submits it.
#[derive(Debug)]
pub struct PutProductParam {
    pub base_currency: String,
    pub quote_currency: String,
}

impl PutProductParam {
    /// The product's id: `base-quote`.
    pub fn product_id(&self) -> (r: String)
        ensures
            r@ == self.base_currency@ + seq!['-'] + self.quote_currency@,
    {
        let dash = "-";
        proof {
            reveal_strlit("-");
        }
        let mut id = self.base_currency.clone();
        id.append(dash);
        id.append(self.quote_currency.as_str());
        id
    }

    /// The command that creates the product in the engine.
    pub fn command(&self) -> (r: PutProductCommand)
        ensures
            r.product_id@ == self.base_currency@ + seq!['-'] + self.quote_currency@,
            r.base_currency == self.base_currency,
            r.quote_currency == self.quote_currency,
    {
        PutProductCommand {
            product_id: self.product_id(),
            base_currency: self.base_currency.clone(),
            quote_currency: self.quote_currency.clone(),
        }
    }
}

impl PutProductParam {
    /// The stored form of a new product: id `base-quote`, sizes from 0 to 100000000 in the
    /// base currency and from 0 to 10000000000 in the quote currency, 6 digits after the
    /// point for sizes and 2 for prices, listed first.
    pub fn into_record(self) -> (r: ProductRecord)
        ensures
            r.id@ == dashed(self.base_currency@, self.quote_currency@),
            r.base_currency == self.base_currency,
            r.quote_currency == self.quote_currency,
            r.base_min_size == (Dec { mantissa: 0, scale: 0 }),
            r.base_max_size == (Dec { mantissa: 100000000, scale: 0 }),
            r.quote_min_size == (Dec { mantissa: 0, scale: 0 }),
            r.quote_max_size == (Dec { mantissa: 10000000000, scale: 0 }),
            r.base_scale == 6,
            r.quote_scale == 2,
            r.display_order == 0,
    {
        let id = self.product_id();
        ProductRecord {
            id,
            base_currency: self.base_currency,
            quote_currency: self.quote_currency,
            base_min_size: Dec::new(0, 0),
            base_max_size: Dec::new(100000000, 0),
            quote_min_size: Dec::new(0, 0),
            quote_max_size: Dec::new(10000000000, 0),
            base_scale: 6,
            quote_scale: 2,
            display_order: 0,
        }
    }
}

/// Decides a login: the user found by the email must exist and have the given password.
/// The refusal carries the reply's message.
pub fn check_login(user: Option<&UserRecord>, password: &str) -> (r: Result<(), &'static str>)
    ensures
        user is None ==> r is Err && r->Err_0@ == "User not found"@,
        user is Some ==> (r is Ok <==> user->0.password@ == password@),
        user is Some && r is Err ==> r->Err_0@ == "Invalid email or password"@,
{
    match user {
        None => Err("User not found"),
        Some(u) => {
            let p = String::from_str(password);
            if u.password == p {
                Ok(())
            } else {
                Err("Invalid email or password")
            }
        },
    }
}

/// Decides a cancellation request: the stored order must exist and belong to the user; the
/// command then names the order's product. The refusal carries the reply's message.
pub fn cancel_request(order_id: String, order: Option<&OrderRecord>, user_id: &str) -> (r: Result<CancelOrderCommand, String>)
    ensures
        order is None ==> r is Err && r->Err_0@ == "order not found: "@ + order_id@,
        order is Some && order->0.user_id@ != user_id@ ==> r is Err && r->Err_0@ == "Current user id is incorrect"@,
        order is Some && order->0.user_id@ == user_id@ ==> r is Ok && r->Ok_0.product_id@ == order->0.product_id@
            && r->Ok_0.order_id@ == order_id@,
{
    match order {
        None => {
            let m = String::from_str("order not found: ").concat(order_id.as_str());
            Err(m)
        },
        Some(o) => {
            let u = String::from_str(user_id);
            if o.user_id != u {
                Err(String::from_str("Current user id is incorrect"))
            } else {
                Ok(CancelOrderCommand { product_id: o.product_id.clone(), order_id })
            }
        },
    }
}

/// How many orders to skip for a 1-based page: the pages before it, full.
pub fn page_skip(page_index: u64, page_size: i64) -> (r: u64)
    requires
        page_index >= 1,
        (page_index - 1) * (page_size as u64) <= u64::MAX,
    ensures
        r == (page_index - 1) * (page_size as u64),
{
    (page_index - 1) * (page_size as u64)
}

pub open spec fn user_id_key() -> Seq<char> {
    seq!['u', 's', 'e', 'r', 'I', 'd']
}

pub open spec fn product_id_key() -> Seq<char> {
    seq!['p', 'r', 'o', 'd', 'u', 'c', 't', 'I', 'd']
}

pub open spec fn status_key() -> Seq<char> {
    seq!['s', 't', 'a', 't', 'u', 's']
}

pub open spec fn side_key() -> Seq<char> {
    seq!['s', 'i', 'd', 'e']
}

pub open spec fn pairs_view(s: Seq<(String, String)>) -> Seq<(Seq<char>, Seq<char>)> {
    Seq::new(s.len(), |i: int| (s[i].0@, s[i].1@))
}

/// The conditions a listing of a user's orders applies, as field and value: the user,
/// then the product, the status and the side when given.
pub open spec fn order_filter_spec(
    user_id: Seq<char>,
    product_id: Option<Seq<char>>,
    status: Option<OrderStatus>,
    side: Option<OrderSide>,
) -> Seq<(Seq<char>, Seq<char>)> {
    let a = seq![(user_id_key(), user_id)];
    let b = match product_id {
        Some(p) => a.push((product_id_key(), p)),
        None => a,
    };
    let c = match status {
        Some(s) => b.push((status_key(), s.name())),
        None => b,
    };
    match side {
        Some(s) => c.push((side_key(), s.name())),
        None => c,
    }
}

/// The conditions of a listing of a user's orders.
pub fn order_filter(
    user_id: &str,
    product_id: Option<String>,
    status: Option<OrderStatus>,
    side: Option<OrderSide>,
) -> (r: Vec<(String, String)>)
    ensures
        pairs_view(r@) == order_filter_spec(
            user_id@,
            opt_string_view(product_id),
            status,
            side,
        ),
{
    let ghost pv = opt_string_view(product_id);
    let k_user = "userId";
    let k_product = "productId";
    let k_status = "status";
    let k_side = "side";
    proof {
        reveal_strlit("userId");
        reveal_strlit("productId");
        reveal_strlit("status");
        reveal_strlit("side");
    }
    let mut r: Vec<(String, String)> = Vec::new();
    let ku = String::from_str(k_user);
    let vu = String::from_str(user_id);
    assert(ku@ == user_id_key());
    r.push((ku, vu));
    proof {
        assert(pairs_view(r@) =~= seq![(user_id_key(), user_id@)]);
    }
    let ghost r1 = pairs_view(r@);
    match product_id {
        Some(p) => {
            let kp = String::from_str(k_product);
            assert(kp@ == product_id_key());
            r.push((kp, p));
            proof {
                assert(pairs_view(r@) =~= r1.push((product_id_key(), pv->0)));
            }
        },
        None => {},
    }
    let ghost r2 = pairs_view(r@);
    match status {
        Some(s) => {
            let ks = String::from_str(k_status);
            let vs = String::from_str(s.as_str());
            assert(ks@ == status_key());
            assert(vs@ == s.name());
            r.push((ks, vs));
            proof {
                assert(pairs_view(r@) =~= r2.push((status_key(), s.name())));
            }
        },
        None => {},
    }
    let ghost r3 = pairs_view(r@);
    match side {
        Some(s) => {
            let kd = String::from_str(k_side);
            let vd = String::from_str(s.as_str());
            assert(kd@ == side_key());
            assert(vd@ == s.name());
            r.push((kd, vd));
            proof {
                assert(pairs_view(r@) =~= r3.push((side_key(), s.name())));
            }
        },
        None => {},
    }
    r
}

} // verus!
