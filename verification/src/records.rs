use vstd::prelude::*;
use vstd::string::StringExecFns;

use crate::account_book::Account;
use crate::dec::{checked_difference, dec_checked_sub, Dec};
use crate::enums::{OrderSide, OrderStatus, OrderType};
use crate::order::{Order, Timestamp, Trade};

verus! {

/// The character of a decimal digit.
pub open spec fn digit_char(d: nat) -> char {
    if d == 0 {
        '0'
    } else if d == 1 {
        '1'
    } else if d == 2 {
        '2'
    } else if d == 3 {
        '3'
    } else if d == 4 {
        '4'
    } else if d == 5 {
        '5'
    } else if d == 6 {
        '6'
    } else if d == 7 {
        '7'
    } else if d == 8 {
        '8'
    } else {
        '9'
    }
}

/// The decimal spelling of a number: its digits, most significant first, no leading zeros.
pub open spec fn decimal(n: nat) -> Seq<char>
    decreases n,
{
    if n < 10 {
        seq![digit_char(n)]
    } else {
        decimal(n / 10).push(digit_char(n % 10))
    }
}

fn digit_str(d: u64) -> (r: &'static str)
    requires
        d < 10,
    ensures
        r@ == seq![digit_char(d as nat)],
{
    if d == 0 {
        proof {
            reveal_strlit("0");
        }
        "0"
    } else if d == 1 {
        proof {
            reveal_strlit("1");
        }
        "1"
    } else if d == 2 {
        proof {
            reveal_strlit("2");
        }
        "2"
    } else if d == 3 {
        proof {
            reveal_strlit("3");
        }
        "3"
    } else if d == 4 {
        proof {
            reveal_strlit("4");
        }
        "4"
    } else if d == 5 {
        proof {
            reveal_strlit("5");
        }
        "5"
    } else if d == 6 {
        proof {
            reveal_strlit("6");
        }
        "6"
    } else if d == 7 {
        proof {
            reveal_strlit("7");
        }
        "7"
    } else if d == 8 {
        proof {
            reveal_strlit("8");
        }
        "8"
    } else {
        proof {
            reveal_strlit("9");
        }
        "9"
    }
}

/// The decimal spelling of `n`.
pub fn to_decimal(n: u64) -> (r: String)
    ensures
        r@ == decimal(n as nat),
    decreases n,
{
    if n < 10 {
        String::from_str(digit_str(n))
    } else {
        let mut s = to_decimal(n / 10);
        s.append(digit_str(n % 10));
        s
    }
}

/// `a-b`.
pub open spec fn dashed(a: Seq<char>, b: Seq<char>) -> Seq<char> {
    a + seq!['-'] + b
}

fn join_dashed(a: &str, b: &str) -> (r: String)
    ensures
        r@ == dashed(a@, b@),
{
    let dash = "-";
    proof {
        reveal_strlit("-");
    }
    let mut s = String::from_str(a);
    s.append(dash);
    s.append(b);
    s
}

/// An order as it is stored for queries.
#[derive(Debug)]
pub struct OrderRecord {
    pub id: String,
    pub sequence: u64,
    pub product_id: String,
    pub user_id: String,
    pub client_oid: String,
    pub time: Timestamp,
    pub size: Dec,
    pub funds: Dec,
    pub filled_size: Dec,
    pub executed_value: Dec,
    pub price: Dec,
    pub fill_fees: Dec,
    pub order_type: OrderType,
    pub side: OrderSide,
    pub status: OrderStatus,
}

/// `r` is the stored form of the order `value` (see [`OrderRecord::from_order`]).
pub open spec fn records_order(r: OrderRecord, value: Order) -> bool {
    &&& r.id@ == value.id@
    &&& r.sequence == value.sequence
    &&& r.product_id@ == value.product_id@
    &&& r.user_id@ == value.user_id@
    &&& r.client_oid@ == match value.client_oid {
        Some(c) => c@,
        None => Seq::<char>::empty(),
    }
    &&& r.time == value.time
    &&& r.size == value.size
    &&& r.funds == value.funds
    &&& r.filled_size == checked_difference(value.size, value.remaining_size)->0
    &&& r.executed_value == checked_difference(value.funds, value.remaining_funds)->0
    &&& r.price == value.price
    &&& r.fill_fees == (Dec { mantissa: 0, scale: 0 })
    &&& r.order_type == value.order_type
    &&& r.side == value.side
    &&& r.status == value.status
}

impl OrderRecord {
    /// The stored form of an order: what it has filled is its size less its remaining size,
    /// what it has spent its funds less its remaining funds; no client id reads as empty;
    /// no fees.
    pub fn from_order(value: Order) -> (r: OrderRecord)
        requires
            value@.wf(),
            checked_difference(value.size, value.remaining_size) is Some,
            checked_difference(value.funds, value.remaining_funds) is Some,
        ensures
            records_order(r, value),
    {
        let filled_size = match dec_checked_sub(value.size, value.remaining_size) {
            Some(d) => d,
            None => Dec::zero(),
        };
        let executed_value = match dec_checked_sub(value.funds, value.remaining_funds) {
            Some(d) => d,
            None => Dec::zero(),
        };
        let client_oid = match value.client_oid {
            Some(c) => c,
            None => String::new(),
        };
        OrderRecord {
            id: value.id,
            sequence: value.sequence,
            product_id: value.product_id,
            user_id: value.user_id,
            client_oid,
            time: value.time,
            size: value.size,
            funds: value.funds,
            filled_size,
            executed_value,
            price: value.price,
            fill_fees: Dec::zero(),
            order_type: value.order_type,
            side: value.side,
            status: value.status,
        }
    }

    /// The stored form of an order (see [`OrderRecord::from_order`]), or `None` when one of
    /// the two differences leaves the decimal range.
    pub fn try_from_order(value: Order) -> (r: Option<OrderRecord>)
        requires
            value@.wf(),
        ensures
            r is Some <==> (checked_difference(value.size, value.remaining_size) is Some && checked_difference(
                value.funds,
                value.remaining_funds,
            ) is Some),
            r matches Some(rec) ==> records_order(rec, value),
    {
        if dec_checked_sub(value.size, value.remaining_size).is_none() {
            return None;
        }
        if dec_checked_sub(value.funds, value.remaining_funds).is_none() {
            return None;
        }
        Some(OrderRecord::from_order(value))
    }
}

/// A trade as it is stored for queries.
#[derive(Debug)]
pub struct TradeRecord {
    pub id: String,
    pub sequence: u64,
    pub product_id: String,
    pub taker_order_id: String,
    pub maker_order_id: String,
    pub price: Dec,
    pub size: Dec,
    pub side: OrderSide,
    pub time: Timestamp,
}

impl TradeRecord {
    /// The stored form of a trade, under the id `product-sequence`.
    pub fn from_trade(value: Trade) -> (r: TradeRecord)
        ensures
            r.id@ == dashed(value.product_id@, decimal(value.sequence as nat)),
            r.sequence == value.sequence,
            r.product_id@ == value.product_id@,
            r.taker_order_id@ == value.taker_order_id@,
            r.maker_order_id@ == value.maker_order_id@,
            r.price == value.price,
            r.size == value.size,
            r.side == value.side,
            r.time == value.time,
    {
        let seq_text = to_decimal(value.sequence);
        let id = join_dashed(value.product_id.as_str(), seq_text.as_str());
        TradeRecord {
            id,
            sequence: value.sequence,
            product_id: value.product_id,
            taker_order_id: value.taker_order_id,
            maker_order_id: value.maker_order_id,
            price: value.price,
            size: value.size,
            side: value.side,
            time: value.time,
        }
    }
}

/// An account as it is stored for queries.
#[derive(Debug)]
pub struct AccountRecord {
    pub id: String,
    pub user_id: String,
    pub currency: String,
    pub hold: Dec,
    pub available: Dec,
}

impl AccountRecord {
    /// The stored form of an account, under the id `user-currency`.
    pub fn from_account(value: Account) -> (r: AccountRecord)
        ensures
            r.id@ == dashed(value.user_id@, value.currency@),
            r.user_id@ == value.user_id@,
            r.currency@ == value.currency@,
            r.hold == value.hold,
            r.available == value.available,
    {
        let id = join_dashed(value.user_id.as_str(), value.currency.as_str());
        AccountRecord {
            id,
            user_id: value.user_id,
            currency: value.currency,
            hold: value.hold,
            available: value.available,
        }
    }
}

/// A product as it is stored for queries, with its trading limits and precisions.
#[derive(Debug)]
pub struct ProductRecord {
    pub id: String,
    pub base_currency: String,
    pub quote_currency: String,
    pub base_min_size: Dec,
    pub base_max_size: Dec,
    pub quote_min_size: Dec,
    pub quote_max_size: Dec,
    pub base_scale: i32,
    pub quote_scale: i32,
    pub display_order: i32,
}

/// A registered user.
#[derive(Debug)]
pub struct UserRecord {
    pub id: String,
    pub email: String,
    pub password: String,
}

/// One page of a listing and the number of items in all pages.
#[derive(Debug)]
pub struct PageInfo<T> {
    pub items: Vec<T>,
    pub total: u64,
}

} // verus!
