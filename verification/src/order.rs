use vstd::prelude::*;

use crate::command::PlaceOrderCommand;
use crate::dec::{checked_product, dec_checked_mul, Dec};
use crate::enums::{OrderSide, OrderStatus, OrderType};

verus! {

/// A point in time: seconds since the Unix epoch and the nanoseconds past that second.
#[derive(Clone, Copy, Debug, PartialEq, Eq, Structural)]
pub struct Timestamp {
    pub secs: i64,
    pub nanos: u32,
}

/// An order as the matching engine tracks it.
#[derive(Debug)]
pub struct Order {
    pub id: String,
    pub sequence: u64,
    pub user_id: String,
    pub order_type: OrderType,
    pub side: OrderSide,
    pub remaining_size: Dec,
    pub price: Dec,
    pub remaining_funds: Dec,
    pub size: Dec,
    pub funds: Dec,
    pub post_only: bool,
    pub time: Timestamp,
    pub product_id: String,
    pub status: OrderStatus,
    pub client_oid: Option<String>,
}

/// The contents of an [`Order`], strings taken by their characters.
pub struct OrderV {
    pub id: Seq<char>,
    pub sequence: u64,
    pub user_id: Seq<char>,
    pub order_type: OrderType,
    pub side: OrderSide,
    pub remaining_size: Dec,
    pub price: Dec,
    pub remaining_funds: Dec,
    pub size: Dec,
    pub funds: Dec,
    pub post_only: bool,
    pub time: Timestamp,
    pub product_id: Seq<char>,
    pub status: OrderStatus,
    pub client_oid: Option<Seq<char>>,
}

pub open spec fn opt_string_view(o: Option<String>) -> Option<Seq<char>> {
    match o {
        Some(s) => Some(s@),
        None => None,
    }
}

impl View for Order {
    type V = OrderV;

    open spec fn view(&self) -> OrderV {
        OrderV {
            id: self.id@,
            sequence: self.sequence,
            user_id: self.user_id@,
            order_type: self.order_type,
            side: self.side,
            remaining_size: self.remaining_size,
            price: self.price,
            remaining_funds: self.remaining_funds,
            size: self.size,
            funds: self.funds,
            post_only: self.post_only,
            time: self.time,
            product_id: self.product_id@,
            status: self.status,
            client_oid: opt_string_view(self.client_oid),
        }
    }
}

impl OrderV {
    /// Every amount of the order is a valid decimal.
    pub open spec fn wf(self) -> bool {
        &&& self.remaining_size.wf()
        &&& self.price.wf()
        &&& self.remaining_funds.wf()
        &&& self.size.wf()
        &&& self.funds.wf()
    }
}

impl Clone for Order {
    fn clone(&self) -> (r: Self)
        ensures
            r@ == self@,
            r == *self,
    {
        let client_oid = match &self.client_oid {
            Some(s) => Some(s.clone()),
            None => None,
        };
        Order {
            id: self.id.clone(),
            sequence: self.sequence,
            user_id: self.user_id.clone(),
            order_type: self.order_type,
            side: self.side,
            remaining_size: self.remaining_size,
            price: self.price,
            remaining_funds: self.remaining_funds,
            size: self.size,
            funds: self.funds,
            post_only: self.post_only,
            time: self.time,
            product_id: self.product_id.clone(),
            status: self.status,
            client_oid,
        }
    }
}

impl crate::keyed::Copied for Order {
    fn copied(&self) -> (r: Self) {
        self.clone()
    }
}

/// The funds an order placed by `cmd` reserves: `size * price` for a limit order, zero otherwise.
pub open spec fn command_funds(cmd: PlaceOrderCommand) -> Option<Dec> {
    if cmd.order_type == OrderType::LIMIT {
        checked_product(cmd.size, cmd.price)
    } else {
        Some(Dec { mantissa: 0, scale: 0 })
    }
}

/// The order a place-order command creates, before it is sequenced.
pub open spec fn order_from_command(cmd: PlaceOrderCommand, funds: Dec) -> OrderV {
    OrderV {
        id: cmd.order_id@,
        sequence: 0,
        user_id: cmd.user_id@,
        order_type: cmd.order_type,
        side: cmd.order_side,
        remaining_size: cmd.size,
        price: cmd.price,
        remaining_funds: funds,
        size: cmd.size,
        funds: funds,
        post_only: false,
        time: cmd.time,
        product_id: cmd.product_id@,
        status: OrderStatus::RECEIVED,
        client_oid: None,
    }
}

impl Order {
    /// The order a place-order command creates, or `None` when `size * price` of a limit
    /// order overflows.
    pub fn from_checked(command: PlaceOrderCommand) -> (r: Option<Order>)
        requires
            command.size.wf(),
            command.price.wf(),
        ensures
            r is None <==> command_funds(command) is None,
            r matches Some(o) ==> o@ == order_from_command(command, command_funds(command)->0) && o@.wf(),
    {
        if command.order_type == OrderType::LIMIT {
            if dec_checked_mul(command.size, command.price).is_none() {
                return None;
            }
        }
        Some(Order::from(command))
    }

    /// The order a place-order command creates: remaining size equals size, funds are
    /// `size * price` for a limit order and zero for a market order, status RECEIVED.
    pub fn from(command: PlaceOrderCommand) -> (r: Order)
        requires
            command.size.wf(),
            command.price.wf(),
            command_funds(command) is Some,
        ensures
            r@ == order_from_command(command, command_funds(command)->0),
            r@.wf(),
    {
        let funds = if command.order_type == OrderType::LIMIT {
            match dec_checked_mul(command.size, command.price) {
                Some(f) => f,
                None => Dec::zero(),
            }
        } else {
            Dec::zero()
        };
        Order {
            id: command.order_id,
            sequence: 0,
            user_id: command.user_id,
            order_type: command.order_type,
            side: command.order_side,
            remaining_size: command.size,
            price: command.price,
            remaining_funds: funds,
            size: command.size,
            funds,
            post_only: false,
            time: command.time,
            product_id: command.product_id,
            status: OrderStatus::RECEIVED,
            client_oid: None,
        }
    }
}

/// A fill between a taker and a maker order.
#[derive(Debug)]
pub struct Trade {
    pub product_id: String,
    pub sequence: u64,
    pub size: Dec,
    pub funds: Dec,
    pub price: Dec,
    pub time: Timestamp,
    pub side: OrderSide,
    pub taker_order_id: String,
    pub maker_order_id: String,
}

/// The contents of a [`Trade`].
pub struct TradeV {
    pub product_id: Seq<char>,
    pub sequence: u64,
    pub size: Dec,
    pub funds: Dec,
    pub price: Dec,
    pub time: Timestamp,
    pub side: OrderSide,
    pub taker_order_id: Seq<char>,
    pub maker_order_id: Seq<char>,
}

impl View for Trade {
    type V = TradeV;

    open spec fn view(&self) -> TradeV {
        TradeV {
            product_id: self.product_id@,
            sequence: self.sequence,
            size: self.size,
            funds: self.funds,
            price: self.price,
            time: self.time,
            side: self.side,
            taker_order_id: self.taker_order_id@,
            maker_order_id: self.maker_order_id@,
        }
    }
}

impl Clone for Trade {
    fn clone(&self) -> (r: Self)
        ensures
            r@ == self@,
    {
        Trade {
            product_id: self.product_id.clone(),
            sequence: self.sequence,
            size: self.size,
            funds: self.funds,
            price: self.price,
            time: self.time,
            side: self.side,
            taker_order_id: self.taker_order_id.clone(),
            maker_order_id: self.maker_order_id.clone(),
        }
    }
}

} // verus!
