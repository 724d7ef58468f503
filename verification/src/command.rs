use vstd::prelude::*;

use crate::dec::Dec;
use crate::enums::{OrderSide, OrderType};
use crate::order::Timestamp;

verus! {

/// A request to the matching engine.
#[derive(Debug)]
pub enum Command {
    PlaceOrder(PlaceOrderCommand),
    CancelOrder(CancelOrderCommand),
    Deposit(DepositCommand),
    PutProduct(PutProductCommand),
}

impl Command {
    /// The key a command is published under: the order id for orders and cancellations,
    /// the transaction id for deposits, the product id for products.
    pub fn key(&self) -> (r: &String)
        ensures
            r == match self {
                Command::PlaceOrder(c) => &c.order_id,
                Command::CancelOrder(c) => &c.order_id,
                Command::Deposit(c) => &c.transaction_id,
                Command::PutProduct(c) => &c.product_id,
            },
    {
        match self {
            Command::PlaceOrder(c) => &c.order_id,
            Command::CancelOrder(c) => &c.order_id,
            Command::Deposit(c) => &c.transaction_id,
            Command::PutProduct(c) => &c.product_id,
        }
    }
}

/// Place an order on a product's book.
#[derive(Debug)]
pub struct PlaceOrderCommand {
    pub product_id: String,
    pub order_id: String,
    pub user_id: String,
    pub size: Dec,
    pub price: Dec,
    pub funds: Dec,
    pub order_type: OrderType,
    pub order_side: OrderSide,
    pub time: Timestamp,
}

/// Cancel a resting order.
#[derive(Debug)]
pub struct CancelOrderCommand {
    pub product_id: String,
    pub order_id: String,
}

/// Credit a user's account.
#[derive(Debug)]
pub struct DepositCommand {
    pub user_id: String,
    pub currency: String,
    pub amount: Dec,
    pub transaction_id: String,
}

/// Create or replace a product.
#[derive(Debug)]
pub struct PutProductCommand {
    pub product_id: String,
    pub base_currency: String,
    pub quote_currency: String,
}

} // verus!
