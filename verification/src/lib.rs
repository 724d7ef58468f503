//! Verified core of a spot exchange: decimal arithmetic, account balances,
//! price-time order books, command dispatch and snapshot bookkeeping.
pub mod dec;
pub mod enums;
pub mod order;
pub mod command;
pub mod message;
pub mod product_book;
pub mod account_book;
pub mod order_book;
pub mod engine;
pub mod keyed;
pub mod snapshot;
pub mod session;
pub mod controller;
pub mod records;
pub mod config;
pub mod auth;
pub mod feed;
