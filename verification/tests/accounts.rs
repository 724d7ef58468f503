use matching_engine::account_book::{AccountBook, BalanceError};
use matching_engine::dec::Dec;
use matching_engine::enums::OrderSide;
use matching_engine::message::{MessageType, Outbox};

fn acct_dec(m: i128, s: u32) -> Dec {
    Dec::new(m, s)
}

/// Strips trailing zeros so that equal values compare equal.
fn acct_norm(d: Dec) -> (i128, u32) {
    let mut m = d.mantissa;
    let mut s = d.scale;
    while s > 0 && m % 10 == 0 {
        m /= 10;
        s -= 1;
    }
    (m, s)
}

#[test]
fn deposit_adds_to_available() {
    let mut book = AccountBook::new();
    let mut out = Outbox::new(0);
    book.deposit(&mut out, "alice", "USD", acct_dec(15, 1));
    book.deposit(&mut out, "alice", "USD", acct_dec(225, 2));
    let a = book.get_account("alice", "USD").unwrap();
    assert_eq!(acct_norm(a.available), (375, 2));
    assert_eq!(acct_norm(a.hold), (0, 0));
    assert_eq!(a.id, "alice-USD");
    assert_eq!(out.sequence, 2);
    assert_eq!(out.messages.len(), 2);
    assert_eq!(out.messages[0].sequence, 1);
    assert_eq!(out.messages[1].sequence, 2);
    assert!(matches!(out.messages[1].message_type, MessageType::Account(_)));
}

#[test]
fn hold_then_unhold_restores_balances() {
    let mut book = AccountBook::new();
    let mut out = Outbox::new(0);
    book.deposit(&mut out, "bob", "BTC", acct_dec(375, 2));
    assert!(book.hold(&mut out, "bob", "BTC", acct_dec(125, 2)));
    {
        let a = book.get_account("bob", "BTC").unwrap();
        assert_eq!(acct_norm(a.available), (25, 1));
        assert_eq!(acct_norm(a.hold), (125, 2));
    }
    assert_eq!(book.unhold(&mut out, "bob", "BTC", acct_dec(125, 2)), Ok(()));
    let a = book.get_account("bob", "BTC").unwrap();
    assert_eq!(acct_norm(a.available), (375, 2));
    assert_eq!(acct_norm(a.hold), (0, 0));
    assert_eq!(out.sequence, 3);
}

#[test]
fn hold_refuses_more_than_available_and_unknown_accounts() {
    let mut book = AccountBook::new();
    let mut out = Outbox::new(0);
    book.deposit(&mut out, "carol", "USD", acct_dec(10, 0));
    assert!(!book.hold(&mut out, "carol", "USD", acct_dec(11, 0)));
    assert!(!book.hold(&mut out, "carol", "USD", acct_dec(0, 0)));
    assert!(!book.hold(&mut out, "dave", "USD", acct_dec(1, 0)));
    assert_eq!(out.sequence, 1);
    let a = book.get_account("carol", "USD").unwrap();
    assert_eq!(acct_norm(a.available), (10, 0));
}

#[test]
fn unhold_errors() {
    let mut book = AccountBook::new();
    let mut out = Outbox::new(0);
    assert_eq!(book.unhold(&mut out, "erin", "USD", acct_dec(1, 0)), Err(BalanceError::AccountNotFound));
    book.deposit(&mut out, "erin", "USD", acct_dec(5, 0));
    assert_eq!(book.unhold(&mut out, "erin", "USD", acct_dec(1, 0)), Err(BalanceError::InvalidUnhold));
    assert!(book.hold(&mut out, "erin", "USD", acct_dec(2, 0)));
    assert_eq!(book.unhold(&mut out, "erin", "USD", acct_dec(3, 0)), Err(BalanceError::InvalidUnhold));
    assert_eq!(book.unhold(&mut out, "erin", "USD", acct_dec(-1, 0)), Err(BalanceError::InvalidUnhold));
}

#[test]
fn exchange_moves_both_currencies_and_conserves_them() {
    let mut book = AccountBook::new();
    let mut out = Outbox::new(0);
    book.deposit(&mut out, "buyer", "USD", acct_dec(1000, 0));
    book.deposit(&mut out, "seller", "BTC", acct_dec(10, 0));
    assert!(book.hold(&mut out, "buyer", "USD", acct_dec(200, 0)));
    assert!(book.hold(&mut out, "seller", "BTC", acct_dec(2, 0)));
    let r = book.exchange(&mut out, "buyer", "seller", "BTC", "USD", OrderSide::BUY, acct_dec(2, 0), acct_dec(200, 0));
    assert_eq!(r, Ok(()));
    let bb = book.get_account("buyer", "BTC").unwrap();
    assert_eq!(acct_norm(bb.available), (2, 0));
    let bu = book.get_account("buyer", "USD").unwrap();
    assert_eq!(acct_norm(bu.available), (800, 0));
    assert_eq!(acct_norm(bu.hold), (0, 0));
    let sb = book.get_account("seller", "BTC").unwrap();
    assert_eq!(acct_norm(sb.available), (8, 0));
    assert_eq!(acct_norm(sb.hold), (0, 0));
    let su = book.get_account("seller", "USD").unwrap();
    assert_eq!(acct_norm(su.available), (200, 0));
    // each currency's total over the two parties is unchanged
    assert_eq!(bb.available.mantissa + sb.available.mantissa + sb.hold.mantissa, 10);
}

#[test]
fn exchange_refuses_a_negative_balance() {
    let mut book = AccountBook::new();
    let mut out = Outbox::new(0);
    book.deposit(&mut out, "x", "USD", acct_dec(10, 0));
    let r = book.exchange(&mut out, "x", "y", "BTC", "USD", OrderSide::BUY, acct_dec(1, 0), acct_dec(10, 0));
    assert_eq!(r, Err(BalanceError::NegativeBalance));
}

#[test]
fn publish_numbers_consecutively_and_stops_at_the_end() {
    let mut out = Outbox::new(u64::MAX - 1);
    assert!(out.publish(MessageType::CommandStart(7)));
    assert_eq!(out.sequence, u64::MAX);
    assert!(!out.publish(MessageType::CommandEnd(7)));
    assert_eq!(out.messages.len(), 1);
    let drained = out.drain();
    assert_eq!(drained.len(), 1);
    assert_eq!(drained[0].sequence, u64::MAX);
    assert!(out.messages.is_empty());
}

#[test]
fn a_self_trade_moves_held_to_available_in_both_currencies() {
    let mut book = AccountBook::new();
    let mut out = Outbox::new(0);
    book.deposit(&mut out, "sam", "USD", acct_dec(100, 0));
    book.deposit(&mut out, "sam", "BTC", acct_dec(5, 0));
    book.deposit(&mut out, "other", "BTC", acct_dec(7, 0));
    assert!(book.hold(&mut out, "sam", "USD", acct_dec(30, 0)));
    assert!(book.hold(&mut out, "sam", "BTC", acct_dec(1, 0)));
    let r = book.exchange(&mut out, "sam", "sam", "BTC", "USD", OrderSide::BUY, acct_dec(1, 0), acct_dec(30, 0));
    assert_eq!(r, Ok(()));
    let sb = book.get_account("sam", "BTC").unwrap();
    assert_eq!(acct_norm(sb.available), (5, 0));
    assert_eq!(acct_norm(sb.hold), (0, 0));
    let su = book.get_account("sam", "USD").unwrap();
    assert_eq!(acct_norm(su.available), (100, 0));
    assert_eq!(acct_norm(su.hold), (0, 0));
    // an account the settlement does not name is untouched
    let ob = book.get_account("other", "BTC").unwrap();
    assert_eq!(acct_norm(ob.available), (7, 0));
    assert!(book.get_account("other", "USD").is_none());
}

#[test]
fn a_covered_sell_settles() {
    let mut book = AccountBook::new();
    let mut out = Outbox::new(0);
    book.deposit(&mut out, "s", "BTC", acct_dec(3, 0));
    book.deposit(&mut out, "b", "USD", acct_dec(90, 0));
    assert!(book.hold(&mut out, "s", "BTC", acct_dec(2, 0)));
    assert!(book.hold(&mut out, "b", "USD", acct_dec(50, 0)));
    let r = book.exchange(&mut out, "s", "b", "BTC", "USD", OrderSide::SELL, acct_dec(2, 0), acct_dec(50, 0));
    assert_eq!(r, Ok(()));
    let sb = book.get_account("s", "BTC").unwrap();
    assert_eq!((acct_norm(sb.available), acct_norm(sb.hold)), ((1, 0), (0, 0)));
    let su = book.get_account("s", "USD").unwrap();
    assert_eq!((acct_norm(su.available), acct_norm(su.hold)), ((50, 0), (0, 0)));
    let bb = book.get_account("b", "BTC").unwrap();
    assert_eq!((acct_norm(bb.available), acct_norm(bb.hold)), ((2, 0), (0, 0)));
    let bu = book.get_account("b", "USD").unwrap();
    assert_eq!((acct_norm(bu.available), acct_norm(bu.hold)), ((40, 0), (0, 0)));
}

#[test]
fn an_account_is_found_under_its_own_key() {
    let mut book = AccountBook::new();
    let mut out = Outbox::new(0);
    book.deposit(&mut out, "kim", "EUR", acct_dec(1, 0));
    let a = book.get_account("kim", "EUR").unwrap();
    assert_eq!((a.user_id.as_str(), a.currency.as_str()), ("kim", "EUR"));
}
