use vstd::prelude::*;
use vstd::string::StringExecFns;

use crate::account_book::Account;
use crate::message::MessageType;
use crate::order::Order;
use crate::session::{
    apply_all, channel_name, funds_word, order_word, request_channels, strings_view, SessionManager, SubRequest,
};

verus! {

/// A message a client sends over its socket.
#[derive(Debug)]
pub enum Request {
    Subscribe(SubRequest),
    Unsubscribe(SubRequest),
    Ping,
}

/// The text the server answers a ping with.
pub open spec fn pong_text() -> Seq<char> {
    "{\"type\":\"pong\"}"@
}

/// Handles a client's request on its session: subscriptions and unsubscriptions change the
/// session's channels (see [`SessionManager::sub_or_unsub`]); a ping changes nothing and is
/// answered with `{"type":"pong"}`, the only request that gets a reply.
pub fn handle_request(manager: &mut SessionManager, request: Request, user_id: &str, session_id: &str) -> (r: Option<
    &'static str,
>)
    ensures
        match request {
            Request::Subscribe(sub) => r is None && final(manager).subs() == apply_all(
                old(manager).subs(),
                request_channels(strings_view(sub.channels@), user_id@, strings_view(sub.product_ids@), sub.currencies()),
                session_id@,
                true,
            ),
            Request::Unsubscribe(sub) => r is None && final(manager).subs() == apply_all(
                old(manager).subs(),
                request_channels(strings_view(sub.channels@), user_id@, strings_view(sub.product_ids@), sub.currencies()),
                session_id@,
                false,
            ),
            Request::Ping => r is Some && r->0@ == pong_text() && final(manager).subs() == old(manager).subs(),
        },
{
    match request {
        Request::Subscribe(sub) => {
            manager.sub_or_unsub(sub, session_id, user_id, true);
            None
        },
        Request::Unsubscribe(sub) => {
            manager.sub_or_unsub(sub, session_id, user_id, false);
            None
        },
        Request::Ping => {
            proof {
                reveal_strlit("{\"type\":\"pong\"}");
            }
            Some("{\"type\":\"pong\"}")
        },
    }
}

/// The query parameters a socket connects with.
#[derive(Debug)]
pub struct AuthParams {
    pub access_token: Option<String>,
}

impl AuthParams {
    /// The token a socket connects with: the `accessToken` query parameter, else the
    /// `accessToken` cookie.
    pub fn token(self, cookie: Option<String>) -> (r: Option<String>)
        ensures
            r == match self.access_token {
                Some(q) => Some(q),
                None => cookie,
            },
    {
        match self.access_token {
            Some(q) => Some(q),
            None => cookie,
        }
    }
}

fn join_channel(user: &str, subject: &str, kind: &str) -> (r: String)
    ensures
        r@ == channel_name(user@, subject@, kind@),
{
    let dot = ".";
    proof {
        reveal_strlit(".");
    }
    let mut s = String::from_str(user);
    s.append(dot);
    s.append(subject);
    s.append(dot);
    s.append(kind);
    s
}

/// The channel an order update goes out on: `user.product.order`.
pub fn order_channel(order: &Order) -> (r: String)
    ensures
        r@ == channel_name(order.user_id@, order.product_id@, order_word()),
{
    proof {
        reveal_strlit("order");
    }
    join_channel(order.user_id.as_str(), order.product_id.as_str(), "order")
}

/// The channel an account update goes out on: `user.currency.funds`.
pub fn account_channel(account: &Account) -> (r: String)
    ensures
        r@ == channel_name(account.user_id@, account.currency@, funds_word()),
{
    proof {
        reveal_strlit("funds");
    }
    join_channel(account.user_id.as_str(), account.currency.as_str(), "funds")
}

/// The market-data channel an event is republished on and stored under: order updates on
/// `order`, trades on `trade`, accounts on `account`; other events are neither.
pub fn market_channel(mt: &MessageType) -> (r: Option<&'static str>)
    ensures
        match mt {
            MessageType::Order(_) => r is Some && r->0@ == "order"@,
            MessageType::Trade(_) => r is Some && r->0@ == "trade"@,
            MessageType::Account(_) => r is Some && r->0@ == "account"@,
            _ => r is None,
        },
{
    match mt {
        MessageType::Order(_) => Some("order"),
        MessageType::Trade(_) => Some("trade"),
        MessageType::Account(_) => Some("account"),
        _ => None,
    }
}

} // verus!
