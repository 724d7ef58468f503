use vstd::prelude::*;
use vstd::string::StringExecFns;

use crate::account_book::{
    adds_no_trade, continues, exchange_spec, fail, hold_spec, ledger, lemma_adds_no_trade_trans, lemma_continues_exchange,
    lemma_continues_hold, lemma_continues_trans, lemma_continues_unhold, publish_spec, publish_to, unhold_spec, AccountBook, BalanceError,
    Ledger,
};
use crate::dec::{
    checked_difference, checked_product, checked_quotient, dec_checked_div, dec_checked_mul, dec_checked_sub,
    dec_lt, dec_round_dp, difference_is_exact, lemma_pow10_pos, pow10, rounded, Dec,
};
use crate::enums::{OrderSide, OrderStatus, OrderType};
use crate::message::{MessageType, MessageTypeV, MessageV, OrderMessage, Outbox};
use crate::order::{Order, OrderV, Trade, TradeV};
use crate::product_book::{ProductBook, ProductV};

verus! {

/// The resting orders at one price.
#[derive(Debug)]
pub struct PriceLevel {
    pub price: Dec,
    pub orders: Vec<Order>,
}

/// The contents of a [`PriceLevel`].
pub struct LevelV {
    pub price: Dec,
    pub orders: Seq<OrderV>,
}

pub open spec fn orders_view(s: Seq<Order>) -> Seq<OrderV> {
    Seq::new(s.len(), |i: int| s[i]@)
}

pub open spec fn levels_view(s: Seq<PriceLevel>) -> Seq<LevelV> {
    Seq::new(s.len(), |i: int| s[i]@)
}

impl View for PriceLevel {
    type V = LevelV;

    open spec fn view(&self) -> LevelV {
        LevelV { price: self.price, orders: orders_view(self.orders@) }
    }
}

/// Price levels ordered by strictly increasing price.
pub open spec fn levels_sorted(s: Seq<LevelV>) -> bool {
    forall|i: int, j: int| 0 <= i < j < s.len() ==> s[i].price.val() < s[j].price.val()
}

/// A valid order of the side, at the price (by value) of the level it rests in.
pub open spec fn order_rests(o: OrderV, price: Dec, side: OrderSide) -> bool {
    &&& o.wf()
    &&& o.price.val() == price.val()
    &&& o.side == side
}

/// Sorted, non-empty levels at valid prices, each holding valid orders of the side at the
/// level's price.
pub open spec fn levels_wf(s: Seq<LevelV>, side: OrderSide) -> bool {
    &&& levels_sorted(s)
    &&& forall|i: int| 0 <= i < s.len() ==> (#[trigger] s[i]).orders.len() > 0 && s[i].price.wf()
    &&& forall|i: int, j: int|
        0 <= i < s.len() && 0 <= j < s[i].orders.len() ==> order_rests(#[trigger] s[i].orders[j], s[i].price, side)
}

/// A limit order; with `strict`, also one with size left that is not filled (a live
/// resting order).
pub open spec fn resting_ok(o: OrderV, strict: bool) -> bool {
    &&& o.order_type == OrderType::LIMIT
    &&& strict ==> o.remaining_size.val() > 0 && o.status != OrderStatus::FILLED
}

/// Every order of the levels passes [`resting_ok`].
pub open spec fn levels_ok(s: Seq<LevelV>, strict: bool) -> bool {
    forall|i: int, j: int| 0 <= i < s.len() && 0 <= j < s[i].orders.len() ==> resting_ok(#[trigger] s[i].orders[j], strict)
}

/// Every order of the levels is a limit order.
pub open spec fn levels_limit(s: Seq<LevelV>) -> bool {
    levels_ok(s, false)
}

/// Every order of the levels is live: a limit order with size left that is not filled.
pub open spec fn levels_live(s: Seq<LevelV>) -> bool {
    levels_ok(s, true)
}

/// The contents of an [`OrderBook`]: asks and bids both by increasing price, so the best
/// ask is first and the best bid is last.
#[verifier::ext_equal]
pub struct BookV {
    pub product_id: Seq<char>,
    pub asks: Seq<LevelV>,
    pub bids: Seq<LevelV>,
    pub order_sequence: u64,
    pub trade_sequence: u64,
    pub order_book_sequence: u64,
}

impl BookV {
    pub open spec fn wf(self) -> bool {
        levels_wf(self.asks, OrderSide::SELL) && levels_wf(self.bids, OrderSide::BUY)
    }

    /// Every bid is priced below every ask.
    pub open spec fn uncrossed(self) -> bool {
        self.asks.len() > 0 && self.bids.len() > 0 ==> self.bids.last().price.val() < self.asks[0].price.val()
    }
}

/// First position at or after `i` whose price is at least `p`.
pub open spec fn lower_bound(s: Seq<LevelV>, p: int, i: int) -> int
    decreases s.len() - i,
{
    if i < 0 || i >= s.len() || s[i].price.val() >= p {
        i
    } else {
        lower_bound(s, p, i + 1)
    }
}

/// First position at or after `j` holding the order id, or the length.
pub open spec fn find_id(s: Seq<OrderV>, id: Seq<char>, j: int) -> int
    decreases s.len() - j,
{
    if j < 0 || j >= s.len() || s[j].id == id {
        j
    } else {
        find_id(s, id, j + 1)
    }
}

/// Puts an order into a level: it replaces the order with the same id, or joins the end.
pub open spec fn orders_put(s: Seq<OrderV>, o: OrderV) -> Seq<OrderV> {
    let k = find_id(s, o.id, 0);
    if k < s.len() {
        s.update(k, o)
    } else {
        s.push(o)
    }
}

/// Adds an order at its price: into the level of equal price, or as a new level at its
/// place in the order.
pub open spec fn level_add(s: Seq<LevelV>, o: OrderV) -> Seq<LevelV> {
    let k = lower_bound(s, o.price.val(), 0);
    if k < s.len() && s[k].price.val() == o.price.val() {
        s.update(k, LevelV { price: s[k].price, orders: orders_put(s[k].orders, o) })
    } else {
        s.insert(k, LevelV { price: o.price, orders: seq![o] })
    }
}

/// Adds an order to the bids if it buys, else to the asks.
pub open spec fn add_order_spec(b: BookV, o: OrderV) -> BookV {
    if o.side == OrderSide::BUY {
        BookV { bids: level_add(b.bids, o), ..b }
    } else {
        BookV { asks: level_add(b.asks, o), ..b }
    }
}

proof fn lemma_lower_bound(s: Seq<LevelV>, p: int, i: int)
    requires
        levels_sorted(s),
        0 <= i <= s.len(),
        forall|j: int| 0 <= j < i ==> s[j].price.val() < p,
    ensures
        i <= lower_bound(s, p, i) <= s.len(),
        forall|j: int| 0 <= j < lower_bound(s, p, i) ==> s[j].price.val() < p,
        lower_bound(s, p, i) < s.len() ==> s[lower_bound(s, p, i)].price.val() >= p,
    decreases s.len() - i,
{
    if i < s.len() && s[i].price.val() < p {
        lemma_lower_bound(s, p, i + 1);
    }
}

proof fn lemma_find_id(s: Seq<OrderV>, id: Seq<char>, j: int)
    requires
        0 <= j <= s.len(),
    ensures
        j <= find_id(s, id, j) <= s.len(),
        find_id(s, id, j) < s.len() ==> s[find_id(s, id, j)].id == id,
        forall|k: int| j <= k < find_id(s, id, j) ==> s[k].id != id,
    decreases s.len() - j,
{
    if j < s.len() && s[j].id != id {
        lemma_find_id(s, id, j + 1);
    }
}

/// Adding an order at a price keeps the levels' lowest price the smaller of the old lowest
/// and the order's price, and their highest the larger.
proof fn lemma_level_add_ends(s: Seq<LevelV>, o: OrderV)
    requires
        levels_sorted(s),
    ensures
        level_add(s, o).len() > 0,
        level_add(s, o)[0].price.val() == if s.len() == 0 || o.price.val() < s[0].price.val() {
            o.price.val()
        } else {
            s[0].price.val()
        },
        level_add(s, o).last().price.val() == if s.len() == 0 || o.price.val() > s.last().price.val() {
            o.price.val()
        } else {
            s.last().price.val()
        },
{
    lemma_lower_bound(s, o.price.val(), 0);
    let k = lower_bound(s, o.price.val(), 0);
    let r = level_add(s, o);
    if k < s.len() && s[k].price.val() == o.price.val() {
        assert(r[0].price == s[0].price);
        assert(r.last().price == s.last().price);
        if k > 0 {
            assert(s[0].price.val() < o.price.val());
        }
        if k < s.len() - 1 {
            assert(s[k].price.val() < s.last().price.val());
        }
    } else {
        if k > 0 {
            assert(r[0] == s[0]);
            assert(s[0].price.val() < o.price.val());
        } else if s.len() > 0 {
            assert(s[0].price.val() > o.price.val());
        }
        if k < s.len() {
            assert(r.last() == s.last());
            assert(s[k].price.val() <= s.last().price.val());
        } else if s.len() > 0 {
            assert(s.last().price.val() < o.price.val());
        }
    }
}

proof fn lemma_level_add_wf(s: Seq<LevelV>, o: OrderV)
    requires
        levels_wf(s, o.side),
        o.wf(),
    ensures
        levels_wf(level_add(s, o), o.side),
{
    let side = o.side;
    lemma_lower_bound(s, o.price.val(), 0);
    let k = lower_bound(s, o.price.val(), 0);
    let r = level_add(s, o);
    if k < s.len() && s[k].price.val() == o.price.val() {
        let os = s[k].orders;
        lemma_find_id(os, o.id, 0);
        let no = orders_put(os, o);
        assert forall|j: int| 0 <= j < no.len() implies order_rests(#[trigger] no[j], s[k].price, side) by {
            if j < os.len() {
                assert(os[j] == s[k].orders[j]);
            }
        }
        assert forall|i: int, j: int| 0 <= i < r.len() && 0 <= j < r[i].orders.len() implies order_rests(#[trigger] r[i].orders[j], r[i].price, side) by {
            if i == k {
                assert(r[i].orders == no);
            } else {
                assert(r[i] == s[i]);
            }
        }
    } else {
        assert forall|i: int, j: int| 0 <= i < r.len() && 0 <= j < r[i].orders.len() implies order_rests(#[trigger] r[i].orders[j], r[i].price, side) by {
            if i < k {
                assert(r[i] == s[i]);
            } else if i > k {
                assert(r[i] == s[i - 1]);
            }
        }
        assert forall|i: int| 0 <= i < r.len() implies (#[trigger] r[i]).orders.len() > 0 && r[i].price.wf() by {
            if i < k {
                assert(r[i] == s[i]);
            } else if i > k {
                assert(r[i] == s[i - 1]);
            }
        }
        assert forall|i: int, j: int| 0 <= i < j < r.len() implies r[i].price.val() < r[j].price.val() by {
            if j < k {
            } else if j == k {
            } else if i < k {
                assert(r[j] == s[j - 1]);
            } else if i == k {
                assert(r[j] == s[j - 1]);
            } else {
                assert(r[i] == s[i - 1]);
                assert(r[j] == s[j - 1]);
            }
        }
    }
}


/// The state a match works on: balances and events, the taker, the book's counters, and
/// whether a settlement was refused (which ends the match).
#[verifier::ext_equal]
pub struct MatchState {
    pub ledger: Ledger,
    pub taker: OrderV,
    pub trade_sequence: u64,
    pub order_book_sequence: u64,
    pub error: bool,
}

/// Releases what an order still holds: its remaining funds in the quote currency for a buy,
/// its remaining size in the base currency for a sell; refusals are ignored.
pub open spec fn unhold_order_funds_spec(l: Ledger, o: OrderV, base: Seq<char>, quote: Seq<char>) -> Ledger {
    if o.side == OrderSide::BUY {
        if o.remaining_funds.val() > 0 {
            unhold_spec(l, o.user_id, quote, o.remaining_funds).0
        } else {
            l
        }
    } else {
        if o.remaining_size.val() > 0 {
            unhold_spec(l, o.user_id, base, o.remaining_size).0
        } else {
            l
        }
    }
}

pub open spec fn fail_ms(ms: MatchState) -> MatchState {
    MatchState { ledger: fail(ms.ledger), ..ms }
}

/// Matching the taker against the orders of one price level, from position `i` on, given
/// the makers kept so far and whether matching has stopped. Each fill is settled; a filled
/// maker leaves the level and releases what it still holds; every fill publishes the maker
/// and the trade. Matching stops once the taker is done or no fill happens; the makers not
/// reached stay as they are. Result: the state and the makers that remain, in order.
pub open spec fn level_spec(
    ms: MatchState,
    orders: Seq<OrderV>,
    i: int,
    kept: Seq<OrderV>,
    stopped: bool,
    product_id: Seq<char>,
    base: Seq<char>,
    quote: Seq<char>,
) -> (MatchState, Seq<OrderV>)
    decreases orders.len() - i,
{
    if i < 0 || i >= orders.len() || ms.ledger.fault || ms.error {
        (ms, kept)
    } else if stopped {
        level_spec(ms, orders, i + 1, kept.push(orders[i]), true, product_id, base, quote)
    } else {
        let maker = orders[i];
        let st = execute_trade_spec(ms.taker, maker, ms.trade_sequence, product_id);
        if st.fault {
            (fail_ms(ms), kept)
        } else {
            match st.trade {
                None => level_spec(ms, orders, i + 1, kept.push(maker), true, product_id, base, quote),
                Some(trade) => {
                    let (l1, rx) = exchange_spec(
                        ms.ledger,
                        ms.taker.user_id,
                        maker.user_id,
                        base,
                        quote,
                        ms.taker.side,
                        trade.size,
                        trade.funds,
                    );
                    let ms1 = MatchState { ledger: l1, taker: st.taker, trade_sequence: st.trade_sequence, ..ms };
                    if l1.fault {
                        (ms1, kept)
                    } else if rx is Err {
                        (MatchState { error: true, ..ms1 }, kept)
                    } else {
                        let filled = st.maker.status == OrderStatus::FILLED;
                        let l2 = if filled {
                            unhold_order_funds_spec(l1, st.maker, base, quote)
                        } else {
                            l1
                        };
                        if l2.fault || ms.order_book_sequence == u64::MAX {
                            (MatchState { ledger: fail(l2), ..ms1 }, kept)
                        } else {
                            let obs = (ms.order_book_sequence + 1) as u64;
                            let l3 = publish_spec(l2, MessageTypeV::Order(obs, st.maker));
                            let l4 = publish_spec(l3, MessageTypeV::Trade(trade));
                            let ms2 = MatchState {
                                ledger: l4,
                                taker: st.taker,
                                trade_sequence: st.trade_sequence,
                                order_book_sequence: obs,
                                error: false,
                            };
                            let kept2 = if filled {
                                kept
                            } else {
                                kept.push(st.maker)
                            };
                            level_spec(
                                ms2,
                                orders,
                                i + 1,
                                kept2,
                                st.taker.remaining_size.val() <= 0,
                                product_id,
                                base,
                                quote,
                            )
                        }
                    }
                },
            }
        }
    }
}

/// Matching the taker against the opposite side, best price first, while it has size left
/// and the best price crosses its limit. A level whose makers are all filled is removed and
/// matching goes on; otherwise what remains of it goes back and matching ends. A refused
/// settlement ends matching with the level removed.
pub open spec fn match_spec(
    ms: MatchState,
    asks: Seq<LevelV>,
    bids: Seq<LevelV>,
    is_buy: bool,
    product_id: Seq<char>,
    base: Seq<char>,
    quote: Seq<char>,
) -> (MatchState, Seq<LevelV>, Seq<LevelV>)
    decreases asks.len() + bids.len(),
{
    if ms.ledger.fault || ms.error || ms.taker.remaining_size.val() <= 0 {
        (ms, asks, bids)
    } else if is_buy {
        if asks.len() == 0 || !crossed(ms.taker, asks[0].price) {
            (ms, asks, bids)
        } else {
            let rest = asks.subrange(1, asks.len() as int);
            let (ms2, kept) = level_spec(ms, asks[0].orders, 0, seq![], false, product_id, base, quote);
            if ms2.ledger.fault || ms2.error {
                (ms2, rest, bids)
            } else if kept.len() > 0 {
                (ms2, rest.insert(0, LevelV { price: asks[0].price, orders: kept }), bids)
            } else {
                match_spec(ms2, rest, bids, is_buy, product_id, base, quote)
            }
        }
    } else {
        if bids.len() == 0 || !crossed(ms.taker, bids.last().price) {
            (ms, asks, bids)
        } else {
            let rest = bids.drop_last();
            let (ms2, kept) = level_spec(ms, bids.last().orders, 0, seq![], false, product_id, base, quote);
            if ms2.ledger.fault || ms2.error {
                (ms2, asks, rest)
            } else if kept.len() > 0 {
                (ms2, asks, rest.push(LevelV { price: bids.last().price, orders: kept }))
            } else {
                match_spec(ms2, asks, rest, is_buy, product_id, base, quote)
            }
        }
    }
}

/// Where a placement (see [`place_spec`]) reaches its matching: the state it matches from
/// and the product; `None` when it stops before (unknown product, exhausted counter,
/// funds that cannot be held).
pub open spec fn placement_match(l: Ledger, b: BookV, products: Map<Seq<char>, ProductV>, taker: OrderV) -> Option<(MatchState, ProductV)> {
    if l.fault || !products.contains_key(b.product_id) || b.order_sequence == u64::MAX {
        None
    } else {
        let product = products[b.product_id];
        let t1 = OrderV { sequence: (b.order_sequence + 1) as u64, ..taker };
        let (l1, ok) = if t1.side == OrderSide::BUY {
            hold_spec(l, t1.user_id, product.quote_currency, t1.remaining_funds)
        } else {
            hold_spec(l, t1.user_id, product.base_currency, t1.remaining_size)
        };
        if !ok {
            None
        } else {
            let t2 = OrderV { status: OrderStatus::RECEIVED, ..t1 };
            let l2 = publish_spec(l1, MessageTypeV::Order(b.order_book_sequence, t2));
            Some(
                (
                    MatchState {
                        ledger: l2,
                        taker: t2,
                        trade_sequence: b.trade_sequence,
                        order_book_sequence: b.order_book_sequence,
                        error: false,
                    },
                    product,
                ),
            )
        }
    }
}

/// The placement matches, each fill takes its size off the taker exactly, and no
/// settlement is refused.
pub open spec fn placement_fills_exactly(l: Ledger, b: BookV, products: Map<Seq<char>, ProductV>, taker: OrderV) -> bool {
    match placement_match(l, b, products, taker) {
        None => false,
        Some((ms, product)) => {
            &&& match_fills_exact(
                ms,
                b.asks,
                b.bids,
                taker.side == OrderSide::BUY,
                b.product_id,
                product.base_currency,
                product.quote_currency,
            )
            &&& !match_spec(
                ms,
                b.asks,
                b.bids,
                taker.side == OrderSide::BUY,
                b.product_id,
                product.base_currency,
                product.quote_currency,
            ).0.error
        }
    }
}

/// The events from position `n0` on end with the taker's order, and what the taker lost
/// in remaining size is what its trades add up to.
pub open spec fn taker_fills_add_up(taker: OrderV, msgs: Seq<MessageV>, n0: int) -> bool {
    &&& msgs.len() > n0
    &&& match msgs.last().message_type {
        MessageTypeV::Order(_, t) => t.id == taker.id && taker.remaining_size.val() - t.remaining_size.val()
            == traded_size(msgs.subrange(n0, msgs.len() as int)),
        _ => false,
    }
}

/// Placing an order (see the method [`OrderBook::place_order`]).
pub open spec fn place_spec(l: Ledger, b: BookV, products: Map<Seq<char>, ProductV>, taker: OrderV) -> (Ledger, BookV) {
    if l.fault || !products.contains_key(b.product_id) {
        (l, b)
    } else if b.order_sequence == u64::MAX {
        (fail(l), b)
    } else {
        let product = products[b.product_id];
        let b1 = BookV { order_sequence: (b.order_sequence + 1) as u64, ..b };
        let t1 = OrderV { sequence: b1.order_sequence, ..taker };
        let (l1, ok) = if t1.side == OrderSide::BUY {
            hold_spec(l, t1.user_id, product.quote_currency, t1.remaining_funds)
        } else {
            hold_spec(l, t1.user_id, product.base_currency, t1.remaining_size)
        };
        if !ok {
            let t2 = OrderV { status: OrderStatus::REJECTED, ..t1 };
            (publish_spec(l1, MessageTypeV::Order(b1.order_book_sequence, t2)), b1)
        } else {
            let t2 = OrderV { status: OrderStatus::RECEIVED, ..t1 };
            let l2 = publish_spec(l1, MessageTypeV::Order(b1.order_book_sequence, t2));
            let ms = MatchState {
                ledger: l2,
                taker: t2,
                trade_sequence: b1.trade_sequence,
                order_book_sequence: b1.order_book_sequence,
                error: false,
            };
            let (ms2, asks, bids) = match_spec(
                ms,
                b1.asks,
                b1.bids,
                t2.side == OrderSide::BUY,
                b.product_id,
                product.base_currency,
                product.quote_currency,
            );
            let b2 = BookV {
                asks,
                bids,
                trade_sequence: ms2.trade_sequence,
                order_book_sequence: ms2.order_book_sequence,
                ..b1
            };
            let t3 = ms2.taker;
            if ms2.ledger.fault || ms2.error {
                (ms2.ledger, b2)
            } else if t3.order_type == OrderType::LIMIT && t3.remaining_size.val() > 0 {
                if b2.order_book_sequence == u64::MAX {
                    (fail(ms2.ledger), b2)
                } else {
                    let t4 = OrderV { status: OrderStatus::OPEN, ..t3 };
                    let b3 = BookV { order_book_sequence: (b2.order_book_sequence + 1) as u64, ..b2 };
                    let b4 = add_order_spec(b3, t4);
                    (publish_spec(ms2.ledger, MessageTypeV::Order(b4.order_book_sequence, t4)), b4)
                }
            } else {
                let t4 = OrderV {
                    status: if t3.remaining_size.val() > 0 {
                        OrderStatus::CANCELLED
                    } else {
                        OrderStatus::FILLED
                    },
                    ..t3
                };
                let l3 = unhold_order_funds_spec(ms2.ledger, t4, product.base_currency, product.quote_currency);
                (publish_spec(l3, MessageTypeV::Order(b2.order_book_sequence, t4)), b2)
            }
        }
    }
}

/// A limit order that crosses nothing on the other side holds what it may spend and rests:
/// the accounts are left just as a hold of its remaining funds in the quote currency (a
/// buy) or of its remaining size in the base currency (a sell) leaves them, and the book is
/// the old one with the order added OPEN under the next sequence numbers.
pub proof fn an_uncrossed_limit_order_holds_and_rests(l: Ledger, b: BookV, products: Map<Seq<char>, ProductV>, taker: OrderV)
    requires
        placement_match(l, b, products, taker) is Some,
        taker.order_type == OrderType::LIMIT,
        taker.remaining_size.val() > 0,
        taker.side == OrderSide::BUY ==> b.asks.len() == 0 || !crossed(taker, b.asks[0].price),
        taker.side == OrderSide::SELL ==> b.bids.len() == 0 || !crossed(taker, b.bids.last().price),
        !place_spec(l, b, products, taker).0.fault,
    ensures
        ({
            let p = products[b.product_id];
            let held = if taker.side == OrderSide::BUY {
                hold_spec(l, taker.user_id, p.quote_currency, taker.remaining_funds)
            } else {
                hold_spec(l, taker.user_id, p.base_currency, taker.remaining_size)
            };
            let res = place_spec(l, b, products, taker);
            &&& held.1
            &&& res.0.accounts == held.0.accounts
            &&& res.1 == add_order_spec(
                BookV {
                    order_sequence: (b.order_sequence + 1) as u64,
                    order_book_sequence: (b.order_book_sequence + 1) as u64,
                    ..b
                },
                OrderV { sequence: (b.order_sequence + 1) as u64, status: OrderStatus::OPEN, ..taker },
            )
        }),
{
}

/// A placement that matches without a refused settlement ends by publishing the taker one
/// last time, in the state its remaining size calls for: a limit order with size left
/// rests OPEN; an order with no size left is FILLED; a market order with size left is
/// CANCELLED.
pub proof fn placement_closes_by_what_is_left(l: Ledger, b: BookV, products: Map<Seq<char>, ProductV>, taker: OrderV)
    requires
        b.wf(),
        placement_match(l, b, products, taker) is Some,
        ({
            let (ms, product) = placement_match(l, b, products, taker)->0;
            !match_spec(
                ms,
                b.asks,
                b.bids,
                taker.side == OrderSide::BUY,
                b.product_id,
                product.base_currency,
                product.quote_currency,
            ).0.error
        }),
        !place_spec(l, b, products, taker).0.fault,
    ensures
        place_spec(l, b, products, taker).0.messages.len() > 0,
        match place_spec(l, b, products, taker).0.messages.last().message_type {
            MessageTypeV::Order(_, t) => {
                &&& t.order_type == taker.order_type
                &&& (t.status == OrderStatus::OPEN <==> t.order_type == OrderType::LIMIT && t.remaining_size.val() > 0)
                &&& (t.status == OrderStatus::FILLED <==> t.remaining_size.val() <= 0)
                &&& (t.status == OrderStatus::CANCELLED <==> t.order_type == OrderType::MARKET
                    && t.remaining_size.val() > 0)
            },
            _ => false,
        },
{
    let product = products[b.product_id];
    let b1 = BookV { order_sequence: (b.order_sequence + 1) as u64, ..b };
    let t1 = OrderV { sequence: b1.order_sequence, ..taker };
    let (l1, ok) = if t1.side == OrderSide::BUY {
        hold_spec(l, t1.user_id, product.quote_currency, t1.remaining_funds)
    } else {
        hold_spec(l, t1.user_id, product.base_currency, t1.remaining_size)
    };
    let t2 = OrderV { status: OrderStatus::RECEIVED, ..t1 };
    let l2 = publish_spec(l1, MessageTypeV::Order(b1.order_book_sequence, t2));
    let ms = MatchState {
        ledger: l2,
        taker: t2,
        trade_sequence: b1.trade_sequence,
        order_book_sequence: b1.order_book_sequence,
        error: false,
    };
    lemma_match_within_limit(
        ms,
        b1.asks,
        b1.bids,
        t2.side == OrderSide::BUY,
        b.product_id,
        product.base_currency,
        product.quote_currency,
    );
    let (ms2, asks, bids) = match_spec(
        ms,
        b1.asks,
        b1.bids,
        t2.side == OrderSide::BUY,
        b.product_id,
        product.base_currency,
        product.quote_currency,
    );
    assert(placement_match(l, b, products, taker) == Some((ms, product)));
    let t3 = ms2.taker;
    assert(t3.order_type == taker.order_type);
}


proof fn lemma_levels_wf_subrange(s: Seq<LevelV>, a: int, b: int, side: OrderSide)
    requires
        levels_wf(s, side),
        0 <= a <= b <= s.len(),
    ensures
        levels_wf(s.subrange(a, b), side),
{
    let t = s.subrange(a, b);
    assert forall|i: int| 0 <= i < t.len() implies (#[trigger] t[i]).orders.len() > 0 && t[i].price.wf() by {
        assert(t[i] == s[i + a]);
    }
    assert forall|i: int, j: int| 0 <= i < t.len() && 0 <= j < t[i].orders.len() implies order_rests(#[trigger] t[i].orders[j], t[i].price, side) by {
        assert(t[i] == s[i + a]);
    }
    assert forall|i: int, j: int| 0 <= i < j < t.len() implies t[i].price.val() < t[j].price.val() by {
        assert(t[i] == s[i + a]);
        assert(t[j] == s[j + a]);
    }
}

/// Putting back what remains of the best ask keeps the asks well-formed.
proof fn lemma_levels_wf_front(s: Seq<LevelV>, kept: Seq<OrderV>, side: OrderSide)
    requires
        levels_wf(s, side),
        s.len() > 0,
        kept.len() > 0,
        forall|j: int| 0 <= j < kept.len() ==> order_rests(#[trigger] kept[j], s[0].price, side),
    ensures
        levels_wf(s.subrange(1, s.len() as int).insert(0, LevelV { price: s[0].price, orders: kept }), side),
{
    let t = s.subrange(1, s.len() as int).insert(0, LevelV { price: s[0].price, orders: kept });
    assert forall|i: int| 0 <= i < t.len() implies (#[trigger] t[i]).orders.len() > 0 && t[i].price.wf() by {
        if i > 0 {
            assert(t[i] == s[i]);
        }
    }
    assert forall|i: int, j: int| 0 <= i < t.len() && 0 <= j < t[i].orders.len() implies order_rests(#[trigger] t[i].orders[j], t[i].price, side) by {
        if i > 0 {
            assert(t[i] == s[i]);
        }
    }
    assert forall|i: int, j: int| 0 <= i < j < t.len() implies t[i].price.val() < t[j].price.val() by {
        assert(t[j] == s[j]);
        if i > 0 {
            assert(t[i] == s[i]);
        }
    }
}

/// Putting back what remains of the best bid keeps the bids well-formed.
proof fn lemma_levels_wf_back(s: Seq<LevelV>, kept: Seq<OrderV>, side: OrderSide)
    requires
        levels_wf(s, side),
        s.len() > 0,
        kept.len() > 0,
        forall|j: int| 0 <= j < kept.len() ==> order_rests(#[trigger] kept[j], s.last().price, side),
    ensures
        levels_wf(s.drop_last().push(LevelV { price: s.last().price, orders: kept }), side),
{
    let t = s.drop_last().push(LevelV { price: s.last().price, orders: kept });
    assert forall|i: int| 0 <= i < t.len() implies (#[trigger] t[i]).orders.len() > 0 && t[i].price.wf() by {
        if i < t.len() - 1 {
            assert(t[i] == s[i]);
        }
    }
    assert forall|i: int, j: int| 0 <= i < t.len() && 0 <= j < t[i].orders.len() implies order_rests(#[trigger] t[i].orders[j], t[i].price, side) by {
        if i < t.len() - 1 {
            assert(t[i] == s[i]);
        }
    }
    assert forall|i: int, j: int| 0 <= i < j < t.len() implies t[i].price.val() < t[j].price.val() by {
        assert(t[i] == s[i]);
        if j < t.len() - 1 {
            assert(t[j] == s[j]);
        }
    }
}

/// The makers that matching keeps in a level are orders of that level: they keep their
/// price and side, and (with `live`) they stay live orders.
#[verifier::spinoff_prover]
#[verifier::rlimit(40)]
proof fn lemma_level_kept_in_place(
    ms: MatchState,
    orders: Seq<OrderV>,
    i: int,
    kept: Seq<OrderV>,
    stopped: bool,
    product_id: Seq<char>,
    base: Seq<char>,
    quote: Seq<char>,
    price: Dec,
    side: OrderSide,
    live: bool,
    strict: bool,
)
    requires
        forall|j: int| 0 <= j < orders.len() ==> (#[trigger] orders[j]).price.val() == price.val() && orders[j].side == side && (live
            ==> resting_ok(orders[j], strict)),
        forall|j: int| 0 <= j < kept.len() ==> (#[trigger] kept[j]).price.val() == price.val() && kept[j].side == side && (live
            ==> resting_ok(kept[j], strict)),
    ensures
        forall|j: int|
            0 <= j < level_spec(ms, orders, i, kept, stopped, product_id, base, quote).1.len() ==> (#[trigger] level_spec(
                ms,
                orders,
                i,
                kept,
                stopped,
                product_id,
                base,
                quote,
            ).1[j]).price.val() == price.val() && level_spec(ms, orders, i, kept, stopped, product_id, base, quote).1[j].side
                == side && (live ==> resting_ok(level_spec(ms, orders, i, kept, stopped, product_id, base, quote).1[j], strict)),
    decreases orders.len() - i,
{
    if i < 0 || i >= orders.len() || ms.ledger.fault || ms.error {
    } else if stopped {
        let k2 = kept.push(orders[i]);
        assert forall|j: int| 0 <= j < k2.len() implies (#[trigger] k2[j]).price.val() == price.val() && k2[j].side == side && (live
            ==> resting_ok(k2[j], strict)) by {
            if j < kept.len() {
                assert(k2[j] == kept[j]);
            }
        }
        lemma_level_kept_in_place(ms, orders, i + 1, k2, true, product_id, base, quote, price, side, live, strict);
    } else {
        let maker = orders[i];
        let st = execute_trade_spec(ms.taker, maker, ms.trade_sequence, product_id);
        assert(st.maker.price == maker.price && st.maker.side == maker.side && st.maker.order_type == maker.order_type);
        if !st.fault {
            match st.trade {
                None => {
                    let k2 = kept.push(maker);
                    assert forall|j: int| 0 <= j < k2.len() implies (#[trigger] k2[j]).price.val() == price.val()
                        && k2[j].side == side && (live ==> resting_ok(k2[j], strict)) by {
                        if j < kept.len() {
                            assert(k2[j] == kept[j]);
                        }
                    }
                    lemma_level_kept_in_place(ms, orders, i + 1, k2, true, product_id, base, quote, price, side, live, strict);
                },
                Some(trade) => {
                    let (l1, rx) = exchange_spec(
                        ms.ledger,
                        ms.taker.user_id,
                        maker.user_id,
                        base,
                        quote,
                        ms.taker.side,
                        trade.size,
                        trade.funds,
                    );
                    let filled = st.maker.status == OrderStatus::FILLED;
                    let l2 = if filled {
                        unhold_order_funds_spec(l1, st.maker, base, quote)
                    } else {
                        l1
                    };
                    if !l1.fault && rx is Ok && !l2.fault && ms.order_book_sequence != u64::MAX {
                        let obs = (ms.order_book_sequence + 1) as u64;
                        let l3 = publish_spec(l2, MessageTypeV::Order(obs, st.maker));
                        let l4 = publish_spec(l3, MessageTypeV::Trade(trade));
                        let ms2 = MatchState {
                            ledger: l4,
                            taker: st.taker,
                            trade_sequence: st.trade_sequence,
                            order_book_sequence: obs,
                            error: false,
                        };
                        let k2 = if filled {
                            kept
                        } else {
                            kept.push(st.maker)
                        };
                        assert forall|j: int| 0 <= j < k2.len() implies (#[trigger] k2[j]).price.val() == price.val()
                            && k2[j].side == side && (live ==> resting_ok(k2[j], strict)) by {
                            if j < kept.len() {
                                assert(k2[j] == kept[j]);
                            }
                        }
                        lemma_level_kept_in_place(
                            ms2,
                            orders,
                            i + 1,
                            k2,
                            st.taker.remaining_size.val() <= 0,
                            product_id,
                            base,
                            quote,
                            price,
                            side,
                            live,
                            strict,
                        );
                    }
                },
            }
        }
    }
}

proof fn lemma_levels_ok_subrange(s: Seq<LevelV>, a: int, b: int, strict: bool)
    requires
        0 <= a <= b <= s.len(),
    ensures
        levels_ok(s, strict) ==> levels_ok(s.subrange(a, b), strict),
{
    let t = s.subrange(a, b);
    if levels_ok(s, strict) {
        assert forall|i: int, j: int| 0 <= i < t.len() && 0 <= j < t[i].orders.len() implies resting_ok(
            #[trigger] t[i].orders[j],
            strict,
        ) by {
            assert(t[i] == s[i + a]);
        }
    }
}

proof fn lemma_levels_ok_front(s: Seq<LevelV>, kept: Seq<OrderV>, strict: bool)
    requires
        levels_ok(s, strict),
        s.len() > 0,
        forall|j: int| 0 <= j < kept.len() ==> resting_ok(#[trigger] kept[j], strict),
    ensures
        levels_ok(s.subrange(1, s.len() as int).insert(0, LevelV { price: s[0].price, orders: kept }), strict),
{
    let t = s.subrange(1, s.len() as int).insert(0, LevelV { price: s[0].price, orders: kept });
    assert forall|i: int, j: int| 0 <= i < t.len() && 0 <= j < t[i].orders.len() implies resting_ok(
        #[trigger] t[i].orders[j],
        strict,
    ) by {
        if i > 0 {
            assert(t[i] == s[i]);
        }
    }
}

proof fn lemma_levels_ok_back(s: Seq<LevelV>, kept: Seq<OrderV>, strict: bool)
    requires
        levels_ok(s, strict),
        s.len() > 0,
        forall|j: int| 0 <= j < kept.len() ==> resting_ok(#[trigger] kept[j], strict),
    ensures
        levels_ok(s.drop_last().push(LevelV { price: s.last().price, orders: kept }), strict),
{
    let t = s.drop_last().push(LevelV { price: s.last().price, orders: kept });
    assert forall|i: int, j: int| 0 <= i < t.len() && 0 <= j < t[i].orders.len() implies resting_ok(
        #[trigger] t[i].orders[j],
        strict,
    ) by {
        if i < t.len() - 1 {
            assert(t[i] == s[i]);
        }
    }
}

/// What the trades among the events add up to in size, by value.
pub open spec fn traded_size(msgs: Seq<MessageV>) -> int
    decreases msgs.len(),
{
    if msgs.len() == 0 {
        0
    } else {
        traded_size(msgs.drop_last()) + match msgs.last().message_type {
            MessageTypeV::Trade(t) => t.size.val(),
            _ => 0,
        }
    }
}

proof fn lemma_traded_size_push(s: Seq<MessageV>, m: MessageV)
    ensures
        traded_size(s.push(m)) == traded_size(s) + match m.message_type {
            MessageTypeV::Trade(t) => t.size.val(),
            _ => 0,
        },
{
    assert(s.push(m).drop_last() =~= s);
}

/// The trades among the events that `l2` adds after position `n` of `l` are those among
/// the events of `l` after `n`, when `l2` continues `l` and adds no trade.
proof fn lemma_traded_size_no_trade(l: Ledger, l2: Ledger, n: int)
    requires
        continues(l, l2),
        adds_no_trade(l, l2),
        0 <= n <= l.messages.len(),
    ensures
        traded_size(l2.messages.subrange(n, l2.messages.len() as int)) == traded_size(
            l.messages.subrange(n, l.messages.len() as int),
        ),
    decreases l2.messages.len(),
{
    if l2.messages.len() == l.messages.len() {
        assert(l2.messages.subrange(n, l2.messages.len() as int) =~= l.messages.subrange(n, l.messages.len() as int));
    } else {
        let k = l2.messages.len() - 1;
        let l1 = Ledger { messages: l2.messages.drop_last(), sequence: (l2.sequence - 1) as u64, ..l2 };
        assert(continues(l, l1));
        assert(adds_no_trade(l, l1));
        lemma_traded_size_no_trade(l, l1, n);
        let s = l2.messages.subrange(n, l2.messages.len() as int);
        assert(s.drop_last() =~= l1.messages.subrange(n, l1.messages.len() as int));
        assert(!(l2.messages[k].message_type is Trade));
        assert(s.last() == l2.messages[k]);
    }
}

/// Each fill of the level's matching (see [`level_spec`]) takes its size off the taker's
/// remaining size exactly.
pub open spec fn level_fills_exact(
    ms: MatchState,
    orders: Seq<OrderV>,
    i: int,
    kept: Seq<OrderV>,
    stopped: bool,
    product_id: Seq<char>,
    base: Seq<char>,
    quote: Seq<char>,
) -> bool
    decreases orders.len() - i,
{
    if i < 0 || i >= orders.len() || ms.ledger.fault || ms.error {
        true
    } else if stopped {
        level_fills_exact(ms, orders, i + 1, kept.push(orders[i]), true, product_id, base, quote)
    } else {
        let maker = orders[i];
        let st = execute_trade_spec(ms.taker, maker, ms.trade_sequence, product_id);
        if st.fault {
            true
        } else {
            match st.trade {
                None => level_fills_exact(ms, orders, i + 1, kept.push(maker), true, product_id, base, quote),
                Some(trade) => {
                    let (l1, rx) = exchange_spec(
                        ms.ledger,
                        ms.taker.user_id,
                        maker.user_id,
                        base,
                        quote,
                        ms.taker.side,
                        trade.size,
                        trade.funds,
                    );
                    let filled = st.maker.status == OrderStatus::FILLED;
                    let l2 = if filled {
                        unhold_order_funds_spec(l1, st.maker, base, quote)
                    } else {
                        l1
                    };
                    &&& difference_is_exact(ms.taker.remaining_size, trade.size)
                    &&& (!l1.fault && rx is Ok && !l2.fault && ms.order_book_sequence != u64::MAX) ==> {
                        let obs = (ms.order_book_sequence + 1) as u64;
                        let l3 = publish_spec(l2, MessageTypeV::Order(obs, st.maker));
                        let l4 = publish_spec(l3, MessageTypeV::Trade(trade));
                        let ms2 = MatchState {
                            ledger: l4,
                            taker: st.taker,
                            trade_sequence: st.trade_sequence,
                            order_book_sequence: obs,
                            error: false,
                        };
                        let kept2 = if filled {
                            kept
                        } else {
                            kept.push(st.maker)
                        };
                        level_fills_exact(
                            ms2,
                            orders,
                            i + 1,
                            kept2,
                            st.taker.remaining_size.val() <= 0,
                            product_id,
                            base,
                            quote,
                        )
                    }
                },
            }
        }
    }
}

/// Each fill of the taker's matching (see [`match_spec`]) takes its size off the taker's
/// remaining size exactly.
pub open spec fn match_fills_exact(
    ms: MatchState,
    asks: Seq<LevelV>,
    bids: Seq<LevelV>,
    is_buy: bool,
    product_id: Seq<char>,
    base: Seq<char>,
    quote: Seq<char>,
) -> bool
    decreases asks.len() + bids.len(),
{
    if ms.ledger.fault || ms.error || ms.taker.remaining_size.val() <= 0 {
        true
    } else if is_buy {
        if asks.len() == 0 || !crossed(ms.taker, asks[0].price) {
            true
        } else {
            let rest = asks.subrange(1, asks.len() as int);
            let (ms2, kept) = level_spec(ms, asks[0].orders, 0, seq![], false, product_id, base, quote);
            &&& level_fills_exact(ms, asks[0].orders, 0, seq![], false, product_id, base, quote)
            &&& !(ms2.ledger.fault || ms2.error) && kept.len() == 0 ==> match_fills_exact(
                ms2,
                rest,
                bids,
                is_buy,
                product_id,
                base,
                quote,
            )
        }
    } else {
        if bids.len() == 0 || !crossed(ms.taker, bids.last().price) {
            true
        } else {
            let rest = bids.drop_last();
            let (ms2, kept) = level_spec(ms, bids.last().orders, 0, seq![], false, product_id, base, quote);
            &&& level_fills_exact(ms, bids.last().orders, 0, seq![], false, product_id, base, quote)
            &&& !(ms2.ledger.fault || ms2.error) && kept.len() == 0 ==> match_fills_exact(
                ms2,
                asks,
                rest,
                is_buy,
                product_id,
                base,
                quote,
            )
        }
    }
}

proof fn lemma_traded_size_concat(a: Seq<MessageV>, b: Seq<MessageV>)
    ensures
        traded_size(a + b) == traded_size(a) + traded_size(b),
    decreases b.len(),
{
    if b.len() == 0 {
        assert(a + b =~= a);
    } else {
        lemma_traded_size_concat(a, b.drop_last());
        assert((a + b).drop_last() =~= a + b.drop_last());
        assert((a + b).last() == b.last());
    }
}

/// The events after position `n0` of `l2`, which continues `l`, are those of `l` after
/// `n0` followed by those that `l2` adds; their trades add up accordingly.
proof fn lemma_traded_size_split(l: Ledger, l2: Ledger, n0: int)
    requires
        continues(l, l2),
        0 <= n0 <= l.messages.len(),
    ensures
        traded_size(l2.messages.subrange(n0, l2.messages.len() as int)) == traded_size(
            l.messages.subrange(n0, l.messages.len() as int),
        ) + traded_size(l2.messages.subrange(l.messages.len() as int, l2.messages.len() as int)),
{
    let n1 = l.messages.len() as int;
    let n2 = l2.messages.len() as int;
    assert(l2.messages.subrange(n0, n1) =~= l.messages.subrange(n0, n1));
    assert(l2.messages.subrange(n0, n2) =~= l2.messages.subrange(n0, n1) + l2.messages.subrange(n1, n2));
    lemma_traded_size_concat(l2.messages.subrange(n0, n1), l2.messages.subrange(n1, n2));
}

proof fn lemma_level_fault(
    ms: MatchState,
    orders: Seq<OrderV>,
    i: int,
    kept: Seq<OrderV>,
    stopped: bool,
    product_id: Seq<char>,
    base: Seq<char>,
    quote: Seq<char>,
)
    requires
        ms.ledger.fault,
    ensures
        level_spec(ms, orders, i, kept, stopped, product_id, base, quote) == (ms, kept),
{
}


/// First level at or after `i` that holds an order with the id, or the length.
pub open spec fn level_of(s: Seq<LevelV>, id: Seq<char>, i: int) -> int
    decreases s.len() - i,
{
    if i < 0 || i >= s.len() || find_id(s[i].orders, id, 0) < s[i].orders.len() {
        i
    } else {
        level_of(s, id, i + 1)
    }
}

/// The levels without the order at position `oi` of level `li`; a level left empty goes.
pub open spec fn take_order(s: Seq<LevelV>, li: int, oi: int) -> Seq<LevelV> {
    let rest = s[li].orders.remove(oi);
    if rest.len() == 0 {
        s.remove(li)
    } else {
        s.update(li, LevelV { price: s[li].price, orders: rest })
    }
}

/// The resting order with the id, searched in the asks and then the bids, and the book
/// without it.
pub open spec fn find_and_take(b: BookV, id: Seq<char>) -> Option<(OrderV, BookV)> {
    let ai = level_of(b.asks, id, 0);
    if ai < b.asks.len() {
        let oi = find_id(b.asks[ai].orders, id, 0);
        Some((b.asks[ai].orders[oi], BookV { asks: take_order(b.asks, ai, oi), ..b }))
    } else {
        let bi = level_of(b.bids, id, 0);
        if bi < b.bids.len() {
            let oi = find_id(b.bids[bi].orders, id, 0);
            Some((b.bids[bi].orders[oi], BookV { bids: take_order(b.bids, bi, oi), ..b }))
        } else {
            None
        }
    }
}

/// Cancelling a resting order: it leaves the book as CANCELLED, releases what it still
/// holds, and is published with the next book sequence number. An unknown id or an
/// unknown product changes nothing.
pub open spec fn cancel_spec(l: Ledger, b: BookV, products: Map<Seq<char>, ProductV>, id: Seq<char>) -> (Ledger, BookV) {
    if l.fault || !products.contains_key(b.product_id) {
        (l, b)
    } else {
        match find_and_take(b, id) {
            None => (l, b),
            Some((o, b1)) => {
                let product = products[b.product_id];
                let o2 = OrderV { status: OrderStatus::CANCELLED, ..o };
                let l1 = unhold_order_funds_spec(l, o2, product.base_currency, product.quote_currency);
                if l1.fault || b1.order_book_sequence == u64::MAX {
                    (fail(l1), b1)
                } else {
                    let b2 = BookV { order_book_sequence: (b1.order_book_sequence + 1) as u64, ..b1 };
                    (publish_spec(l1, MessageTypeV::Order(b2.order_book_sequence, o2)), b2)
                }
            },
        }
    }
}

/// Cancelling a resting order releases what it still holds, just as an unhold of that
/// amount does: a sell's remaining size in the base currency, a buy's remaining funds in
/// the quote currency, nothing when nothing is left; the order is published CANCELLED.
pub proof fn cancel_releases_what_the_order_holds(l: Ledger, b: BookV, products: Map<Seq<char>, ProductV>, id: Seq<char>)
    requires
        products.contains_key(b.product_id),
        find_and_take(b, id) is Some,
        !cancel_spec(l, b, products, id).0.fault,
    ensures
        ({
            let (o, _) = find_and_take(b, id)->0;
            let p = products[b.product_id];
            let res = cancel_spec(l, b, products, id).0;
            &&& o.side == OrderSide::SELL && o.remaining_size.val() > 0 ==> res.accounts == unhold_spec(
                l,
                o.user_id,
                p.base_currency,
                o.remaining_size,
            ).0.accounts
            &&& o.side == OrderSide::BUY && o.remaining_funds.val() > 0 ==> res.accounts == unhold_spec(
                l,
                o.user_id,
                p.quote_currency,
                o.remaining_funds,
            ).0.accounts
            &&& (if o.side == OrderSide::SELL {
                o.remaining_size.val() <= 0
            } else {
                o.remaining_funds.val() <= 0
            }) ==> res.accounts == l.accounts
            &&& res.messages.len() > 0
            &&& res.messages.last().message_type matches MessageTypeV::Order(_, o2) && o2.id == o.id && o2.status
                == OrderStatus::CANCELLED && o2.remaining_size == o.remaining_size && o2.remaining_funds
                == o.remaining_funds
        }),
{
}

proof fn lemma_level_of(s: Seq<LevelV>, id: Seq<char>, i: int)
    requires
        0 <= i <= s.len(),
    ensures
        i <= level_of(s, id, i) <= s.len(),
        level_of(s, id, i) < s.len() ==> find_id(s[level_of(s, id, i)].orders, id, 0) < s[level_of(s, id, i)].orders.len(),
    decreases s.len() - i,
{
    if i < s.len() && find_id(s[i].orders, id, 0) >= s[i].orders.len() {
        lemma_level_of(s, id, i + 1);
    }
}

proof fn lemma_take_order_wf(s: Seq<LevelV>, li: int, oi: int, side: OrderSide)
    requires
        levels_wf(s, side),
        0 <= li < s.len(),
        0 <= oi < s[li].orders.len(),
    ensures
        levels_wf(take_order(s, li, oi), side),
{
    let rest = s[li].orders.remove(oi);
    let t = take_order(s, li, oi);
    if rest.len() == 0 {
        assert forall|i: int| 0 <= i < t.len() implies (#[trigger] t[i]).orders.len() > 0 && t[i].price.wf() by {
            if i < li {
                assert(t[i] == s[i]);
            } else {
                assert(t[i] == s[i + 1]);
            }
        }
        assert forall|i: int, j: int| 0 <= i < t.len() && 0 <= j < t[i].orders.len() implies order_rests(#[trigger] t[i].orders[j], t[i].price, side) by {
            if i < li {
                assert(t[i] == s[i]);
            } else {
                assert(t[i] == s[i + 1]);
            }
        }
        assert forall|i: int, j: int| 0 <= i < j < t.len() implies t[i].price.val() < t[j].price.val() by {
            if j < li {
                assert(t[i] == s[i] && t[j] == s[j]);
            } else if i < li {
                assert(t[i] == s[i] && t[j] == s[j + 1]);
            } else {
                assert(t[i] == s[i + 1] && t[j] == s[j + 1]);
            }
        }
    } else {
        assert forall|j: int| 0 <= j < rest.len() implies order_rests(#[trigger] rest[j], s[li].price, side) by {
            if j < oi {
                assert(rest[j] == s[li].orders[j]);
            } else {
                assert(rest[j] == s[li].orders[j + 1]);
            }
        }
        assert forall|i: int| 0 <= i < t.len() implies (#[trigger] t[i]).orders.len() > 0 && t[i].price.wf() by {
            if i != li {
                assert(t[i] == s[i]);
            }
        }
        assert forall|i: int, j: int| 0 <= i < t.len() && 0 <= j < t[i].orders.len() implies order_rests(#[trigger] t[i].orders[j], t[i].price, side) by {
            if i != li {
                assert(t[i] == s[i]);
            } else {
                assert(t[i].orders == rest);
            }
        }
        assert forall|i: int, j: int| 0 <= i < j < t.len() implies t[i].price.val() < t[j].price.val() by {
            assert(t[i].price == s[i].price && t[j].price == s[j].price);
        }
    }
}

proof fn lemma_take_order_ends(s: Seq<LevelV>, li: int, oi: int)
    requires
        levels_sorted(s),
        0 <= li < s.len(),
        0 <= oi < s[li].orders.len(),
    ensures
        ({
            let t = take_order(s, li, oi);
            t.len() > 0 ==> t[0].price.val() >= s[0].price.val() && t.last().price.val() <= s.last().price.val()
        }),
{
    let t = take_order(s, li, oi);
    let rest = s[li].orders.remove(oi);
    if rest.len() == 0 {
        if t.len() > 0 {
            if li == 0 {
                assert(t[0] == s[1]);
            } else {
                assert(t[0] == s[0]);
            }
            if li == s.len() - 1 {
                assert(t.last() == s[s.len() - 2]);
            } else {
                assert(t.last() == s.last());
            }
        }
    } else {
        assert(t[0].price == s[0].price);
        assert(t.last().price == s.last().price);
    }
}

proof fn lemma_lower_bound_range(s: Seq<LevelV>, p: int, i: int)
    requires
        0 <= i <= s.len(),
    ensures
        i <= lower_bound(s, p, i) <= s.len(),
    decreases s.len() - i,
{
    if i < s.len() && s[i].price.val() < p {
        lemma_lower_bound_range(s, p, i + 1);
    }
}

proof fn lemma_level_add_resting(s: Seq<LevelV>, o: OrderV, strict: bool)
    requires
        levels_ok(s, strict),
        resting_ok(o, strict),
    ensures
        levels_ok(level_add(s, o), strict),
{
    lemma_lower_bound_range(s, o.price.val(), 0);
    let k = lower_bound(s, o.price.val(), 0);
    let r = level_add(s, o);
    if k < s.len() && s[k].price.val() == o.price.val() {
        let os = s[k].orders;
        lemma_find_id(os, o.id, 0);
        let no = orders_put(os, o);
        assert forall|j: int| 0 <= j < no.len() implies resting_ok(#[trigger] no[j], strict) by {
            if j < os.len() {
                assert(os[j] == s[k].orders[j]);
            }
        }
        assert forall|i: int, j: int| 0 <= i < r.len() && 0 <= j < r[i].orders.len() implies resting_ok(
            #[trigger] r[i].orders[j], strict,
        ) by {
            if i == k {
                assert(r[i].orders == no);
            } else {
                assert(r[i] == s[i]);
            }
        }
    } else {
        assert forall|i: int, j: int| 0 <= i < r.len() && 0 <= j < r[i].orders.len() implies resting_ok(
            #[trigger] r[i].orders[j], strict,
        ) by {
            if i < k {
                assert(r[i] == s[i]);
            } else if i > k {
                assert(r[i] == s[i - 1]);
            }
        }
    }
}

proof fn lemma_take_order_resting(s: Seq<LevelV>, li: int, oi: int, strict: bool)
    requires
        levels_ok(s, strict),
        0 <= li < s.len(),
        0 <= oi < s[li].orders.len(),
    ensures
        levels_ok(take_order(s, li, oi), strict),
{
    let rest = s[li].orders.remove(oi);
    let t = take_order(s, li, oi);
    if rest.len() == 0 {
        assert forall|i: int, j: int| 0 <= i < t.len() && 0 <= j < t[i].orders.len() implies resting_ok(
            #[trigger] t[i].orders[j], strict,
        ) by {
            if i < li {
                assert(t[i] == s[i]);
            } else {
                assert(t[i] == s[i + 1]);
            }
        }
    } else {
        assert forall|i: int, j: int| 0 <= i < t.len() && 0 <= j < t[i].orders.len() implies resting_ok(
            #[trigger] t[i].orders[j], strict,
        ) by {
            if i != li {
                assert(t[i] == s[i]);
            } else {
                assert(t[i].orders == rest);
                if j < oi {
                    assert(rest[j] == s[li].orders[j]);
                } else {
                    assert(rest[j] == s[li].orders[j + 1]);
                }
            }
        }
    }
}

#[verifier::spinoff_prover]
#[verifier::rlimit(40)]
proof fn lemma_match_keeps_resting(
    ms: MatchState,
    asks: Seq<LevelV>,
    bids: Seq<LevelV>,
    is_buy: bool,
    product_id: Seq<char>,
    base: Seq<char>,
    quote: Seq<char>,
    strict: bool,
)
    requires
        levels_wf(asks, OrderSide::SELL),
        levels_wf(bids, OrderSide::BUY),
        levels_ok(asks, strict),
        levels_ok(bids, strict),
    ensures
        levels_ok(match_spec(ms, asks, bids, is_buy, product_id, base, quote).1, strict),
        levels_ok(match_spec(ms, asks, bids, is_buy, product_id, base, quote).2, strict),
    decreases asks.len() + bids.len(),
{
    if ms.ledger.fault || ms.error || ms.taker.remaining_size.val() <= 0 {
    } else if is_buy {
        if asks.len() == 0 || !crossed(ms.taker, asks[0].price) {
        } else {
            let rest = asks.subrange(1, asks.len() as int);
            lemma_levels_wf_subrange(asks, 1, asks.len() as int, OrderSide::SELL);
            assert forall|i: int, j: int| 0 <= i < rest.len() && 0 <= j < rest[i].orders.len() implies resting_ok(
                #[trigger] rest[i].orders[j], strict,
            ) by {
                assert(rest[i] == asks[i + 1]);
            }
            let os = asks[0].orders;
            assert forall|j: int| 0 <= j < os.len() implies (#[trigger] os[j]).price.val() == asks[0].price.val()
                && os[j].side == OrderSide::SELL && (true ==> resting_ok(os[j], strict)) by {
                assert(order_rests(asks[0].orders[j], asks[0].price, OrderSide::SELL));
                assert(resting_ok(asks[0].orders[j], strict));
            }
            lemma_level_kept_in_place(ms, os, 0, seq![], false, product_id, base, quote, asks[0].price, OrderSide::SELL, true, strict);
            let (ms2, kept) = level_spec(ms, os, 0, seq![], false, product_id, base, quote);
            if ms2.ledger.fault || ms2.error {
            } else if kept.len() > 0 {
                let t = rest.insert(0, LevelV { price: asks[0].price, orders: kept });
                assert forall|i: int, j: int| 0 <= i < t.len() && 0 <= j < t[i].orders.len() implies resting_ok(
                    #[trigger] t[i].orders[j], strict,
                ) by {
                    if i == 0 {
                        assert(t[0].orders == kept);
                    } else {
                        assert(t[i] == rest[i - 1]);
                    }
                }
            } else {
                lemma_match_keeps_resting(ms2, rest, bids, is_buy, product_id, base, quote, strict);
            }
        }
    } else {
        if bids.len() == 0 || !crossed(ms.taker, bids.last().price) {
        } else {
            let rest = bids.drop_last();
            lemma_levels_wf_subrange(bids, 0, bids.len() - 1, OrderSide::BUY);
            assert(rest =~= bids.subrange(0, bids.len() - 1));
            assert forall|i: int, j: int| 0 <= i < rest.len() && 0 <= j < rest[i].orders.len() implies resting_ok(
                #[trigger] rest[i].orders[j], strict,
            ) by {
                assert(rest[i] == bids[i]);
            }
            let n = bids.len() - 1;
            let os = bids[n].orders;
            assert forall|j: int| 0 <= j < os.len() implies (#[trigger] os[j]).price.val() == bids[n].price.val()
                && os[j].side == OrderSide::BUY && (true ==> resting_ok(os[j], strict)) by {
                assert(order_rests(bids[n].orders[j], bids[n].price, OrderSide::BUY));
                assert(resting_ok(bids[n].orders[j], strict));
            }
            lemma_level_kept_in_place(ms, os, 0, seq![], false, product_id, base, quote, bids[n].price, OrderSide::BUY, true, strict);
            let (ms2, kept) = level_spec(ms, os, 0, seq![], false, product_id, base, quote);
            if ms2.ledger.fault || ms2.error {
            } else if kept.len() > 0 {
                let t = rest.push(LevelV { price: bids[n].price, orders: kept });
                assert forall|i: int, j: int| 0 <= i < t.len() && 0 <= j < t[i].orders.len() implies resting_ok(
                    #[trigger] t[i].orders[j], strict,
                ) by {
                    if i == t.len() - 1 {
                        assert(t[i].orders == kept);
                    } else {
                        assert(t[i] == rest[i]);
                    }
                }
            } else {
                lemma_match_keeps_resting(ms2, asks, rest, is_buy, product_id, base, quote, strict);
            }
        }
    }
}

proof fn lemma_place_keeps_resting(l: Ledger, b: BookV, products: Map<Seq<char>, ProductV>, taker: OrderV, strict: bool)
    requires
        b.wf(),
        levels_ok(b.asks, strict),
        levels_ok(b.bids, strict),
    ensures
        levels_ok(place_spec(l, b, products, taker).1.asks, strict),
        levels_ok(place_spec(l, b, products, taker).1.bids, strict),
{
    if l.fault || !products.contains_key(b.product_id) {
    } else if b.order_sequence == u64::MAX {
    } else {
        let product = products[b.product_id];
        let b1 = BookV { order_sequence: (b.order_sequence + 1) as u64, ..b };
        let t1 = OrderV { sequence: b1.order_sequence, ..taker };
        let (l1, ok) = if t1.side == OrderSide::BUY {
            hold_spec(l, t1.user_id, product.quote_currency, t1.remaining_funds)
        } else {
            hold_spec(l, t1.user_id, product.base_currency, t1.remaining_size)
        };
        if ok {
            let t2 = OrderV { status: OrderStatus::RECEIVED, ..t1 };
            let l2 = publish_spec(l1, MessageTypeV::Order(b1.order_book_sequence, t2));
            let ms = MatchState {
                ledger: l2,
                taker: t2,
                trade_sequence: b1.trade_sequence,
                order_book_sequence: b1.order_book_sequence,
                error: false,
            };
            lemma_match_keeps_resting(
                ms,
                b1.asks,
                b1.bids,
                t2.side == OrderSide::BUY,
                b.product_id,
                product.base_currency,
                product.quote_currency,
                strict,
            );
            let (ms2, asks, bids) = match_spec(
                ms,
                b1.asks,
                b1.bids,
                t2.side == OrderSide::BUY,
                b.product_id,
                product.base_currency,
                product.quote_currency,
            );
            let t3 = ms2.taker;
            if !(ms2.ledger.fault || ms2.error) && t3.order_type == OrderType::LIMIT && t3.remaining_size.val() > 0 {
                let t4 = OrderV { status: OrderStatus::OPEN, ..t3 };
                lemma_level_add_resting(asks, t4, strict);
                lemma_level_add_resting(bids, t4, strict);
            }
        }
    }
}

proof fn lemma_cancel_keeps_resting(l: Ledger, b: BookV, products: Map<Seq<char>, ProductV>, id: Seq<char>, strict: bool)
    requires
        levels_ok(b.asks, strict),
        levels_ok(b.bids, strict),
    ensures
        levels_ok(cancel_spec(l, b, products, id).1.asks, strict),
        levels_ok(cancel_spec(l, b, products, id).1.bids, strict),
{
    let ai = level_of(b.asks, id, 0);
    lemma_level_of(b.asks, id, 0);
    if ai < b.asks.len() {
        lemma_find_id(b.asks[ai].orders, id, 0);
        lemma_take_order_resting(b.asks, ai, find_id(b.asks[ai].orders, id, 0), strict);
    } else {
        let bi = level_of(b.bids, id, 0);
        lemma_level_of(b.bids, id, 0);
        if bi < b.bids.len() {
            lemma_find_id(b.bids[bi].orders, id, 0);
            lemma_take_order_resting(b.bids, bi, find_id(b.bids[bi].orders, id, 0), strict);
        }
    }
}

/// Placing an order keeps every resting order live: each is a limit order with size left
/// and is not filled, so a filled order never stays in the book.
pub proof fn place_keeps_resting_orders_live(l: Ledger, b: BookV, products: Map<Seq<char>, ProductV>, taker: OrderV)
    requires
        b.wf(),
        levels_live(b.asks),
        levels_live(b.bids),
    ensures
        levels_live(place_spec(l, b, products, taker).1.asks),
        levels_live(place_spec(l, b, products, taker).1.bids),
{
    lemma_place_keeps_resting(l, b, products, taker, true);
}

/// No market order ever rests in the book: placing an order on a book of limit orders
/// leaves only limit orders resting.
pub proof fn place_keeps_market_orders_out(l: Ledger, b: BookV, products: Map<Seq<char>, ProductV>, taker: OrderV)
    requires
        b.wf(),
        levels_limit(b.asks),
        levels_limit(b.bids),
    ensures
        levels_limit(place_spec(l, b, products, taker).1.asks),
        levels_limit(place_spec(l, b, products, taker).1.bids),
{
    lemma_place_keeps_resting(l, b, products, taker, false);
}

/// Cancelling an order keeps every resting order live.
pub proof fn cancel_keeps_resting_orders_live(l: Ledger, b: BookV, products: Map<Seq<char>, ProductV>, id: Seq<char>)
    requires
        levels_live(b.asks),
        levels_live(b.bids),
    ensures
        levels_live(cancel_spec(l, b, products, id).1.asks),
        levels_live(cancel_spec(l, b, products, id).1.bids),
{
    lemma_cancel_keeps_resting(l, b, products, id, true);
}

/// Cancelling an order leaves only limit orders resting in a book of limit orders.
pub proof fn cancel_keeps_market_orders_out(l: Ledger, b: BookV, products: Map<Seq<char>, ProductV>, id: Seq<char>)
    requires
        levels_limit(b.asks),
        levels_limit(b.bids),
    ensures
        levels_limit(cancel_spec(l, b, products, id).1.asks),
        levels_limit(cancel_spec(l, b, products, id).1.bids),
{
    lemma_cancel_keeps_resting(l, b, products, id, false);
}

proof fn lemma_continues_unhold_order_funds(l: Ledger, o: OrderV, base: Seq<char>, quote: Seq<char>)
    ensures
        continues(l, unhold_order_funds_spec(l, o, base, quote)),
        adds_no_trade(l, unhold_order_funds_spec(l, o, base, quote)),
{
    lemma_continues_unhold(l, o.user_id, quote, o.remaining_funds);
    lemma_continues_unhold(l, o.user_id, base, o.remaining_size);
}

#[verifier::spinoff_prover]
#[verifier::rlimit(40)]
proof fn lemma_continues_level(
    ms: MatchState,
    orders: Seq<OrderV>,
    i: int,
    kept: Seq<OrderV>,
    stopped: bool,
    product_id: Seq<char>,
    base: Seq<char>,
    quote: Seq<char>,
)
    ensures
        continues(ms.ledger, level_spec(ms, orders, i, kept, stopped, product_id, base, quote).0.ledger),
    decreases orders.len() - i,
{
    if i < 0 || i >= orders.len() || ms.ledger.fault || ms.error {
    } else if stopped {
        lemma_continues_level(ms, orders, i + 1, kept.push(orders[i]), true, product_id, base, quote);
    } else {
        let maker = orders[i];
        let st = execute_trade_spec(ms.taker, maker, ms.trade_sequence, product_id);
        if !st.fault {
            match st.trade {
                None => {
                    lemma_continues_level(ms, orders, i + 1, kept.push(maker), true, product_id, base, quote);
                },
                Some(trade) => {
                    let (l1, rx) = exchange_spec(
                        ms.ledger,
                        ms.taker.user_id,
                        maker.user_id,
                        base,
                        quote,
                        ms.taker.side,
                        trade.size,
                        trade.funds,
                    );
                    lemma_continues_exchange(
                        ms.ledger,
                        ms.taker.user_id,
                        maker.user_id,
                        base,
                        quote,
                        ms.taker.side,
                        trade.size,
                        trade.funds,
                    );
                    let filled = st.maker.status == OrderStatus::FILLED;
                    let l2 = if filled {
                        unhold_order_funds_spec(l1, st.maker, base, quote)
                    } else {
                        l1
                    };
                    lemma_continues_unhold_order_funds(l1, st.maker, base, quote);
                    lemma_continues_trans(ms.ledger, l1, l2);
                    if !l1.fault && rx is Ok && !l2.fault && ms.order_book_sequence != u64::MAX {
                        let obs = (ms.order_book_sequence + 1) as u64;
                        let l3 = publish_spec(l2, MessageTypeV::Order(obs, st.maker));
                        let l4 = publish_spec(l3, MessageTypeV::Trade(trade));
                        let ms2 = MatchState {
                            ledger: l4,
                            taker: st.taker,
                            trade_sequence: st.trade_sequence,
                            order_book_sequence: obs,
                            error: false,
                        };
                        let k2 = if filled {
                            kept
                        } else {
                            kept.push(st.maker)
                        };
                        lemma_continues_trans(ms.ledger, l2, l3);
                        lemma_continues_trans(ms.ledger, l3, l4);
                        lemma_continues_level(
                            ms2,
                            orders,
                            i + 1,
                            k2,
                            st.taker.remaining_size.val() <= 0,
                            product_id,
                            base,
                            quote,
                        );
                        lemma_continues_trans(
                            ms.ledger,
                            l4,
                            level_spec(ms2, orders, i + 1, k2, st.taker.remaining_size.val() <= 0, product_id, base, quote).0.ledger,
                        );
                    }
                },
            }
        }
    }
}

proof fn lemma_continues_match(
    ms: MatchState,
    asks: Seq<LevelV>,
    bids: Seq<LevelV>,
    is_buy: bool,
    product_id: Seq<char>,
    base: Seq<char>,
    quote: Seq<char>,
)
    ensures
        continues(ms.ledger, match_spec(ms, asks, bids, is_buy, product_id, base, quote).0.ledger),
    decreases asks.len() + bids.len(),
{
    if ms.ledger.fault || ms.error || ms.taker.remaining_size.val() <= 0 {
    } else if is_buy {
        if asks.len() == 0 || !crossed(ms.taker, asks[0].price) {
        } else {
            let rest = asks.subrange(1, asks.len() as int);
            let (ms2, kept) = level_spec(ms, asks[0].orders, 0, seq![], false, product_id, base, quote);
            lemma_continues_level(ms, asks[0].orders, 0, seq![], false, product_id, base, quote);
            if !(ms2.ledger.fault || ms2.error) && kept.len() == 0 {
                lemma_continues_match(ms2, rest, bids, is_buy, product_id, base, quote);
                lemma_continues_trans(
                    ms.ledger,
                    ms2.ledger,
                    match_spec(ms2, rest, bids, is_buy, product_id, base, quote).0.ledger,
                );
            }
        }
    } else {
        if bids.len() == 0 || !crossed(ms.taker, bids.last().price) {
        } else {
            let rest = bids.drop_last();
            let (ms2, kept) = level_spec(ms, bids.last().orders, 0, seq![], false, product_id, base, quote);
            lemma_continues_level(ms, bids.last().orders, 0, seq![], false, product_id, base, quote);
            if !(ms2.ledger.fault || ms2.error) && kept.len() == 0 {
                lemma_continues_match(ms2, asks, rest, is_buy, product_id, base, quote);
                lemma_continues_trans(
                    ms.ledger,
                    ms2.ledger,
                    match_spec(ms2, asks, rest, is_buy, product_id, base, quote).0.ledger,
                );
            }
        }
    }
}

/// An event within the taker's limit: a trade at a price the taker accepts (any price for
/// a market order; no more than its price for a limit buy, no less for a limit sell).
pub open spec fn within_limit(mt: MessageTypeV, taker: OrderV) -> bool {
    match mt {
        MessageTypeV::Trade(t) => crossed(taker, t.price),
        _ => true,
    }
}

/// Every event that `l2` adds after those of `l` is within the taker's limit.
pub open spec fn trades_within_limit(l: Ledger, l2: Ledger, taker: OrderV) -> bool {
    forall|i: int| l.messages.len() <= i < l2.messages.len() ==> within_limit(#[trigger] l2.messages[i].message_type, taker)
}

proof fn lemma_no_trade_within_limit(a: Ledger, b: Ledger, t: OrderV)
    requires
        adds_no_trade(a, b),
    ensures
        trades_within_limit(a, b, t),
{
    assert forall|i: int| a.messages.len() <= i < b.messages.len() implies within_limit(#[trigger] b.messages[i].message_type, t) by {
        assert(!(b.messages[i].message_type is Trade));
    }
}

proof fn lemma_within_limit_trans(a: Ledger, b: Ledger, c: Ledger, t: OrderV)
    requires
        continues(a, b),
        continues(b, c),
        trades_within_limit(a, b, t),
        trades_within_limit(b, c, t),
    ensures
        trades_within_limit(a, c, t),
{
    assert forall|i: int| a.messages.len() <= i < c.messages.len() implies within_limit(#[trigger] c.messages[i].message_type, t) by {
        if i < b.messages.len() {
            assert(c.messages[i] == b.messages[i]);
        }
    }
}

proof fn lemma_within_limit_same_taker(a: Ledger, b: Ledger, t: OrderV, t2: OrderV)
    requires
        trades_within_limit(a, b, t),
        t2.order_type == t.order_type,
        t2.side == t.side,
        t2.price == t.price,
    ensures
        trades_within_limit(a, b, t2),
{
    assert forall|i: int| a.messages.len() <= i < b.messages.len() implies within_limit(#[trigger] b.messages[i].message_type, t2) by {
        assert(within_limit(b.messages[i].message_type, t));
    }
}

#[verifier::spinoff_prover]
#[verifier::rlimit(40)]
proof fn lemma_level_within_limit(
    ms: MatchState,
    orders: Seq<OrderV>,
    i: int,
    kept: Seq<OrderV>,
    stopped: bool,
    product_id: Seq<char>,
    base: Seq<char>,
    quote: Seq<char>,
)
    requires
        forall|j: int| 0 <= j < orders.len() ==> crossed(ms.taker, (#[trigger] orders[j]).price),
    ensures
        trades_within_limit(ms.ledger, level_spec(ms, orders, i, kept, stopped, product_id, base, quote).0.ledger, ms.taker),
        level_spec(ms, orders, i, kept, stopped, product_id, base, quote).0.taker.order_type == ms.taker.order_type,
        level_spec(ms, orders, i, kept, stopped, product_id, base, quote).0.taker.side == ms.taker.side,
        level_spec(ms, orders, i, kept, stopped, product_id, base, quote).0.taker.price == ms.taker.price,
    decreases orders.len() - i,
{
    if i < 0 || i >= orders.len() || ms.ledger.fault || ms.error {
    } else if stopped {
        lemma_level_within_limit(ms, orders, i + 1, kept.push(orders[i]), true, product_id, base, quote);
    } else {
        let maker = orders[i];
        let st = execute_trade_spec(ms.taker, maker, ms.trade_sequence, product_id);
        assert(st.taker.order_type == ms.taker.order_type && st.taker.side == ms.taker.side && st.taker.price
            == ms.taker.price);
        if !st.fault {
            match st.trade {
                None => {
                    lemma_level_within_limit(ms, orders, i + 1, kept.push(maker), true, product_id, base, quote);
                },
                Some(trade) => {
                    assert(trade.price == maker.price);
                    let (l1, rx) = exchange_spec(
                        ms.ledger,
                        ms.taker.user_id,
                        maker.user_id,
                        base,
                        quote,
                        ms.taker.side,
                        trade.size,
                        trade.funds,
                    );
                    lemma_continues_exchange(
                        ms.ledger,
                        ms.taker.user_id,
                        maker.user_id,
                        base,
                        quote,
                        ms.taker.side,
                        trade.size,
                        trade.funds,
                    );
                    lemma_no_trade_within_limit(ms.ledger, l1, ms.taker);
                    let filled = st.maker.status == OrderStatus::FILLED;
                    let l2 = if filled {
                        unhold_order_funds_spec(l1, st.maker, base, quote)
                    } else {
                        l1
                    };
                    lemma_continues_unhold_order_funds(l1, st.maker, base, quote);
                    lemma_no_trade_within_limit(l1, l2, ms.taker);
                    lemma_continues_trans(ms.ledger, l1, l2);
                    lemma_within_limit_trans(ms.ledger, l1, l2, ms.taker);
                    if !l1.fault && rx is Ok && !l2.fault && ms.order_book_sequence != u64::MAX {
                        let obs = (ms.order_book_sequence + 1) as u64;
                        let l3 = publish_spec(l2, MessageTypeV::Order(obs, st.maker));
                        let l4 = publish_spec(l3, MessageTypeV::Trade(trade));
                        let ms2 = MatchState {
                            ledger: l4,
                            taker: st.taker,
                            trade_sequence: st.trade_sequence,
                            order_book_sequence: obs,
                            error: false,
                        };
                        let k2 = if filled {
                            kept
                        } else {
                            kept.push(st.maker)
                        };
                        assert(trades_within_limit(l2, l4, ms.taker));
                        lemma_within_limit_trans(ms.ledger, l2, l4, ms.taker);
                        lemma_continues_trans(ms.ledger, l2, l4);
                        lemma_level_within_limit(
                            ms2,
                            orders,
                            i + 1,
                            k2,
                            st.taker.remaining_size.val() <= 0,
                            product_id,
                            base,
                            quote,
                        );
                        let fin = level_spec(ms2, orders, i + 1, k2, st.taker.remaining_size.val() <= 0, product_id, base, quote).0;
                        lemma_continues_level(ms2, orders, i + 1, k2, st.taker.remaining_size.val() <= 0, product_id, base, quote);
                        lemma_within_limit_same_taker(l4, fin.ledger, st.taker, ms.taker);
                        lemma_within_limit_trans(ms.ledger, l4, fin.ledger, ms.taker);
                    }
                },
            }
        }
    }
}

#[verifier::spinoff_prover]
#[verifier::rlimit(40)]
proof fn lemma_match_within_limit(
    ms: MatchState,
    asks: Seq<LevelV>,
    bids: Seq<LevelV>,
    is_buy: bool,
    product_id: Seq<char>,
    base: Seq<char>,
    quote: Seq<char>,
)
    requires
        levels_wf(asks, OrderSide::SELL),
        levels_wf(bids, OrderSide::BUY),
    ensures
        trades_within_limit(ms.ledger, match_spec(ms, asks, bids, is_buy, product_id, base, quote).0.ledger, ms.taker),
        match_spec(ms, asks, bids, is_buy, product_id, base, quote).0.taker.order_type == ms.taker.order_type,
        match_spec(ms, asks, bids, is_buy, product_id, base, quote).0.taker.side == ms.taker.side,
        match_spec(ms, asks, bids, is_buy, product_id, base, quote).0.taker.price == ms.taker.price,
    decreases asks.len() + bids.len(),
{
    if ms.ledger.fault || ms.error || ms.taker.remaining_size.val() <= 0 {
    } else if is_buy {
        if asks.len() == 0 || !crossed(ms.taker, asks[0].price) {
        } else {
            let rest = asks.subrange(1, asks.len() as int);
            let os = asks[0].orders;
            assert forall|j: int| 0 <= j < os.len() implies crossed(ms.taker, (#[trigger] os[j]).price) by {
                assert(order_rests(asks[0].orders[j], asks[0].price, OrderSide::SELL));
            }
            let (ms2, kept) = level_spec(ms, os, 0, seq![], false, product_id, base, quote);
            lemma_level_within_limit(ms, os, 0, seq![], false, product_id, base, quote);
            lemma_continues_level(ms, os, 0, seq![], false, product_id, base, quote);
            if !(ms2.ledger.fault || ms2.error) && kept.len() == 0 {
                lemma_levels_wf_subrange(asks, 1, asks.len() as int, OrderSide::SELL);
                lemma_match_within_limit(ms2, rest, bids, is_buy, product_id, base, quote);
                lemma_continues_match(ms2, rest, bids, is_buy, product_id, base, quote);
                let fin = match_spec(ms2, rest, bids, is_buy, product_id, base, quote).0;
                lemma_within_limit_same_taker(ms2.ledger, fin.ledger, ms2.taker, ms.taker);
                lemma_within_limit_trans(ms.ledger, ms2.ledger, fin.ledger, ms.taker);
            }
        }
    } else {
        if bids.len() == 0 || !crossed(ms.taker, bids.last().price) {
        } else {
            let rest = bids.drop_last();
            let n = bids.len() - 1;
            let os = bids[n].orders;
            assert forall|j: int| 0 <= j < os.len() implies crossed(ms.taker, (#[trigger] os[j]).price) by {
                assert(order_rests(bids[n].orders[j], bids[n].price, OrderSide::BUY));
            }
            let (ms2, kept) = level_spec(ms, os, 0, seq![], false, product_id, base, quote);
            lemma_level_within_limit(ms, os, 0, seq![], false, product_id, base, quote);
            lemma_continues_level(ms, os, 0, seq![], false, product_id, base, quote);
            if !(ms2.ledger.fault || ms2.error) && kept.len() == 0 {
                lemma_levels_wf_subrange(bids, 0, bids.len() - 1, OrderSide::BUY);
                assert(rest =~= bids.subrange(0, bids.len() - 1));
                lemma_match_within_limit(ms2, asks, rest, is_buy, product_id, base, quote);
                lemma_continues_match(ms2, asks, rest, is_buy, product_id, base, quote);
                let fin = match_spec(ms2, asks, rest, is_buy, product_id, base, quote).0;
                lemma_within_limit_same_taker(ms2.ledger, fin.ledger, ms2.taker, ms.taker);
                lemma_within_limit_trans(ms.ledger, ms2.ledger, fin.ledger, ms.taker);
            }
        }
    }
}

/// Placing an order trades only within its limit: every trade it makes is at a price the
/// taker accepts, no more than its price for a limit buy and no less for a limit sell (a
/// market order takes the resting prices as they come).
#[verifier::spinoff_prover]
#[verifier::rlimit(100)]
pub proof fn place_trades_within_limit(l: Ledger, b: BookV, products: Map<Seq<char>, ProductV>, taker: OrderV)
    requires
        b.wf(),
    ensures
        trades_within_limit(l, place_spec(l, b, products, taker).0, taker),
{
    if l.fault || !products.contains_key(b.product_id) {
    } else if b.order_sequence == u64::MAX {
    } else {
        let product = products[b.product_id];
        let b1 = BookV { order_sequence: (b.order_sequence + 1) as u64, ..b };
        let t1 = OrderV { sequence: b1.order_sequence, ..taker };
        let (l1, ok) = if t1.side == OrderSide::BUY {
            hold_spec(l, t1.user_id, product.quote_currency, t1.remaining_funds)
        } else {
            hold_spec(l, t1.user_id, product.base_currency, t1.remaining_size)
        };
        lemma_continues_hold(l, t1.user_id, product.quote_currency, t1.remaining_funds);
        lemma_continues_hold(l, t1.user_id, product.base_currency, t1.remaining_size);
        lemma_no_trade_within_limit(l, l1, taker);
        if !ok {
            let t2 = OrderV { status: OrderStatus::REJECTED, ..t1 };
            let l2 = publish_spec(l1, MessageTypeV::Order(b1.order_book_sequence, t2));
            lemma_within_limit_trans(l, l1, l2, taker);
        } else {
            let t2 = OrderV { status: OrderStatus::RECEIVED, ..t1 };
            let l2 = publish_spec(l1, MessageTypeV::Order(b1.order_book_sequence, t2));
            lemma_within_limit_trans(l, l1, l2, taker);
            lemma_continues_trans(l, l1, l2);
            let ms = MatchState {
                ledger: l2,
                taker: t2,
                trade_sequence: b1.trade_sequence,
                order_book_sequence: b1.order_book_sequence,
                error: false,
            };
            let ms2 = match_spec(
                ms,
                b1.asks,
                b1.bids,
                t2.side == OrderSide::BUY,
                b.product_id,
                product.base_currency,
                product.quote_currency,
            ).0;
            lemma_match_within_limit(
                ms,
                b1.asks,
                b1.bids,
                t2.side == OrderSide::BUY,
                b.product_id,
                product.base_currency,
                product.quote_currency,
            );
            lemma_continues_match(
                ms,
                b1.asks,
                b1.bids,
                t2.side == OrderSide::BUY,
                b.product_id,
                product.base_currency,
                product.quote_currency,
            );
            lemma_within_limit_same_taker(l2, ms2.ledger, t2, taker);
            lemma_within_limit_trans(l, l2, ms2.ledger, taker);
            lemma_continues_trans(l, l2, ms2.ledger);
            let t3 = ms2.taker;
            if ms2.ledger.fault || ms2.error {
            } else if t3.order_type == OrderType::LIMIT && t3.remaining_size.val() > 0 {
                if ms2.order_book_sequence != u64::MAX {
                    let t4 = OrderV { status: OrderStatus::OPEN, ..t3 };
                    let l3 = publish_spec(ms2.ledger, MessageTypeV::Order((ms2.order_book_sequence + 1) as u64, t4));
                    lemma_within_limit_trans(l, ms2.ledger, l3, taker);
                }
            } else {
                let t4 = OrderV {
                    status: if t3.remaining_size.val() > 0 {
                        OrderStatus::CANCELLED
                    } else {
                        OrderStatus::FILLED
                    },
                    ..t3
                };
                let l3 = unhold_order_funds_spec(ms2.ledger, t4, product.base_currency, product.quote_currency);
                lemma_continues_unhold_order_funds(ms2.ledger, t4, product.base_currency, product.quote_currency);
                lemma_no_trade_within_limit(ms2.ledger, l3, taker);
                lemma_within_limit_trans(l, ms2.ledger, l3, taker);
                lemma_continues_trans(l, ms2.ledger, l3);
                let l4 = publish_spec(l3, MessageTypeV::Order(ms2.order_book_sequence, t4));
                lemma_within_limit_trans(l, l3, l4, taker);
            }
        }
    }
}

/// The first trade among the events, if any.
pub open spec fn first_trade(msgs: Seq<MessageV>) -> Option<TradeV>
    decreases msgs.len(),
{
    if msgs.len() == 0 {
        None
    } else {
        match msgs[0].message_type {
            MessageTypeV::Trade(t) => Some(t),
            _ => first_trade(msgs.drop_first()),
        }
    }
}

proof fn lemma_first_trade_concat(a: Seq<MessageV>, b: Seq<MessageV>)
    ensures
        first_trade(a + b) == if first_trade(a) is Some {
            first_trade(a)
        } else {
            first_trade(b)
        },
    decreases a.len(),
{
    if a.len() == 0 {
        assert(a + b =~= b);
    } else {
        assert((a + b)[0] == a[0]);
        assert((a + b).drop_first() =~= a.drop_first() + b);
        lemma_first_trade_concat(a.drop_first(), b);
    }
}

proof fn lemma_first_trade_none(a: Seq<MessageV>)
    requires
        forall|i: int| 0 <= i < a.len() ==> !(#[trigger] a[i].message_type is Trade),
    ensures
        first_trade(a) is None,
    decreases a.len(),
{
    if a.len() > 0 {
        assert(!(a[0].message_type is Trade));
        assert forall|i: int| 0 <= i < a.drop_first().len() implies !(#[trigger] a.drop_first()[i].message_type is Trade) by {
            assert(a.drop_first()[i] == a[i + 1]);
        }
        lemma_first_trade_none(a.drop_first());
    }
}

/// No trade after position `n` of `l` stays no trade after `n` in `l2`, when `l2`
/// continues `l` and adds none.
proof fn lemma_first_trade_of_added(l: Ledger, l2: Ledger, n: int)
    requires
        continues(l, l2),
        adds_no_trade(l, l2),
        0 <= n <= l.messages.len(),
        first_trade(l.messages.subrange(n, l.messages.len() as int)) is None,
    ensures
        first_trade(l2.messages.subrange(n, l2.messages.len() as int)) is None,
{
    let a = l2.messages.subrange(n, l.messages.len() as int);
    let b = l2.messages.subrange(l.messages.len() as int, l2.messages.len() as int);
    assert(a =~= l.messages.subrange(n, l.messages.len() as int));
    assert(l2.messages.subrange(n, l2.messages.len() as int) =~= a + b);
    assert forall|i: int| 0 <= i < b.len() implies !(#[trigger] b[i].message_type is Trade) by {
        assert(b[i] == l2.messages[i + l.messages.len()]);
    }
    lemma_first_trade_none(b);
    lemma_first_trade_concat(a, b);
}

proof fn lemma_level_stopped(
    ms: MatchState,
    orders: Seq<OrderV>,
    i: int,
    kept: Seq<OrderV>,
    product_id: Seq<char>,
    base: Seq<char>,
    quote: Seq<char>,
)
    ensures
        level_spec(ms, orders, i, kept, true, product_id, base, quote).0 == ms,
        level_spec(ms, orders, i, kept, true, product_id, base, quote).1.len() >= kept.len(),
    decreases orders.len() - i,
{
    if !(i < 0 || i >= orders.len() || ms.ledger.fault || ms.error) {
        lemma_level_stopped(ms, orders, i + 1, kept.push(orders[i]), product_id, base, quote);
    }
}

/// A level's matching trades first, if at all, against the level's first order, at its
/// price; when it trades nothing it keeps makers or ends refused.
#[verifier::spinoff_prover]
#[verifier::rlimit(40)]
proof fn lemma_level_first_trade(ms: MatchState, orders: Seq<OrderV>, product_id: Seq<char>, base: Seq<char>, quote: Seq<char>)
    requires
        orders.len() > 0,
        !ms.ledger.fault,
        !ms.error,
        !level_spec(ms, orders, 0, seq![], false, product_id, base, quote).0.ledger.fault,
    ensures
        ({
            let res = level_spec(ms, orders, 0, seq![], false, product_id, base, quote);
            let n = ms.ledger.messages.len() as int;
            let ft = first_trade(res.0.ledger.messages.subrange(n, res.0.ledger.messages.len() as int));
            &&& continues(ms.ledger, res.0.ledger)
            &&& ft matches Some(t) ==> t.maker_order_id == orders[0].id && t.price == orders[0].price
            &&& ft is None ==> res.1.len() > 0 || res.0.error
        }),
{
    let n = ms.ledger.messages.len() as int;
    lemma_continues_level(ms, orders, 0, seq![], false, product_id, base, quote);
    let maker = orders[0];
    let st = execute_trade_spec(ms.taker, maker, ms.trade_sequence, product_id);
    assert(ms.ledger.messages.subrange(n, n) =~= Seq::<MessageV>::empty());
    if st.fault {
    } else {
        match st.trade {
            None => {
                lemma_level_stopped(ms, orders, 1, seq![maker], product_id, base, quote);
            },
            Some(trade) => {
                assert(trade.maker_order_id == maker.id && trade.price == maker.price);
                let (l1, rx) = exchange_spec(
                    ms.ledger,
                    ms.taker.user_id,
                    maker.user_id,
                    base,
                    quote,
                    ms.taker.side,
                    trade.size,
                    trade.funds,
                );
                lemma_continues_exchange(
                    ms.ledger,
                    ms.taker.user_id,
                    maker.user_id,
                    base,
                    quote,
                    ms.taker.side,
                    trade.size,
                    trade.funds,
                );
                lemma_first_trade_of_added(ms.ledger, l1, n);
                let filled = st.maker.status == OrderStatus::FILLED;
                let l2 = if filled {
                    unhold_order_funds_spec(l1, st.maker, base, quote)
                } else {
                    l1
                };
                if !l1.fault && rx is Ok {
                    lemma_continues_unhold_order_funds(l1, st.maker, base, quote);
                    lemma_first_trade_of_added(l1, l2, n);
                    if !l2.fault && ms.order_book_sequence != u64::MAX {
                        let obs = (ms.order_book_sequence + 1) as u64;
                        let l3 = publish_spec(l2, MessageTypeV::Order(obs, st.maker));
                        let l4 = publish_spec(l3, MessageTypeV::Trade(trade));
                        let ms2 = MatchState {
                            ledger: l4,
                            taker: st.taker,
                            trade_sequence: st.trade_sequence,
                            order_book_sequence: obs,
                            error: false,
                        };
                        let kept2 = if filled {
                            seq![]
                        } else {
                            seq![st.maker]
                        };
                        assert(seq![].push(st.maker) =~= seq![st.maker]);
                        let stopped2 = st.taker.remaining_size.val() <= 0;
                        let res = level_spec(ms2, orders, 1, kept2, stopped2, product_id, base, quote);
                        lemma_continues_level(ms2, orders, 1, kept2, stopped2, product_id, base, quote);
                        let a = l2.messages.subrange(n, l2.messages.len() as int);
                        let mid = l4.messages.subrange(l2.messages.len() as int, l4.messages.len() as int);
                        let rest = res.0.ledger.messages.subrange(l4.messages.len() as int, res.0.ledger.messages.len() as int);
                        assert(l4.messages.subrange(n, l4.messages.len() as int) =~= a + mid);
                        assert(res.0.ledger.messages.subrange(n, l4.messages.len() as int) =~= l4.messages.subrange(
                            n,
                            l4.messages.len() as int,
                        ));
                        assert(res.0.ledger.messages.subrange(n, res.0.ledger.messages.len() as int) =~= (a + mid)
                            + rest);
                        assert(mid[0].message_type is Order);
                        assert(mid.drop_first()[0].message_type == MessageTypeV::Trade(trade));
                        assert(first_trade(mid.drop_first()) == Some(trade));
                        assert(first_trade(mid) == Some(trade));
                        lemma_first_trade_concat(a, mid);
                        lemma_first_trade_concat(a + mid, rest);
                    }
                }
            },
        }
    }
}

/// Matching trades first against the best order: for a buy, the first order of the lowest
/// ask level, at its price; for a sell, the first order of the highest bid level, at its
/// price. Makers at a level are reached in the order they rest there, and levels from the
/// best price on.
pub proof fn matching_starts_at_the_best_order(
    ms: MatchState,
    asks: Seq<LevelV>,
    bids: Seq<LevelV>,
    is_buy: bool,
    product_id: Seq<char>,
    base: Seq<char>,
    quote: Seq<char>,
)
    requires
        levels_wf(asks, OrderSide::SELL),
        levels_wf(bids, OrderSide::BUY),
        !match_spec(ms, asks, bids, is_buy, product_id, base, quote).0.ledger.fault,
    ensures
        ({
            let f = match_spec(ms, asks, bids, is_buy, product_id, base, quote).0.ledger;
            let n = ms.ledger.messages.len() as int;
            first_trade(f.messages.subrange(n, f.messages.len() as int)) matches Some(t) ==> if is_buy {
                asks.len() > 0 && t.maker_order_id == asks[0].orders[0].id && t.price == asks[0].orders[0].price
            } else {
                bids.len() > 0 && t.maker_order_id == bids.last().orders[0].id && t.price == bids.last().orders[0].price
            }
        }),
{
    let n = ms.ledger.messages.len() as int;
    assert(ms.ledger.messages.subrange(n, n) =~= Seq::<MessageV>::empty());
    if ms.ledger.fault || ms.error || ms.taker.remaining_size.val() <= 0 {
    } else if is_buy {
        if asks.len() == 0 || !crossed(ms.taker, asks[0].price) {
        } else {
            let rest = asks.subrange(1, asks.len() as int);
            let (ms2, kept) = level_spec(ms, asks[0].orders, 0, seq![], false, product_id, base, quote);
            lemma_level_first_trade(ms, asks[0].orders, product_id, base, quote);
            if !(ms2.ledger.fault || ms2.error) && kept.len() == 0 {
                lemma_continues_match(ms2, rest, bids, is_buy, product_id, base, quote);
                let f = match_spec(ms2, rest, bids, is_buy, product_id, base, quote).0.ledger;
                let a = ms2.ledger.messages.subrange(n, ms2.ledger.messages.len() as int);
                let b = f.messages.subrange(ms2.ledger.messages.len() as int, f.messages.len() as int);
                assert(f.messages.subrange(n, f.messages.len() as int) =~= a + b);
                lemma_first_trade_concat(a, b);
            }
        }
    } else {
        if bids.len() == 0 || !crossed(ms.taker, bids.last().price) {
        } else {
            let rest = bids.drop_last();
            let (ms2, kept) = level_spec(ms, bids.last().orders, 0, seq![], false, product_id, base, quote);
            lemma_level_first_trade(ms, bids.last().orders, product_id, base, quote);
            if !(ms2.ledger.fault || ms2.error) && kept.len() == 0 {
                lemma_continues_match(ms2, asks, rest, is_buy, product_id, base, quote);
                let f = match_spec(ms2, asks, rest, is_buy, product_id, base, quote).0.ledger;
                let a = ms2.ledger.messages.subrange(n, ms2.ledger.messages.len() as int);
                let b = f.messages.subrange(ms2.ledger.messages.len() as int, f.messages.len() as int);
                assert(f.messages.subrange(n, f.messages.len() as int) =~= a + b);
                lemma_first_trade_concat(a, b);
            }
        }
    }
}

pub(crate) proof fn lemma_continues_place(l: Ledger, b: BookV, products: Map<Seq<char>, ProductV>, taker: OrderV)
    ensures
        continues(l, place_spec(l, b, products, taker).0),
{
    if l.fault || !products.contains_key(b.product_id) {
    } else if b.order_sequence == u64::MAX {
    } else {
        let product = products[b.product_id];
        let b1 = BookV { order_sequence: (b.order_sequence + 1) as u64, ..b };
        let t1 = OrderV { sequence: b1.order_sequence, ..taker };
        let (l1, ok) = if t1.side == OrderSide::BUY {
            hold_spec(l, t1.user_id, product.quote_currency, t1.remaining_funds)
        } else {
            hold_spec(l, t1.user_id, product.base_currency, t1.remaining_size)
        };
        lemma_continues_hold(l, t1.user_id, product.quote_currency, t1.remaining_funds);
        lemma_continues_hold(l, t1.user_id, product.base_currency, t1.remaining_size);
        if !ok {
            let t2 = OrderV { status: OrderStatus::REJECTED, ..t1 };
            lemma_continues_trans(l, l1, publish_spec(l1, MessageTypeV::Order(b1.order_book_sequence, t2)));
        } else {
            let t2 = OrderV { status: OrderStatus::RECEIVED, ..t1 };
            let l2 = publish_spec(l1, MessageTypeV::Order(b1.order_book_sequence, t2));
            lemma_continues_trans(l, l1, l2);
            let ms = MatchState {
                ledger: l2,
                taker: t2,
                trade_sequence: b1.trade_sequence,
                order_book_sequence: b1.order_book_sequence,
                error: false,
            };
            let (ms2, asks, bids) = match_spec(
                ms,
                b1.asks,
                b1.bids,
                t2.side == OrderSide::BUY,
                b.product_id,
                product.base_currency,
                product.quote_currency,
            );
            lemma_continues_match(
                ms,
                b1.asks,
                b1.bids,
                t2.side == OrderSide::BUY,
                b.product_id,
                product.base_currency,
                product.quote_currency,
            );
            lemma_continues_trans(l, l2, ms2.ledger);
            let b2 = BookV {
                asks,
                bids,
                trade_sequence: ms2.trade_sequence,
                order_book_sequence: ms2.order_book_sequence,
                ..b1
            };
            let t3 = ms2.taker;
            if ms2.ledger.fault || ms2.error {
            } else if t3.order_type == OrderType::LIMIT && t3.remaining_size.val() > 0 {
                if b2.order_book_sequence != u64::MAX {
                    let t4 = OrderV { status: OrderStatus::OPEN, ..t3 };
                    let b3 = BookV { order_book_sequence: (b2.order_book_sequence + 1) as u64, ..b2 };
                    let b4 = add_order_spec(b3, t4);
                    lemma_continues_trans(l, ms2.ledger, publish_spec(ms2.ledger, MessageTypeV::Order(b4.order_book_sequence, t4)));
                }
            } else {
                let t4 = OrderV {
                    status: if t3.remaining_size.val() > 0 {
                        OrderStatus::CANCELLED
                    } else {
                        OrderStatus::FILLED
                    },
                    ..t3
                };
                let l3 = unhold_order_funds_spec(ms2.ledger, t4, product.base_currency, product.quote_currency);
                lemma_continues_unhold_order_funds(ms2.ledger, t4, product.base_currency, product.quote_currency);
                lemma_continues_trans(l, ms2.ledger, l3);
                lemma_continues_trans(l, l3, publish_spec(l3, MessageTypeV::Order(b2.order_book_sequence, t4)));
            }
        }
    }
}

pub(crate) proof fn lemma_continues_cancel(l: Ledger, b: BookV, products: Map<Seq<char>, ProductV>, id: Seq<char>)
    ensures
        continues(l, cancel_spec(l, b, products, id).0),
{
    if l.fault || !products.contains_key(b.product_id) {
    } else {
        match find_and_take(b, id) {
            None => {},
            Some((o, b1)) => {
                let product = products[b.product_id];
                let o2 = OrderV { status: OrderStatus::CANCELLED, ..o };
                let l1 = unhold_order_funds_spec(l, o2, product.base_currency, product.quote_currency);
                lemma_continues_unhold_order_funds(l, o2, product.base_currency, product.quote_currency);
                if !(l1.fault || b1.order_book_sequence == u64::MAX) {
                    let b2 = BookV { order_book_sequence: (b1.order_book_sequence + 1) as u64, ..b1 };
                    lemma_continues_trans(l, l1, publish_spec(l1, MessageTypeV::Order(b2.order_book_sequence, o2)));
                }
            },
        }
    }
}

/// Cancelling an order never crosses the book: removing an order, or the level it was the
/// last of, leaves every bid below every ask.
pub proof fn cancel_keeps_book_uncrossed(l: Ledger, b: BookV, products: Map<Seq<char>, ProductV>, id: Seq<char>)
    requires
        b.wf(),
        b.uncrossed(),
    ensures
        cancel_spec(l, b, products, id).1.uncrossed(),
{
    let ai = level_of(b.asks, id, 0);
    lemma_level_of(b.asks, id, 0);
    if ai < b.asks.len() {
        lemma_find_id(b.asks[ai].orders, id, 0);
        lemma_take_order_ends(b.asks, ai, find_id(b.asks[ai].orders, id, 0));
    } else {
        let bi = level_of(b.bids, id, 0);
        lemma_level_of(b.bids, id, 0);
        if bi < b.bids.len() {
            lemma_find_id(b.bids[bi].orders, id, 0);
            lemma_take_order_ends(b.bids, bi, find_id(b.bids[bi].orders, id, 0));
        }
    }
}

/// No resting order in the levels carries the id.
pub open spec fn id_absent(s: Seq<LevelV>, id: Seq<char>) -> bool {
    forall|i: int, j: int| 0 <= i < s.len() && 0 <= j < s[i].orders.len() ==> (#[trigger] s[i].orders[j]).id != id
}

proof fn lemma_find_id_at(t: Seq<OrderV>, id: Seq<char>, j: int, k: int)
    requires
        0 <= j <= k <= t.len(),
        k < t.len() ==> t[k].id == id,
        forall|x: int| j <= x < k ==> (#[trigger] t[x]).id != id,
    ensures
        find_id(t, id, j) == k,
    decreases k - j,
{
    if j < k {
        lemma_find_id_at(t, id, j + 1, k);
    }
}

proof fn lemma_level_of_at(t: Seq<LevelV>, id: Seq<char>, i: int, k: int)
    requires
        0 <= i <= k <= t.len(),
        k < t.len() ==> find_id(t[k].orders, id, 0) < t[k].orders.len(),
        forall|x: int| i <= x < k ==> find_id((#[trigger] t[x]).orders, id, 0) >= t[x].orders.len(),
    ensures
        level_of(t, id, i) == k,
    decreases k - i,
{
    if i < k {
        lemma_level_of_at(t, id, i + 1, k);
    }
}

/// Adding an order whose id rests nowhere, then taking that id out, gives back the levels
/// and the order: the order sits last in the level of its price.
proof fn lemma_take_undoes_level_add(s: Seq<LevelV>, o: OrderV)
    requires
        levels_wf(s, o.side),
        id_absent(s, o.id),
    ensures
        ({
            let t = level_add(s, o);
            let li = level_of(t, o.id, 0);
            let oi = find_id(t[li].orders, o.id, 0);
            &&& li < t.len()
            &&& oi < t[li].orders.len()
            &&& t[li].orders[oi] == o
            &&& take_order(t, li, oi) == s
        }),
{
    lemma_lower_bound(s, o.price.val(), 0);
    let k = lower_bound(s, o.price.val(), 0);
    let t = level_add(s, o);
    assert forall|x: int| 0 <= x < s.len() implies find_id((#[trigger] s[x]).orders, o.id, 0) >= s[x].orders.len() by {
        assert forall|y: int| 0 <= y < s[x].orders.len() implies (#[trigger] s[x].orders[y]).id != o.id by {
        }
        lemma_find_id_at(s[x].orders, o.id, 0, s[x].orders.len() as int);
    }
    if k < s.len() && s[k].price.val() == o.price.val() {
        let os = s[k].orders;
        assert forall|y: int| 0 <= y < os.len() implies (#[trigger] os[y]).id != o.id by {
            assert(s[k].orders[y].id != o.id);
        }
        lemma_find_id_at(os, o.id, 0, os.len() as int);
        assert(orders_put(os, o) == os.push(o));
        let no = os.push(o);
        lemma_find_id_at(no, o.id, 0, os.len() as int);
        assert forall|x: int| 0 <= x < k implies find_id((#[trigger] t[x]).orders, o.id, 0) >= t[x].orders.len() by {
            assert(t[x] == s[x]);
        }
        lemma_level_of_at(t, o.id, 0, k);
        assert(no.remove(os.len() as int) =~= os);
        assert(take_order(t, k, os.len() as int) =~= s);
    } else {
        let no = seq![o];
        lemma_find_id_at(no, o.id, 0, 0);
        assert forall|x: int| 0 <= x < k implies find_id((#[trigger] t[x]).orders, o.id, 0) >= t[x].orders.len() by {
            assert(t[x] == s[x]);
        }
        assert(t[k].orders == no);
        lemma_level_of_at(t, o.id, 0, k);
        assert(no.remove(0) =~= Seq::<OrderV>::empty());
        assert(take_order(t, k, 0) =~= s);
    }
}

/// Cancelling an order right after adding it to the book, when no order of the book had
/// its id, takes that order out and gives the book back as it was.
pub proof fn take_undoes_add_order(b: BookV, o: OrderV)
    requires
        b.wf(),
        o.wf(),
        id_absent(b.asks, o.id),
        id_absent(b.bids, o.id),
    ensures
        find_and_take(add_order_spec(b, o), o.id) == Some((o, b)),
{
    if o.side == OrderSide::BUY {
        lemma_take_undoes_level_add(b.bids, o);
        assert forall|x: int| 0 <= x < b.asks.len() implies find_id((#[trigger] b.asks[x]).orders, o.id, 0)
            >= b.asks[x].orders.len() by {
            assert forall|y: int| 0 <= y < b.asks[x].orders.len() implies (#[trigger] b.asks[x].orders[y]).id != o.id by {
            }
            lemma_find_id_at(b.asks[x].orders, o.id, 0, b.asks[x].orders.len() as int);
        }
        lemma_level_of_at(b.asks, o.id, 0, b.asks.len() as int);
        let b1 = add_order_spec(b, o);
        assert(BookV { bids: take_order(b1.bids, level_of(b1.bids, o.id, 0), find_id(b1.bids[level_of(b1.bids, o.id, 0)].orders, o.id, 0)), ..b1 } =~= b);
    } else {
        lemma_take_undoes_level_add(b.asks, o);
        let b1 = add_order_spec(b, o);
        assert(BookV { asks: take_order(b1.asks, level_of(b1.asks, o.id, 0), find_id(b1.asks[level_of(b1.asks, o.id, 0)].orders, o.id, 0)), ..b1 } =~= b);
    }
}

pub open spec fn ms_of(b: BookV, taker: OrderV, l: Ledger, error: bool) -> MatchState {
    MatchState {
        ledger: l,
        taker,
        trade_sequence: b.trade_sequence,
        order_book_sequence: b.order_book_sequence,
        error,
    }
}

/// The order book of one product.
pub struct OrderBook {
    product_id: String,
    asks: Vec<PriceLevel>,
    bids: Vec<PriceLevel>,
    order_sequence: u64,
    trade_sequence: u64,
    order_book_sequence: u64,
}

impl View for OrderBook {
    type V = BookV;

    closed spec fn view(&self) -> BookV {
        BookV {
            product_id: self.product_id@,
            asks: levels_view(self.asks@),
            bids: levels_view(self.bids@),
            order_sequence: self.order_sequence,
            trade_sequence: self.trade_sequence,
            order_book_sequence: self.order_book_sequence,
        }
    }
}

/// Whether a taker at its limit trades against a resting price: a market order always does;
/// a buy does at or below its price, a sell at or above.
pub open spec fn crossed(taker: OrderV, maker_price: Dec) -> bool {
    if taker.order_type == OrderType::MARKET {
        true
    } else if taker.side == OrderSide::BUY {
        taker.price.val() >= maker_price.val()
    } else {
        taker.price.val() <= maker_price.val()
    }
}

/// The smaller of two decimals; the first when they are equal.
pub open spec fn dmin(a: Dec, b: Dec) -> Dec {
    if a.val() > b.val() {
        b
    } else {
        a
    }
}

/// What one fill does to a taker and a maker; `trade` is `None` when no fill happens.
#[verifier::ext_equal]
pub struct TradeStep {
    pub fault: bool,
    pub taker: OrderV,
    pub maker: OrderV,
    pub trade: Option<TradeV>,
    pub trade_sequence: u64,
}

/// How much the taker wants at the maker's price: a market buy spends its remaining funds
/// (rounded to 4 places); any other order its remaining size. `None`: no price to divide by.
pub open spec fn taker_size_spec(taker: OrderV, price: Dec) -> Option<Dec> {
    if taker.side == OrderSide::BUY && taker.order_type == OrderType::MARKET {
        match checked_quotient(taker.remaining_funds, price) {
            Some(q) => Some(rounded(q, 4)),
            None => None,
        }
    } else {
        Some(taker.remaining_size)
    }
}

/// One fill at the maker's price: the smaller of the two sizes trades, funds are size times
/// price rounded to 8 places, both remaining sizes shrink, the buyer's remaining funds
/// shrink, and the maker is FILLED once nothing remains.
pub open spec fn execute_trade_spec(taker: OrderV, maker: OrderV, trade_sequence: u64, product_id: Seq<char>) -> TradeStep {
    let none = TradeStep { fault: false, taker, maker, trade: None, trade_sequence };
    let bad = TradeStep { fault: true, ..none };
    let price = maker.price;
    match taker_size_spec(taker, price) {
        None => none,
        Some(ts) => {
            if ts.val() <= 0 {
                none
            } else {
                let size = dmin(ts, maker.remaining_size);
                match checked_product(size, price) {
                    None => bad,
                    Some(p) => {
                        let funds = rounded(p, 8);
                        let tr = checked_difference(taker.remaining_size, size);
                        let mr = checked_difference(maker.remaining_size, size);
                        let tf = if taker.side == OrderSide::BUY {
                            checked_difference(taker.remaining_funds, funds)
                        } else {
                            Some(taker.remaining_funds)
                        };
                        let mf = if taker.side == OrderSide::BUY {
                            Some(maker.remaining_funds)
                        } else {
                            checked_difference(maker.remaining_funds, funds)
                        };
                        if tr is None || mr is None || tf is None || mf is None || trade_sequence == u64::MAX {
                            bad
                        } else {
                            let mrem = mr->0;
                            let t2 = OrderV { remaining_size: tr->0, remaining_funds: tf->0, ..taker };
                            let m2 = OrderV {
                                remaining_size: mrem,
                                remaining_funds: mf->0,
                                status: if mrem.val() <= 0 { OrderStatus::FILLED } else { maker.status },
                                ..maker
                            };
                            let seqn = (trade_sequence + 1) as u64;
                            TradeStep {
                                fault: false,
                                taker: t2,
                                maker: m2,
                                trade: Some(
                                    TradeV {
                                        product_id,
                                        sequence: seqn,
                                        size,
                                        funds,
                                        price,
                                        time: taker.time,
                                        side: maker.side,
                                        taker_order_id: taker.id,
                                        maker_order_id: maker.id,
                                    },
                                ),
                                trade_sequence: seqn,
                            }
                        }
                    },
                }
            }
        },
    }
}

/// A fill takes its size off both orders and its funds off the order that pays: the buyer
/// (the taker of a buy, the maker of a sell) gives up the trade's funds, the seller's
/// funds stay as they were; every amount goes through a decimal subtraction.
pub proof fn a_fill_settles_both_orders(taker: OrderV, maker: OrderV, trade_sequence: u64, product_id: Seq<char>)
    requires
        !execute_trade_spec(taker, maker, trade_sequence, product_id).fault,
        execute_trade_spec(taker, maker, trade_sequence, product_id).trade is Some,
    ensures
        ({
            let st = execute_trade_spec(taker, maker, trade_sequence, product_id);
            let tr = st.trade->0;
            &&& tr.price == maker.price
            &&& maker.remaining_size.val() > 0 ==> tr.size.val() > 0
            &&& tr.size.val() <= maker.remaining_size.val()
            &&& !(taker.side == OrderSide::BUY && taker.order_type == OrderType::MARKET) ==> {
                &&& tr.size.val() <= taker.remaining_size.val()
                &&& tr.size == taker.remaining_size || tr.size == maker.remaining_size
            }
            &&& tr.funds == rounded(checked_product(tr.size, maker.price)->0, 8)
            &&& tr.taker_order_id == taker.id && tr.maker_order_id == maker.id
            &&& tr.sequence == trade_sequence + 1 && st.trade_sequence == tr.sequence
            &&& (st.maker.status == OrderStatus::FILLED) == (st.maker.remaining_size.val() <= 0 || maker.status
                == OrderStatus::FILLED)
            &&& st.maker.remaining_size.val() > 0 ==> st.maker.status == maker.status
            &&& checked_difference(taker.remaining_size, tr.size) == Some(st.taker.remaining_size)
            &&& checked_difference(maker.remaining_size, tr.size) == Some(st.maker.remaining_size)
            &&& taker.side == OrderSide::BUY ==> checked_difference(taker.remaining_funds, tr.funds) == Some(
                st.taker.remaining_funds,
            ) && st.maker.remaining_funds == maker.remaining_funds
            &&& taker.side == OrderSide::SELL ==> checked_difference(maker.remaining_funds, tr.funds) == Some(
                st.maker.remaining_funds,
            ) && st.taker.remaining_funds == taker.remaining_funds
        }),
{
}

pub open spec fn opt_trade_view(t: Option<Trade>) -> Option<TradeV> {
    match t {
        Some(t) => Some(t@),
        None => None,
    }
}

fn dmin_exec(a: Dec, b: Dec) -> (r: Dec)
    requires
        a.wf(),
        b.wf(),
    ensures
        r == dmin(a, b),
{
    if dec_lt(b, a) {
        b
    } else {
        a
    }
}

impl OrderBook {
    pub closed spec fn wf(&self) -> bool {
        self@.wf()
    }

    /// An empty book for a product, continuing the given sequence numbers.
    pub fn new(product_id: &str, order_sequence: u64, trade_sequence: u64, order_book_sequence: u64) -> (r: OrderBook)
        ensures
            r@ == (BookV {
                product_id: product_id@,
                asks: Seq::empty(),
                bids: Seq::empty(),
                order_sequence,
                trade_sequence,
                order_book_sequence,
            }),
            r.wf(),
    {
        let r = OrderBook {
            product_id: String::from_str(product_id),
            asks: Vec::new(),
            bids: Vec::new(),
            order_sequence,
            trade_sequence,
            order_book_sequence,
        };
        proof {
            assert(r@.asks =~= Seq::empty());
            assert(r@.bids =~= Seq::empty());
        }
        r
    }

    /// The product the book trades.
    pub fn product_id(&self) -> (r: &String)
        ensures
            r@ == self@.product_id,
    {
        &self.product_id
    }

    fn orders_put(orders: &mut Vec<Order>, order: Order)
        ensures
            orders_view(final(orders)@) == orders_put(orders_view(old(orders)@), order@),
    {
        let ghost s = orders_view(orders@);
        let ghost ov = order@;
        proof {
            lemma_find_id(s, order@.id, 0);
        }
        let mut j: usize = 0;
        while j < orders.len()
            invariant
                s == orders_view(orders@),
                s == orders_view(old(orders)@),
                ov == order@,
                j <= orders@.len(),
                find_id(s, order@.id, 0) == find_id(s, order@.id, j as int),
            decreases orders@.len() - j,
        {
            if orders[j].id == order.id {
                proof {
                    assert(s[j as int] == orders@[j as int]@);
                    assert(find_id(s, order@.id, j as int) == j);
                }
                orders.set(j, order);
                proof {
                    assert(orders_view(orders@) =~= s.update(j as int, ov));
                    assert(orders_view(orders@) == orders_put(s, ov));
                }
                return;
            }
            j = j + 1;
        }
        orders.push(order);
        proof {
            assert(orders_view(orders@) =~= s.push(order@));
        }
    }

    fn level_add(levels: &mut Vec<PriceLevel>, order: Order)
        requires
            levels_wf(levels_view(old(levels)@), order@.side),
            order@.wf(),
        ensures
            levels_view(final(levels)@) == level_add(levels_view(old(levels)@), order@),
            levels_wf(levels_view(final(levels)@), order@.side),
    {
        let ghost s = levels_view(levels@);
        let ghost p = order.price.val();
        proof {
            lemma_lower_bound(s, p, 0);
            lemma_level_add_wf(s, order@);
        }
        let mut k: usize = 0;
        assert forall|i: int| 0 <= i < levels@.len() implies (#[trigger] levels@[i]).price.wf() by {
            assert(s[i] == levels@[i]@);
        }
        while k < levels.len() && dec_lt(levels[k].price, order.price)
            invariant
                s == levels_view(levels@),
                forall|i: int| 0 <= i < levels@.len() ==> (#[trigger] levels@[i]).price.wf(),
                levels_wf(s, order@.side),
                order@.wf(),
                k <= levels@.len(),
                lower_bound(s, p, 0) == lower_bound(s, p, k as int),
                p == order.price.val(),
            decreases levels@.len() - k,
        {
            proof {
                assert(s[k as int] == levels@[k as int]@);
            }
            k = k + 1;
        }
        if k < levels.len() && !dec_lt(order.price, levels[k].price) {
            let mut level = levels.remove(k);
            let ghost lv = level@;
            Self::orders_put(&mut level.orders, order);
            levels.insert(k, level);
            proof {
                assert(lv == s[k as int]);
                assert(levels_view(levels@) =~= s.update(
                    k as int,
                    LevelV { price: s[k as int].price, orders: orders_put(s[k as int].orders, order@) },
                ));
            }
        } else {
            let price = order.price;
            let mut orders: Vec<Order> = Vec::new();
            orders.push(order);
            let level = PriceLevel { price, orders };
            proof {
                assert(level@.orders =~= seq![order@]);
            }
            levels.insert(k, level);
            proof {
                assert(levels_view(levels@) =~= s.insert(k as int, LevelV { price: order@.price, orders: seq![order@] }));
            }
        }
    }

    /// Rests an order in the book: bids for a buy, asks for a sell, at its price; an order
    /// with the same id at that price is replaced.
    pub fn add_order(&mut self, order: Order)
        requires
            old(self).wf(),
            order@.wf(),
        ensures
            final(self).wf(),
            final(self)@ == add_order_spec(old(self)@, order@),
    {
        if order.side == OrderSide::BUY {
            Self::level_add(&mut self.bids, order);
        } else {
            Self::level_add(&mut self.asks, order);
        }
    }

    /// See [`crossed`].
    fn is_price_crossed(taker: &Order, maker_price: Dec) -> (r: bool)
        requires
            taker@.wf(),
            maker_price.wf(),
        ensures
            r == crossed(taker@, maker_price),
    {
        if taker.order_type == OrderType::MARKET {
            return true;
        }
        if taker.side == OrderSide::BUY {
            !dec_lt(taker.price, maker_price)
        } else {
            !dec_lt(maker_price, taker.price)
        }
    }

    /// One fill between the taker and a maker, see [`execute_trade_spec`]. `Err` when a
    /// decimal or the trade counter overflows; nothing changes then.
    fn execute_trade(&mut self, taker: &mut Order, maker: &mut Order) -> (r: Result<Option<Trade>, BalanceError>)
        requires
            old(taker)@.wf(),
            old(maker)@.wf(),
        ensures
            final(taker)@.wf(),
            final(maker)@.wf(),
            final(self)@ == (BookV { trade_sequence: final(self)@.trade_sequence, ..old(self)@ }),
            r matches Ok(Some(t)) ==> t.size.wf() && t.funds.wf() && t.price.wf(),
            r matches Ok(Some(t)) ==> (difference_is_exact(old(taker)@.remaining_size, t.size)
                ==> final(taker)@.remaining_size.val() == old(taker)@.remaining_size.val() - t.size.val()),
            r matches Ok(None) ==> final(taker)@ == old(taker)@,
            r matches Ok(Some(t)) ==> (difference_is_exact(old(maker)@.remaining_size, t.size)
                ==> final(maker)@.remaining_size.val() == old(maker)@.remaining_size.val() - t.size.val()),
            r matches Ok(Some(t)) ==> (old(taker)@.side == OrderSide::SELL && difference_is_exact(
                old(maker)@.remaining_funds,
                t.funds,
            ) ==> final(maker)@.remaining_funds.val() == old(maker)@.remaining_funds.val() - t.funds.val()
                && final(taker)@.remaining_funds == old(taker)@.remaining_funds),
            r matches Ok(Some(t)) ==> (old(taker)@.side == OrderSide::BUY && difference_is_exact(
                old(taker)@.remaining_funds,
                t.funds,
            ) ==> final(taker)@.remaining_funds.val() == old(taker)@.remaining_funds.val() - t.funds.val()
                && final(maker)@.remaining_funds == old(maker)@.remaining_funds),
            r is Err ==> r == Err::<Option<Trade>, BalanceError>(BalanceError::Overflow),
            final(taker)@.order_type == old(taker)@.order_type,
            final(taker)@.side == old(taker)@.side,
            final(taker)@.price == old(taker)@.price,
            final(taker)@.id == old(taker)@.id,
            ({
                let st = execute_trade_spec(old(taker)@, old(maker)@, old(self)@.trade_sequence, old(self)@.product_id);
                &&& (r is Err <==> st.fault)
                &&& !st.fault ==> {
                    &&& final(taker)@ == st.taker
                    &&& final(maker)@ == st.maker
                    &&& final(self)@ == BookV { trade_sequence: st.trade_sequence, ..old(self)@ }
                    &&& (r matches Ok(t) ==> opt_trade_view(t) == st.trade)
                }
                &&& !st.fault && st.trade is Some && old(taker)@.order_type == OrderType::LIMIT ==> st.maker.remaining_size.val()
                    <= 0 || st.taker.remaining_size.val() <= 0
                &&& !st.fault && st.trade is None && old(taker)@.order_type == OrderType::LIMIT
                    ==> old(taker)@.remaining_size.val() <= 0
            }),
    {
        let price = maker.price;
        let taker_size = if taker.side == OrderSide::BUY && taker.order_type == OrderType::MARKET {
            match dec_checked_div(taker.remaining_funds, price) {
                Some(q) => dec_round_dp(q, 4),
                None => {
                    return Ok(None);
                },
            }
        } else {
            taker.remaining_size
        };
        let zero = Dec::zero();
        if !dec_lt(zero, taker_size) {
            return Ok(None);
        }
        let size = dmin_exec(taker_size, maker.remaining_size);
        let p = match dec_checked_mul(size, price) {
            Some(p) => p,
            None => {
                return Err(BalanceError::Overflow);
            },
        };
        let funds = dec_round_dp(p, 8);
        let tr = match dec_checked_sub(taker.remaining_size, size) {
            Some(v) => v,
            None => {
                return Err(BalanceError::Overflow);
            },
        };
        let mr = match dec_checked_sub(maker.remaining_size, size) {
            Some(v) => v,
            None => {
                return Err(BalanceError::Overflow);
            },
        };
        proof {
            if taker.order_type == OrderType::LIMIT {
                if size == taker.remaining_size {
                    lemma_pow10_pos((28 - size.scale) as nat);
                    assert(difference_is_exact(taker.remaining_size, size));
                } else {
                    assert(size == maker.remaining_size);
                    lemma_pow10_pos((28 - size.scale) as nat);
                    assert(difference_is_exact(maker.remaining_size, size));
                }
            }
        }
        let tf = if taker.side == OrderSide::BUY {
            match dec_checked_sub(taker.remaining_funds, funds) {
                Some(v) => v,
                None => {
                    return Err(BalanceError::Overflow);
                },
            }
        } else {
            taker.remaining_funds
        };
        let mf = if taker.side == OrderSide::BUY {
            maker.remaining_funds
        } else {
            match dec_checked_sub(maker.remaining_funds, funds) {
                Some(v) => v,
                None => {
                    return Err(BalanceError::Overflow);
                },
            }
        };
        if self.trade_sequence == u64::MAX {
            return Err(BalanceError::Overflow);
        }
        taker.remaining_size = tr;
        taker.remaining_funds = tf;
        maker.remaining_size = mr;
        maker.remaining_funds = mf;
        if !dec_lt(zero, mr) {
            maker.status = OrderStatus::FILLED;
        }
        self.trade_sequence = self.trade_sequence + 1;
        Ok(
            Some(
                Trade {
                    sequence: self.trade_sequence,
                    product_id: self.product_id.clone(),
                    size,
                    funds,
                    price,
                    side: maker.side,
                    time: taker.time,
                    taker_order_id: taker.id.clone(),
                    maker_order_id: maker.id.clone(),
                },
            ),
        )
    }

    /// Releases what an order still holds; `false` on overflow.
    fn unhold_order_funds(order: &Order, base: &String, quote: &String, accounts: &mut AccountBook, out: &mut Outbox) -> (ok: bool)
        requires
            old(accounts).wf(),
            order@.wf(),
        ensures
            old(out).numbered() ==> final(out).numbered(),
            final(accounts).wf(),
            ledger(*final(accounts), *final(out), !ok)
                == unhold_order_funds_spec(ledger(*old(accounts), *old(out), false), order@, base@, quote@),
    {
        let zero = Dec::zero();
        if order.side == OrderSide::BUY {
            if dec_lt(zero, order.remaining_funds) {
                match accounts.unhold_checked(out, order.user_id.as_str(), quote.as_str(), order.remaining_funds) {
                    Err(BalanceError::Overflow) => false,
                    _ => true,
                }
            } else {
                true
            }
        } else {
            if dec_lt(zero, order.remaining_size) {
                match accounts.unhold_checked(out, order.user_id.as_str(), base.as_str(), order.remaining_size) {
                    Err(BalanceError::Overflow) => false,
                    _ => true,
                }
            } else {
                true
            }
        }
    }

    /// Matches the taker against the orders of one level; returns the makers that remain.
    #[verifier::spinoff_prover]
    #[verifier::rlimit(60)]
    fn match_level(
        &mut self,
        taker: &mut Order,
        orders: Vec<Order>,
        base: &String,
        quote: &String,
        accounts: &mut AccountBook,
        out: &mut Outbox,
    ) -> (r: Result<Vec<Order>, BalanceError>)
        requires
            old(taker)@.wf(),
            old(accounts).wf(),
            forall|j: int| 0 <= j < orders@.len() ==> (#[trigger] orders@[j])@.wf(),
        ensures
            old(out).numbered() ==> final(out).numbered(),
            final(taker)@.wf(),
            final(accounts).wf(),
            final(self)@ == (BookV {
                trade_sequence: final(self)@.trade_sequence,
                order_book_sequence: final(self)@.order_book_sequence,
                ..old(self)@
            }),
            ({
                let res = level_spec(
                    ms_of(old(self)@, old(taker)@, ledger(*old(accounts), *old(out), false), false),
                    orders_view(orders@),
                    0,
                    seq![],
                    false,
                    old(self)@.product_id,
                    base@,
                    quote@,
                );
                &&& (r == Err::<Vec<Order>, BalanceError>(BalanceError::Overflow) <==> res.0.ledger.fault)
                &&& !res.0.ledger.fault ==> ms_of(
                    final(self)@,
                    final(taker)@,
                    ledger(*final(accounts), *final(out), false),
                    r is Err,
                ) == res.0
                &&& r matches Ok(k) ==> orders_view(k@) == res.1 && forall|j: int|
                    0 <= j < k@.len() ==> (#[trigger] k@[j])@.wf()
            }),
            final(taker)@.order_type == old(taker)@.order_type,
            final(taker)@.side == old(taker)@.side,
            final(taker)@.price == old(taker)@.price,
            final(taker)@.id == old(taker)@.id,
            old(taker)@.order_type == OrderType::LIMIT && (r matches Ok(k) && k@.len() > 0)
                ==> final(taker)@.remaining_size.val() <= 0,
            r is Ok ==> old(out).msgs().len() <= final(out).msgs().len(),
            r is Ok && level_fills_exact(
                ms_of(old(self)@, old(taker)@, ledger(*old(accounts), *old(out), false), false),
                orders_view(orders@),
                0,
                seq![],
                false,
                old(self)@.product_id,
                base@,
                quote@,
            ) ==> old(taker)@.remaining_size.val() - final(taker)@.remaining_size.val() == traded_size(
                final(out).msgs().subrange(old(out).msgs().len() as int, final(out).msgs().len() as int),
            ),
    {
        let ghost ov = orders_view(orders@);
        let ghost pid = self@.product_id;
        let ghost res0 = level_spec(
            ms_of(self@, taker@, ledger(*accounts, *out, false), false),
            ov,
            0,
            seq![],
            false,
            pid,
            base@,
            quote@,
        );
        let mut kept: Vec<Order> = Vec::new();
        let mut stopped = false;
        let mut i: usize = 0;
        let zero = Dec::zero();
        let ghost n0 = out.msgs().len() as int;
        let ghost fe0 = level_fills_exact(
            ms_of(self@, taker@, ledger(*accounts, *out, false), false),
            ov,
            0,
            seq![],
            false,
            pid,
            base@,
            quote@,
        );
        proof {
            assert(orders_view(kept@) =~= seq![]);
            assert(out.msgs().subrange(n0, n0) =~= Seq::<MessageV>::empty());
        }
        while i < orders.len()
            invariant
                n0 == old(out).msgs().len(),
                n0 <= out.msgs().len(),
                fe0 == level_fills_exact(
                    ms_of(old(self)@, old(taker)@, ledger(*old(accounts), *old(out), false), false),
                    orders_view(orders@),
                    0,
                    seq![],
                    false,
                    old(self)@.product_id,
                    base@,
                    quote@,
                ),
                fe0 ==> level_fills_exact(
                    ms_of(self@, taker@, ledger(*accounts, *out, false), false),
                    ov,
                    i as int,
                    orders_view(kept@),
                    stopped,
                    pid,
                    base@,
                    quote@,
                ),
                fe0 ==> old(taker)@.remaining_size.val() - taker@.remaining_size.val() == traded_size(
                    out.msgs().subrange(n0, out.msgs().len() as int),
                ),
                i <= orders@.len(),
                ov == orders_view(orders@),
                forall|j: int| 0 <= j < orders@.len() ==> (#[trigger] orders@[j])@.wf(),
                forall|j: int| 0 <= j < kept@.len() ==> (#[trigger] kept@[j])@.wf(),
                taker@.wf(),
                accounts.wf(),
                zero == (Dec { mantissa: 0, scale: 0 }),
                zero.val() == 0,
                pid == self@.product_id,
                self@ == (BookV {
                    trade_sequence: self@.trade_sequence,
                    order_book_sequence: self@.order_book_sequence,
                    ..old(self)@
                }),
                res0 == level_spec(
                    ms_of(old(self)@, old(taker)@, ledger(*old(accounts), *old(out), false), false),
                    orders_view(orders@),
                    0,
                    seq![],
                    false,
                    old(self)@.product_id,
                    base@,
                    quote@,
                ),
                level_spec(
                    ms_of(self@, taker@, ledger(*accounts, *out, false), false),
                    ov,
                    i as int,
                    orders_view(kept@),
                    stopped,
                    pid,
                    base@,
                    quote@,
                ) == res0,
                taker@.order_type == old(taker)@.order_type,
                taker@.side == old(taker)@.side,
                taker@.price == old(taker)@.price,
                taker@.id == old(taker)@.id,
                old(out).numbered() ==> out.numbered(),
                old(taker)@.order_type == OrderType::LIMIT && (kept@.len() > 0 || stopped)
                    ==> taker@.remaining_size.val() <= 0,
            decreases orders@.len() - i,
        {
            let ghost ms = ms_of(self@, taker@, ledger(*accounts, *out, false), false);
            let ghost kv = orders_view(kept@);
            let mut maker = orders[i].clone();
            proof {
                assert(ov[i as int] == orders@[i as int]@);
            }
            if stopped {
                kept.push(maker);
                proof {
                    assert(orders_view(kept@) =~= kv.push(ov[i as int]));
                    assert(level_spec(ms, ov, i as int, kv, true, pid, base@, quote@) == level_spec(
                        ms_of(self@, taker@, ledger(*accounts, *out, false), false), ov, i + 1, orders_view(kept@), true, pid, base@, quote@));
                }
            } else {
                let ghost st = execute_trade_spec(taker@, maker@, self@.trade_sequence, pid);
                let ghost taker0 = taker@;
                match self.execute_trade(taker, &mut maker) {
                    Err(e) => {
                        return Err(e);
                    },
                    Ok(None) => {
                        kept.push(maker);
                        stopped = true;
                        proof {
                            assert(orders_view(kept@) =~= kv.push(ov[i as int]));
                            assert(level_spec(ms, ov, i as int, kv, false, pid, base@, quote@) == level_spec(
                                ms_of(self@, taker@, ledger(*accounts, *out, false), false), ov, i + 1, orders_view(kept@), true, pid, base@, quote@));
                        }
                    },
                    Ok(Some(trade)) => {
                        let ghost l0 = ledger(*accounts, *out, false);
                        let ghost ex = exchange_spec(
                            l0,
                            taker0.user_id,
                            ov[i as int].user_id,
                            base@,
                            quote@,
                            taker0.side,
                            trade@.size,
                            trade@.funds,
                        );
                        let rx = accounts.exchange_checked(
                            out,
                            taker.user_id.as_str(),
                            maker.user_id.as_str(),
                            base.as_str(),
                            quote.as_str(),
                            taker.side,
                            trade.size,
                            trade.funds,
                        );
                        match rx {
                            Err(e) => {
                                return Err(e);
                            },
                            Ok(()) => {},
                        }
                        let filled = maker.status == OrderStatus::FILLED;
                        if filled {
                            if !Self::unhold_order_funds(&maker, base, quote, accounts, out) {
                                return Err(BalanceError::Overflow);
                            }
                        }
                        let ghost l2g = ledger(*accounts, *out, false);
                        proof {
                            lemma_continues_exchange(
                                l0,
                                taker0.user_id,
                                ov[i as int].user_id,
                                base@,
                                quote@,
                                taker0.side,
                                trade@.size,
                                trade@.funds,
                            );
                            lemma_continues_unhold_order_funds(ex.0, st.maker, base@, quote@);
                            lemma_continues_trans(l0, ex.0, l2g);
                            lemma_adds_no_trade_trans(l0, ex.0, l2g);
                            lemma_traded_size_no_trade(l0, l2g, n0);
                        }
                        if self.order_book_sequence == u64::MAX {
                            return Err(BalanceError::Overflow);
                        }
                        self.order_book_sequence = self.order_book_sequence + 1;
                        let msg = OrderMessage { order_book_sequence: self.order_book_sequence, order: maker.clone() };
                        let ghost kept2 = if filled {
                            kv
                        } else {
                            kv.push(st.maker)
                        };
                        let ghost stopped2 = st.taker.remaining_size.val() <= 0;
                        if !publish_to(accounts, out, MessageType::Order(msg)) {
                            proof {
                                let ms2 = ms_of(self@, taker@, ledger(*accounts, *out, true), false);
                                lemma_level_fault(ms2, ov, i + 1, kept2, stopped2, pid, base@, quote@);
                            }
                            return Err(BalanceError::Overflow);
                        }
                        if !publish_to(accounts, out, MessageType::Trade(trade)) {
                            proof {
                                let ms2 = ms_of(self@, taker@, ledger(*accounts, *out, true), false);
                                lemma_level_fault(ms2, ov, i + 1, kept2, stopped2, pid, base@, quote@);
                            }
                            return Err(BalanceError::Overflow);
                        }
                        if !filled {
                            kept.push(maker);
                            proof {
                                assert(orders_view(kept@) =~= kv.push(st.maker));
                            }
                        }
                        stopped = !dec_lt(zero, taker.remaining_size);
                        proof {
                            let s0 = l2g.messages.subrange(n0, l2g.messages.len() as int);
                            let s2 = out.msgs().subrange(n0, out.msgs().len() as int);
                            assert(out.msgs().len() == l2g.messages.len() + 2);
                            assert(s2.drop_last().drop_last() =~= s0);
                            assert(s2.drop_last() =~= s0.push(s2[s2.len() - 2]));
                            assert(s2 =~= s0.push(s2[s2.len() - 2]).push(s2.last()));
                            lemma_traded_size_push(s0, s2[s2.len() - 2]);
                            lemma_traded_size_push(s0.push(s2[s2.len() - 2]), s2.last());
                            assert(s2.last().message_type == MessageTypeV::Trade(trade@));
                            assert(orders_view(kept@) == kept2);
                            assert(zero.val() == 0);
                            assert(taker@.remaining_size == st.taker.remaining_size);
                            assert(stopped == stopped2);
                            assert(level_spec(ms, ov, i as int, kv, false, pid, base@, quote@) == level_spec(
                                ms_of(self@, taker@, ledger(*accounts, *out, false), false), ov, i + 1, orders_view(kept@), stopped, pid, base@, quote@));
                        }
                    },
                }
            }
            i = i + 1;
        }
        Ok(kept)
    }

    /// Matches the taker against the opposite side, see [`match_spec`].
    #[verifier::spinoff_prover]
    #[verifier::rlimit(60)]
    fn match_order(
        &mut self,
        taker: &mut Order,
        base: &String,
        quote: &String,
        accounts: &mut AccountBook,
        out: &mut Outbox,
    ) -> (r: Result<(), BalanceError>)
        requires
            old(self).wf(),
            old(taker)@.wf(),
            old(accounts).wf(),
        ensures
            old(out).numbered() ==> final(out).numbered(),
            final(self).wf(),
            final(taker)@.wf(),
            final(accounts).wf(),
            final(self)@.product_id == old(self)@.product_id,
            final(self)@.order_sequence == old(self)@.order_sequence,
            ({
                let res = match_spec(
                    ms_of(old(self)@, old(taker)@, ledger(*old(accounts), *old(out), false), false),
                    old(self)@.asks,
                    old(self)@.bids,
                    old(taker)@.side == OrderSide::BUY,
                    old(self)@.product_id,
                    base@,
                    quote@,
                );
                &&& (r == Err::<(), BalanceError>(BalanceError::Overflow) <==> res.0.ledger.fault)
                &&& !res.0.ledger.fault ==> {
                    &&& ms_of(final(self)@, final(taker)@, ledger(*final(accounts), *final(out), false), r is Err) == res.0
                    &&& final(self)@.asks == res.1
                    &&& final(self)@.bids == res.2
                }
            }),
            final(taker)@.order_type == old(taker)@.order_type,
            final(taker)@.side == old(taker)@.side,
            final(taker)@.price == old(taker)@.price,
            final(taker)@.id == old(taker)@.id,
            levels_live(old(self)@.asks) && levels_live(old(self)@.bids) ==> levels_live(final(self)@.asks)
                && levels_live(final(self)@.bids),
            r is Ok ==> old(out).msgs().len() <= final(out).msgs().len(),
            r is Ok && match_fills_exact(
                ms_of(old(self)@, old(taker)@, ledger(*old(accounts), *old(out), false), false),
                old(self)@.asks,
                old(self)@.bids,
                old(taker)@.side == OrderSide::BUY,
                old(self)@.product_id,
                base@,
                quote@,
            ) ==> old(taker)@.remaining_size.val() - final(taker)@.remaining_size.val() == traded_size(
                final(out).msgs().subrange(old(out).msgs().len() as int, final(out).msgs().len() as int),
            ),
            levels_limit(old(self)@.asks) && levels_limit(old(self)@.bids) ==> levels_limit(final(self)@.asks)
                && levels_limit(final(self)@.bids),
            final(self)@.asks.len() > 0 ==> old(self)@.asks.len() > 0 && final(self)@.asks[0].price.val()
                >= old(self)@.asks[0].price.val(),
            final(self)@.bids.len() > 0 ==> old(self)@.bids.len() > 0 && final(self)@.bids.last().price.val()
                <= old(self)@.bids.last().price.val(),
            old(taker)@.order_type == OrderType::LIMIT && r is Ok && final(taker)@.remaining_size.val() > 0 ==> if old(
                taker,
            )@.side == OrderSide::BUY {
                final(self)@.asks.len() == 0 || !crossed(final(taker)@, final(self)@.asks[0].price)
            } else {
                final(self)@.bids.len() == 0 || !crossed(final(taker)@, final(self)@.bids.last().price)
            },
    {
        let is_buy = taker.side == OrderSide::BUY;
        let zero = Dec::zero();
        let ghost pid = self@.product_id;
        let ghost res0 = match_spec(
            ms_of(self@, taker@, ledger(*accounts, *out, false), false),
            self@.asks,
            self@.bids,
            is_buy,
            pid,
            base@,
            quote@,
        );
        let ghost n0 = out.msgs().len() as int;
        let ghost fm0 = match_fills_exact(
            ms_of(self@, taker@, ledger(*accounts, *out, false), false),
            self@.asks,
            self@.bids,
            is_buy,
            pid,
            base@,
            quote@,
        );
        proof {
            assert(out.msgs().subrange(n0, n0) =~= Seq::<MessageV>::empty());
        }
        loop
            invariant
                n0 == old(out).msgs().len(),
                n0 <= out.msgs().len(),
                fm0 == match_fills_exact(
                    ms_of(old(self)@, old(taker)@, ledger(*old(accounts), *old(out), false), false),
                    old(self)@.asks,
                    old(self)@.bids,
                    old(taker)@.side == OrderSide::BUY,
                    old(self)@.product_id,
                    base@,
                    quote@,
                ),
                fm0 ==> match_fills_exact(
                    ms_of(self@, taker@, ledger(*accounts, *out, false), false),
                    self@.asks,
                    self@.bids,
                    is_buy,
                    pid,
                    base@,
                    quote@,
                ),
                fm0 ==> old(taker)@.remaining_size.val() - taker@.remaining_size.val() == traded_size(
                    out.msgs().subrange(n0, out.msgs().len() as int),
                ),
                self.wf(),
                taker@.wf(),
                accounts.wf(),
                zero == (Dec { mantissa: 0, scale: 0 }),
                zero.val() == 0,
                pid == self@.product_id,
                self@.product_id == old(self)@.product_id,
                self@.order_sequence == old(self)@.order_sequence,
                is_buy == (old(taker)@.side == OrderSide::BUY),
                res0 == match_spec(
                    ms_of(old(self)@, old(taker)@, ledger(*old(accounts), *old(out), false), false),
                    old(self)@.asks,
                    old(self)@.bids,
                    old(taker)@.side == OrderSide::BUY,
                    old(self)@.product_id,
                    base@,
                    quote@,
                ),
                match_spec(
                    ms_of(self@, taker@, ledger(*accounts, *out, false), false),
                    self@.asks,
                    self@.bids,
                    is_buy,
                    pid,
                    base@,
                    quote@,
                ) == res0,
                taker@.order_type == old(taker)@.order_type,
                taker@.side == old(taker)@.side,
                taker@.price == old(taker)@.price,
                taker@.id == old(taker)@.id,
                old(out).numbered() ==> out.numbered(),
                levels_live(old(self)@.asks) && levels_live(old(self)@.bids) ==> levels_live(self@.asks) && levels_live(
                    self@.bids,
                ),
                levels_limit(old(self)@.asks) && levels_limit(old(self)@.bids) ==> levels_limit(self@.asks)
                    && levels_limit(self@.bids),
                self@.asks.len() > 0 ==> old(self)@.asks.len() > 0 && self@.asks[0].price.val()
                    >= old(self)@.asks[0].price.val(),
                self@.bids.len() > 0 ==> old(self)@.bids.len() > 0 && self@.bids.last().price.val()
                    <= old(self)@.bids.last().price.val(),
            decreases self@.asks.len() + self@.bids.len(),
        {
            let ghost ms = ms_of(self@, taker@, ledger(*accounts, *out, false), false);
            let ghost asks0 = self@.asks;
            let ghost bids0 = self@.bids;
            if !dec_lt(zero, taker.remaining_size) {
                return Ok(());
            }
            if is_buy {
                if self.asks.len() == 0 {
                    return Ok(());
                }
                let price = self.asks[0].price;
                proof {
                    assert(asks0[0] == self.asks@[0]@);
                }
                if !Self::is_price_crossed(taker, price) {
                    return Ok(());
                }
                let level = self.asks.remove(0);
                proof {
                    assert(levels_view(self.asks@) =~= asks0.subrange(1, asks0.len() as int));
                    lemma_levels_wf_subrange(asks0, 1, asks0.len() as int, OrderSide::SELL);
                    lemma_levels_ok_subrange(asks0, 1, asks0.len() as int, true);
                    lemma_levels_ok_subrange(asks0, 1, asks0.len() as int, false);
                    assert(level@ == asks0[0]);
                    assert forall|j: int| 0 <= j < level.orders@.len() implies (#[trigger] level.orders@[j])@.wf() by {
                        assert(level.orders@[j]@ == asks0[0].orders[j]);
                    }
                }
                let ghost msl = ms_of(self@, taker@, ledger(*accounts, *out, false), false);
                let ghost ov = orders_view(level.orders@);
                proof {
                    assert forall|j: int| 0 <= j < ov.len() implies (#[trigger] ov[j]).price.val() == price.val() && ov[j].side
                        == OrderSide::SELL by {
                        assert(ov[j] == asks0[0].orders[j]);
                    }
                }
                match self.match_level(taker, level.orders, base, quote, accounts, out) {
                    Err(e) => {
                        return Err(e);
                    },
                    Ok(kept) => {
                        proof {
                            lemma_continues_level(msl, ov, 0, seq![], false, pid, base@, quote@);
                            lemma_traded_size_split(msl.ledger, ledger(*accounts, *out, false), n0);
                        }
                        if kept.len() > 0 {
                            let ghost kv = orders_view(kept@);
                            self.asks.insert(0, PriceLevel { price, orders: kept });
                            proof {
                                let rest = asks0.subrange(1, asks0.len() as int);
                                assert(levels_view(self.asks@) =~= rest.insert(0, LevelV { price: asks0[0].price, orders: kv }));
                                lemma_level_kept_in_place(msl, ov, 0, seq![], false, pid, base@, quote@, price, OrderSide::SELL, false, false);
                                if levels_ok(asks0, true) {
                                    lemma_level_kept_in_place(msl, ov, 0, seq![], false, pid, base@, quote@, price, OrderSide::SELL, true, true);
                                    lemma_levels_ok_front(asks0, kv, true);
                                }
                                if levels_ok(asks0, false) {
                                    lemma_level_kept_in_place(msl, ov, 0, seq![], false, pid, base@, quote@, price, OrderSide::SELL, true, false);
                                    lemma_levels_ok_front(asks0, kv, false);
                                }
                                assert forall|j: int| 0 <= j < kv.len() implies order_rests(#[trigger] kv[j], asks0[0].price, OrderSide::SELL) by {
                                    assert(kv[j] == kept@[j]@);
                                }
                                lemma_levels_wf_front(asks0, kv, OrderSide::SELL);
                            }
                            return Ok(());
                        }
                    },
                }
            } else {
                let n = self.bids.len();
                if n == 0 {
                    return Ok(());
                }
                let price = self.bids[n - 1].price;
                proof {
                    assert(bids0.last() == self.bids@[n - 1]@);
                }
                if !Self::is_price_crossed(taker, price) {
                    return Ok(());
                }
                let level = self.bids.pop().unwrap();
                proof {
                    assert(levels_view(self.bids@) =~= bids0.drop_last());
                    lemma_levels_wf_subrange(bids0, 0, bids0.len() - 1, OrderSide::BUY);
                    lemma_levels_ok_subrange(bids0, 0, bids0.len() - 1, true);
                    lemma_levels_ok_subrange(bids0, 0, bids0.len() - 1, false);
                    assert(bids0.drop_last() =~= bids0.subrange(0, bids0.len() - 1));
                    assert(level@ == bids0.last());
                    assert forall|j: int| 0 <= j < level.orders@.len() implies (#[trigger] level.orders@[j])@.wf() by {
                        assert(level.orders@[j]@ == bids0.last().orders[j]);
                    }
                }
                let ghost msl = ms_of(self@, taker@, ledger(*accounts, *out, false), false);
                let ghost ov = orders_view(level.orders@);
                proof {
                    assert forall|j: int| 0 <= j < ov.len() implies (#[trigger] ov[j]).price.val() == price.val() && ov[j].side
                        == OrderSide::BUY by {
                        assert(ov[j] == bids0.last().orders[j]);
                    }
                }
                match self.match_level(taker, level.orders, base, quote, accounts, out) {
                    Err(e) => {
                        return Err(e);
                    },
                    Ok(kept) => {
                        proof {
                            lemma_continues_level(msl, ov, 0, seq![], false, pid, base@, quote@);
                            lemma_traded_size_split(msl.ledger, ledger(*accounts, *out, false), n0);
                        }
                        if kept.len() > 0 {
                            let ghost kv = orders_view(kept@);
                            self.bids.push(PriceLevel { price, orders: kept });
                            proof {
                                assert(levels_view(self.bids@) =~= bids0.drop_last().push(LevelV { price: bids0.last().price, orders: kv }));
                                lemma_level_kept_in_place(msl, ov, 0, seq![], false, pid, base@, quote@, price, OrderSide::BUY, false, false);
                                if levels_ok(bids0, true) {
                                    lemma_level_kept_in_place(msl, ov, 0, seq![], false, pid, base@, quote@, price, OrderSide::BUY, true, true);
                                    lemma_levels_ok_back(bids0, kv, true);
                                }
                                if levels_ok(bids0, false) {
                                    lemma_level_kept_in_place(msl, ov, 0, seq![], false, pid, base@, quote@, price, OrderSide::BUY, true, false);
                                    lemma_levels_ok_back(bids0, kv, false);
                                }
                                assert forall|j: int| 0 <= j < kv.len() implies order_rests(#[trigger] kv[j], bids0.last().price, OrderSide::BUY) by {
                                    assert(kv[j] == kept@[j]@);
                                }
                                lemma_levels_wf_back(bids0, kv, OrderSide::BUY);
                            }
                            return Ok(());
                        }
                    },
                }
            }
        }
    }

    #[verifier::spinoff_prover]
    #[verifier::rlimit(100)]
    /// Placing (see [`OrderBook::place_order`]) on any input: `false` exactly when a decimal
    /// or a counter leaves its range, after which the state is unspecified.
    pub fn place_order_checked(
        &mut self,
        taker_order: Order,
        products: &ProductBook,
        accounts: &mut AccountBook,
        out: &mut Outbox,
    ) -> (ok: bool)
        requires
            old(self).wf(),
            taker_order@.wf(),
            old(accounts).wf(),
            products.wf(),
        ensures
            old(out).numbered() ==> final(out).numbered(),
            final(self).wf(),
            final(accounts).wf(),
            ({
                let res = place_spec(ledger(*old(accounts), *old(out), false), old(self)@, products@, taker_order@);
                &&& ok == !res.0.fault
                &&& ok ==> ledger(*final(accounts), *final(out), false) == res.0 && final(self)@ == res.1
            }),
            ok && old(self)@.uncrossed() ==> final(self)@.uncrossed(),
            ok && placement_fills_exactly(ledger(*old(accounts), *old(out), false), old(self)@, products@, taker_order@)
                ==> taker_fills_add_up(taker_order@, final(out).msgs(), old(out).msgs().len() as int),
    {
        let ghost l_old = ledger(*accounts, *out, false);
        let ghost n0 = out.msgs().len() as int;
        let ghost t0 = taker_order@;
        let product = match products.get_product(&self.product_id) {
            Some(p) => p.clone(),
            None => {
                return true;
            },
        };
        if self.order_sequence == u64::MAX {
            return false;
        }
        self.order_sequence = self.order_sequence + 1;
        let mut taker = taker_order;
        taker.sequence = self.order_sequence;
        let held = if taker.side == OrderSide::BUY {
            accounts.hold_checked(out, taker.user_id.as_str(), product.quote_currency.as_str(), taker.remaining_funds)
        } else {
            accounts.hold_checked(out, taker.user_id.as_str(), product.base_currency.as_str(), taker.remaining_size)
        };
        let ok = match held {
            Ok(b) => b,
            Err(_) => {
                return false;
            },
        };
        let ghost l_held = ledger(*accounts, *out, false);
        if !ok {
            taker.status = OrderStatus::REJECTED;
            let msg = OrderMessage { order_book_sequence: self.order_book_sequence, order: taker };
            return publish_to(accounts, out, MessageType::Order(msg));
        }
        taker.status = OrderStatus::RECEIVED;
        let msg = OrderMessage { order_book_sequence: self.order_book_sequence, order: taker.clone() };
        if !publish_to(accounts, out, MessageType::Order(msg)) {
            return false;
        }
        let ghost l_recv = ledger(*accounts, *out, false);
        let ghost ms_call = ms_of(self@, taker@, l_recv, false);
        let ghost asks_call = self@.asks;
        let ghost bids_call = self@.bids;
        assert(n0 <= l_recv.messages.len() && traded_size(l_recv.messages.subrange(n0, l_recv.messages.len() as int))
            == 0) by {
            lemma_continues_hold(l_old, taker@.user_id, product.quote_currency@, taker@.remaining_funds);
            lemma_continues_hold(l_old, taker@.user_id, product.base_currency@, taker@.remaining_size);
            lemma_continues_trans(l_old, l_held, l_recv);
            lemma_adds_no_trade_trans(l_old, l_held, l_recv);
            lemma_traded_size_no_trade(l_old, l_recv, n0);
            assert(l_old.messages.subrange(n0, n0) =~= Seq::<MessageV>::empty());
        }
        let ghost fe = match_fills_exact(
            ms_call,
            self@.asks,
            self@.bids,
            taker@.side == OrderSide::BUY,
            self@.product_id,
            product.base_currency@,
            product.quote_currency@,
        );
        let ghost rem_call = taker@.remaining_size;
        match self.match_order(&mut taker, &product.base_currency, &product.quote_currency, accounts, out) {
            Err(BalanceError::Overflow) => {
                return false;
            },
            Err(_) => {
                return true;
            },
            Ok(()) => {},
        }
        let ghost l_m = ledger(*accounts, *out, false);
        let ghost rem_m = taker@.remaining_size;
        let ghost id_m = taker@.id;
        assert(n0 <= l_m.messages.len() && (fe ==> rem_call.val() - taker@.remaining_size.val() == traded_size(
            l_m.messages.subrange(n0, l_m.messages.len() as int),
        ))) by {
            lemma_continues_match(
                ms_call,
                asks_call,
                bids_call,
                taker@.side == OrderSide::BUY,
                self@.product_id,
                product.base_currency@,
                product.quote_currency@,
            );
            lemma_traded_size_split(l_recv, l_m, n0);
        }
        let zero = Dec::zero();
        if taker.order_type == OrderType::LIMIT && dec_lt(zero, taker.remaining_size) {
            if self.order_book_sequence == u64::MAX {
                return false;
            }
            taker.status = OrderStatus::OPEN;
            self.order_book_sequence = self.order_book_sequence + 1;
            proof {
                if taker.side == OrderSide::BUY {
                    lemma_level_add_ends(self@.bids, taker@);
                } else {
                    lemma_level_add_ends(self@.asks, taker@);
                }
            }
            self.add_order(taker.clone());
        } else {
            taker.status = if dec_lt(zero, taker.remaining_size) {
                OrderStatus::CANCELLED
            } else {
                OrderStatus::FILLED
            };
            if !Self::unhold_order_funds(&taker, &product.base_currency, &product.quote_currency, accounts, out) {
                return false;
            }
        }
        let ghost l_f = ledger(*accounts, *out, false);
        let ghost t_f = taker@;
        assert(n0 <= l_f.messages.len() && traded_size(l_f.messages.subrange(n0, l_f.messages.len() as int))
            == traded_size(l_m.messages.subrange(n0, l_m.messages.len() as int))) by {
            lemma_continues_unhold_order_funds(l_m, taker@, product.base_currency@, product.quote_currency@);
            lemma_traded_size_no_trade(l_m, l_f, n0);
        }
        let msg = OrderMessage { order_book_sequence: self.order_book_sequence, order: taker };
        let published = publish_to(accounts, out, MessageType::Order(msg));
        assert(published && fe ==> taker_fills_add_up(t0, out.msgs(), n0)) by {
            if published && fe {
                assert(rem_call == t0.remaining_size);
                assert(t_f.remaining_size == rem_m);
                assert(t_f.id == t0.id);
                assert(out.msgs().last().message_type == MessageTypeV::Order(self.order_book_sequence, t_f));
                let s0 = l_f.messages.subrange(n0, l_f.messages.len() as int);
                let s1 = out.msgs().subrange(n0, out.msgs().len() as int);
                assert(s1 =~= s0.push(out.msgs().last()));
                lemma_traded_size_push(s0, out.msgs().last());
            }
        }
        published
    }

    /// Places an order on the book. Nothing happens when the book's product is unknown.
    /// The order gets the next order sequence number, and its funds are held: the remaining
    /// funds in the quote currency for a buy, the remaining size in the base currency for a
    /// sell. If they cannot be held it is published REJECTED. Otherwise it is published
    /// RECEIVED and matched (see [`match_spec`]); a refused settlement ends everything there.
    /// Then a limit order with size left rests in the book as OPEN; any other order is
    /// CANCELLED (size left) or FILLED and releases what it still holds; the order is
    /// published once more.
    /// When every fill is exact and no settlement is refused, the events end with the order,
    /// and what it lost in remaining size is what its trades add up to.
    pub fn place_order(&mut self, taker_order: Order, products: &ProductBook, accounts: &mut AccountBook, out: &mut Outbox)
        requires
            old(self).wf(),
            taker_order@.wf(),
            old(accounts).wf(),
            products.wf(),
            !place_spec(ledger(*old(accounts), *old(out), false), old(self)@, products@, taker_order@).0.fault,
        ensures
            old(out).numbered() ==> final(out).numbered(),
            final(self).wf(),
            final(accounts).wf(),
            ledger(*final(accounts), *final(out), false) == place_spec(
                ledger(*old(accounts), *old(out), false),
                old(self)@,
                products@,
                taker_order@,
            ).0,
            final(self)@ == place_spec(ledger(*old(accounts), *old(out), false), old(self)@, products@, taker_order@).1,
            old(self)@.uncrossed() ==> final(self)@.uncrossed(),
            placement_fills_exactly(ledger(*old(accounts), *old(out), false), old(self)@, products@, taker_order@)
                ==> taker_fills_add_up(taker_order@, final(out).msgs(), old(out).msgs().len() as int),
    {
        let _ = self.place_order_checked(taker_order, products, accounts, out);
    }

    /// Removes the first order with the id from the levels; `None` when there is none.
    fn take_from(levels: &mut Vec<PriceLevel>, id: &String, Ghost(side): Ghost<OrderSide>) -> (r: Option<Order>)
        requires
            levels_wf(levels_view(old(levels)@), side),
        ensures
            levels_wf(levels_view(final(levels)@), side),
            ({
                let s = levels_view(old(levels)@);
                let li = level_of(s, id@, 0);
                &&& (r is None <==> li >= s.len())
                &&& r is None ==> final(levels)@ == old(levels)@
                &&& r matches Some(o) ==> {
                    let oi = find_id(s[li].orders, id@, 0);
                    &&& o@ == s[li].orders[oi]
                    &&& levels_view(final(levels)@) == take_order(s, li, oi)
                }
            }),
    {
        let ghost s = levels_view(levels@);
        proof {
            lemma_level_of(s, id@, 0);
        }
        let mut li: usize = 0;
        while li < levels.len()
            invariant
                s == levels_view(levels@),
                s == levels_view(old(levels)@),
                levels_wf(s, side),
                levels@ == old(levels)@,
                li <= levels@.len(),
                level_of(s, id@, 0) == level_of(s, id@, li as int),
            decreases levels@.len() - li,
        {
            let ghost os = s[li as int].orders;
            proof {
                lemma_find_id(os, id@, 0);
                assert(os == orders_view(levels@[li as int].orders@));
            }
            let mut oi: usize = 0;
            let n = levels[li].orders.len();
            while oi < n
                invariant
                    s == levels_view(levels@),
                    s == levels_view(old(levels)@),
                    levels_wf(s, side),
                    levels@ == old(levels)@,
                    li < levels@.len(),
                    os == s[li as int].orders,
                    n == os.len(),
                    oi <= n,
                    level_of(s, id@, 0) == level_of(s, id@, li as int),
                    find_id(os, id@, 0) == find_id(os, id@, oi as int),
                    os == orders_view(levels@[li as int].orders@),
                decreases n - oi,
            {
                if levels[li].orders[oi].id == *id {
                    proof {
                        assert(os[oi as int] == levels@[li as int].orders@[oi as int]@);
                        assert(find_id(os, id@, oi as int) == oi);
                        assert(level_of(s, id@, li as int) == li);
                        lemma_take_order_wf(s, li as int, oi as int, side);
                    }
                    let mut level = levels.remove(li);
                    let o = level.orders.remove(oi);
                    proof {
                        assert(orders_view(level.orders@) =~= os.remove(oi as int));
                    }
                    if level.orders.len() > 0 {
                        levels.insert(li, level);
                        proof {
                            assert(levels_view(levels@) =~= take_order(s, li as int, oi as int));
                        }
                    } else {
                        proof {
                            assert(levels_view(levels@) =~= take_order(s, li as int, oi as int));
                        }
                    }
                    return Some(o);
                }
                proof {
                    assert(os[oi as int] == levels@[li as int].orders@[oi as int]@);
                }
                oi = oi + 1;
            }
            proof {
                assert(find_id(os, id@, 0) >= os.len());
            }
            li = li + 1;
        }
        None
    }

    /// Cancelling (see [`OrderBook::cancel_order`]) on any input: `false` exactly when a
    /// decimal or a counter leaves its range, after which the state is unspecified.
    pub fn cancel_order_checked(
        &mut self,
        order_id: &String,
        products: &ProductBook,
        accounts: &mut AccountBook,
        out: &mut Outbox,
    ) -> (ok: bool)
        requires
            old(self).wf(),
            old(accounts).wf(),
            products.wf(),
        ensures
            old(out).numbered() ==> final(out).numbered(),
            final(self).wf(),
            final(accounts).wf(),
            ({
                let res = cancel_spec(ledger(*old(accounts), *old(out), false), old(self)@, products@, order_id@);
                &&& ok == !res.0.fault
                &&& ok ==> ledger(*final(accounts), *final(out), false) == res.0 && final(self)@ == res.1
            }),
            ok && old(self)@.uncrossed() ==> final(self)@.uncrossed(),
    {
        proof {
            if old(self)@.uncrossed() {
                cancel_keeps_book_uncrossed(ledger(*old(accounts), *old(out), false), old(self)@, products@, order_id@);
            }
        }
        let product = match products.get_product(&self.product_id) {
            Some(p) => p.clone(),
            None => {
                return true;
            },
        };
        let mut order = match Self::take_from(&mut self.asks, order_id, Ghost(OrderSide::SELL)) {
            Some(o) => o,
            None => match Self::take_from(&mut self.bids, order_id, Ghost(OrderSide::BUY)) {
                Some(o) => o,
                None => {
                    return true;
                },
            },
        };
        proof {
            let s = levels_view(old(self).asks@);
            let li = level_of(s, order_id@, 0);
            lemma_level_of(s, order_id@, 0);
            if li < s.len() {
                lemma_find_id(s[li].orders, order_id@, 0);
            } else {
                let t = levels_view(old(self).bids@);
                lemma_level_of(t, order_id@, 0);
                lemma_find_id(t[level_of(t, order_id@, 0)].orders, order_id@, 0);
            }
        }
        order.status = OrderStatus::CANCELLED;
        if !Self::unhold_order_funds(&order, &product.base_currency, &product.quote_currency, accounts, out) {
            return false;
        }
        if self.order_book_sequence == u64::MAX {
            return false;
        }
        self.order_book_sequence = self.order_book_sequence + 1;
        let msg = OrderMessage { order_book_sequence: self.order_book_sequence, order };
        publish_to(accounts, out, MessageType::Order(msg))
    }

    /// Cancels the resting order with the id, see [`cancel_spec`].
    pub fn cancel_order(&mut self, order_id: &String, products: &ProductBook, accounts: &mut AccountBook, out: &mut Outbox)
        requires
            old(self).wf(),
            old(accounts).wf(),
            products.wf(),
            !cancel_spec(ledger(*old(accounts), *old(out), false), old(self)@, products@, order_id@).0.fault,
        ensures
            old(out).numbered() ==> final(out).numbered(),
            final(self).wf(),
            final(accounts).wf(),
            ledger(*final(accounts), *final(out), false) == cancel_spec(
                ledger(*old(accounts), *old(out), false),
                old(self)@,
                products@,
                order_id@,
            ).0,
            final(self)@ == cancel_spec(ledger(*old(accounts), *old(out), false), old(self)@, products@, order_id@).1,
            old(self)@.uncrossed() ==> final(self)@.uncrossed(),
    {
        let _ = self.cancel_order_checked(order_id, products, accounts, out);
    }

    /// The ask levels, by increasing price.
    pub fn asks(&self) -> (r: &Vec<PriceLevel>)
        ensures
            levels_view(r@) == self@.asks,
    {
        &self.asks
    }

    /// The bid levels, by increasing price (the best bid is last).
    pub fn bids(&self) -> (r: &Vec<PriceLevel>)
        ensures
            levels_view(r@) == self@.bids,
    {
        &self.bids
    }

    /// The last order, trade and book sequence numbers.
    pub fn sequences(&self) -> (r: (u64, u64, u64))
        ensures
            r == (self@.order_sequence, self@.trade_sequence, self@.order_book_sequence),
    {
        (self.order_sequence, self.trade_sequence, self.order_book_sequence)
    }
}

} // verus!
