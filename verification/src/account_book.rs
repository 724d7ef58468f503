use vstd::prelude::*;
use vstd::string::StringExecFns;

use crate::dec::{
    checked_difference, checked_sum, dec_checked_add, dec_checked_sub, dec_lt, difference_is_exact, lemma_plus_zero_exact,
    pow10, sum_is_exact, Dec,
};
use crate::enums::OrderSide;
use crate::message::{MessageType, MessageTypeV, MessageV, Outbox};

verus! {

/// A user's balance in one currency.
#[derive(Debug)]
pub struct Account {
    pub id: String,
    pub user_id: String,
    pub currency: String,
    pub available: Dec,
    pub hold: Dec,
}

/// The contents of an [`Account`].
pub struct AccountV {
    pub id: Seq<char>,
    pub user_id: Seq<char>,
    pub currency: Seq<char>,
    pub available: Dec,
    pub hold: Dec,
}

impl View for Account {
    type V = AccountV;

    open spec fn view(&self) -> AccountV {
        AccountV {
            id: self.id@,
            user_id: self.user_id@,
            currency: self.currency@,
            available: self.available,
            hold: self.hold,
        }
    }
}

impl Clone for Account {
    fn clone(&self) -> (r: Self)
        ensures
            r@ == self@,
            r == *self,
    {
        Account {
            id: self.id.clone(),
            user_id: self.user_id.clone(),
            currency: self.currency.clone(),
            available: self.available,
            hold: self.hold,
        }
    }
}

impl crate::keyed::Copied for Account {
    fn copied(&self) -> (r: Self) {
        self.clone()
    }
}

/// Why a balance operation was refused.
#[derive(Debug, Clone, Copy, PartialEq, Eq, Structural)]
pub enum BalanceError {
    /// Unhold of a non-positive amount or of more than is held.
    InvalidUnhold,
    /// No account for the user and currency.
    AccountNotFound,
    /// The update would leave a negative available or held amount.
    NegativeBalance,
    /// A decimal or a counter left its range.
    Overflow,
}

/// Accounts are found by user and currency.
pub open spec fn account_key(a: Account) -> (Seq<char>, Seq<char>) {
    (a.user_id@, a.currency@)
}

/// The accounts of a list, each found by user and currency; a later entry wins.
pub open spec fn account_map(s: Seq<Account>) -> Map<(Seq<char>, Seq<char>), AccountV>
    decreases s.len(),
{
    if s.len() == 0 {
        Map::empty()
    } else {
        account_map(s.drop_last()).insert(account_key(s.last()), s.last()@)
    }
}

/// `i` is the last position of the list that holds key `k`.
pub open spec fn is_last_key(s: Seq<Account>, i: int, k: (Seq<char>, Seq<char>)) -> bool {
    &&& 0 <= i < s.len()
    &&& account_key(s[i]) == k
    &&& forall|j: int| i < j < s.len() ==> account_key(#[trigger] s[j]) != k
}

/// Every account holds valid decimals.
pub open spec fn accounts_wf(m: Map<(Seq<char>, Seq<char>), AccountV>) -> bool {
    forall|k: (Seq<char>, Seq<char>)| #[trigger] m.contains_key(k) ==> m[k].available.wf() && m[k].hold.wf()
}

proof fn lemma_map_contains(s: Seq<Account>, k: (Seq<char>, Seq<char>))
    ensures
        account_map(s).contains_key(k) <==> exists|j: int| 0 <= j < s.len() && account_key(#[trigger] s[j]) == k,
    decreases s.len(),
{
    if s.len() > 0 {
        lemma_map_contains(s.drop_last(), k);
        if account_map(s).contains_key(k) && account_key(s.last()) != k {
            let j = choose|j: int| 0 <= j < s.drop_last().len() && account_key(#[trigger] s.drop_last()[j]) == k;
            assert(s[j] == s.drop_last()[j]);
        }
        if exists|j: int| 0 <= j < s.len() && account_key(#[trigger] s[j]) == k {
            let j = choose|j: int| 0 <= j < s.len() && account_key(#[trigger] s[j]) == k;
            if j < s.len() - 1 {
                assert(s.drop_last()[j] == s[j]);
            }
        }
    }
}

/// An account is stored under its own user and currency.
pub proof fn lemma_map_keys(s: Seq<Account>, k: (Seq<char>, Seq<char>))
    requires
        account_map(s).contains_key(k),
    ensures
        (account_map(s)[k].user_id, account_map(s)[k].currency) == k,
    decreases s.len(),
{
    if s.len() > 0 && account_key(s.last()) != k {
        lemma_map_keys(s.drop_last(), k);
    }
}

proof fn lemma_map_last(s: Seq<Account>, i: int, k: (Seq<char>, Seq<char>))
    requires
        is_last_key(s, i, k),
    ensures
        account_map(s).contains_key(k),
        account_map(s)[k] == s[i]@,
    decreases s.len(),
{
    if i < s.len() - 1 {
        assert(account_key(s[s.len() - 1]) != k);
        let t = s.drop_last();
        assert forall|j: int| i < j < t.len() implies account_key(#[trigger] t[j]) != k by {
            assert(t[j] == s[j]);
        }
        assert(t[i] == s[i]);
        lemma_map_last(t, i, k);
    }
}

proof fn lemma_map_update(s: Seq<Account>, i: int, a: Account)
    requires
        is_last_key(s, i, account_key(a)),
    ensures
        account_map(s.update(i, a)) =~= account_map(s).insert(account_key(a), a@),
    decreases s.len(),
{
    let k = account_key(a);
    let u = s.update(i, a);
    if i == s.len() - 1 {
        assert(u.drop_last() =~= s.drop_last());
    } else {
        let t = s.drop_last();
        assert(u.drop_last() =~= t.update(i, a));
        assert forall|j: int| i < j < t.len() implies account_key(#[trigger] t[j]) != k by {
            assert(t[j] == s[j]);
        }
        assert(t[i] == s[i]);
        lemma_map_update(t, i, a);
        assert(u.last() == s.last());
        assert(account_key(s.last()) != k);
    }
}

/// The accounts of all users, found by user and currency.
pub struct AccountBook {
    accounts: Vec<Account>,
}

impl View for AccountBook {
    type V = Map<(Seq<char>, Seq<char>), AccountV>;

    closed spec fn view(&self) -> Map<(Seq<char>, Seq<char>), AccountV> {
        account_map(self.accounts@)
    }
}

/// Account balances together with the events published so far; `fault` records that a
/// decimal or a counter left its range, after which nothing changes.
#[verifier::ext_equal]
pub struct Ledger {
    pub accounts: Map<(Seq<char>, Seq<char>), AccountV>,
    pub sequence: u64,
    pub messages: Seq<MessageV>,
    pub fault: bool,
}

impl Ledger {
    /// The published events are numbered consecutively, the last one with `sequence`.
    pub open spec fn numbered(self) -> bool {
        forall|i: int|
            0 <= i < self.messages.len() ==> (#[trigger] self.messages[i]).sequence == self.sequence - (
            self.messages.len() - 1 - i)
    }
}

pub open spec fn ledger(book: AccountBook, out: Outbox, fault: bool) -> Ledger {
    Ledger { accounts: book@, sequence: out.sequence, messages: out.msgs(), fault }
}

pub open spec fn fail(l: Ledger) -> Ledger {
    Ledger { fault: true, ..l }
}

/// Publishes an event with the next sequence number.
pub open spec fn publish_spec(l: Ledger, mt: MessageTypeV) -> Ledger {
    if l.fault {
        l
    } else if l.sequence == u64::MAX {
        fail(l)
    } else {
        Ledger {
            sequence: (l.sequence + 1) as u64,
            messages: l.messages.push(MessageV { sequence: (l.sequence + 1) as u64, message_type: mt }),
            ..l
        }
    }
}

pub open spec fn set_account(l: Ledger, a: AccountV) -> Ledger {
    Ledger { accounts: l.accounts.insert((a.user_id, a.currency), a), ..l }
}

pub open spec fn zero() -> Dec {
    Dec { mantissa: 0, scale: 0 }
}

/// The empty account a user gets on first use of a currency; its id is `user-currency`.
pub open spec fn new_account(u: Seq<char>, c: Seq<char>) -> AccountV {
    AccountV { id: u + seq!['-'] + c, user_id: u, currency: c, available: zero(), hold: zero() }
}

pub open spec fn account_or_new(m: Map<(Seq<char>, Seq<char>), AccountV>, u: Seq<char>, c: Seq<char>) -> AccountV {
    if m.contains_key((u, c)) {
        m[(u, c)]
    } else {
        new_account(u, c)
    }
}

/// Deposit: the available amount grows by `amount`; the account is created if missing.
pub open spec fn deposit_spec(l: Ledger, u: Seq<char>, c: Seq<char>, amount: Dec) -> Ledger {
    if l.fault {
        l
    } else {
        let a = account_or_new(l.accounts, u, c);
        let l1 = set_account(l, a);
        match checked_sum(a.available, amount) {
            None => fail(l1),
            Some(v) => {
                let a2 = AccountV { available: v, ..a };
                publish_spec(set_account(l1, a2), MessageTypeV::Account(a2))
            },
        }
    }
}

/// Hold: a positive amount no larger than what is available moves from available to held.
pub open spec fn hold_spec(l: Ledger, u: Seq<char>, c: Seq<char>, amount: Dec) -> (Ledger, bool) {
    if l.fault {
        (l, false)
    } else if amount.val() <= 0 || !l.accounts.contains_key((u, c)) {
        (l, false)
    } else {
        let a = l.accounts[(u, c)];
        if a.available.val() < amount.val() {
            (l, false)
        } else {
            match checked_difference(a.available, amount) {
                None => (fail(l), false),
                Some(na) => {
                    let a1 = AccountV { available: na, ..a };
                    let l1 = set_account(l, a1);
                    match checked_sum(a.hold, amount) {
                        None => (fail(l1), false),
                        Some(nh) => {
                            let a2 = AccountV { hold: nh, ..a1 };
                            (publish_spec(set_account(l1, a2), MessageTypeV::Account(a2)), true)
                        },
                    }
                },
            }
        }
    }
}

/// Unhold: a positive amount no larger than what is held moves from held to available.
pub open spec fn unhold_spec(l: Ledger, u: Seq<char>, c: Seq<char>, amount: Dec) -> (Ledger, Result<(), BalanceError>) {
    if l.fault {
        (l, Ok(()))
    } else if !l.accounts.contains_key((u, c)) {
        (l, Err(BalanceError::AccountNotFound))
    } else {
        let a = l.accounts[(u, c)];
        if amount.val() <= 0 || a.hold.val() < amount.val() {
            (l, Err(BalanceError::InvalidUnhold))
        } else {
            match checked_sum(a.available, amount) {
                None => (fail(l), Ok(())),
                Some(na) => {
                    let a1 = AccountV { available: na, ..a };
                    let l1 = set_account(l, a1);
                    match checked_difference(a.hold, amount) {
                        None => (fail(l1), Ok(())),
                        Some(nh) => {
                            let a2 = AccountV { hold: nh, ..a1 };
                            (publish_spec(set_account(l1, a2), MessageTypeV::Account(a2)), Ok(()))
                        },
                    }
                },
            }
        }
    }
}

/// Balance update: both deltas are applied (the account is created if missing); a negative
/// result is refused after the change, and no event is published then.
pub open spec fn update_balance_spec(l: Ledger, u: Seq<char>, c: Seq<char>, da: Dec, dh: Dec) -> (Ledger, Result<(), BalanceError>) {
    if l.fault {
        (l, Ok(()))
    } else {
        let a = account_or_new(l.accounts, u, c);
        let l1 = set_account(l, a);
        match checked_sum(a.available, da) {
            None => (fail(l1), Ok(())),
            Some(na) => {
                let a1 = AccountV { available: na, ..a };
                let l2 = set_account(l1, a1);
                match checked_sum(a.hold, dh) {
                    None => (fail(l2), Ok(())),
                    Some(nh) => {
                        let a2 = AccountV { hold: nh, ..a1 };
                        let l3 = set_account(l2, a2);
                        if na.val() < 0 || nh.val() < 0 {
                            (l3, Err(BalanceError::NegativeBalance))
                        } else {
                            (publish_spec(l3, MessageTypeV::Account(a2)), Ok(()))
                        }
                    },
                }
            },
        }
    }
}

pub open spec fn negated(d: Dec) -> Dec {
    Dec { mantissa: (-d.mantissa) as i128, scale: d.scale }
}

/// `l2` continues `l`: it keeps every event of `l` in place, and the events after them are
/// numbered one by one from right after `l`'s counter up to `l2`'s counter.
pub open spec fn continues(l: Ledger, l2: Ledger) -> bool {
    &&& l.messages.len() <= l2.messages.len()
    &&& l2.sequence == l.sequence + (l2.messages.len() - l.messages.len())
    &&& forall|i: int| 0 <= i < l.messages.len() ==> #[trigger] l2.messages[i] == l.messages[i]
    &&& forall|i: int|
        l.messages.len() <= i < l2.messages.len() ==> #[trigger] l2.messages[i].sequence == l.sequence + 1 + (i
            - l.messages.len())
}

/// No event that `l2` adds after those of `l` is a trade.
pub open spec fn adds_no_trade(l: Ledger, l2: Ledger) -> bool {
    forall|i: int| l.messages.len() <= i < l2.messages.len() ==> !(#[trigger] l2.messages[i].message_type is Trade)
}

pub(crate) proof fn lemma_adds_no_trade_trans(a: Ledger, b: Ledger, c: Ledger)
    requires
        continues(a, b),
        continues(b, c),
        adds_no_trade(a, b),
        adds_no_trade(b, c),
    ensures
        adds_no_trade(a, c),
{
    assert forall|i: int| a.messages.len() <= i < c.messages.len() implies !(#[trigger] c.messages[i].message_type is Trade) by {
        if i < b.messages.len() {
            assert(c.messages[i] == b.messages[i]);
        }
    }
}

pub(crate) proof fn lemma_continues_trans(a: Ledger, b: Ledger, c: Ledger)
    requires
        continues(a, b),
        continues(b, c),
    ensures
        continues(a, c),
{
    assert forall|i: int| a.messages.len() <= i < c.messages.len() implies #[trigger] c.messages[i].sequence == a.sequence
        + 1 + (i - a.messages.len()) by {
        if i < b.messages.len() {
            assert(c.messages[i] == b.messages[i]);
        }
    }
}

proof fn lemma_continues_update_balance(l: Ledger, u: Seq<char>, c: Seq<char>, da: Dec, dh: Dec)
    ensures
        continues(l, update_balance_spec(l, u, c, da, dh).0),
        adds_no_trade(l, update_balance_spec(l, u, c, da, dh).0),
{
}

pub(crate) proof fn lemma_continues_hold(l: Ledger, u: Seq<char>, c: Seq<char>, amount: Dec)
    ensures
        continues(l, hold_spec(l, u, c, amount).0),
        adds_no_trade(l, hold_spec(l, u, c, amount).0),
{
}

pub(crate) proof fn lemma_continues_unhold(l: Ledger, u: Seq<char>, c: Seq<char>, amount: Dec)
    ensures
        continues(l, unhold_spec(l, u, c, amount).0),
        adds_no_trade(l, unhold_spec(l, u, c, amount).0),
{
}

pub(crate) proof fn lemma_continues_deposit(l: Ledger, u: Seq<char>, c: Seq<char>, amount: Dec)
    ensures
        continues(l, deposit_spec(l, u, c, amount)),
        adds_no_trade(l, deposit_spec(l, u, c, amount)),
{
}

/// Four balance updates, stopping at the first refusal.
pub open spec fn updates4(
    l: Ledger,
    u1: (Seq<char>, Seq<char>, Dec, Dec),
    u2: (Seq<char>, Seq<char>, Dec, Dec),
    u3: (Seq<char>, Seq<char>, Dec, Dec),
    u4: (Seq<char>, Seq<char>, Dec, Dec),
) -> (Ledger, Result<(), BalanceError>) {
    let (l1, r1) = update_balance_spec(l, u1.0, u1.1, u1.2, u1.3);
    if r1 is Err {
        (l1, r1)
    } else {
        let (l2, r2) = update_balance_spec(l1, u2.0, u2.1, u2.2, u2.3);
        if r2 is Err {
            (l2, r2)
        } else {
            let (l3, r3) = update_balance_spec(l2, u3.0, u3.1, u3.2, u3.3);
            if r3 is Err {
                (l3, r3)
            } else {
                update_balance_spec(l3, u4.0, u4.1, u4.2, u4.3)
            }
        }
    }
}

/// Settlement of a fill: the buyer gets `size` of base and pays `funds` of quote from its
/// hold; the seller gets `funds` of quote and gives `size` of base from its hold.
pub open spec fn exchange_spec(
    l: Ledger,
    taker: Seq<char>,
    maker: Seq<char>,
    base: Seq<char>,
    quote: Seq<char>,
    taker_side: OrderSide,
    size: Dec,
    funds: Dec,
) -> (Ledger, Result<(), BalanceError>) {
    if taker_side == OrderSide::BUY {
        updates4(
            l,
            (taker, base, size, zero()),
            (taker, quote, zero(), negated(funds)),
            (maker, base, zero(), negated(size)),
            (maker, quote, funds, zero()),
        )
    } else {
        updates4(
            l,
            (taker, base, zero(), negated(size)),
            (taker, quote, funds, zero()),
            (maker, base, size, zero()),
            (maker, quote, zero(), negated(funds)),
        )
    }
}

proof fn lemma_continues_updates4(
    l: Ledger,
    u1: (Seq<char>, Seq<char>, Dec, Dec),
    u2: (Seq<char>, Seq<char>, Dec, Dec),
    u3: (Seq<char>, Seq<char>, Dec, Dec),
    u4: (Seq<char>, Seq<char>, Dec, Dec),
)
    ensures
        continues(l, updates4(l, u1, u2, u3, u4).0),
        adds_no_trade(l, updates4(l, u1, u2, u3, u4).0),
{
    let (l1, r1) = update_balance_spec(l, u1.0, u1.1, u1.2, u1.3);
    let (l2, r2) = update_balance_spec(l1, u2.0, u2.1, u2.2, u2.3);
    let (l3, r3) = update_balance_spec(l2, u3.0, u3.1, u3.2, u3.3);
    let l4 = update_balance_spec(l3, u4.0, u4.1, u4.2, u4.3).0;
    lemma_continues_update_balance(l, u1.0, u1.1, u1.2, u1.3);
    lemma_continues_update_balance(l1, u2.0, u2.1, u2.2, u2.3);
    lemma_continues_update_balance(l2, u3.0, u3.1, u3.2, u3.3);
    lemma_continues_update_balance(l3, u4.0, u4.1, u4.2, u4.3);
    lemma_continues_trans(l, l1, l2);
    lemma_continues_trans(l, l2, l3);
    lemma_continues_trans(l, l3, l4);
    lemma_adds_no_trade_trans(l, l1, l2);
    lemma_adds_no_trade_trans(l, l2, l3);
    lemma_adds_no_trade_trans(l, l3, l4);
}

pub(crate) proof fn lemma_continues_exchange(
    l: Ledger,
    taker: Seq<char>,
    maker: Seq<char>,
    base: Seq<char>,
    quote: Seq<char>,
    taker_side: OrderSide,
    size: Dec,
    funds: Dec,
)
    ensures
        continues(l, exchange_spec(l, taker, maker, base, quote, taker_side, size, funds).0),
        adds_no_trade(l, exchange_spec(l, taker, maker, base, quote, taker_side, size, funds).0),
{
    if taker_side == OrderSide::BUY {
        lemma_continues_updates4(
            l,
            (taker, base, size, zero()),
            (taker, quote, zero(), negated(funds)),
            (maker, base, zero(), negated(size)),
            (maker, quote, funds, zero()),
        );
    } else {
        lemma_continues_updates4(
            l,
            (taker, base, zero(), negated(size)),
            (taker, quote, funds, zero()),
            (maker, base, size, zero()),
            (maker, quote, zero(), negated(funds)),
        );
    }
}

/// The account under `k` is the same before and after: both missing, or both equal.
pub open spec fn unchanged_at(
    before: Map<(Seq<char>, Seq<char>), AccountV>,
    after: Map<(Seq<char>, Seq<char>), AccountV>,
    k: (Seq<char>, Seq<char>),
) -> bool {
    &&& after.contains_key(k) == before.contains_key(k)
    &&& before.contains_key(k) ==> after[k] == before[k]
}

/// `k` is one of the four accounts a settlement touches.
pub open spec fn settlement_key(
    k: (Seq<char>, Seq<char>),
    taker: Seq<char>,
    maker: Seq<char>,
    base: Seq<char>,
    quote: Seq<char>,
) -> bool {
    k == (taker, base) || k == (taker, quote) || k == (maker, base) || k == (maker, quote)
}

/// Each of the four accounts of a settlement exists and holds no negative amount.
pub open spec fn settled_nonneg(
    f: Map<(Seq<char>, Seq<char>), AccountV>,
    taker: Seq<char>,
    maker: Seq<char>,
    base: Seq<char>,
    quote: Seq<char>,
) -> bool {
    forall|k: (Seq<char>, Seq<char>)|
        settlement_key(k, taker, maker, base, quote) ==> f.contains_key(k) && f[k].available.val() >= 0
            && #[trigger] f[k].hold.val() >= 0
}

/// Holding `amount` on account `a` gave `a2`: what was available went down by it and what
/// is held went up by it, as far as those sums are exact.
pub open spec fn held_amount(a: AccountV, a2: AccountV, amount: Dec) -> bool {
    &&& difference_is_exact(a.available, amount) ==> a2.available.val() == a.available.val() - amount.val()
    &&& sum_is_exact(a.hold, amount) ==> a2.hold.val() == a.hold.val() + amount.val()
}

/// Releasing `amount` on account `a` gave `a2`: what is held went down by it and what is
/// available went up by it, as far as those sums are exact.
pub open spec fn released_amount(a: AccountV, a2: AccountV, amount: Dec) -> bool {
    &&& sum_is_exact(a.available, amount) ==> a2.available.val() == a.available.val() + amount.val()
    &&& difference_is_exact(a.hold, amount) ==> a2.hold.val() == a.hold.val() - amount.val()
}

/// Releasing what was just held gives the account back: after a successful hold of
/// `amount` on an account holding nothing negative, an unhold of the same amount is owed
/// success (what is held covers it), and it restores what is available and what is held,
/// as far as the four sums are exact.
pub proof fn unhold_undoes_hold(a: AccountV, held: AccountV, back: AccountV, amount: Dec)
    requires
        amount.val() > 0,
        a.available.val() >= amount.val(),
        a.hold.val() >= 0,
        held_amount(a, held, amount),
        released_amount(held, back, amount),
        difference_is_exact(a.available, amount),
        sum_is_exact(a.hold, amount),
        sum_is_exact(held.available, amount),
        difference_is_exact(held.hold, amount),
    ensures
        held.hold.val() >= amount.val(),
        back.available.val() == a.available.val(),
        back.hold.val() == a.hold.val(),
{
}

/// What an account holds in all, available and held, by value.
pub open spec fn total(a: AccountV) -> int {
    a.available.val() + a.hold.val()
}

/// `after` is `before` with `da` added to what is available and `dh` to what is held, as
/// far as those sums are exact.
pub open spec fn moved(before: AccountV, after: AccountV, da: Dec, dh: Dec) -> bool {
    &&& sum_is_exact(before.available, da) ==> after.available.val() == before.available.val() + da.val()
    &&& sum_is_exact(before.hold, dh) ==> after.hold.val() == before.hold.val() + dh.val()
}

/// The four balance changes of a settlement (see [`exchange_spec`]), from the accounts
/// before it (`o`) to those after it (`f`).
pub open spec fn exchange_moves(
    o: Map<(Seq<char>, Seq<char>), AccountV>,
    f: Map<(Seq<char>, Seq<char>), AccountV>,
    taker: Seq<char>,
    maker: Seq<char>,
    base: Seq<char>,
    quote: Seq<char>,
    taker_side: OrderSide,
    size: Dec,
    funds: Dec,
) -> bool {
    &&& f.contains_key((taker, base)) && f.contains_key((taker, quote))
    &&& f.contains_key((maker, base)) && f.contains_key((maker, quote))
    &&& if taker_side == OrderSide::BUY {
        &&& moved(account_or_new(o, taker, base), f[(taker, base)], size, zero())
        &&& moved(account_or_new(o, taker, quote), f[(taker, quote)], zero(), negated(funds))
        &&& moved(account_or_new(o, maker, base), f[(maker, base)], zero(), negated(size))
        &&& moved(account_or_new(o, maker, quote), f[(maker, quote)], funds, zero())
    } else {
        &&& moved(account_or_new(o, taker, base), f[(taker, base)], zero(), negated(size))
        &&& moved(account_or_new(o, taker, quote), f[(taker, quote)], funds, zero())
        &&& moved(account_or_new(o, maker, base), f[(maker, base)], size, zero())
        &&& moved(account_or_new(o, maker, quote), f[(maker, quote)], zero(), negated(funds))
    }
}

/// What the two parties of a settlement hold together in a currency, by value.
pub open spec fn pair_total(
    m: Map<(Seq<char>, Seq<char>), AccountV>,
    taker: Seq<char>,
    maker: Seq<char>,
    currency: Seq<char>,
) -> int {
    total(account_or_new(m, taker, currency)) + total(account_or_new(m, maker, currency))
}

proof fn lemma_negated_val(d: Dec)
    requires
        d.wf(),
    ensures
        negated(d).val() == -d.val(),
        negated(d).wf(),
{
    let p = pow10((28 - d.scale) as nat) as int;
    assert((-d.mantissa) * p == -(d.mantissa * p)) by (nonlinear_arith);
}

proof fn lemma_zero_step(x: Dec, d: Dec)
    requires
        x.wf(),
        d.wf(),
    ensures
        (if x.mantissa == 0 { Dec { mantissa: 0, scale: 0 } } else { x }).val() == x.val(),
        sum_is_exact(x, d) ==> sum_is_exact(if x.mantissa == 0 { Dec { mantissa: 0, scale: 0 } } else { x }, d),
{
    lemma_plus_zero_exact(d);
    if x.mantissa == 0 {
        assert(x.val() == 0);
    }
}

proof fn lemma_account_or_new_wf(m: Map<(Seq<char>, Seq<char>), AccountV>, u: Seq<char>, c: Seq<char>)
    requires
        accounts_wf(m),
    ensures
        account_or_new(m, u, c).available.wf(),
        account_or_new(m, u, c).hold.wf(),
{
}

/// A settlement between two different users in two different currencies, with its four
/// non-zero changes exact, conserves each currency: what the two parties hold in it
/// together, available and held, is what they held before.
pub proof fn exchange_conserves_currencies(
    o: Map<(Seq<char>, Seq<char>), AccountV>,
    f: Map<(Seq<char>, Seq<char>), AccountV>,
    taker: Seq<char>,
    maker: Seq<char>,
    base: Seq<char>,
    quote: Seq<char>,
    taker_side: OrderSide,
    size: Dec,
    funds: Dec,
)
    requires
        accounts_wf(o),
        size.wf(),
        funds.wf(),
        exchange_moves(o, f, taker, maker, base, quote, taker_side, size, funds),
        exchange_exact(o, taker, maker, base, quote, taker_side, size, funds),
    ensures
        pair_total(f, taker, maker, base) == pair_total(o, taker, maker, base),
        pair_total(f, taker, maker, quote) == pair_total(o, taker, maker, quote),
{
    lemma_account_or_new_wf(o, taker, base);
    lemma_account_or_new_wf(o, taker, quote);
    lemma_account_or_new_wf(o, maker, base);
    lemma_account_or_new_wf(o, maker, quote);
    lemma_negated_val(size);
    lemma_negated_val(funds);
    lemma_plus_zero_exact(account_or_new(o, taker, base).available);
    lemma_plus_zero_exact(account_or_new(o, taker, base).hold);
    lemma_plus_zero_exact(account_or_new(o, taker, quote).available);
    lemma_plus_zero_exact(account_or_new(o, taker, quote).hold);
    lemma_plus_zero_exact(account_or_new(o, maker, base).available);
    lemma_plus_zero_exact(account_or_new(o, maker, base).hold);
    lemma_plus_zero_exact(account_or_new(o, maker, quote).available);
    lemma_plus_zero_exact(account_or_new(o, maker, quote).hold);
}

/// A settlement of a user with itself, in two different currencies, with its changes
/// exact, conserves each currency: what the user holds in it, available and held, is what
/// it held before.
pub proof fn self_trade_conserves_currencies(
    o: Map<(Seq<char>, Seq<char>), AccountV>,
    f: Map<(Seq<char>, Seq<char>), AccountV>,
    user: Seq<char>,
    base: Seq<char>,
    quote: Seq<char>,
    taker_side: OrderSide,
    size: Dec,
    funds: Dec,
)
    requires
        accounts_wf(o),
        size.wf(),
        funds.wf(),
        self_trade_moves(o, f, user, base, quote, size, funds),
        exchange_exact(o, user, user, base, quote, taker_side, size, funds),
    ensures
        total(f[(user, base)]) == total(account_or_new(o, user, base)),
        total(f[(user, quote)]) == total(account_or_new(o, user, quote)),
{
    lemma_account_or_new_wf(o, user, base);
    lemma_account_or_new_wf(o, user, quote);
    lemma_negated_val(size);
    lemma_negated_val(funds);
}

/// The settlement is covered: sizes and funds are not negative, the four accounts hold no
/// negative amount, and the holds it draws on are large enough (the buyer's quote hold for
/// the funds, the seller's base hold for the size).
pub open spec fn exchange_covered(
    o: Map<(Seq<char>, Seq<char>), AccountV>,
    taker: Seq<char>,
    maker: Seq<char>,
    base: Seq<char>,
    quote: Seq<char>,
    taker_side: OrderSide,
    size: Dec,
    funds: Dec,
) -> bool {
    let tb = account_or_new(o, taker, base);
    let tq = account_or_new(o, taker, quote);
    let mb = account_or_new(o, maker, base);
    let mq = account_or_new(o, maker, quote);
    &&& size.val() >= 0 && funds.val() >= 0
    &&& tb.available.val() >= 0 && tb.hold.val() >= 0 && tq.available.val() >= 0 && tq.hold.val() >= 0
    &&& mb.available.val() >= 0 && mb.hold.val() >= 0 && mq.available.val() >= 0 && mq.hold.val() >= 0
    &&& if taker_side == OrderSide::BUY {
        tq.hold.val() >= funds.val() && mb.hold.val() >= size.val()
    } else {
        tb.hold.val() >= size.val() && mq.hold.val() >= funds.val()
    }
}

/// A settlement of a user with itself, in two different currencies: each of its two
/// accounts gains in what is available what leaves what is held (the size in the base
/// currency, the funds in the quote currency), as far as those sums are exact.
pub open spec fn self_trade_moves(
    o: Map<(Seq<char>, Seq<char>), AccountV>,
    f: Map<(Seq<char>, Seq<char>), AccountV>,
    user: Seq<char>,
    base: Seq<char>,
    quote: Seq<char>,
    size: Dec,
    funds: Dec,
) -> bool {
    &&& f.contains_key((user, base)) && f.contains_key((user, quote))
    &&& moved(account_or_new(o, user, base), f[(user, base)], size, negated(size))
    &&& moved(account_or_new(o, user, quote), f[(user, quote)], funds, negated(funds))
}

/// The four non-zero changes of a settlement are exact.
pub open spec fn exchange_exact(
    o: Map<(Seq<char>, Seq<char>), AccountV>,
    taker: Seq<char>,
    maker: Seq<char>,
    base: Seq<char>,
    quote: Seq<char>,
    taker_side: OrderSide,
    size: Dec,
    funds: Dec,
) -> bool {
    if taker_side == OrderSide::BUY {
        &&& sum_is_exact(account_or_new(o, taker, base).available, size)
        &&& sum_is_exact(account_or_new(o, taker, quote).hold, negated(funds))
        &&& sum_is_exact(account_or_new(o, maker, base).hold, negated(size))
        &&& sum_is_exact(account_or_new(o, maker, quote).available, funds)
    } else {
        &&& sum_is_exact(account_or_new(o, taker, base).hold, negated(size))
        &&& sum_is_exact(account_or_new(o, taker, quote).available, funds)
        &&& sum_is_exact(account_or_new(o, maker, base).available, size)
        &&& sum_is_exact(account_or_new(o, maker, quote).hold, negated(funds))
    }
}

/// Publishes an event; `false` when the counter is exhausted.
pub(crate) fn publish_to(accounts: &AccountBook, out: &mut Outbox, mt: MessageType) -> (ok: bool)
    ensures
        ledger(*accounts, *final(out), !ok) == publish_spec(ledger(*accounts, *old(out), false), mt@),
        old(out).numbered() ==> final(out).numbered(),
{
    out.publish(mt)
}

fn string_eq(a: &String, b: &str) -> (r: bool)
    ensures
        r == (a@ == b@),
{
    let t = String::from_str(b);
    *a == t
}

impl AccountBook {
    /// Every account holds valid decimals.
    pub open spec fn wf(&self) -> bool {
        accounts_wf(self@)
    }

    /// A book with no accounts.
    pub fn new() -> (r: AccountBook)
        ensures
            r@ == Map::<(Seq<char>, Seq<char>), AccountV>::empty(),
            r.wf(),
    {
        AccountBook { accounts: Vec::new() }
    }

    fn find(&self, user_id: &str, currency: &str) -> (r: Option<usize>)
        ensures
            r matches Some(i) ==> is_last_key(self.accounts@, i as int, (user_id@, currency@)),
            r is None <==> !self@.contains_key((user_id@, currency@)),
    {
        let mut i = self.accounts.len();
        while i > 0
            invariant
                i <= self.accounts@.len(),
                forall|j: int| i <= j < self.accounts@.len() ==> account_key(#[trigger] self.accounts@[j]) != (user_id@, currency@),
            decreases i,
        {
            i = i - 1;
            let a = &self.accounts[i];
            if string_eq(&a.user_id, user_id) && string_eq(&a.currency, currency) {
                proof {
                    lemma_map_contains(self.accounts@, (user_id@, currency@));
                    assert(account_key(self.accounts@[i as int]) == (user_id@, currency@));
                }
                return Some(i);
            }
        }
        proof {
            lemma_map_contains(self.accounts@, (user_id@, currency@));
        }
        None
    }

    /// Stores an account under its user and currency, replacing one stored there before.
    pub fn add(&mut self, account: Account)
        requires
            old(self).wf(),
            account.available.wf(),
            account.hold.wf(),
        ensures
            final(self)@ == old(self)@.insert((account.user_id@, account.currency@), account@),
            final(self).wf(),
    {
        let ghost a = account;
        match self.find(account.user_id.as_str(), account.currency.as_str()) {
            Some(i) => {
                proof {
                    lemma_map_update(self.accounts@, i as int, a);
                }
                self.accounts.set(i, account);
            },
            None => {
                self.accounts.push(account);
                proof {
                    assert(self.accounts@.drop_last() =~= old(self).accounts@);
                }
            },
        }
    }

    /// The account of a user in a currency.
    pub fn get_account(&self, user_id: &str, currency: &str) -> (r: Option<&Account>)
        ensures
            r is None <==> !self@.contains_key((user_id@, currency@)),
            r matches Some(a) ==> a@ == self@[(user_id@, currency@)],
            r matches Some(a) ==> a.user_id@ == user_id@ && a.currency@ == currency@,
    {
        proof {
            self.accounts_carry_their_keys();
        }
        match self.find(user_id, currency) {
            Some(i) => {
                proof {
                    lemma_map_last(self.accounts@, i as int, (user_id@, currency@));
                }
                Some(&self.accounts[i])
            },
            None => None,
        }
    }

    /// Position of the account of a user in a currency, created empty if missing.
    fn get_or_create(&mut self, user_id: &str, currency: &str) -> (i: usize)
        requires
            old(self).wf(),
        ensures
            final(self).wf(),
            final(self)@ == old(self)@.insert((user_id@, currency@), account_or_new(old(self)@, user_id@, currency@)),
            is_last_key(final(self).accounts@, i as int, (user_id@, currency@)),
            final(self).accounts@[i as int]@ == account_or_new(old(self)@, user_id@, currency@),
    {
        match self.find(user_id, currency) {
            Some(i) => {
                proof {
                    lemma_map_last(self.accounts@, i as int, (user_id@, currency@));
                    assert(self@ =~= self@.insert((user_id@, currency@), self@[(user_id@, currency@)]));
                }
                i
            },
            None => {
                let mut id = String::from_str(user_id);
                let dash = "-";
                proof {
                    reveal_strlit("-");
                }
                id.append(dash);
                id.append(currency);
                let account = Account {
                    id,
                    user_id: String::from_str(user_id),
                    currency: String::from_str(currency),
                    available: Dec::zero(),
                    hold: Dec::zero(),
                };
                proof {
                    assert(account.id@ =~= user_id@ + seq!['-'] + currency@);
                    assert(account@ == new_account(user_id@, currency@));
                }
                self.accounts.push(account);
                proof {
                    assert(self.accounts@.drop_last() =~= old(self).accounts@);
                }
                self.accounts.len() - 1
            },
        }
    }

    /// Replaces the account at position `i`, which holds the last entry for its key.
    fn put_at(&mut self, i: usize, a: Account)
        requires
            is_last_key(old(self).accounts@, i as int, account_key(a)),
        ensures
            final(self)@ == old(self)@.insert(account_key(a), a@),
            is_last_key(final(self).accounts@, i as int, account_key(a)),
            final(self).accounts@[i as int] == a,
    {
        proof {
            lemma_map_update(self.accounts@, i as int, a);
        }
        self.accounts.set(i, a);
    }

    /// Every account is stored under its own user and currency.
    pub proof fn accounts_carry_their_keys(&self)
        ensures
            forall|k: (Seq<char>, Seq<char>)| #[trigger] self@.contains_key(k) ==> self@[k].user_id == k.0
                && self@[k].currency == k.1,
    {
        assert forall|k: (Seq<char>, Seq<char>)| #[trigger] self@.contains_key(k) implies self@[k].user_id == k.0
            && self@[k].currency == k.1 by {
            lemma_map_keys(self.accounts@, k);
        }
    }

    proof fn lemma_own_key(&self, u: Seq<char>, c: Seq<char>)
        requires
            self@.contains_key((u, c)),
        ensures
            self@[(u, c)].user_id == u,
            self@[(u, c)].currency == c,
    {
        lemma_map_keys(self.accounts@, (u, c));
    }

    /// Deposit (see [`AccountBook::deposit`]) on any input: `Err(Overflow)` exactly when a
    /// decimal or the event counter leaves its range.
    pub fn deposit_checked(&mut self, out: &mut Outbox, user_id: &str, currency: &str, amount: Dec) -> (r: Result<(), BalanceError>)
        requires
            old(self).wf(),
            amount.wf(),
        ensures
            old(out).numbered() ==> final(out).numbered(),
            final(self).wf(),
            r is Err ==> r == Err::<(), BalanceError>(BalanceError::Overflow),
            ledger(*final(self), *final(out), r is Err) == deposit_spec(ledger(*old(self), *old(out), false), user_id@, currency@, amount),
            r is Ok ==> ({
                let a = account_or_new(old(self)@, user_id@, currency@);
                let a2 = final(self)@[(user_id@, currency@)];
                &&& a2.hold == a.hold
                &&& sum_is_exact(a.available, amount) ==> a2.available.val() == a.available.val() + amount.val()
            }),
            forall|k: (Seq<char>, Seq<char>)| k != (user_id@, currency@) ==> #[trigger] unchanged_at(old(self)@, final(self)@, k),
    {
        proof {
            if self@.contains_key((user_id@, currency@)) {
                self.lemma_own_key(user_id@, currency@);
            }
        }
        let i = self.get_or_create(user_id, currency);
        let a = self.accounts[i].clone();
        match dec_checked_add(a.available, amount) {
            None => Err(BalanceError::Overflow),
            Some(v) => {
                let mut a2 = a;
                a2.available = v;
                let m = a2.clone();
                self.put_at(i, a2);
                if out.publish(MessageType::Account(m)) {
                    Ok(())
                } else {
                    Err(BalanceError::Overflow)
                }
            },
        }
    }

    /// Hold (see [`AccountBook::hold`]) on any input: `Err(Overflow)` exactly when a decimal
    /// or the event counter leaves its range.
    pub fn hold_checked(&mut self, out: &mut Outbox, user_id: &str, currency: &str, amount: Dec) -> (r: Result<bool, BalanceError>)
        requires
            old(self).wf(),
            amount.wf(),
        ensures
            old(out).numbered() ==> final(out).numbered(),
            final(self).wf(),
            r is Err ==> r == Err::<bool, BalanceError>(BalanceError::Overflow),
            ledger(*final(self), *final(out), r is Err) == hold_spec(ledger(*old(self), *old(out), false), user_id@, currency@, amount).0,
            r matches Ok(b) ==> b == hold_spec(ledger(*old(self), *old(out), false), user_id@, currency@, amount).1,
            r == Ok::<bool, BalanceError>(true) ==> ({
                let a = old(self)@[(user_id@, currency@)];
                let a2 = final(self)@[(user_id@, currency@)];
                &&& difference_is_exact(a.available, amount) ==> a2.available.val() == a.available.val() - amount.val()
                &&& sum_is_exact(a.hold, amount) ==> a2.hold.val() == a.hold.val() + amount.val()
            }),
            forall|k: (Seq<char>, Seq<char>)| k != (user_id@, currency@) ==> #[trigger] unchanged_at(old(self)@, final(self)@, k),
    {
        let zero = Dec::zero();
        if !dec_lt(zero, amount) {
            return Ok(false);
        }
        let i = match self.find(user_id, currency) {
            Some(i) => i,
            None => {
                return Ok(false);
            },
        };
        proof {
            lemma_map_last(self.accounts@, i as int, (user_id@, currency@));
        }
        let a = self.accounts[i].clone();
        if dec_lt(a.available, amount) {
            return Ok(false);
        }
        let na = match dec_checked_sub(a.available, amount) {
            Some(na) => na,
            None => {
                return Err(BalanceError::Overflow);
            },
        };
        let mut a1 = a;
        a1.available = na;
        let a1c = a1.clone();
        self.put_at(i, a1);
        let nh = match dec_checked_add(a1c.hold, amount) {
            Some(nh) => nh,
            None => {
                return Err(BalanceError::Overflow);
            },
        };
        let mut a2 = a1c;
        a2.hold = nh;
        let m = a2.clone();
        self.put_at(i, a2);
        if out.publish(MessageType::Account(m)) {
            Ok(true)
        } else {
            Err(BalanceError::Overflow)
        }
    }

    /// Unhold (see [`AccountBook::unhold`]) on any input: `Err(Overflow)` when a decimal or
    /// the event counter leaves its range.
    pub fn unhold_checked(&mut self, out: &mut Outbox, user_id: &str, currency: &str, amount: Dec) -> (r: Result<(), BalanceError>)
        requires
            old(self).wf(),
            amount.wf(),
        ensures
            old(out).numbered() ==> final(out).numbered(),
            final(self).wf(),
            ledger(*final(self), *final(out), r == Err::<(), BalanceError>(BalanceError::Overflow))
                == unhold_spec(ledger(*old(self), *old(out), false), user_id@, currency@, amount).0,
            r != Err::<(), BalanceError>(BalanceError::Overflow)
                ==> r == unhold_spec(ledger(*old(self), *old(out), false), user_id@, currency@, amount).1,
            r is Ok ==> ({
                let a = old(self)@[(user_id@, currency@)];
                let a2 = final(self)@[(user_id@, currency@)];
                &&& sum_is_exact(a.available, amount) ==> a2.available.val() == a.available.val() + amount.val()
                &&& difference_is_exact(a.hold, amount) ==> a2.hold.val() == a.hold.val() - amount.val()
            }),
            forall|k: (Seq<char>, Seq<char>)| k != (user_id@, currency@) ==> #[trigger] unchanged_at(old(self)@, final(self)@, k),
    {
        let i = match self.find(user_id, currency) {
            Some(i) => i,
            None => {
                return Err(BalanceError::AccountNotFound);
            },
        };
        proof {
            lemma_map_last(self.accounts@, i as int, (user_id@, currency@));
        }
        let a = self.accounts[i].clone();
        let zero = Dec::zero();
        if !dec_lt(zero, amount) || dec_lt(a.hold, amount) {
            return Err(BalanceError::InvalidUnhold);
        }
        let na = match dec_checked_add(a.available, amount) {
            Some(na) => na,
            None => {
                return Err(BalanceError::Overflow);
            },
        };
        let mut a1 = a;
        a1.available = na;
        let a1c = a1.clone();
        self.put_at(i, a1);
        let nh = match dec_checked_sub(a1c.hold, amount) {
            Some(nh) => nh,
            None => {
                return Err(BalanceError::Overflow);
            },
        };
        let mut a2 = a1c;
        a2.hold = nh;
        let m = a2.clone();
        self.put_at(i, a2);
        if out.publish(MessageType::Account(m)) {
            Ok(())
        } else {
            Err(BalanceError::Overflow)
        }
    }

    /// Applies both deltas to the user's account in the currency (see
    /// [`update_balance_spec`]); `Err(Overflow)` when a decimal or the event counter leaves its range.
    pub fn update_balance_checked(
        &mut self,
        out: &mut Outbox,
        user_id: &str,
        currency: &str,
        available_delta: Dec,
        hold_delta: Dec,
    ) -> (r: Result<(), BalanceError>)
        requires
            old(self).wf(),
            available_delta.wf(),
            hold_delta.wf(),
        ensures
            old(out).numbered() ==> final(out).numbered(),
            final(self).wf(),
            ledger(*final(self), *final(out), r == Err::<(), BalanceError>(BalanceError::Overflow))
                == update_balance_spec(ledger(*old(self), *old(out), false), user_id@, currency@, available_delta, hold_delta).0,
            r != Err::<(), BalanceError>(BalanceError::Overflow)
                ==> r == update_balance_spec(ledger(*old(self), *old(out), false), user_id@, currency@, available_delta, hold_delta).1,
            r is Ok ==> ({
                let a = account_or_new(old(self)@, user_id@, currency@);
                let a2 = final(self)@[(user_id@, currency@)];
                &&& final(self)@.contains_key((user_id@, currency@))
                &&& final(self)@ == old(self)@.insert((user_id@, currency@), a2)
                &&& sum_is_exact(a.available, available_delta) ==> a2.available.val() == a.available.val()
                    + available_delta.val()
                &&& sum_is_exact(a.hold, hold_delta) ==> a2.hold.val() == a.hold.val() + hold_delta.val()
                &&& available_delta.mantissa == 0 ==> a2.available == if a.available.mantissa == 0 {
                    available_delta
                } else {
                    a.available
                }
                &&& hold_delta.mantissa == 0 ==> a2.hold == if a.hold.mantissa == 0 {
                    hold_delta
                } else {
                    a.hold
                }
                &&& a2.available.val() >= 0 && a2.hold.val() >= 0
            }),
            forall|k: (Seq<char>, Seq<char>)| k != (user_id@, currency@) ==> #[trigger] unchanged_at(old(self)@, final(self)@, k),
            r == Err::<(), BalanceError>(BalanceError::NegativeBalance) ==> ({
                let a = account_or_new(old(self)@, user_id@, currency@);
                !(sum_is_exact(a.available, available_delta) && sum_is_exact(a.hold, hold_delta) && a.available.val()
                    + available_delta.val() >= 0 && a.hold.val() + hold_delta.val() >= 0)
            }),
    {
        proof {
            if self@.contains_key((user_id@, currency@)) {
                self.lemma_own_key(user_id@, currency@);
            }
        }
        let i = self.get_or_create(user_id, currency);
        let a = self.accounts[i].clone();
        let na = match dec_checked_add(a.available, available_delta) {
            Some(na) => na,
            None => {
                return Err(BalanceError::Overflow);
            },
        };
        let mut a1 = a;
        a1.available = na;
        let a1c = a1.clone();
        self.put_at(i, a1);
        let nh = match dec_checked_add(a1c.hold, hold_delta) {
            Some(nh) => nh,
            None => {
                return Err(BalanceError::Overflow);
            },
        };
        let mut a2 = a1c;
        a2.hold = nh;
        let m = a2.clone();
        self.put_at(i, a2);
        let zero = Dec::zero();
        if dec_lt(na, zero) || dec_lt(nh, zero) {
            return Err(BalanceError::NegativeBalance);
        }
        if out.publish(MessageType::Account(m)) {
            Ok(())
        } else {
            Err(BalanceError::Overflow)
        }
    }

    /// Settlement (see [`AccountBook::exchange`]) on any input: `Err(Overflow)` when a decimal
    /// or the event counter leaves its range.
    #[verifier::spinoff_prover]
    #[verifier::rlimit(60)]
    pub fn exchange_checked(
        &mut self,
        out: &mut Outbox,
        taker_user_id: &str,
        maker_user_id: &str,
        base_currency: &str,
        quote_currency: &str,
        taker_side: OrderSide,
        size: Dec,
        funds: Dec,
    ) -> (r: Result<(), BalanceError>)
        requires
            old(self).wf(),
            size.wf(),
            funds.wf(),
        ensures
            old(out).numbered() ==> final(out).numbered(),
            final(self).wf(),
            ledger(*final(self), *final(out), r == Err::<(), BalanceError>(BalanceError::Overflow)) == exchange_spec(
                ledger(*old(self), *old(out), false),
                taker_user_id@,
                maker_user_id@,
                base_currency@,
                quote_currency@,
                taker_side,
                size,
                funds,
            ).0,
            r != Err::<(), BalanceError>(BalanceError::Overflow) ==> r == exchange_spec(
                ledger(*old(self), *old(out), false),
                taker_user_id@,
                maker_user_id@,
                base_currency@,
                quote_currency@,
                taker_side,
                size,
                funds,
            ).1,
            r is Ok && taker_user_id@ != maker_user_id@ && base_currency@ != quote_currency@ ==> exchange_moves(
                old(self)@,
                final(self)@,
                taker_user_id@,
                maker_user_id@,
                base_currency@,
                quote_currency@,
                taker_side,
                size,
                funds,
            ),
            forall|k: (Seq<char>, Seq<char>)|
                !settlement_key(k, taker_user_id@, maker_user_id@, base_currency@, quote_currency@) ==> #[trigger] unchanged_at(
                    old(self)@,
                    final(self)@,
                    k,
                ),
            base_currency@ != quote_currency@ && exchange_exact(
                old(self)@,
                taker_user_id@,
                maker_user_id@,
                base_currency@,
                quote_currency@,
                taker_side,
                size,
                funds,
            ) && exchange_covered(
                old(self)@,
                taker_user_id@,
                maker_user_id@,
                base_currency@,
                quote_currency@,
                taker_side,
                size,
                funds,
            ) ==> r != Err::<(), BalanceError>(
                BalanceError::NegativeBalance,
            ),
            r is Ok ==> settled_nonneg(final(self)@, taker_user_id@, maker_user_id@, base_currency@, quote_currency@),
            r is Ok && taker_user_id@ == maker_user_id@ && base_currency@ != quote_currency@ ==> self_trade_moves(
                old(self)@,
                final(self)@,
                taker_user_id@,
                base_currency@,
                quote_currency@,
                size,
                funds,
            ),
    {
        let ghost o = self@;
        proof {
            lemma_account_or_new_wf(o, taker_user_id@, base_currency@);
            lemma_account_or_new_wf(o, taker_user_id@, quote_currency@);
            lemma_account_or_new_wf(o, maker_user_id@, base_currency@);
            lemma_account_or_new_wf(o, maker_user_id@, quote_currency@);
            lemma_plus_zero_exact(account_or_new(o, taker_user_id@, base_currency@).available);
            lemma_plus_zero_exact(account_or_new(o, taker_user_id@, base_currency@).hold);
            lemma_plus_zero_exact(account_or_new(o, taker_user_id@, quote_currency@).available);
            lemma_plus_zero_exact(account_or_new(o, taker_user_id@, quote_currency@).hold);
            lemma_plus_zero_exact(account_or_new(o, maker_user_id@, base_currency@).available);
            lemma_plus_zero_exact(account_or_new(o, maker_user_id@, base_currency@).hold);
            lemma_plus_zero_exact(account_or_new(o, maker_user_id@, quote_currency@).available);
            lemma_plus_zero_exact(account_or_new(o, maker_user_id@, quote_currency@).hold);
            lemma_negated_val(size);
            lemma_negated_val(funds);
            lemma_plus_zero_exact(size);
            lemma_plus_zero_exact(funds);
            lemma_plus_zero_exact(negated(size));
            lemma_plus_zero_exact(negated(funds));
        }
        let zero = Dec::zero();
        let neg_size = size.neg();
        let neg_funds = funds.neg();
        assert(neg_size == negated(size));
        assert(neg_funds == negated(funds));
        if taker_side == OrderSide::BUY {
            let ghost prev = self@;
            let r1 = self.update_balance_checked(out, taker_user_id, base_currency, size, zero);
            proof {
                assert forall|k: (Seq<char>, Seq<char>)|
                    !settlement_key(k, taker_user_id@, maker_user_id@, base_currency@, quote_currency@) implies unchanged_at(
                    o,
                    self@,
                    k,
                ) by {
                    assert(unchanged_at(prev, self@, k));
                }
                if (taker_user_id@, quote_currency@) != (taker_user_id@, base_currency@) {
                    assert(unchanged_at(prev, self@, (taker_user_id@, quote_currency@)));
                }
                if (maker_user_id@, base_currency@) != (taker_user_id@, base_currency@) {
                    assert(unchanged_at(prev, self@, (maker_user_id@, base_currency@)));
                }
                if (maker_user_id@, quote_currency@) != (taker_user_id@, base_currency@) {
                    assert(unchanged_at(prev, self@, (maker_user_id@, quote_currency@)));
                }
            }
            if r1.is_err() {
                return r1;
            }
            let ghost s1 = self@;
            let ghost prev = self@;
            let r2 = self.update_balance_checked(out, taker_user_id, quote_currency, zero, neg_funds);
            proof {
                assert forall|k: (Seq<char>, Seq<char>)|
                    !settlement_key(k, taker_user_id@, maker_user_id@, base_currency@, quote_currency@) implies unchanged_at(
                    o,
                    self@,
                    k,
                ) by {
                    assert(unchanged_at(prev, self@, k));
                }
                if (taker_user_id@, base_currency@) != (taker_user_id@, quote_currency@) {
                    assert(unchanged_at(prev, self@, (taker_user_id@, base_currency@)));
                }
                if (maker_user_id@, base_currency@) != (taker_user_id@, quote_currency@) {
                    assert(unchanged_at(prev, self@, (maker_user_id@, base_currency@)));
                }
                if (maker_user_id@, quote_currency@) != (taker_user_id@, quote_currency@) {
                    assert(unchanged_at(prev, self@, (maker_user_id@, quote_currency@)));
                }
            }
            if r2.is_err() {
                return r2;
            }
            let ghost s2 = self@;
            let ghost prev = self@;
            let r3 = self.update_balance_checked(out, maker_user_id, base_currency, zero, neg_size);
            proof {
                assert forall|k: (Seq<char>, Seq<char>)|
                    !settlement_key(k, taker_user_id@, maker_user_id@, base_currency@, quote_currency@) implies unchanged_at(
                    o,
                    self@,
                    k,
                ) by {
                    assert(unchanged_at(prev, self@, k));
                }
                if (taker_user_id@, base_currency@) != (maker_user_id@, base_currency@) {
                    assert(unchanged_at(prev, self@, (taker_user_id@, base_currency@)));
                }
                if (taker_user_id@, quote_currency@) != (maker_user_id@, base_currency@) {
                    assert(unchanged_at(prev, self@, (taker_user_id@, quote_currency@)));
                }
                if (maker_user_id@, quote_currency@) != (maker_user_id@, base_currency@) {
                    assert(unchanged_at(prev, self@, (maker_user_id@, quote_currency@)));
                }
            }
            proof {
                if taker_user_id@ == maker_user_id@ && base_currency@ != quote_currency@ {
                    let u = taker_user_id@;
                    let b = base_currency@;
                    let q = quote_currency@;
                    lemma_account_or_new_wf(s1, u, b);
                    assert(unchanged_at(s1, s2, (u, b)));
                    assert(account_or_new(s2, u, b) == s1[(u, b)]);
                    lemma_zero_step(account_or_new(o, u, b).hold, negated(size));
                    lemma_plus_zero_exact(s1[(u, b)].available);
                }
            }
            if r3.is_err() {
                return r3;
            }
            let ghost s3 = self@;
            let ghost prev = self@;
            let r4 = self.update_balance_checked(out, maker_user_id, quote_currency, funds, zero);
            proof {
                assert forall|k: (Seq<char>, Seq<char>)|
                    !settlement_key(k, taker_user_id@, maker_user_id@, base_currency@, quote_currency@) implies unchanged_at(
                    o,
                    self@,
                    k,
                ) by {
                    assert(unchanged_at(prev, self@, k));
                }
                if (taker_user_id@, base_currency@) != (maker_user_id@, quote_currency@) {
                    assert(unchanged_at(prev, self@, (taker_user_id@, base_currency@)));
                }
                if (taker_user_id@, quote_currency@) != (maker_user_id@, quote_currency@) {
                    assert(unchanged_at(prev, self@, (taker_user_id@, quote_currency@)));
                }
                if (maker_user_id@, base_currency@) != (maker_user_id@, quote_currency@) {
                    assert(unchanged_at(prev, self@, (maker_user_id@, base_currency@)));
                }
            }
            proof {
                if taker_user_id@ == maker_user_id@ && base_currency@ != quote_currency@ {
                    let u = taker_user_id@;
                    let b = base_currency@;
                    let q = quote_currency@;
                    lemma_account_or_new_wf(s2, u, q);
                    assert(unchanged_at(o, s1, (u, q)));
                    assert(account_or_new(s1, u, q) == account_or_new(o, u, q));
                    assert(unchanged_at(s2, s3, (u, q)));
                    assert(account_or_new(s3, u, q) == s2[(u, q)]);
                    lemma_zero_step(account_or_new(o, u, q).available, funds);
                    lemma_plus_zero_exact(s2[(u, q)].hold);
                }
            }
            proof {
                if r4 is Ok && taker_user_id@ == maker_user_id@ && base_currency@ != quote_currency@ {
                    let u = taker_user_id@;
                    let b = base_currency@;
                    let q = quote_currency@;
                    lemma_account_or_new_wf(s1, u, b);
                    lemma_account_or_new_wf(s2, u, q);
                    lemma_account_or_new_wf(s3, u, b);
                    lemma_account_or_new_wf(s3, u, q);
                    assert(unchanged_at(o, s1, (u, q)));
                    assert(unchanged_at(s1, s2, (u, b)));
                    assert(unchanged_at(s2, s3, (u, q)));
                    assert(unchanged_at(s3, self@, (u, b)));
                    assert(account_or_new(s1, u, q) == account_or_new(o, u, q));
                    assert(account_or_new(s2, u, b) == s1[(u, b)]);
                    assert(account_or_new(s3, u, q) == s2[(u, q)]);
                    lemma_zero_step(account_or_new(o, u, b).hold, negated(size));
                    lemma_zero_step(account_or_new(o, u, q).available, funds);
                    lemma_zero_step(s1[(u, b)].available, size);
                    lemma_zero_step(s2[(u, q)].hold, funds);
                }
            }
            r4
        } else {
            let ghost prev = self@;
            let r1 = self.update_balance_checked(out, taker_user_id, base_currency, zero, neg_size);
            proof {
                assert forall|k: (Seq<char>, Seq<char>)|
                    !settlement_key(k, taker_user_id@, maker_user_id@, base_currency@, quote_currency@) implies unchanged_at(
                    o,
                    self@,
                    k,
                ) by {
                    assert(unchanged_at(prev, self@, k));
                }
                if (taker_user_id@, quote_currency@) != (taker_user_id@, base_currency@) {
                    assert(unchanged_at(prev, self@, (taker_user_id@, quote_currency@)));
                }
                if (maker_user_id@, base_currency@) != (taker_user_id@, base_currency@) {
                    assert(unchanged_at(prev, self@, (maker_user_id@, base_currency@)));
                }
                if (maker_user_id@, quote_currency@) != (taker_user_id@, base_currency@) {
                    assert(unchanged_at(prev, self@, (maker_user_id@, quote_currency@)));
                }
            }
            if r1.is_err() {
                return r1;
            }
            let ghost s1 = self@;
            let ghost prev = self@;
            let r2 = self.update_balance_checked(out, taker_user_id, quote_currency, funds, zero);
            proof {
                assert forall|k: (Seq<char>, Seq<char>)|
                    !settlement_key(k, taker_user_id@, maker_user_id@, base_currency@, quote_currency@) implies unchanged_at(
                    o,
                    self@,
                    k,
                ) by {
                    assert(unchanged_at(prev, self@, k));
                }
                if (taker_user_id@, base_currency@) != (taker_user_id@, quote_currency@) {
                    assert(unchanged_at(prev, self@, (taker_user_id@, base_currency@)));
                }
                if (maker_user_id@, base_currency@) != (taker_user_id@, quote_currency@) {
                    assert(unchanged_at(prev, self@, (maker_user_id@, base_currency@)));
                }
                if (maker_user_id@, quote_currency@) != (taker_user_id@, quote_currency@) {
                    assert(unchanged_at(prev, self@, (maker_user_id@, quote_currency@)));
                }
            }
            if r2.is_err() {
                return r2;
            }
            let ghost s2 = self@;
            let ghost prev = self@;
            let r3 = self.update_balance_checked(out, maker_user_id, base_currency, size, zero);
            proof {
                assert forall|k: (Seq<char>, Seq<char>)|
                    !settlement_key(k, taker_user_id@, maker_user_id@, base_currency@, quote_currency@) implies unchanged_at(
                    o,
                    self@,
                    k,
                ) by {
                    assert(unchanged_at(prev, self@, k));
                }
                if (taker_user_id@, base_currency@) != (maker_user_id@, base_currency@) {
                    assert(unchanged_at(prev, self@, (taker_user_id@, base_currency@)));
                }
                if (taker_user_id@, quote_currency@) != (maker_user_id@, base_currency@) {
                    assert(unchanged_at(prev, self@, (taker_user_id@, quote_currency@)));
                }
                if (maker_user_id@, quote_currency@) != (maker_user_id@, base_currency@) {
                    assert(unchanged_at(prev, self@, (maker_user_id@, quote_currency@)));
                }
            }
            proof {
                if taker_user_id@ == maker_user_id@ && base_currency@ != quote_currency@ {
                    let u = taker_user_id@;
                    let b = base_currency@;
                    let q = quote_currency@;
                    lemma_account_or_new_wf(s1, u, b);
                    assert(unchanged_at(s1, s2, (u, b)));
                    assert(account_or_new(s2, u, b) == s1[(u, b)]);
                    lemma_zero_step(account_or_new(o, u, b).available, size);
                    lemma_plus_zero_exact(s1[(u, b)].hold);
                }
            }
            if r3.is_err() {
                return r3;
            }
            let ghost s3 = self@;
            let ghost prev = self@;
            let r4 = self.update_balance_checked(out, maker_user_id, quote_currency, zero, neg_funds);
            proof {
                assert forall|k: (Seq<char>, Seq<char>)|
                    !settlement_key(k, taker_user_id@, maker_user_id@, base_currency@, quote_currency@) implies unchanged_at(
                    o,
                    self@,
                    k,
                ) by {
                    assert(unchanged_at(prev, self@, k));
                }
                if (taker_user_id@, base_currency@) != (maker_user_id@, quote_currency@) {
                    assert(unchanged_at(prev, self@, (taker_user_id@, base_currency@)));
                }
                if (taker_user_id@, quote_currency@) != (maker_user_id@, quote_currency@) {
                    assert(unchanged_at(prev, self@, (taker_user_id@, quote_currency@)));
                }
                if (maker_user_id@, base_currency@) != (maker_user_id@, quote_currency@) {
                    assert(unchanged_at(prev, self@, (maker_user_id@, base_currency@)));
                }
            }
            proof {
                if taker_user_id@ == maker_user_id@ && base_currency@ != quote_currency@ {
                    let u = taker_user_id@;
                    let b = base_currency@;
                    let q = quote_currency@;
                    lemma_account_or_new_wf(s2, u, q);
                    assert(unchanged_at(o, s1, (u, q)));
                    assert(account_or_new(s1, u, q) == account_or_new(o, u, q));
                    assert(unchanged_at(s2, s3, (u, q)));
                    assert(account_or_new(s3, u, q) == s2[(u, q)]);
                    lemma_zero_step(account_or_new(o, u, q).hold, negated(funds));
                    lemma_plus_zero_exact(s2[(u, q)].available);
                }
            }
            proof {
                if r4 is Ok && taker_user_id@ == maker_user_id@ && base_currency@ != quote_currency@ {
                    let u = taker_user_id@;
                    let b = base_currency@;
                    let q = quote_currency@;
                    lemma_account_or_new_wf(s1, u, b);
                    lemma_account_or_new_wf(s2, u, q);
                    lemma_account_or_new_wf(s3, u, b);
                    lemma_account_or_new_wf(s3, u, q);
                    assert(unchanged_at(o, s1, (u, q)));
                    assert(unchanged_at(s1, s2, (u, b)));
                    assert(unchanged_at(s2, s3, (u, q)));
                    assert(unchanged_at(s3, self@, (u, b)));
                    assert(account_or_new(s1, u, q) == account_or_new(o, u, q));
                    assert(account_or_new(s2, u, b) == s1[(u, b)]);
                    assert(account_or_new(s3, u, q) == s2[(u, q)]);
                    lemma_zero_step(account_or_new(o, u, b).available, size);
                    lemma_zero_step(account_or_new(o, u, q).hold, negated(funds));
                    lemma_zero_step(s1[(u, b)].hold, size);
                    lemma_zero_step(s2[(u, q)].available, funds);
                }
            }
            r4
        }
    }

    /// Credits `amount` to the available balance of the user's account in the currency,
    /// creating the account if missing, and publishes the account.
    pub fn deposit(&mut self, out: &mut Outbox, user_id: &str, currency: &str, amount: Dec)
        requires
            old(self).wf(),
            amount.wf(),
            !deposit_spec(ledger(*old(self), *old(out), false), user_id@, currency@, amount).fault,
        ensures
            old(out).numbered() ==> final(out).numbered(),
            final(self).wf(),
            ledger(*final(self), *final(out), false) == deposit_spec(ledger(*old(self), *old(out), false), user_id@, currency@, amount),
            ({
                let a = account_or_new(old(self)@, user_id@, currency@);
                let a2 = final(self)@[(user_id@, currency@)];
                &&& a2.hold == a.hold
                &&& sum_is_exact(a.available, amount) ==> a2.available.val() == a.available.val() + amount.val()
            }),
            forall|k: (Seq<char>, Seq<char>)| k != (user_id@, currency@) ==> #[trigger] unchanged_at(old(self)@, final(self)@, k),
    {
        let _ = self.deposit_checked(out, user_id, currency, amount);
    }

    /// Moves a positive `amount` from available to held when the account exists and has
    /// that much available; publishes the account and returns `true` then, else changes
    /// nothing and returns `false`.
    pub fn hold(&mut self, out: &mut Outbox, user_id: &str, currency: &str, amount: Dec) -> (r: bool)
        requires
            old(self).wf(),
            amount.wf(),
            !hold_spec(ledger(*old(self), *old(out), false), user_id@, currency@, amount).0.fault,
        ensures
            old(out).numbered() ==> final(out).numbered(),
            final(self).wf(),
            ledger(*final(self), *final(out), false) == hold_spec(ledger(*old(self), *old(out), false), user_id@, currency@, amount).0,
            r == hold_spec(ledger(*old(self), *old(out), false), user_id@, currency@, amount).1,
            r == (old(self)@.contains_key((user_id@, currency@)) && amount.val() > 0 && old(self)@[(user_id@, currency@)].available.val()
                >= amount.val()),
            r ==> final(self)@.contains_key((user_id@, currency@)) && held_amount(
                old(self)@[(user_id@, currency@)],
                final(self)@[(user_id@, currency@)],
                amount,
            ),
            forall|k: (Seq<char>, Seq<char>)| k != (user_id@, currency@) ==> #[trigger] unchanged_at(old(self)@, final(self)@, k),
    {
        match self.hold_checked(out, user_id, currency, amount) {
            Ok(b) => b,
            Err(_) => false,
        }
    }

    /// Moves a positive `amount`, no more than is held, from held back to available and
    /// publishes the account; refuses a missing account or an invalid amount.
    pub fn unhold(&mut self, out: &mut Outbox, user_id: &str, currency: &str, amount: Dec) -> (r: Result<(), BalanceError>)
        requires
            old(self).wf(),
            amount.wf(),
            !unhold_spec(ledger(*old(self), *old(out), false), user_id@, currency@, amount).0.fault,
        ensures
            old(out).numbered() ==> final(out).numbered(),
            final(self).wf(),
            ledger(*final(self), *final(out), false) == unhold_spec(ledger(*old(self), *old(out), false), user_id@, currency@, amount).0,
            r == unhold_spec(ledger(*old(self), *old(out), false), user_id@, currency@, amount).1,
            r is Ok == (old(self)@.contains_key((user_id@, currency@)) && amount.val() > 0 && old(self)@[(
                user_id@,
                currency@,
            )].hold.val() >= amount.val()),
            r is Ok ==> final(self)@.contains_key((user_id@, currency@)) && released_amount(
                old(self)@[(user_id@, currency@)],
                final(self)@[(user_id@, currency@)],
                amount,
            ),
            forall|k: (Seq<char>, Seq<char>)| k != (user_id@, currency@) ==> #[trigger] unchanged_at(old(self)@, final(self)@, k),
    {
        self.unhold_checked(out, user_id, currency, amount)
    }

    /// Settles a fill between a taker and a maker (see [`exchange_spec`]), stopping at the
    /// first balance update that would go negative.
    /// Accounts other than the four it names are left as they were; on success those four
    /// hold no negative amount, and when the holds cover the fill and the sums are exact it
    /// succeeds.
    pub fn exchange(
        &mut self,
        out: &mut Outbox,
        taker_user_id: &str,
        maker_user_id: &str,
        base_currency: &str,
        quote_currency: &str,
        taker_side: OrderSide,
        size: Dec,
        funds: Dec,
    ) -> (r: Result<(), BalanceError>)
        requires
            old(self).wf(),
            size.wf(),
            funds.wf(),
            !exchange_spec(
                ledger(*old(self), *old(out), false),
                taker_user_id@,
                maker_user_id@,
                base_currency@,
                quote_currency@,
                taker_side,
                size,
                funds,
            ).0.fault,
        ensures
            old(out).numbered() ==> final(out).numbered(),
            final(self).wf(),
            ledger(*final(self), *final(out), false) == exchange_spec(
                ledger(*old(self), *old(out), false),
                taker_user_id@,
                maker_user_id@,
                base_currency@,
                quote_currency@,
                taker_side,
                size,
                funds,
            ).0,
            r == exchange_spec(
                ledger(*old(self), *old(out), false),
                taker_user_id@,
                maker_user_id@,
                base_currency@,
                quote_currency@,
                taker_side,
                size,
                funds,
            ).1,
            r is Ok && taker_user_id@ != maker_user_id@ && base_currency@ != quote_currency@ ==> exchange_moves(
                old(self)@,
                final(self)@,
                taker_user_id@,
                maker_user_id@,
                base_currency@,
                quote_currency@,
                taker_side,
                size,
                funds,
            ),
            r is Ok && taker_user_id@ != maker_user_id@ && base_currency@ != quote_currency@ && exchange_exact(
                old(self)@,
                taker_user_id@,
                maker_user_id@,
                base_currency@,
                quote_currency@,
                taker_side,
                size,
                funds,
            ) ==> pair_total(final(self)@, taker_user_id@, maker_user_id@, base_currency@) == pair_total(
                old(self)@,
                taker_user_id@,
                maker_user_id@,
                base_currency@,
            ) && pair_total(final(self)@, taker_user_id@, maker_user_id@, quote_currency@) == pair_total(
                old(self)@,
                taker_user_id@,
                maker_user_id@,
                quote_currency@,
            ),
            forall|k: (Seq<char>, Seq<char>)|
                !settlement_key(k, taker_user_id@, maker_user_id@, base_currency@, quote_currency@) ==> #[trigger] unchanged_at(
                    old(self)@,
                    final(self)@,
                    k,
                ),
            base_currency@ != quote_currency@ && exchange_exact(
                old(self)@,
                taker_user_id@,
                maker_user_id@,
                base_currency@,
                quote_currency@,
                taker_side,
                size,
                funds,
            ) && exchange_covered(
                old(self)@,
                taker_user_id@,
                maker_user_id@,
                base_currency@,
                quote_currency@,
                taker_side,
                size,
                funds,
            ) ==> r is Ok,
            r is Ok ==> settled_nonneg(final(self)@, taker_user_id@, maker_user_id@, base_currency@, quote_currency@),
            r is Ok && taker_user_id@ == maker_user_id@ && base_currency@ != quote_currency@ ==> self_trade_moves(
                old(self)@,
                final(self)@,
                taker_user_id@,
                base_currency@,
                quote_currency@,
                size,
                funds,
            ),
    {
        let r = self.exchange_checked(
            out,
            taker_user_id,
            maker_user_id,
            base_currency,
            quote_currency,
            taker_side,
            size,
            funds,
        );
        proof {
            if r is Ok && taker_user_id@ != maker_user_id@ && base_currency@ != quote_currency@ && exchange_exact(
                old(self)@,
                taker_user_id@,
                maker_user_id@,
                base_currency@,
                quote_currency@,
                taker_side,
                size,
                funds,
            ) {
                exchange_conserves_currencies(
                    old(self)@,
                    self@,
                    taker_user_id@,
                    maker_user_id@,
                    base_currency@,
                    quote_currency@,
                    taker_side,
                    size,
                    funds,
                );
            }
        }
        r
    }
}

} // verus!
