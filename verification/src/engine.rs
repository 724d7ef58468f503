use vstd::prelude::*;

use crate::account_book::{
    account_or_new, continues, deposit_spec, fail, ledger, lemma_continues_deposit, lemma_continues_trans, publish_spec,
    publish_to, Account, AccountBook, Ledger,
};
use crate::dec::sum_is_exact;
use crate::command::{CancelOrderCommand, Command, DepositCommand, PlaceOrderCommand, PutProductCommand};
use crate::message::{Message, MessageType, MessageTypeV, MessageV, Outbox};
use crate::order::{command_funds, order_from_command, Order};
use crate::order_book::{cancel_spec, lemma_continues_cancel, lemma_continues_place, place_spec, BookV, OrderBook};
use crate::product_book::{Product, ProductBook, ProductV};

verus! {

/// The order books of a list, found by product id; ids are distinct.
pub open spec fn book_map(s: Seq<OrderBook>) -> Map<Seq<char>, BookV>
    decreases s.len(),
{
    if s.len() == 0 {
        Map::empty()
    } else {
        book_map(s.drop_last()).insert(s.last()@.product_id, s.last()@)
    }
}

pub open spec fn book_ids_distinct(s: Seq<OrderBook>) -> bool {
    forall|i: int, j: int| 0 <= i < j < s.len() ==> s[i]@.product_id != s[j]@.product_id
}

proof fn lemma_book_map(s: Seq<OrderBook>)
    requires
        book_ids_distinct(s),
    ensures
        forall|i: int| 0 <= i < s.len() ==> #[trigger] book_map(s).contains_key(s[i]@.product_id) && book_map(s)[s[i]@.product_id] == s[i]@,
        forall|k: Seq<char>| #[trigger] book_map(s).contains_key(k) ==> exists|i: int| 0 <= i < s.len() && s[i]@.product_id == k,
    decreases s.len(),
{
    if s.len() > 0 {
        let t = s.drop_last();
        assert forall|i: int, j: int| 0 <= i < j < t.len() implies t[i]@.product_id != t[j]@.product_id by {
            assert(t[i] == s[i] && t[j] == s[j]);
        }
        lemma_book_map(t);
        assert forall|i: int| 0 <= i < s.len() implies #[trigger] book_map(s).contains_key(s[i]@.product_id) && book_map(s)[s[i]@.product_id] == s[i]@ by {
            if i < s.len() - 1 {
                assert(t[i] == s[i]);
                assert(book_map(t).contains_key(t[i]@.product_id));
                assert(s[i]@.product_id != s.last()@.product_id);
            }
        }
        assert forall|k: Seq<char>| #[trigger] book_map(s).contains_key(k) implies exists|i: int| 0 <= i < s.len() && s[i]@.product_id == k by {
            if k != s.last()@.product_id {
                assert(book_map(t).contains_key(k));
                let i = choose|i: int| 0 <= i < t.len() && t[i]@.product_id == k;
                assert(s[i] == t[i]);
            } else {
                assert(s[s.len() - 1]@.product_id == k);
            }
        }
    }
}

proof fn lemma_book_map_update(s: Seq<OrderBook>, i: int, b: OrderBook)
    requires
        book_ids_distinct(s),
        0 <= i < s.len(),
        s[i]@.product_id == b@.product_id,
    ensures
        book_ids_distinct(s.update(i, b)),
        book_map(s.update(i, b)) =~= book_map(s).insert(b@.product_id, b@),
    decreases s.len(),
{
    let u = s.update(i, b);
    assert forall|x: int, y: int| 0 <= x < y < u.len() implies u[x]@.product_id != u[y]@.product_id by {
        assert(u[x]@.product_id == s[x]@.product_id && u[y]@.product_id == s[y]@.product_id);
    }
    let t = s.drop_last();
    assert forall|x: int, y: int| 0 <= x < y < t.len() implies t[x]@.product_id != t[y]@.product_id by {
        assert(t[x] == s[x] && t[y] == s[y]);
    }
    if i == s.len() - 1 {
        assert(u.drop_last() =~= t);
    } else {
        assert(u.drop_last() =~= t.update(i, b));
        assert(t[i] == s[i]);
        lemma_book_map_update(t, i, b);
        assert(s.last()@.product_id != b@.product_id);
    }
}

/// Everything the engine holds: balances and events, products and order books.
#[verifier::ext_equal]
pub struct EngineV {
    pub ledger: Ledger,
    pub products: Map<Seq<char>, ProductV>,
    pub books: Map<Seq<char>, BookV>,
    pub startup_command_offset: Option<i64>,
}

/// A deposit command credits its amount: the user's account in the currency gains it in
/// what is available (when that sum is exact) and keeps what is held.
pub open spec fn deposit_credited(before: EngineV, after: EngineV, command: Command) -> bool {
    match command {
        Command::Deposit(c) => {
            let a = account_or_new(before.ledger.accounts, c.user_id@, c.currency@);
            let a2 = after.ledger.accounts[(c.user_id@, c.currency@)];
            &&& after.ledger.accounts.contains_key((c.user_id@, c.currency@))
            &&& a2.hold == a.hold
            &&& sum_is_exact(a.available, c.amount) ==> a2.available.val() == a.available.val() + c.amount.val()
        },
        _ => true,
    }
}

impl EngineV {
    /// In every order book, every bid is priced below every ask.
    pub open spec fn all_books_uncrossed(self) -> bool {
        forall|pid: Seq<char>| #[trigger] self.books.contains_key(pid) ==> self.books[pid].uncrossed()
    }
}

/// A new, empty order book for a product.
pub open spec fn empty_book(pid: Seq<char>) -> BookV {
    BookV {
        product_id: pid,
        asks: Seq::empty(),
        bids: Seq::empty(),
        order_sequence: 0,
        trade_sequence: 0,
        order_book_sequence: 0,
    }
}

pub open spec fn with_ledger(e: EngineV, l: Ledger) -> EngineV {
    EngineV { ledger: l, ..e }
}

/// Storing and publishing a product, then opening its order book if it has none.
pub open spec fn put_product_cmd_spec(e: EngineV, p: ProductV) -> EngineV {
    if e.ledger.fault {
        e
    } else if e.ledger.sequence == u64::MAX {
        with_ledger(e, fail(e.ledger))
    } else {
        let e1 = EngineV {
            products: e.products.insert(p.id, p),
            ledger: publish_spec(e.ledger, MessageTypeV::Product(p)),
            ..e
        };
        if e1.books.contains_key(p.id) {
            e1
        } else {
            EngineV { books: e1.books.insert(p.id, empty_book(p.id)), ..e1 }
        }
    }
}

/// A deposit into the user's account.
pub open spec fn deposit_cmd_spec(e: EngineV, cmd: DepositCommand) -> EngineV {
    with_ledger(e, deposit_spec(e.ledger, cmd.user_id@, cmd.currency@, cmd.amount))
}

/// Placing the order the command describes on its product's book; nothing happens for a
/// product without a book.
pub open spec fn place_cmd_spec(e: EngineV, cmd: PlaceOrderCommand) -> EngineV {
    let pid = cmd.product_id@;
    if e.ledger.fault || !e.books.contains_key(pid) {
        e
    } else {
        match command_funds(cmd) {
            None => with_ledger(e, fail(e.ledger)),
            Some(f) => {
                let (l, b) = place_spec(e.ledger, e.books[pid], e.products, order_from_command(cmd, f));
                EngineV { ledger: l, books: e.books.insert(pid, b), ..e }
            },
        }
    }
}

/// Cancelling an order on its product's book; nothing happens for a product without a book.
pub open spec fn cancel_cmd_spec(e: EngineV, cmd: CancelOrderCommand) -> EngineV {
    let pid = cmd.product_id@;
    if e.ledger.fault || !e.books.contains_key(pid) {
        e
    } else {
        let (l, b) = cancel_spec(e.ledger, e.books[pid], e.products, cmd.order_id@);
        EngineV { ledger: l, books: e.books.insert(pid, b), ..e }
    }
}

/// Executing a command: a start marker, the command's effect, an end marker, both markers
/// carrying the command's offset.
pub open spec fn execute_spec(e: EngineV, command: Command, offset: i64) -> EngineV {
    let e1 = with_ledger(e, publish_spec(e.ledger, MessageTypeV::CommandStart(offset)));
    let e2 = match command {
        Command::PlaceOrder(c) => place_cmd_spec(e1, c),
        Command::CancelOrder(c) => cancel_cmd_spec(e1, c),
        Command::Deposit(c) => deposit_cmd_spec(e1, c),
        Command::PutProduct(c) => put_product_cmd_spec(
            e1,
            ProductV { id: c.product_id@, base_currency: c.base_currency@, quote_currency: c.quote_currency@ },
        ),
    };
    with_ledger(e2, publish_spec(e2.ledger, MessageTypeV::CommandEnd(offset)))
}

/// A command's events follow those published before it, numbered one by one without a
/// gap: the first is the start marker and the last the end marker, both carrying the
/// command's offset, and nothing published before is changed.
pub proof fn command_events_are_framed(e: EngineV, command: Command, offset: i64)
    requires
        !execute_spec(e, command, offset).ledger.fault,
    ensures
        ({
            let l = e.ledger;
            let f = execute_spec(e, command, offset).ledger;
            let n = l.messages.len();
            &&& continues(l, f)
            &&& f.messages.len() >= n + 2
            &&& f.messages[n as int] == (MessageV {
                sequence: (l.sequence + 1) as u64,
                message_type: MessageTypeV::CommandStart(offset),
            })
            &&& f.messages.last() == (MessageV { sequence: f.sequence, message_type: MessageTypeV::CommandEnd(offset) })
        }),
{
    let e1 = with_ledger(e, publish_spec(e.ledger, MessageTypeV::CommandStart(offset)));
    let e2 = match command {
        Command::PlaceOrder(c) => place_cmd_spec(e1, c),
        Command::CancelOrder(c) => cancel_cmd_spec(e1, c),
        Command::Deposit(c) => deposit_cmd_spec(e1, c),
        Command::PutProduct(c) => put_product_cmd_spec(
            e1,
            ProductV { id: c.product_id@, base_currency: c.base_currency@, quote_currency: c.quote_currency@ },
        ),
    };
    match command {
        Command::PlaceOrder(c) => {
            let pid = c.product_id@;
            if !e1.ledger.fault && e1.books.contains_key(pid) {
                match command_funds(c) {
                    None => {},
                    Some(fu) => {
                        lemma_continues_place(e1.ledger, e1.books[pid], e1.products, order_from_command(c, fu));
                    },
                }
            }
        },
        Command::CancelOrder(c) => {
            let pid = c.product_id@;
            if !e1.ledger.fault && e1.books.contains_key(pid) {
                lemma_continues_cancel(e1.ledger, e1.books[pid], e1.products, c.order_id@);
            }
        },
        Command::Deposit(c) => {
            lemma_continues_deposit(e1.ledger, c.user_id@, c.currency@, c.amount);
        },
        Command::PutProduct(c) => {},
    }
    let f = execute_spec(e, command, offset).ledger;
    assert(f == publish_spec(e2.ledger, MessageTypeV::CommandEnd(offset)));
    lemma_continues_trans(e.ledger, e1.ledger, e2.ledger);
    lemma_continues_trans(e.ledger, e2.ledger, f);
    assert(f.messages[e.ledger.messages.len() as int] == e2.ledger.messages[e.ledger.messages.len() as int]);
}

/// The command's amounts are valid decimals.
pub open spec fn command_wf(command: Command) -> bool {
    match command {
        Command::PlaceOrder(c) => c.size.wf() && c.price.wf() && c.funds.wf(),
        Command::Deposit(c) => c.amount.wf(),
        _ => true,
    }
}

/// Whether the command's amounts are valid decimals (see [`command_wf`]).
pub fn command_amounts_valid(command: &Command) -> (r: bool)
    ensures
        r == command_wf(*command),
{
    match command {
        Command::PlaceOrder(c) => c.size.is_wf() && c.price.is_wf() && c.funds.is_wf(),
        Command::Deposit(c) => c.amount.is_wf(),
        _ => true,
    }
}

/// The matching engine: every product's order book, shared product and account books,
/// and the events published so far.
pub struct MatchingEngine {
    order_books: Vec<OrderBook>,
    product_book: ProductBook,
    account_book: AccountBook,
    outbox: Outbox,
    pub startup_command_offset: Option<i64>,
}

impl View for MatchingEngine {
    type V = EngineV;

    closed spec fn view(&self) -> EngineV {
        EngineV {
            ledger: ledger(self.account_book, self.outbox, false),
            products: self.product_book@,
            books: book_map(self.order_books@),
            startup_command_offset: self.startup_command_offset,
        }
    }
}

impl MatchingEngine {
    proof fn lemma_wf_uncrossed(&self)
        requires
            self.wf(),
        ensures
            self@.all_books_uncrossed(),
            self@.ledger.numbered(),
    {
        lemma_book_map(self.order_books@);
        assert forall|pid: Seq<char>| #[trigger] self@.books.contains_key(pid) implies self@.books[pid].uncrossed() by {
            let i = choose|i: int| 0 <= i < self.order_books@.len() && self.order_books@[i]@.product_id == pid;
            assert(self.order_books@[i]@.uncrossed());
        }
    }

    pub closed spec fn wf(&self) -> bool {
        &&& book_ids_distinct(self.order_books@)
        &&& forall|i: int| 0 <= i < self.order_books@.len() ==> (#[trigger] self.order_books@[i]).wf()
        &&& forall|i: int| 0 <= i < self.order_books@.len() ==> (#[trigger] self.order_books@[i])@.uncrossed()
        &&& self.product_book.wf()
        &&& self.account_book.wf()
        &&& self.outbox.numbered()
    }

    /// An engine with no products, books or accounts, numbering events from 1.
    pub fn new() -> (r: MatchingEngine)
        ensures
            r.wf(),
            r@.products == Map::<Seq<char>, ProductV>::empty(),
            r@.books == Map::<Seq<char>, BookV>::empty(),
            r@.ledger.accounts == Map::<(Seq<char>, Seq<char>), crate::account_book::AccountV>::empty(),
            r@.ledger.sequence == 0,
            r@.ledger.messages.len() == 0,
            !r@.ledger.fault,
            r@.startup_command_offset is None,
    {
        let r = MatchingEngine {
            order_books: Vec::new(),
            product_book: ProductBook::new(),
            account_book: AccountBook::new(),
            outbox: Outbox::new(0),
            startup_command_offset: None,
        };
        proof {
            assert(r.outbox.msgs() =~= Seq::empty());
        }
        r
    }

    /// Whether a command read at `offset` is new: after the offset the engine was restored
    /// at, if any.
    pub fn is_new_command(&self, offset: i64) -> (r: bool)
        ensures
            r == match self@.startup_command_offset {
                Some(start) => offset > start,
                None => true,
            },
    {
        match self.startup_command_offset {
            Some(start) => offset > start,
            None => true,
        }
    }

    fn find_book(&self, product_id: &String) -> (r: Option<usize>)
        requires
            self.wf(),
        ensures
            r is None <==> !self@.books.contains_key(product_id@),
            r matches Some(i) ==> i < self.order_books@.len() && self.order_books@[i as int]@.product_id == product_id@
                && self@.books[product_id@] == self.order_books@[i as int]@,
    {
        proof {
            lemma_book_map(self.order_books@);
        }
        let mut i: usize = 0;
        while i < self.order_books.len()
            invariant
                self.wf(),
                i <= self.order_books@.len(),
                forall|j: int| 0 <= j < i ==> #[trigger] self.order_books@[j]@.product_id != product_id@,
            decreases self.order_books@.len() - i,
        {
            if *self.order_books[i].product_id() == *product_id {
                proof {
                    lemma_book_map(self.order_books@);
                    assert(book_map(self.order_books@).contains_key(self.order_books@[i as int]@.product_id));
                }
                return Some(i);
            }
            i = i + 1;
        }
        None
    }

    /// The order book of a product.
    pub fn order_book(&self, product_id: &String) -> (r: Option<&OrderBook>)
        requires
            self.wf(),
        ensures
            r is None <==> !self@.books.contains_key(product_id@),
            r matches Some(b) ==> b@ == self@.books[product_id@],
    {
        match self.find_book(product_id) {
            Some(i) => Some(&self.order_books[i]),
            None => None,
        }
    }

    /// The account of a user in a currency.
    pub fn account(&self, user_id: &str, currency: &str) -> (r: Option<&Account>)
        ensures
            r is None <==> !self@.ledger.accounts.contains_key((user_id@, currency@)),
            r matches Some(a) ==> a@ == self@.ledger.accounts[(user_id@, currency@)],
    {
        self.account_book.get_account(user_id, currency)
    }

    /// The product with the id.
    pub fn product(&self, product_id: &String) -> (r: Option<&Product>)
        requires
            self.wf(),
        ensures
            r is None <==> !self@.products.contains_key(product_id@),
            r matches Some(p) ==> p@ == self@.products[product_id@],
    {
        self.product_book.get_product(product_id)
    }

    /// Hands out the events published since the last call, in order.
    pub fn take_messages(&mut self) -> (r: Vec<Message>)
        ensures
            crate::message::messages_view(r@) == old(self)@.ledger.messages,
            final(self)@ == (EngineV {
                ledger: Ledger { messages: Seq::empty(), ..old(self)@.ledger },
                ..old(self)@
            }),
            old(self).wf() ==> final(self).wf(),
    {
        let r = self.outbox.drain();
        proof {
            assert(self.outbox.msgs() =~= Seq::empty());
        }
        r
    }

    fn execute_put_product_checked(&mut self, cmd: PutProductCommand) -> (ok: bool)
        requires
            old(self).wf(),
        ensures
            final(self).wf(),
            ({
                let res = put_product_cmd_spec(
                    old(self)@,
                    ProductV { id: cmd.product_id@, base_currency: cmd.base_currency@, quote_currency: cmd.quote_currency@ },
                );
                &&& ok == !res.ledger.fault
                &&& ok ==> final(self)@ == res
            }),
    {
        let product = Product::from(cmd);
        let product_id = product.id.clone();
        if !self.product_book.put_product_checked(&mut self.outbox, product) {
            return false;
        }
        match self.find_book(&product_id) {
            Some(_) => {},
            None => {
                proof {
                    lemma_book_map(self.order_books@);
                }
                let book = OrderBook::new(product_id.as_str(), 0, 0, 0);
                let ghost b = book;
                self.order_books.push(book);
                proof {
                    assert(self.order_books@.drop_last() =~= old(self).order_books@);
                    assert forall|x: int, y: int| 0 <= x < y < self.order_books@.len() implies self.order_books@[x]@.product_id
                        != self.order_books@[y]@.product_id by {
                        assert(self.order_books@[x] == old(self).order_books@[x]);
                        if y < self.order_books@.len() - 1 {
                            assert(self.order_books@[y] == old(self).order_books@[y]);
                        } else {
                            assert(self.order_books@[y] == b);
                            assert(!book_map(old(self).order_books@).contains_key(b@.product_id));
                        }
                    }
                    assert forall|i: int| 0 <= i < self.order_books@.len() implies (#[trigger] self.order_books@[i]).wf()
                        && self.order_books@[i]@.uncrossed() by {
                        if i < self.order_books@.len() - 1 {
                            assert(self.order_books@[i] == old(self).order_books@[i]);
                        }
                    }
                }
            },
        }
        true
    }

    fn execute_place_order_checked(&mut self, cmd: PlaceOrderCommand) -> (ok: bool)
        requires
            old(self).wf(),
            cmd.size.wf(),
            cmd.price.wf(),
        ensures
            final(self).wf(),
            ({
                let res = place_cmd_spec(old(self)@, cmd);
                &&& ok == !res.ledger.fault
                &&& ok ==> final(self)@ == res
            }),
    {
        let i = match self.find_book(&cmd.product_id) {
            Some(i) => i,
            None => {
                return true;
            },
        };
        let order = match Order::from_checked(cmd) {
            Some(o) => o,
            None => {
                return false;
            },
        };
        proof {
            lemma_book_map(self.order_books@);
        }
        let mut book = self.order_books.remove(i);
        let ghost b0 = book@;
        assert(book.wf());
        let ok = book.place_order_checked(order, &self.product_book, &mut self.account_book, &mut self.outbox);
        if !ok {
            return false;
        }
        let ghost b1 = book;
        self.order_books.insert(i, book);
        proof {
            assert(self.order_books@ =~= old(self).order_books@.update(i as int, b1));
            lemma_book_map_update(old(self).order_books@, i as int, b1);
            assert forall|j: int| 0 <= j < self.order_books@.len() implies (#[trigger] self.order_books@[j]).wf()
                && self.order_books@[j]@.uncrossed() by {
                if j != i {
                    assert(self.order_books@[j] == old(self).order_books@[j]);
                }
            }
        }
        true
    }

    fn execute_cancel_order_checked(&mut self, cmd: CancelOrderCommand) -> (ok: bool)
        requires
            old(self).wf(),
        ensures
            final(self).wf(),
            ({
                let res = cancel_cmd_spec(old(self)@, cmd);
                &&& ok == !res.ledger.fault
                &&& ok ==> final(self)@ == res
            }),
    {
        let i = match self.find_book(&cmd.product_id) {
            Some(i) => i,
            None => {
                return true;
            },
        };
        proof {
            lemma_book_map(self.order_books@);
        }
        let mut book = self.order_books.remove(i);
        assert(book.wf());
        let ok = book.cancel_order_checked(&cmd.order_id, &self.product_book, &mut self.account_book, &mut self.outbox);
        if !ok {
            return false;
        }
        let ghost b1 = book;
        self.order_books.insert(i, book);
        proof {
            assert(self.order_books@ =~= old(self).order_books@.update(i as int, b1));
            lemma_book_map_update(old(self).order_books@, i as int, b1);
            assert forall|j: int| 0 <= j < self.order_books@.len() implies (#[trigger] self.order_books@[j]).wf()
                && self.order_books@[j]@.uncrossed() by {
                if j != i {
                    assert(self.order_books@[j] == old(self).order_books@[j]);
                }
            }
        }
        true
    }

    /// Executes a command (see [`execute_spec`]); `false` when a decimal or a counter
    /// overflows on the way, in which case the engine's state is unspecified.
    pub fn execute_command_checked(&mut self, command: Command, offset: i64) -> (ok: bool)
        requires
            old(self).wf(),
            command_wf(command),
        ensures
            final(self).wf(),
            ok == !execute_spec(old(self)@, command, offset).ledger.fault,
            ok ==> final(self)@ == execute_spec(old(self)@, command, offset),
            ok ==> deposit_credited(old(self)@, final(self)@, command),
            final(self)@.all_books_uncrossed(),
            final(self)@.ledger.numbered(),
    {
        let ok = self.execute_command_inner(command, offset);
        proof {
            self.lemma_wf_uncrossed();
        }
        ok
    }

    fn execute_command_inner(&mut self, command: Command, offset: i64) -> (ok: bool)
        requires
            old(self).wf(),
            command_wf(command),
        ensures
            final(self).wf(),
            ok == !execute_spec(old(self)@, command, offset).ledger.fault,
            ok ==> final(self)@ == execute_spec(old(self)@, command, offset),
            ok ==> deposit_credited(old(self)@, final(self)@, command),
    {
        if !publish_to(&self.account_book, &mut self.outbox, MessageType::CommandStart(offset)) {
            return false;
        }
        let ok = match command {
            Command::PlaceOrder(c) => self.execute_place_order_checked(c),
            Command::CancelOrder(c) => self.execute_cancel_order_checked(c),
            Command::Deposit(c) => {
                let r = self.account_book.deposit_checked(&mut self.outbox, c.user_id.as_str(), c.currency.as_str(), c.amount);
                r.is_ok()
            },
            Command::PutProduct(c) => self.execute_put_product_checked(c),
        };
        if !ok {
            return false;
        }
        publish_to(&self.account_book, &mut self.outbox, MessageType::CommandEnd(offset))
    }

    /// Executes a command: publishes a start marker, applies the command, publishes an
    /// end marker (see [`execute_spec`]).
    pub fn execute_command(&mut self, command: Command, offset: i64)
        requires
            old(self).wf(),
            command_wf(command),
            !execute_spec(old(self)@, command, offset).ledger.fault,
        ensures
            final(self).wf(),
            final(self)@ == execute_spec(old(self)@, command, offset),
            deposit_credited(old(self)@, final(self)@, command),
            final(self)@.all_books_uncrossed(),
            final(self)@.ledger.numbered(),
    {
        let _ = self.execute_command_checked(command, offset);
    }
}

} // verus!
