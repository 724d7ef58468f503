use vstd::prelude::*;
use vstd::string::StringExecFns;

use crate::account_book::Account;
use crate::enums::OrderStatus;
use crate::keyed::Keyed;
use crate::message::{Message, MessageType};
use crate::order::Order;
use crate::product_book::Product;

verus! {

/// What a snapshot records about the engine's progress.
#[derive(Debug)]
pub struct EngineState {
    pub id: String,
    pub command_offset: Option<i64>,
    pub message_offset: Option<i64>,
    pub message_sequence: Option<u64>,
    pub trade_sequences: Keyed<u64>,
    pub order_sequences: Keyed<u64>,
    pub order_book_sequences: Keyed<u64>,
}

/// The contents of an [`EngineState`].
#[verifier::ext_equal]
pub struct EngineStateV {
    pub id: Seq<char>,
    pub command_offset: Option<i64>,
    pub message_offset: Option<i64>,
    pub message_sequence: Option<u64>,
    pub trade_sequences: Map<Seq<char>, u64>,
    pub order_sequences: Map<Seq<char>, u64>,
    pub order_book_sequences: Map<Seq<char>, u64>,
}

impl View for EngineState {
    type V = EngineStateV;

    open spec fn view(&self) -> EngineStateV {
        EngineStateV {
            id: self.id@,
            command_offset: self.command_offset,
            message_offset: self.message_offset,
            message_sequence: self.message_sequence,
            trade_sequences: self.trade_sequences@,
            order_sequences: self.order_sequences@,
            order_book_sequences: self.order_book_sequences@,
        }
    }
}

impl EngineState {
    pub open spec fn wf(&self) -> bool {
        self.trade_sequences.wf() && self.order_sequences.wf() && self.order_book_sequences.wf()
    }

    /// A copy of the state.
    pub fn duplicate(&self) -> (r: EngineState)
        requires
            self.wf(),
        ensures
            r@ == self@,
            r.wf(),
    {
        EngineState {
            id: self.id.clone(),
            command_offset: self.command_offset,
            message_offset: self.message_offset,
            message_sequence: self.message_sequence,
            trade_sequences: self.trade_sequences.duplicate(),
            order_sequences: self.order_sequences.duplicate(),
            order_book_sequences: self.order_book_sequences.duplicate(),
        }
    }
}

/// The state of a fresh start: id `default`, nothing recorded.
pub open spec fn default_state() -> EngineStateV {
    EngineStateV {
        id: seq!['d', 'e', 'f', 'a', 'u', 'l', 't'],
        command_offset: None,
        message_offset: None,
        message_sequence: None,
        trade_sequences: Map::empty(),
        order_sequences: Map::empty(),
        order_book_sequences: Map::empty(),
    }
}

impl Default for EngineState {
    fn default() -> (r: EngineState)
        ensures
            r@ == default_state(),
            r.wf(),
    {
        let id = "default";
        proof {
            reveal_strlit("default");
        }
        EngineState {
            id: String::from_str(id),
            command_offset: None,
            message_offset: None,
            message_sequence: None,
            trade_sequences: Keyed::new(),
            order_sequences: Keyed::new(),
            order_book_sequences: Keyed::new(),
        }
    }
}

/// The order is stored under its id and is still OPEN.
pub open spec fn stored_open(m: Map<Seq<char>, Order>, o: Order) -> bool {
    m.contains_key(o.id@) && m[o.id@] == o && o.status == OrderStatus::OPEN
}

/// The id holds an order that is no longer OPEN.
pub open spec fn stored_closed(m: Map<Seq<char>, Order>, id: String) -> bool {
    m.contains_key(id@) && m[id@].status != OrderStatus::OPEN
}

/// The id is among those of the stored orders or among the deleted ids.
pub open spec fn written(keep: Seq<Order>, delete: Seq<String>, k: Seq<char>) -> bool {
    (exists|a: int| 0 <= a < keep.len() && keep[a].id@ == k) || (exists|a: int| 0 <= a < delete.len() && delete[a]@ == k)
}

/// What a snapshot writes: the engine state and every account, order and product that
/// changed since the previous snapshot, by id.
pub struct Snapshot {
    pub engine_state: EngineState,
    pub accounts: Keyed<Account>,
    pub orders: Keyed<Order>,
    pub products: Keyed<Product>,
}

impl Snapshot {
    /// Buffers hold each record under its own id.
    pub open spec fn wf(&self) -> bool {
        &&& self.engine_state.wf()
        &&& self.accounts.wf()
        &&& self.orders.wf()
        &&& self.products.wf()
        &&& forall|k: Seq<char>| #[trigger] self.accounts@.contains_key(k) ==> self.accounts@[k].id@ == k
        &&& forall|k: Seq<char>| #[trigger] self.orders@.contains_key(k) ==> self.orders@[k].id@ == k
        &&& forall|k: Seq<char>| #[trigger] self.products@.contains_key(k) ==> self.products@[k].id@ == k
    }

    /// Splits the changed orders into those to store (still OPEN) and the ids of those to
    /// delete (no longer resting); each changed order appears once.
    pub fn order_writes(&mut self) -> (r: (Vec<Order>, Vec<String>))
        requires
            old(self).wf(),
        ensures
            final(self).orders@ == Map::<Seq<char>, Order>::empty(),
            final(self).wf(),
            forall|i: int| 0 <= i < r.0@.len() ==> stored_open(old(self).orders@, #[trigger] r.0@[i]),
            forall|i: int| 0 <= i < r.1@.len() ==> stored_closed(old(self).orders@, #[trigger] r.1@[i]),
            forall|k: Seq<char>| #[trigger] old(self).orders@.contains_key(k) ==> written(r.0@, r.1@, k),
            forall|a: int, b: int| 0 <= a < b < r.0@.len() ==> r.0@[a].id@ != r.0@[b].id@,
            forall|a: int, b: int| 0 <= a < b < r.1@.len() ==> r.1@[a]@ != r.1@[b]@,
            forall|a: int, b: int| 0 <= a < r.0@.len() && 0 <= b < r.1@.len() ==> r.0@[a].id@ != r.1@[b]@,
    {
        let mut entries = self.orders.take_all();
        let ghost mut ki: Seq<int> = Seq::empty();
        let ghost mut di: Seq<int> = Seq::empty();
        let mut keep: Vec<Order> = Vec::new();
        let mut delete: Vec<String> = Vec::new();
        let ghost m = old(self).orders@;
        let ghost all = entries@;
        while entries.len() > 0
            invariant
                self.wf(),
                self.orders@ == Map::<Seq<char>, Order>::empty(),
                m == old(self).orders@,
                forall|k: Seq<char>| #[trigger] m.contains_key(k) ==> m[k].id@ == k,
                entries@ == all.subrange(0, entries@.len() as int),
                entries@.len() <= all.len(),
                forall|j: int| 0 <= j < all.len() ==> #[trigger] m.contains_key(all[j].0@) && m[all[j].0@] == all[j].1,
                forall|k: Seq<char>| #[trigger] m.contains_key(k) ==> exists|j: int| 0 <= j < all.len() && all[j].0@ == k,
                forall|j: int| 0 <= j < keep@.len() ==> stored_open(m, #[trigger] keep@[j]),
                forall|j: int| 0 <= j < delete@.len() ==> stored_closed(m, #[trigger] delete@[j]),
                forall|j: int| entries@.len() <= j < all.len() ==> written(keep@, delete@, #[trigger] all[j].0@),
                forall|a: int, b: int| 0 <= a < b < all.len() ==> all[a].0@ != all[b].0@,
                ki.len() == keep@.len(),
                di.len() == delete@.len(),
                forall|a: int| 0 <= a < ki.len() ==> entries@.len() <= #[trigger] ki[a] < all.len() && keep@[a].id@ == all[ki[a]].0@,
                forall|a: int| 0 <= a < di.len() ==> entries@.len() <= #[trigger] di[a] < all.len() && delete@[a]@ == all[di[a]].0@,
                forall|a: int, b: int| 0 <= a < b < ki.len() ==> ki[a] > ki[b],
                forall|a: int, b: int| 0 <= a < b < di.len() ==> di[a] > di[b],
            decreases entries@.len(),
        {
            let ghost j = entries@.len() - 1;
            let ghost keep0 = keep@;
            let ghost delete0 = delete@;
            let (key, order) = entries.pop().unwrap();
            proof {
                assert(all[j] == (key, order));
                assert(m.contains_key(all[j].0@));
                assert(m[key@].id@ == key@);
            }
            if order.status == OrderStatus::OPEN {
                keep.push(order);
                proof {
                    ki = ki.push(j);
                    assert(keep@[keep@.len() - 1].id@ == all[j].0@);
                    assert forall|x: int| 0 <= x < keep@.len() implies stored_open(m, #[trigger] keep@[x]) by {
                        if x < keep0.len() {
                            assert(keep@[x] == keep0[x]);
                        }
                    }
                }
            } else {
                delete.push(key);
                proof {
                    di = di.push(j);
                    assert(delete@[delete@.len() - 1]@ == all[j].0@);
                    assert forall|x: int| 0 <= x < delete@.len() implies stored_closed(m, #[trigger] delete@[x]) by {
                        if x < delete0.len() {
                            assert(delete@[x] == delete0[x]);
                        }
                    }
                }
            }
            proof {
                assert forall|x: int| entries@.len() <= x < all.len() implies written(keep@, delete@, #[trigger] all[x].0@) by {
                    if x == j {
                        if order.status == OrderStatus::OPEN {
                            assert(keep@[keep@.len() - 1].id@ == all[x].0@);
                        } else {
                            assert(delete@[delete@.len() - 1]@ == all[x].0@);
                        }
                    } else {
                        assert(written(keep0, delete0, all[x].0@));
                        if exists|a: int| 0 <= a < keep0.len() && keep0[a].id@ == all[x].0@ {
                            let a = choose|a: int| 0 <= a < keep0.len() && keep0[a].id@ == all[x].0@;
                            assert(keep@[a] == keep0[a]);
                        } else {
                            let a = choose|a: int| 0 <= a < delete0.len() && delete0[a]@ == all[x].0@;
                            assert(delete@[a] == delete0[a]);
                        }
                    }
                }
            }
        }
        proof {
            assert forall|k: Seq<char>| #[trigger] old(self).orders@.contains_key(k) implies written(keep@, delete@, k) by {
                assert(m.contains_key(k));
                let j = choose|j: int| 0 <= j < all.len() && all[j].0@ == k;
                assert(written(keep@, delete@, all[j].0@));
            }
            assert forall|a: int, b: int| 0 <= a < b < keep@.len() implies keep@[a].id@ != keep@[b].id@ by {
                assert(ki[a] > ki[b]);
            }
            assert forall|a: int, b: int| 0 <= a < b < delete@.len() implies delete@[a]@ != delete@[b]@ by {
                assert(di[a] > di[b]);
            }
            assert forall|a: int, b: int| 0 <= a < keep@.len() && 0 <= b < delete@.len() implies keep@[a].id@
                != delete@[b]@ by {
                assert(ki[a] != di[b]);
                if ki[a] < di[b] {
                } else {
                }
            }
        }
        (keep, delete)
    }
}

/// The contents of a [`Snapshot`].
#[verifier::ext_equal]
pub struct SnapshotV {
    pub engine_state: EngineStateV,
    pub accounts: Map<Seq<char>, Account>,
    pub orders: Map<Seq<char>, Order>,
    pub products: Map<Seq<char>, Product>,
}

impl View for Snapshot {
    type V = SnapshotV;

    open spec fn view(&self) -> SnapshotV {
        SnapshotV {
            engine_state: self.engine_state@,
            accounts: self.accounts@,
            orders: self.orders@,
            products: self.products@,
        }
    }
}

/// Why a message could not be taken into a snapshot.
#[derive(Debug, Clone, Copy, PartialEq, Eq, Structural)]
pub enum SnapshotError {
    /// Messages were skipped: `sequence` came where `expected` was due.
    OutOfSequence { sequence: u64, expected: u64 },
}

/// The snapshot consumer's contents: the state so far and the records changed since the
/// last snapshot, by id.
#[verifier::ext_equal]
pub struct ConsumerV {
    pub state: EngineStateV,
    pub accounts: Map<Seq<char>, Account>,
    pub orders: Map<Seq<char>, Order>,
    pub products: Map<Seq<char>, Product>,
}

/// The sequence number the next message must carry.
pub open spec fn expected_sequence(s: EngineStateV) -> int {
    match s.message_sequence {
        Some(q) => q + 1,
        None => 1,
    }
}

/// Taking in the next message: its offset and sequence are recorded; an order records its
/// product's order and book sequences and is buffered; a trade records its product's trade
/// sequence; accounts and products are buffered; a command start records its offset; a
/// command end records its offset and hands out a snapshot of the state and the buffers,
/// which stay until [`MatchingEngineSnapshotConsumer::clean_buffers`] is called once the
/// snapshot is saved.
pub open spec fn apply_message(c: ConsumerV, message: Message, offset: i64) -> (ConsumerV, Option<SnapshotV>) {
    let s1 = EngineStateV { message_offset: Some(offset), message_sequence: Some(message.sequence), ..c.state };
    match message.message_type {
        MessageType::Order(om) => (
            ConsumerV {
                state: EngineStateV {
                    order_sequences: s1.order_sequences.insert(om.order.product_id@, om.order.sequence),
                    order_book_sequences: s1.order_book_sequences.insert(om.order.product_id@, om.order_book_sequence),
                    ..s1
                },
                orders: c.orders.insert(om.order.id@, om.order),
                ..c
            },
            None,
        ),
        MessageType::Trade(t) => (
            ConsumerV {
                state: EngineStateV { trade_sequences: s1.trade_sequences.insert(t.product_id@, t.sequence), ..s1 },
                ..c
            },
            None,
        ),
        MessageType::Account(a) => (ConsumerV { state: s1, accounts: c.accounts.insert(a.id@, a), ..c }, None),
        MessageType::Product(p) => (ConsumerV { state: s1, products: c.products.insert(p.id@, p), ..c }, None),
        MessageType::CommandStart(o) => (ConsumerV { state: EngineStateV { command_offset: Some(o), ..s1 }, ..c }, None),
        MessageType::CommandEnd(o) => {
            let s2 = EngineStateV { command_offset: Some(o), ..s1 };
            (
                ConsumerV { state: s2, ..c },
                Some(SnapshotV { engine_state: s2, accounts: c.accounts, orders: c.orders, products: c.products }),
            )
        },
    }
}

/// Folds the engine's messages into snapshots: keeps the latest state of every record that
/// changed since the last snapshot was saved.
pub struct MatchingEngineSnapshotConsumer {
    accounts: Keyed<Account>,
    orders: Keyed<Order>,
    products: Keyed<Product>,
    engine_state: EngineState,
}

impl View for MatchingEngineSnapshotConsumer {
    type V = ConsumerV;

    closed spec fn view(&self) -> ConsumerV {
        ConsumerV {
            state: self.engine_state@,
            accounts: self.accounts@,
            orders: self.orders@,
            products: self.products@,
        }
    }
}

impl MatchingEngineSnapshotConsumer {
    /// Buffers hold each record under its own id.
    pub closed spec fn wf(&self) -> bool {
        &&& self.engine_state.wf()
        &&& self.accounts.wf()
        &&& self.orders.wf()
        &&& self.products.wf()
        &&& forall|k: Seq<char>| #[trigger] self.accounts@.contains_key(k) ==> self.accounts@[k].id@ == k
        &&& forall|k: Seq<char>| #[trigger] self.orders@.contains_key(k) ==> self.orders@[k].id@ == k
        &&& forall|k: Seq<char>| #[trigger] self.products@.contains_key(k) ==> self.products@[k].id@ == k
    }

    /// A consumer in the default state with empty buffers.
    pub fn new() -> (r: MatchingEngineSnapshotConsumer)
        ensures
            r.wf(),
            r@ == (ConsumerV {
                state: default_state(),
                accounts: Map::empty(),
                orders: Map::empty(),
                products: Map::empty(),
            }),
    {
        MatchingEngineSnapshotConsumer {
            accounts: Keyed::new(),
            orders: Keyed::new(),
            products: Keyed::new(),
            engine_state: EngineState::default(),
        }
    }

    /// The state recorded so far.
    pub fn engine_state(&self) -> (r: &EngineState)
        ensures
            r@ == self@.state,
    {
        &self.engine_state
    }

    /// Empties the buffers.
    pub fn clean_buffers(&mut self)
        requires
            old(self).wf(),
        ensures
            final(self).wf(),
            final(self)@ == (ConsumerV {
                accounts: Map::empty(),
                orders: Map::empty(),
                products: Map::empty(),
                ..old(self)@
            }),
    {
        self.accounts = Keyed::new();
        self.orders = Keyed::new();
        self.products = Keyed::new();
    }

    /// Starts from the stored state, or the default one, with empty buffers. Returns the
    /// offset to resume reading at: the one after the last message taken in, if any.
    pub fn initialize_state(&mut self, stored: Option<EngineState>) -> (r: Option<i64>)
        requires
            stored matches Some(s) ==> s.wf() && s.message_offset != Some(i64::MAX),
        ensures
            final(self).wf(),
            final(self)@ == (ConsumerV {
                state: match stored {
                    Some(s) => s@,
                    None => default_state(),
                },
                accounts: Map::empty(),
                orders: Map::empty(),
                products: Map::empty(),
            }),
            r == match final(self)@.state.message_offset {
                Some(o) => Some((o + 1) as i64),
                None => None::<i64>,
            },
    {
        self.engine_state = match stored {
            Some(s) => s,
            None => EngineState::default(),
        };
        self.accounts = Keyed::new();
        self.orders = Keyed::new();
        self.products = Keyed::new();
        match self.engine_state.message_offset {
            Some(o) => Some(o + 1),
            None => None,
        }
    }

    /// Takes in the next message of the engine. An older message is ignored; a message
    /// past the next expected one is refused; the expected one is applied (see
    /// [`apply_message`]), and a command end hands out the snapshot to save.
    pub fn process_message(&mut self, message: Message, msg_offset: i64) -> (r: Result<Option<Snapshot>, SnapshotError>)
        requires
            old(self).wf(),
            old(self)@.state.message_sequence != Some(u64::MAX),
        ensures
            final(self).wf(),
            message.sequence < expected_sequence(old(self)@.state) ==> r == Ok::<Option<Snapshot>, SnapshotError>(None) && final(self)@ == old(self)@,
            message.sequence > expected_sequence(old(self)@.state) ==> final(self)@ == old(self)@ && r == Err::<Option<Snapshot>, SnapshotError>(
                SnapshotError::OutOfSequence {
                    sequence: message.sequence,
                    expected: expected_sequence(old(self)@.state) as u64,
                },
            ),
            message.sequence == expected_sequence(old(self)@.state) ==> {
                let res = apply_message(old(self)@, message, msg_offset);
                &&& final(self)@ == res.0
                &&& r is Ok
                &&& (r matches Ok(Some(snap)) ==> res.1 == Some(snap@) && snap.wf())
                &&& (r matches Ok(None) ==> res.1 is None)
            },
    {
        let expected = match self.engine_state.message_sequence {
            Some(q) => q + 1,
            None => 1,
        };
        if message.sequence < expected {
            return Ok(None);
        } else if message.sequence > expected {
            return Err(SnapshotError::OutOfSequence { sequence: message.sequence, expected });
        }
        self.engine_state.message_offset = Some(msg_offset);
        self.engine_state.message_sequence = Some(message.sequence);
        match message.message_type {
            MessageType::Order(om) => {
                let order = om.order;
                self.engine_state.order_sequences.insert(order.product_id.clone(), order.sequence);
                self.engine_state.order_book_sequences.insert(order.product_id.clone(), om.order_book_sequence);
                self.orders.insert(order.id.clone(), order);
            },
            MessageType::Trade(trade) => {
                self.engine_state.trade_sequences.insert(trade.product_id, trade.sequence);
            },
            MessageType::Account(account) => {
                self.accounts.insert(account.id.clone(), account);
            },
            MessageType::Product(product) => {
                self.products.insert(product.id.clone(), product);
            },
            MessageType::CommandStart(cmd_start) => {
                self.engine_state.command_offset = Some(cmd_start);
            },
            MessageType::CommandEnd(cmd_end) => {
                self.engine_state.command_offset = Some(cmd_end);
                return Ok(Some(self.snapshot()));
            },
        }
        Ok(None)
    }

    /// The state and the buffered records, as a snapshot to save; the buffers stay.
    fn snapshot(&self) -> (r: Snapshot)
        requires
            self.wf(),
        ensures
            r.wf(),
            r@ == (SnapshotV {
                engine_state: self@.state,
                accounts: self@.accounts,
                orders: self@.orders,
                products: self@.products,
            }),
    {
        Snapshot {
            engine_state: self.engine_state.duplicate(),
            accounts: self.accounts.duplicate(),
            orders: self.orders.duplicate(),
            products: self.products.duplicate(),
        }
    }
}

/// Taking in a trade records its sequence number as its product's trade sequence, leaves
/// every other product's trade sequence as it was, and the snapshot of the next command end
/// carries that sequence number.
pub proof fn trades_are_recorded_and_snapshotted(
    c: ConsumerV,
    trade: Message,
    trade_offset: i64,
    end: Message,
    end_offset: i64,
)
    requires
        trade.message_type is Trade,
        end.message_type is CommandEnd,
    ensures
        ({
            let t = trade.message_type->Trade_0;
            let c1 = apply_message(c, trade, trade_offset).0;
            &&& c1.state.trade_sequences.contains_key(t.product_id@)
            &&& c1.state.trade_sequences[t.product_id@] == t.sequence
            &&& forall|p: Seq<char>|
                p != t.product_id@ ==> (#[trigger] c1.state.trade_sequences.contains_key(p) == c.state.trade_sequences.contains_key(p)
                    && c1.state.trade_sequences[p] == c.state.trade_sequences[p])
            &&& apply_message(c1, end, end_offset).1 matches Some(snap) && snap.engine_state.trade_sequences.contains_key(
                t.product_id@,
            ) && snap.engine_state.trade_sequences[t.product_id@] == t.sequence
        }),
{
}

/// Every message taken in is recorded: its offset and sequence number become the state's;
/// an order is buffered under its id and sets its product's order and book sequences; an
/// account or a product is buffered under its id; a command start or end sets the command
/// offset; only a command end hands out a snapshot, which holds the new state and the
/// buffers as they are.
pub proof fn messages_are_recorded(c: ConsumerV, message: Message, offset: i64)
    ensures
        ({
            let (c1, snap) = apply_message(c, message, offset);
            &&& c1.state.message_offset == Some(offset)
            &&& c1.state.message_sequence == Some(message.sequence)
            &&& c1.state.id == c.state.id
            &&& match message.message_type {
                MessageType::Order(om) => {
                    &&& c1.orders.contains_key(om.order.id@) && c1.orders[om.order.id@] == om.order
                    &&& c1.state.order_sequences.contains_key(om.order.product_id@)
                    &&& c1.state.order_sequences[om.order.product_id@] == om.order.sequence
                    &&& c1.state.order_book_sequences.contains_key(om.order.product_id@)
                    &&& c1.state.order_book_sequences[om.order.product_id@] == om.order_book_sequence
                    &&& c1.accounts == c.accounts && c1.products == c.products
                    &&& snap is None
                },
                MessageType::Trade(t) => {
                    &&& c1.state.trade_sequences.contains_key(t.product_id@)
                    &&& c1.state.trade_sequences[t.product_id@] == t.sequence
                    &&& c1.accounts == c.accounts && c1.orders == c.orders && c1.products == c.products
                    &&& snap is None
                },
                MessageType::Account(a) => {
                    &&& c1.accounts.contains_key(a.id@) && c1.accounts[a.id@] == a
                    &&& c1.orders == c.orders && c1.products == c.products
                    &&& c1.state.trade_sequences == c.state.trade_sequences
                    &&& snap is None
                },
                MessageType::Product(p) => {
                    &&& c1.products.contains_key(p.id@) && c1.products[p.id@] == p
                    &&& c1.orders == c.orders && c1.accounts == c.accounts
                    &&& snap is None
                },
                MessageType::CommandStart(o) => {
                    &&& c1.state.command_offset == Some(o)
                    &&& c1.accounts == c.accounts && c1.orders == c.orders && c1.products == c.products
                    &&& snap is None
                },
                MessageType::CommandEnd(o) => {
                    &&& c1.state.command_offset == Some(o)
                    &&& c1.accounts == c.accounts && c1.orders == c.orders && c1.products == c.products
                    &&& snap == Some(
                        SnapshotV { engine_state: c1.state, accounts: c.accounts, orders: c.orders, products: c.products },
                    )
                },
            }
        }),
{
}

} // verus!
