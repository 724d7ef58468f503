use vstd::prelude::*;

use crate::account_book::{Account, AccountV};
use crate::order::{Order, OrderV, Trade, TradeV};
use crate::product_book::{Product, ProductV};

verus! {

/// A numbered event the engine publishes.
#[derive(Debug)]
pub struct Message {
    pub sequence: u64,
    pub message_type: MessageType,
}

/// What an event is about.
#[derive(Debug)]
pub enum MessageType {
    Account(Account),
    Product(Product),
    Order(OrderMessage),
    Trade(Trade),
    CommandStart(i64),
    CommandEnd(i64),
}

/// An order together with its book's sequence number when the event was emitted.
#[derive(Debug)]
pub struct OrderMessage {
    pub order_book_sequence: u64,
    pub order: Order,
}

/// The contents of a [`MessageType`].
pub enum MessageTypeV {
    Account(AccountV),
    Product(ProductV),
    Order(u64, OrderV),
    Trade(TradeV),
    CommandStart(i64),
    CommandEnd(i64),
}

/// The contents of a [`Message`].
pub struct MessageV {
    pub sequence: u64,
    pub message_type: MessageTypeV,
}

impl View for MessageType {
    type V = MessageTypeV;

    open spec fn view(&self) -> MessageTypeV {
        match self {
            MessageType::Account(a) => MessageTypeV::Account(a@),
            MessageType::Product(p) => MessageTypeV::Product(p@),
            MessageType::Order(m) => MessageTypeV::Order(m.order_book_sequence, m.order@),
            MessageType::Trade(t) => MessageTypeV::Trade(t@),
            MessageType::CommandStart(o) => MessageTypeV::CommandStart(*o),
            MessageType::CommandEnd(o) => MessageTypeV::CommandEnd(*o),
        }
    }
}

impl View for Message {
    type V = MessageV;

    open spec fn view(&self) -> MessageV {
        MessageV { sequence: self.sequence, message_type: self.message_type@ }
    }
}

/// The events published so far and the number of the last one; shared by every book of
/// the engine, so numbers are consecutive across them.
#[derive(Debug)]
pub struct Outbox {
    pub sequence: u64,
    pub messages: Vec<Message>,
}

/// The views of a sequence of messages.
pub open spec fn messages_view(s: Seq<Message>) -> Seq<MessageV> {
    Seq::new(s.len(), |i: int| s[i]@)
}

impl Outbox {
    /// An outbox that continues numbering after `sequence`.
    pub fn new(sequence: u64) -> (r: Outbox)
        ensures
            r.sequence == sequence,
            r.messages@.len() == 0,
            r.numbered(),
    {
        Outbox { sequence, messages: Vec::new() }
    }

    pub open spec fn msgs(self) -> Seq<MessageV> {
        messages_view(self.messages@)
    }

    /// The held messages are numbered consecutively, the last one with `sequence`.
    pub open spec fn numbered(self) -> bool {
        forall|i: int|
            0 <= i < self.msgs().len() ==> (#[trigger] self.msgs()[i]).sequence == self.sequence - (self.msgs().len() - 1
                - i)
    }

    /// Numbers the event with the next sequence number and appends it. Returns `false`,
    /// changing nothing, when the counter is exhausted.
    pub fn publish(&mut self, message_type: MessageType) -> (r: bool)
        ensures
            r == (old(self).sequence < u64::MAX),
            r ==> final(self).sequence == old(self).sequence + 1,
            r ==> final(self).msgs() == old(self).msgs().push(
                MessageV { sequence: (old(self).sequence + 1) as u64, message_type: message_type@ },
            ),
            !r ==> *final(self) == *old(self),
            old(self).numbered() ==> final(self).numbered(),
    {
        if self.sequence == u64::MAX {
            return false;
        }
        let sequence = self.sequence + 1;
        self.sequence = sequence;
        self.messages.push(Message { sequence, message_type });
        proof {
            assert(self.msgs() =~= old(self).msgs().push(
                MessageV { sequence: (old(self).sequence + 1) as u64, message_type: message_type@ },
            ));
        }
        true
    }

    /// Hands out the published messages in order and empties the outbox.
    pub fn drain(&mut self) -> (r: Vec<Message>)
        ensures
            r@ == old(self).messages@,
            final(self).messages@.len() == 0,
            final(self).sequence == old(self).sequence,
            final(self).numbered(),
    {
        let mut taken = Vec::new();
        std::mem::swap(&mut taken, &mut self.messages);
        taken
    }
}

} // verus!
