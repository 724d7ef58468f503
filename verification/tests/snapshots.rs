use matching_engine::account_book::Account;
use matching_engine::dec::Dec;
use matching_engine::enums::{OrderSide, OrderStatus, OrderType};
use matching_engine::keyed::Keyed;
use matching_engine::message::{Message, MessageType, OrderMessage};
use matching_engine::order::{Order, Timestamp};
use matching_engine::snapshot::{EngineState, MatchingEngineSnapshotConsumer, SnapshotError};

fn snap_order(id: &str, status: OrderStatus) -> Order {
    Order {
        id: id.to_string(),
        sequence: 3,
        user_id: "u".to_string(),
        order_type: OrderType::LIMIT,
        side: OrderSide::BUY,
        remaining_size: Dec::new(1, 0),
        price: Dec::new(1, 0),
        remaining_funds: Dec::new(1, 0),
        size: Dec::new(1, 0),
        funds: Dec::new(1, 0),
        post_only: false,
        time: Timestamp { secs: 0, nanos: 0 },
        product_id: "BTC-USD".to_string(),
        status,
        client_oid: None,
    }
}

fn snap_msg(sequence: u64, message_type: MessageType) -> Message {
    Message { sequence, message_type }
}

#[test]
fn messages_must_come_in_sequence() {
    let mut c = MatchingEngineSnapshotConsumer::new();
    assert_eq!(c.initialize_state(None), None);
    assert_eq!(c.engine_state().id, "default");
    assert!(matches!(c.process_message(snap_msg(1, MessageType::CommandStart(5)), 100), Ok(None)));
    assert_eq!(c.engine_state().message_sequence, Some(1));
    assert_eq!(c.engine_state().command_offset, Some(5));
    assert_eq!(c.engine_state().message_offset, Some(100));
    // an old message is ignored
    assert!(matches!(c.process_message(snap_msg(1, MessageType::CommandStart(6)), 101), Ok(None)));
    assert_eq!(c.engine_state().command_offset, Some(5));
    // a gap is refused
    match c.process_message(snap_msg(3, MessageType::CommandEnd(5)), 102) {
        Err(e) => assert_eq!(e, SnapshotError::OutOfSequence { sequence: 3, expected: 2 }),
        Ok(_) => panic!("a gap must be refused"),
    }
}

#[test]
fn a_command_end_hands_out_what_changed() {
    let mut c = MatchingEngineSnapshotConsumer::new();
    let acct = Account {
        id: "u-USD".to_string(),
        user_id: "u".to_string(),
        currency: "USD".to_string(),
        available: Dec::new(1, 0),
        hold: Dec::new(0, 0),
    };
    assert!(c.process_message(snap_msg(1, MessageType::CommandStart(9)), 10).unwrap().is_none());
    assert!(c.process_message(snap_msg(2, MessageType::Account(acct)), 11).unwrap().is_none());
    let open = OrderMessage { order_book_sequence: 4, order: snap_order("o-open", OrderStatus::OPEN) };
    assert!(c.process_message(snap_msg(3, MessageType::Order(open)), 12).unwrap().is_none());
    let done = OrderMessage { order_book_sequence: 5, order: snap_order("o-done", OrderStatus::FILLED) };
    assert!(c.process_message(snap_msg(4, MessageType::Order(done)), 13).unwrap().is_none());
    let mut snap = c.process_message(snap_msg(5, MessageType::CommandEnd(9)), 14).unwrap().unwrap();
    assert_eq!(snap.engine_state.message_sequence, Some(5));
    assert_eq!(snap.engine_state.message_offset, Some(14));
    assert_eq!(snap.engine_state.command_offset, Some(9));
    assert_eq!(snap.engine_state.order_book_sequences.get(&"BTC-USD".to_string()), Some(&5));
    assert_eq!(snap.engine_state.order_sequences.get(&"BTC-USD".to_string()), Some(&3));
    assert_eq!(snap.accounts.len(), 1);
    let (keep, delete) = snap.order_writes();
    assert_eq!(keep.len(), 1);
    assert_eq!(keep[0].id, "o-open");
    assert_eq!(delete, vec!["o-done".to_string()]);
    // the buffers stay until the snapshot is saved
    let kept = c.process_message(snap_msg(6, MessageType::CommandEnd(10)), 15).unwrap().unwrap();
    assert_eq!(kept.accounts.len(), 1);
    assert_eq!(kept.orders.len(), 2);
    assert_eq!(kept.engine_state.message_sequence, Some(6));
    // once it is, they start over
    c.clean_buffers();
    let again = c.process_message(snap_msg(7, MessageType::CommandEnd(11)), 16).unwrap().unwrap();
    assert_eq!(again.accounts.len(), 0);
    assert_eq!(again.orders.len(), 0);
}

#[test]
fn a_stored_state_resumes_after_its_offset() {
    let mut c = MatchingEngineSnapshotConsumer::new();
    let mut seqs = Keyed::new();
    seqs.insert("BTC-USD".to_string(), 8u64);
    let stored = EngineState {
        id: "default".to_string(),
        command_offset: Some(3),
        message_offset: Some(41),
        message_sequence: Some(99),
        trade_sequences: seqs,
        order_sequences: Keyed::new(),
        order_book_sequences: Keyed::new(),
    };
    assert_eq!(c.initialize_state(Some(stored)), Some(42));
    assert!(matches!(c.process_message(snap_msg(99, MessageType::CommandStart(4)), 42), Ok(None)));
    assert_eq!(c.engine_state().message_offset, Some(41));
    assert!(matches!(c.process_message(snap_msg(100, MessageType::CommandStart(4)), 43), Ok(None)));
    assert_eq!(c.engine_state().message_offset, Some(43));
    let d = EngineState::default();
    assert_eq!(d.id, "default");
    assert_eq!(d.message_sequence, None);
}

#[test]
fn keyed_values_are_replaced_and_taken() {
    let mut k: Keyed<u64> = Keyed::new();
    k.insert("a".to_string(), 1);
    k.insert("b".to_string(), 2);
    k.insert("a".to_string(), 3);
    assert_eq!(k.len(), 2);
    assert_eq!(k.get(&"a".to_string()), Some(&3));
    assert_eq!(k.get(&"c".to_string()), None);
    let mut all = k.take_all();
    all.sort();
    assert_eq!(all, vec![("a".to_string(), 3), ("b".to_string(), 2)]);
    assert_eq!(k.len(), 0);
}
