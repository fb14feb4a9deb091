//! Tests for the thread controller: creation, authorization gating, message
//! framing and closing.

use dialect::{close_dialect, create_dialect, send_message, DialectError};

const ALICE: u64 = 3;
const BOB: u64 = 8;
const MALLORY: u64 = 5;

#[test]
fn creates_dialect_with_ascending_members() {
    let dialect = create_dialect(ALICE, BOB, [[true, true], [false, true]], true, 500).unwrap();
    assert_eq!(dialect.members[0].public_key, ALICE);
    assert_eq!(dialect.members[0].scopes, [true, true]);
    assert_eq!(dialect.members[1].public_key, BOB);
    assert_eq!(dialect.members[1].scopes, [false, true]);
    assert_eq!(dialect.last_message_timestamp, 500);
    assert!(dialect.encrypted);
    assert_eq!(dialect.messages.items_count, 0);
    assert_eq!(dialect.messages.read_offset, 0);
    assert_eq!(dialect.messages.write_offset, 0);
    assert_eq!(dialect.messages.raw().len(), 8192);
}

#[test]
fn rejects_equal_participants() {
    let result = create_dialect(ALICE, ALICE, [[true, true], [true, true]], false, 0);
    assert!(matches!(result, Err(DialectError::InvalidParticipants)));
}

#[test]
fn rejects_descending_participants() {
    let result = create_dialect(BOB, ALICE, [[true, true], [true, true]], false, 0);
    assert!(matches!(result, Err(DialectError::InvalidParticipants)));
}

#[test]
fn refuses_message_from_non_participant() {
    let mut dialect =
        create_dialect(ALICE, BOB, [[true, true], [false, true]], false, 500).unwrap();
    let raw_before = dialect.messages.raw();
    let result = send_message(&mut dialect, MALLORY, vec![1, 2, 3], 600);
    assert_eq!(result, Err(DialectError::NotAParticipant));
    assert_eq!(dialect.messages.items_count, 0);
    assert_eq!(dialect.messages.raw(), raw_before);
    assert_eq!(dialect.last_message_timestamp, 500);
}

#[test]
fn refuses_message_from_member_without_write_capability() {
    // ALICE may only read: neither admin nor writer capability is set
    let mut dialect =
        create_dialect(ALICE, BOB, [[false, false], [true, true]], false, 500).unwrap();
    let raw_before = dialect.messages.raw();
    let result = send_message(&mut dialect, ALICE, vec![1, 2, 3], 600);
    assert_eq!(result, Err(DialectError::WriteNotPermitted));
    assert_eq!(dialect.messages.items_count, 0);
    assert_eq!(dialect.messages.raw(), raw_before);
    assert_eq!(dialect.last_message_timestamp, 500);
}

#[test]
fn frames_message_with_sender_index_and_timestamp() {
    let mut dialect =
        create_dialect(ALICE, BOB, [[true, true], [false, true]], false, 500).unwrap();
    let result = send_message(&mut dialect, BOB, vec![0x68, 0x69], 0x01020304);
    assert_eq!(result, Ok(()));
    assert_eq!(dialect.last_message_timestamp, 0x01020304);
    let records = dialect.messages.read_all();
    assert_eq!(records.len(), 1);
    // sender index 1 (BOB is the second member), four big-endian timestamp
    // bytes, then the text
    assert_eq!(records[0], vec![1, 0x01, 0x02, 0x03, 0x04, 0x68, 0x69]);
}

#[test]
fn frames_message_from_first_member_with_index_zero() {
    let mut dialect =
        create_dialect(ALICE, BOB, [[true, true], [false, true]], false, 500).unwrap();
    assert_eq!(send_message(&mut dialect, ALICE, vec![7], 0xffffffff), Ok(()));
    let records = dialect.messages.read_all();
    assert_eq!(records[0], vec![0, 0xff, 0xff, 0xff, 0xff, 7]);
}

#[test]
fn keeps_messages_in_order_and_updates_timestamp() {
    let mut dialect =
        create_dialect(ALICE, BOB, [[true, true], [false, true]], false, 500).unwrap();
    assert_eq!(send_message(&mut dialect, ALICE, vec![10], 600), Ok(()));
    assert_eq!(send_message(&mut dialect, BOB, vec![20], 700), Ok(()));
    assert_eq!(dialect.last_message_timestamp, 700);
    let records = dialect.messages.read_all();
    assert_eq!(records.len(), 2);
    assert_eq!(records[0], vec![0, 0, 0, 2, 88, 10]);
    assert_eq!(records[1], vec![1, 0, 0, 2, 188, 20]);
}

#[test]
fn rejects_message_whose_frame_exceeds_capacity() {
    let mut dialect =
        create_dialect(ALICE, BOB, [[true, true], [false, true]], false, 500).unwrap();
    // the frame costs 2 (length prefix) + 1 (sender index) + 4 (timestamp)
    // bytes beside the text: 8186 text bytes exceed the 8192 capacity
    let result = send_message(&mut dialect, BOB, vec![0u8; 8186], 600);
    assert_eq!(result, Err(DialectError::OversizedRecord));
    assert_eq!(dialect.messages.items_count, 0);
    assert_eq!(dialect.last_message_timestamp, 500);
    // one byte less fits exactly
    let result = send_message(&mut dialect, BOB, vec![0u8; 8185], 600);
    assert_eq!(result, Ok(()));
    assert_eq!(dialect.messages.items_count, 1);
    assert_eq!(dialect.last_message_timestamp, 600);
}

#[test]
fn evicts_oldest_messages_when_the_buffer_fills() {
    let mut dialect =
        create_dialect(ALICE, BOB, [[true, true], [false, true]], false, 500).unwrap();
    // each message frames to 2 + 5 + 2000 = 2007 bytes: the fifth append
    // no longer fits beside the other four and evicts the oldest
    for ts in 0..5u32 {
        assert_eq!(
            send_message(&mut dialect, BOB, vec![ts as u8; 2000], 1000 + ts),
            Ok(())
        );
    }
    let records = dialect.messages.read_all();
    assert_eq!(records.len(), 4);
    for (i, record) in records.iter().enumerate() {
        let ts = 1 + i as u8;
        assert_eq!(record[0], 1);
        assert_eq!(&record[1..5], &[0, 0, 3, 0xe8 + ts]);
        assert_eq!(&record[5..], &vec![ts; 2000][..]);
    }
    assert_eq!(dialect.last_message_timestamp, 1004);
}

#[test]
fn close_requires_admin_capability() {
    let dialect = create_dialect(ALICE, BOB, [[true, true], [false, true]], false, 500).unwrap();
    // BOB is a writer but not an admin
    let dialect = match close_dialect(dialect, BOB) {
        Err((error, returned)) => {
            assert_eq!(error, DialectError::NotAuthorized);
            returned
        }
        Ok(()) => panic!("a non-admin member closed the dialect"),
    };
    // a non-participant cannot close either
    let dialect = match close_dialect(dialect, MALLORY) {
        Err((error, returned)) => {
            assert_eq!(error, DialectError::NotAuthorized);
            returned
        }
        Ok(()) => panic!("a non-participant closed the dialect"),
    };
    // the refused attempts left the account untouched
    assert_eq!(dialect.members[0].public_key, ALICE);
    assert_eq!(dialect.last_message_timestamp, 500);
    // the admin closes it for good
    assert!(close_dialect(dialect, ALICE).is_ok());
}

#[test]
fn read_only_member_can_still_close_with_admin_capability() {
    // admin without writer: may close, may not send
    let mut dialect =
        create_dialect(ALICE, BOB, [[true, false], [false, true]], false, 500).unwrap();
    assert_eq!(
        send_message(&mut dialect, ALICE, vec![1], 600),
        Err(DialectError::WriteNotPermitted)
    );
    assert!(close_dialect(dialect, ALICE).is_ok());
}
