use fd_passing::error::TransportError;
use fd_passing::fd_transport::{
    raw_numbers, require_pathname, ControlLayout, ControlMessage, FdMessage, SendAction, SendAll,
};

const LAYOUT: ControlLayout = ControlLayout { level: 1, kind: 1, header_size: 16 };

#[test]
fn messages() {
    let msg: FdMessage<i32> = FdMessage::new(vec![1, 2]);
    assert_eq!(msg.data, vec![1, 2]);
    assert!(msg.fds.is_empty());
    let msg = FdMessage::with_fds(vec![1], vec![7, 8]);
    assert_eq!(msg.data, vec![1]);
    assert_eq!(msg.fds, vec![7, 8]);
    let msg = FdMessage::received(&[1, 2, 3, 4], 2, vec![9]);
    assert_eq!(msg.data, vec![1, 2]);
    assert_eq!(msg.fds, vec![9]);
}

#[test]
fn control_message_counts_whole_numbers() {
    assert_eq!(LAYOUT.fd_count(1, 1, 16), 0);
    assert_eq!(LAYOUT.fd_count(1, 1, 24), 2);
    assert_eq!(LAYOUT.fd_count(1, 1, 27), 2);
    assert_eq!(LAYOUT.fd_count(1, 2, 24), 0);
    assert_eq!(LAYOUT.fd_count(2, 1, 24), 0);
}

#[test]
fn control_messages_are_collected_in_order() {
    let messages = vec![
        ControlMessage { level: 1, kind: 1, len: 24, words: vec![3, 4] },
        ControlMessage { level: 1, kind: 2, len: 20, words: vec![] },
        ControlMessage { level: 1, kind: 1, len: 20, words: vec![5] },
    ];
    assert_eq!(LAYOUT.received_fds(&messages), vec![3, 4, 5]);
    assert!(LAYOUT.received_fds(&vec![]).is_empty());
}

#[test]
fn control_message_round_trip() {
    let sent = LAYOUT.rights_message(&[10, 11, 12]).unwrap();
    assert_eq!(sent.level, 1);
    assert_eq!(sent.kind, 1);
    assert_eq!(sent.payload_len, 12);
    assert_eq!(sent.words, vec![10, 11, 12]);
    let arrived = ControlMessage {
        level: sent.level,
        kind: sent.kind,
        len: 16 + sent.payload_len as usize,
        words: sent.words,
    };
    assert_eq!(LAYOUT.received_fds(&vec![arrived]), vec![10, 11, 12]);
    assert!(LAYOUT.rights_message::<i32>(&[]).is_none());
}

#[test]
fn numbers_of_handles() {
    assert_eq!(raw_numbers(&[4, 2]), vec![4, 2]);
}

#[test]
fn descriptors_go_with_the_first_call() {
    let mut progress = SendAll::new(10);
    assert_eq!(progress.next(), SendAction::Send { from: 0, with_fds: true });
    assert!(progress.sent(3).is_ok());
    assert_eq!(progress.next(), SendAction::Send { from: 3, with_fds: false });
    assert!(progress.sent(7).is_ok());
    assert_eq!(progress.next(), SendAction::Done);
}

#[test]
fn nothing_to_send() {
    assert_eq!(SendAll::new(0).next(), SendAction::Done);
}

#[test]
fn a_call_that_sends_nothing_fails() {
    let mut progress = SendAll::new(10);
    progress.next();
    assert!(matches!(progress.sent(0), Err(TransportError::WriteZero)));
}

#[test]
fn address_needs_a_path() {
    assert_eq!(require_pathname(Some("/tmp/s")).unwrap(), "/tmp/s");
    assert!(matches!(require_pathname::<u8>(None), Err(TransportError::UnnamedSocket)));
}
