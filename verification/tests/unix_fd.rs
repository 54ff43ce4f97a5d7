use std::io;

use fd_passing::error::TransportError;
use fd_passing::fd::{ContainsFds, PassedFd};
use fd_passing::fd_codec::encode_frame;
use fd_passing::fd_transport::{FdMessage, SendAction, SendAll};
use fd_passing::unix_fd::{
    extract_for_sending, ReadAction, ReadEvent, ReadState, Receiver, WriteAction, WriteEvent,
    WriteState,
};

fn chunk(data: &[u8], fds: Vec<i32>) -> FdMessage<i32> {
    FdMessage::with_fds(data.to_vec(), fds)
}

fn received(data: &[u8], fds: Vec<i32>) -> ReadEvent<i32> {
    ReadEvent::Received(chunk(data, fds))
}

fn broken() -> io::Error {
    io::Error::new(io::ErrorKind::BrokenPipe, "broken")
}

fn limit(action: ReadAction<i32>) -> usize {
    match action {
        ReadAction::Recv { limit } => limit,
        other => panic!("unexpected {:?}", other),
    }
}

fn delivered(action: ReadAction<i32>) -> (Vec<u8>, Vec<i32>) {
    match action {
        ReadAction::Deliver { body, fds } => (body, fds),
        other => panic!("unexpected {:?}", other),
    }
}

/// Gives a reading end the bytes of `frame` in pieces of at most `size`, the descriptors with
/// the first.
fn read_in_pieces(frame: &[u8], size: usize, fds: Vec<i32>) -> (Vec<u8>, Vec<i32>) {
    let mut state = ReadState::new();
    let mut action = state.poll_next(ReadEvent::Resume);
    let mut pos = 0;
    let mut rest = Some(fds);
    loop {
        match action {
            ReadAction::Recv { limit } => {
                let n = size.min(limit).min(frame.len() - pos);
                let fds = rest.take().unwrap_or_default();
                action = state.poll_next(received(&frame[pos..pos + n], fds));
                pos += n;
            }
            other => {
                assert!(matches!(state, ReadState::Idle));
                assert_eq!(pos, frame.len());
                return delivered(other);
            }
        }
    }
}

#[test]
fn reads_what_was_written_in_any_pieces() {
    let frame = encode_frame(b"some message", 2);
    for size in 1..20 {
        let (body, fds) = read_in_pieces(&frame, size, vec![4, 5]);
        assert_eq!(body, b"some message");
        assert_eq!(fds, vec![4, 5]);
    }
}

#[test]
fn reads_an_empty_body() {
    let frame = encode_frame(b"", 1);
    let (body, fds) = read_in_pieces(&frame, 1, vec![4]);
    assert!(body.is_empty());
    assert_eq!(fds, vec![4]);
}

#[test]
fn reads_frame_after_frame() {
    let mut state = ReadState::new();
    for text in [b"one", b"two"] {
        let frame = encode_frame(text, 0);
        assert_eq!(limit(state.poll_next(ReadEvent::Resume)), 8);
        assert_eq!(limit(state.poll_next(received(&frame[..8], vec![]))), 3);
        let (body, fds) = delivered(state.poll_next(received(&frame[8..], vec![])));
        assert_eq!(body, text);
        assert!(fds.is_empty());
    }
}

#[test]
fn waiting_changes_nothing() {
    let frame = encode_frame(b"abcd", 0);
    let mut state: ReadState<i32> = ReadState::new();
    assert_eq!(limit(state.poll_next(ReadEvent::Resume)), 8);
    assert_eq!(limit(state.poll_next(ReadEvent::Resume)), 8);
    assert_eq!(limit(state.poll_next(received(&frame[..8], vec![]))), 4);
    assert_eq!(limit(state.poll_next(received(b"ab", vec![]))), 2);
    assert_eq!(limit(state.poll_next(ReadEvent::Resume)), 2);
    let (body, _) = delivered(state.poll_next(received(b"cd", vec![])));
    assert_eq!(body, b"abcd");
}

#[test]
fn descriptors_may_come_with_any_piece() {
    let frame = encode_frame(b"abcd", 3);
    let mut state = ReadState::new();
    state.poll_next(ReadEvent::Resume);
    state.poll_next(received(&frame[..8], vec![1]));
    state.poll_next(received(b"ab", vec![2]));
    let (_, fds) = delivered(state.poll_next(received(b"cd", vec![3])));
    assert_eq!(fds, vec![1, 2, 3]);
}

#[test]
fn surplus_descriptors_are_dropped() {
    let frame = encode_frame(b"ab", 1);
    let mut state = ReadState::new();
    state.poll_next(ReadEvent::Resume);
    state.poll_next(received(&frame[..8], vec![1, 2]));
    let (_, fds) = delivered(state.poll_next(received(b"ab", vec![3])));
    assert_eq!(fds, vec![1]);
}

#[test]
fn missing_descriptors_end_in_an_error() {
    let frame = encode_frame(b"ab", 1);
    let mut state = ReadState::new();
    state.poll_next(ReadEvent::Resume);
    state.poll_next(received(&frame[..8], vec![]));
    assert_eq!(limit(state.poll_next(received(b"ab", vec![]))), 0);
    assert!(matches!(
        state.poll_next(received(b"", vec![])),
        ReadAction::Fail(TransportError::UnexpectedEof)
    ));
    assert!(matches!(state, ReadState::Idle));
}

#[test]
fn header_is_put_together_from_pieces() {
    let mut state = ReadState::new();
    state.poll_next(ReadEvent::Resume);
    assert_eq!(limit(state.poll_next(received(&[0, 0, 0], vec![9]))), 5);
    assert_eq!(limit(state.poll_next(ReadEvent::Resume)), 5);
    assert_eq!(limit(state.poll_next(received(&[6, 0], vec![]))), 3);
    assert_eq!(limit(state.poll_next(received(&[0, 0, 1], vec![]))), 6);
    let (body, fds) = delivered(state.poll_next(received(b"\"test\"", vec![])));
    assert_eq!(body, b"\"test\"");
    assert_eq!(fds, vec![9]);
    assert!(matches!(state, ReadState::Idle));
}

#[test]
fn pieces_may_reach_into_the_body() {
    let mut state: ReadState<i32> = ReadState::new();
    state.poll_next(ReadEvent::Resume);
    assert_eq!(limit(state.poll_next(received(&[0, 0, 0], vec![]))), 5);
    assert_eq!(limit(state.poll_next(received(&[6, 0, 0, 0, 0, 34, 116, 101], vec![]))), 3);
    let (body, _) = delivered(state.poll_next(received(&[115, 116, 34], vec![])));
    assert_eq!(body, b"\"test\"");
}

#[test]
fn oversized_header_in_pieces_is_refused() {
    let mut state: ReadState<i32> = ReadState::new();
    state.poll_next(ReadEvent::Resume);
    state.poll_next(received(&[1, 0, 0], vec![]));
    assert!(matches!(
        state.poll_next(received(&[1, 0, 0, 0, 0], vec![])),
        ReadAction::Fail(TransportError::FrameTooLarge { length: 16777217 })
    ));
    assert!(matches!(state, ReadState::Idle));
}

#[test]
fn end_inside_a_header() {
    let mut state: ReadState<i32> = ReadState::new();
    state.poll_next(ReadEvent::Resume);
    state.poll_next(received(&[0, 0], vec![]));
    assert!(matches!(state.poll_next(received(b"", vec![])), ReadAction::End));
    assert!(matches!(state, ReadState::Idle));
    state.poll_next(ReadEvent::Resume);
    assert!(matches!(state.poll_next(received(b"", vec![])), ReadAction::End));
}

/// Reads a stream to its end in pieces of at most `size`, after a wait before each, and writes
/// down what is reported. `fds` gives the descriptors that travel with each byte.
fn report_all(stream: &[u8], fds: &[Vec<i32>], size: usize) -> Vec<String> {
    let mut state = ReadState::new();
    let mut reports = Vec::new();
    let mut pos = 0;
    loop {
        state.poll_next(ReadEvent::Resume);
        let wanted = limit(state.poll_next(ReadEvent::Resume));
        let n = size.min(wanted).min(stream.len() - pos);
        let with = fds[pos..pos + n].concat();
        let action = state.poll_next(received(&stream[pos..pos + n], with));
        pos += n;
        match action {
            ReadAction::Recv { .. } => {}
            ReadAction::End => {
                reports.push(String::from("end"));
                return reports;
            }
            ReadAction::Fail(e) => reports.push(e.message()),
            ReadAction::Deliver { body, fds } => {
                reports.push(format!("{} {:?}", String::from_utf8(body).unwrap(), fds));
            }
        }
    }
}

/// A stream, and the descriptors that travel with each of its bytes.
fn stream_of(frames: &[(&[u8], Vec<i32>)]) -> (Vec<u8>, Vec<Vec<i32>>) {
    let mut stream = Vec::new();
    let mut fds = Vec::new();
    for (body, with) in frames {
        let frame = encode_frame(body, with.len());
        for i in 0..frame.len() {
            fds.push(if i == 0 { with.clone() } else { Vec::new() });
        }
        stream.extend_from_slice(&frame);
    }
    (stream, fds)
}

#[test]
fn messages_arrive_one_after_the_other() {
    let (stream, fds) =
        stream_of(&[(b"one", vec![1, 2]), (b"", vec![3]), (b"", vec![]), (b"three", vec![4])]);
    for size in 1..20 {
        assert_eq!(
            report_all(&stream, &fds, size),
            vec!["one [1, 2]", " [3]", " []", "three [4]", "end"]
        );
    }
}

#[test]
fn broken_streams_are_reported_alike_in_any_pieces() {
    let (mut stream, mut fds) = stream_of(&[(b"one", vec![1]), (b"two", vec![])]);
    // A header beyond the limit, a frame that lacks a descriptor, and a part of a header.
    stream.extend_from_slice(&[2, 0, 0, 0, 0, 0, 0, 0]);
    stream.extend_from_slice(&[0, 0, 0, 2, 0, 0, 0, 1, b'a', b'b']);
    stream.extend_from_slice(&[0, 0, 0]);
    fds.resize(stream.len(), Vec::new());
    for size in 1..20 {
        assert_eq!(
            report_all(&stream, &fds, size),
            vec![
                "one [1]",
                "two []",
                "frame too large: 33554432",
                "unexpected EOF while reading frame body",
                "end",
            ]
        );
    }
    for size in 1..20 {
        // Inside the second header, and inside the second body.
        assert_eq!(report_all(&stream[..15], &fds[..15], size), vec!["one [1]", "end"]);
        assert_eq!(
            report_all(&stream[..20], &fds[..20], size),
            vec!["one [1]", "unexpected EOF while reading frame body", "end"]
        );
    }
}

#[test]
fn receiver_reads_message_after_message() {
    let (stream, fds) = stream_of(&[(b"one", vec![1, 2]), (b"", vec![3]), (b"three", vec![4])]);
    let mut receiver = Receiver::new();
    let mut got = Vec::new();
    let mut pos = 0;
    loop {
        let wanted = receiver.limit();
        // A header is read in one piece, a body byte by byte.
        let n = if wanted == 8 { 8 } else { 1 }.min(stream.len() - pos);
        let action = receiver.recv(chunk(&stream[pos..pos + n], fds[pos..pos + n].concat()));
        pos += n;
        match action {
            ReadAction::Recv { .. } => {}
            ReadAction::Deliver { body, fds } => got.push((body, fds)),
            ReadAction::End => break,
            ReadAction::Fail(e) => panic!("unexpected {:?}", e),
        }
    }
    assert_eq!(
        got,
        vec![
            (b"one".to_vec(), vec![1, 2]),
            (b"".to_vec(), vec![3]),
            (b"three".to_vec(), vec![4]),
        ]
    );
}

#[test]
fn end_between_frames() {
    let mut state: ReadState<i32> = ReadState::new();
    state.poll_next(ReadEvent::Resume);
    assert!(matches!(state.poll_next(received(b"", vec![])), ReadAction::End));
    assert!(matches!(state, ReadState::Idle));
}

#[test]
fn end_inside_a_frame() {
    let mut state: ReadState<i32> = ReadState::new();
    state.poll_next(ReadEvent::Resume);
    state.poll_next(received(&[0, 0, 0, 5, 0, 0, 0, 0], vec![]));
    assert!(matches!(
        state.poll_next(received(b"", vec![])),
        ReadAction::Fail(TransportError::UnexpectedEof)
    ));
    assert!(matches!(state, ReadState::Idle));
}

#[test]
fn oversized_frames_are_refused() {
    let mut state: ReadState<i32> = ReadState::new();
    state.poll_next(ReadEvent::Resume);
    assert!(matches!(
        state.poll_next(received(&[1, 0, 0, 1, 0, 0, 0, 0], vec![])),
        ReadAction::Fail(TransportError::FrameTooLarge { length: 16777217 })
    ));
    assert!(matches!(state, ReadState::Idle));
    state.poll_next(ReadEvent::Resume);
    assert!(matches!(
        state.poll_next(received(&[0, 0, 0, 1, 0, 0, 1, 0], vec![])),
        ReadAction::Fail(TransportError::TooManyFdsAnnounced { count: 256 })
    ));
    assert!(matches!(state, ReadState::Idle));
}

#[test]
fn failed_wait_for_a_header_keeps_the_header_open() {
    let mut state: ReadState<i32> = ReadState::new();
    state.poll_next(ReadEvent::Resume);
    state.poll_next(received(&[1], vec![3]));
    let action = state.poll_next(ReadEvent::ReadyFailed(broken()));
    assert!(
        matches!(action, ReadAction::Fail(TransportError::Io(ref e)) if e.kind() == io::ErrorKind::BrokenPipe)
    );
    assert!(matches!(state, ReadState::ReadingHeader { ref bytes, ref fds } if *bytes == vec![1] && *fds == vec![3]));
}

#[test]
fn other_failures_start_afresh() {
    let mut state: ReadState<i32> = ReadState::new();
    state.poll_next(ReadEvent::Resume);
    assert!(matches!(
        state.poll_next(ReadEvent::RecvFailed(broken())),
        ReadAction::Fail(TransportError::Io(_))
    ));
    assert!(matches!(state, ReadState::Idle));
    state.poll_next(ReadEvent::Resume);
    state.poll_next(received(&[0, 0, 0, 5, 0, 0, 0, 0], vec![]));
    assert!(matches!(
        state.poll_next(ReadEvent::ReadyFailed(broken())),
        ReadAction::Fail(TransportError::Io(_))
    ));
    assert!(matches!(state, ReadState::Idle));
}

#[test]
fn receiver_reads_one_frame() {
    let frame = encode_frame(b"hello", 2);
    let mut receiver = Receiver::new();
    assert_eq!(receiver.limit(), 8);
    assert_eq!(limit(receiver.recv(chunk(&frame[..8], vec![1]))), 5);
    assert_eq!(receiver.limit(), 5);
    assert_eq!(limit(receiver.recv(chunk(b"he", vec![]))), 3);
    let (body, fds) = delivered(receiver.recv(chunk(b"llo", vec![2, 3])));
    assert_eq!(body, b"hello");
    assert_eq!(fds, vec![1, 2]);
    assert_eq!(receiver.limit(), 8);
}

#[test]
fn receiver_errors() {
    let mut receiver: Receiver<i32> = Receiver::new();
    assert!(matches!(receiver.recv(chunk(b"", vec![])), ReadAction::End));
    assert!(matches!(
        receiver.recv(chunk(&[0, 0, 0], vec![])),
        ReadAction::Fail(TransportError::IncompleteHeader)
    ));
    assert!(matches!(
        receiver.recv(chunk(&[2, 0, 0, 0, 0, 0, 0, 0], vec![])),
        ReadAction::Fail(TransportError::FrameTooLarge { length: 33554432 })
    ));
    receiver.recv(chunk(&[0, 0, 0, 1, 0, 0, 0, 0], vec![]));
    assert!(matches!(
        receiver.recv(chunk(b"", vec![])),
        ReadAction::Fail(TransportError::UnexpectedEof)
    ));
}

#[test]
fn bytes_behind_the_header_count() {
    let frame = encode_frame(b"hello", 0);
    let mut receiver: Receiver<i32> = Receiver::new();
    assert_eq!(limit(receiver.recv(chunk(&frame[..10], vec![]))), 3);
    let (body, _) = delivered(receiver.recv(chunk(&frame[10..], vec![])));
    assert_eq!(body, b"hello");
}

#[test]
fn writes_all_in_any_pieces() {
    for size in 1..15 {
        let mut state = WriteState::new();
        assert!(state.poll_ready());
        state.start_send(b"hello", vec![7, 8]);
        assert!(!state.poll_ready());
        let mut bytes: Vec<u8> = Vec::new();
        let mut calls = 0;
        let mut action = state.poll_flush(WriteEvent::Resume);
        while matches!(action, WriteAction::Send) {
            let n = state.pending().len().min(size);
            bytes.extend_from_slice(&state.pending()[..n]);
            if calls == 0 {
                assert_eq!(state.pending_fds(), &[7, 8]);
            } else {
                assert!(state.pending_fds().is_empty());
            }
            calls += 1;
            action = state.poll_flush(WriteEvent::Sent(n));
        }
        assert!(matches!(action, WriteAction::Done));
        assert!(state.poll_ready());
        assert_eq!(bytes, encode_frame(b"hello", 2));
    }
}

#[test]
fn writers_give_the_socket_the_same() {
    let frame = encode_frame(b"hello", 2);
    for size in 1..15 {
        let mut state: WriteState<i32> = WriteState::new();
        state.start_send(b"hello", vec![4, 5]);
        let mut progress = SendAll::new(frame.len());
        let mut action = state.poll_flush(WriteEvent::Resume);
        loop {
            match progress.next() {
                SendAction::Done => {
                    assert!(matches!(action, WriteAction::Done));
                    break;
                }
                SendAction::Send { from, with_fds } => {
                    assert!(matches!(action, WriteAction::Send));
                    assert_eq!(state.pending(), &frame[from..]);
                    assert_eq!(state.pending_fds().len(), if with_fds { 2 } else { 0 });
                    let n = size.min(frame.len() - from);
                    progress.sent(n).unwrap();
                    action = state.poll_flush(WriteEvent::Sent(n));
                }
            }
        }
    }
}

#[test]
fn idle_writer_has_nothing_to_do() {
    let mut state: WriteState<i32> = WriteState::new();
    assert!(matches!(state.poll_flush(WriteEvent::Resume), WriteAction::Done));
    assert!(state.pending().is_empty());
    assert!(state.pending_fds().is_empty());
}

#[test]
fn failures_give_the_message_up() {
    let mut state: WriteState<i32> = WriteState::new();
    state.start_send(b"a", vec![]);
    assert!(matches!(
        state.poll_flush(WriteEvent::Sent(0)),
        WriteAction::Fail(TransportError::WriteZero)
    ));
    assert!(state.poll_ready());
    state.start_send(b"a", vec![]);
    assert!(matches!(
        state.poll_flush(WriteEvent::SendFailed(broken())),
        WriteAction::Fail(TransportError::Io(_))
    ));
    assert!(state.poll_ready());
    state.start_send(b"a", vec![]);
    assert!(matches!(
        state.poll_flush(WriteEvent::ReadyFailed(broken())),
        WriteAction::Fail(TransportError::Io(_))
    ));
    assert!(state.poll_ready());
}

#[test]
fn extraction_for_sending_has_a_limit() {
    let mut few: Vec<PassedFd<i32>> = (0..253).map(PassedFd::new).collect();
    let fds: Vec<i32> = extract_for_sending(&mut few).unwrap();
    assert_eq!(fds.len(), 253);
    assert_eq!(few[252].index(), Some(252));

    let mut many: Vec<PassedFd<i32>> = (0..254).map(PassedFd::new).collect();
    let result: Result<Vec<i32>, TransportError> = extract_for_sending(&mut many);
    assert!(matches!(result, Err(TransportError::TooManyFdsToSend { count: 254 })));
    assert!(!many[0].has_fd());
}

#[test]
fn a_message_arrives_as_it_was_sent() {
    // The sending side.
    let mut message = vec![PassedFd::new(30), PassedFd::new(31)];
    let fds: Vec<i32> = extract_for_sending(&mut message).unwrap();
    let mut indices: Vec<u32> = Vec::new();
    for p in &message {
        indices.push(p.wire_index().unwrap());
    }
    let encoded = serde_json::to_vec(&indices).unwrap();
    let mut writer = WriteState::new();
    writer.start_send(&encoded, fds);
    let frame = writer.pending().to_vec();
    let on_the_way = writer.pending_fds().to_vec();

    // The receiving side.
    let (body, fds) = read_in_pieces(&frame, 2, on_the_way);
    let indices: Vec<u32> = serde_json::from_slice(&body).unwrap();
    let mut message: Vec<PassedFd<i32>> = Vec::new();
    for index in indices {
        message.push(PassedFd::with_index(index));
    }
    message.inject_fds(fds);
    assert_eq!(message[0].as_raw_fd(), 30);
    assert_eq!(message[1].as_raw_fd(), 31);
}
