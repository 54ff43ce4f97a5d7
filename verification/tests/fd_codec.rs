use fd_passing::error::{ErrorKind, TransportError};
use fd_passing::fd_codec::{
    decode_header, encode_frame, FrameHeader, HEADER_SIZE, MAX_FRAME_SIZE,
};

#[test]
fn test_header_size() {
    assert_eq!(HEADER_SIZE, 8);
}

#[test]
fn frame_size_limit() {
    assert_eq!(MAX_FRAME_SIZE, 16777216);
}

#[test]
fn frame_is_header_and_body() {
    assert_eq!(encode_frame(b"abc", 2), vec![0, 0, 0, 3, 0, 0, 0, 2, b'a', b'b', b'c']);
    assert_eq!(encode_frame(b"", 0), vec![0; 8]);
    let long = vec![7u8; 0x1_0203];
    let frame = encode_frame(&long, 253);
    assert_eq!(&frame[..8], &[0, 1, 2, 3, 0, 0, 0, 253]);
    assert_eq!(&frame[8..], &long[..]);
}

#[test]
fn header_announces_what_was_framed() {
    let frame = encode_frame(&[9u8; 1000], 17);
    let header = decode_header(&frame).unwrap();
    assert_eq!(header, FrameHeader { frame_length: 1000, fd_count: 17 });
}

#[test]
fn header_limits() {
    let header = decode_header(&[1, 0, 0, 0, 0, 0, 0, 253]).unwrap();
    assert_eq!(header, FrameHeader { frame_length: MAX_FRAME_SIZE, fd_count: 253 });
    assert!(matches!(
        decode_header(&[1, 0, 0, 1, 0, 0, 0, 0]),
        Err(TransportError::FrameTooLarge { length: 16777217 })
    ));
    assert!(matches!(
        decode_header(&[0, 0, 0, 1, 0, 0, 0, 254]),
        Err(TransportError::TooManyFdsAnnounced { count: 254 })
    ));
    // The length is looked at first.
    assert!(matches!(
        decode_header(&[255, 255, 255, 255, 255, 255, 255, 255]),
        Err(TransportError::FrameTooLarge { length: 4294967295 })
    ));
}

#[test]
fn error_kinds_and_texts() {
    let cases = vec![
        (TransportError::IncompleteHeader, ErrorKind::UnexpectedEof, "incomplete header"),
        (
            TransportError::FrameTooLarge { length: 16777217 },
            ErrorKind::InvalidData,
            "frame too large: 16777217",
        ),
        (
            TransportError::TooManyFdsAnnounced { count: 254 },
            ErrorKind::InvalidData,
            "too many FDs: 254",
        ),
        (
            TransportError::TooManyFdsToSend { count: 300 },
            ErrorKind::InvalidInput,
            "too many FDs: 300",
        ),
        (
            TransportError::UnexpectedEof,
            ErrorKind::UnexpectedEof,
            "unexpected EOF while reading frame body",
        ),
        (TransportError::WriteZero, ErrorKind::WriteZero, "failed to write any data"),
        (TransportError::Codec(String::from("bad")), ErrorKind::InvalidData, "bad"),
        (
            TransportError::UnnamedSocket,
            ErrorKind::Other,
            "Cannot get local address of abstract or unnamed socket",
        ),
    ];
    for (error, kind, text) in cases {
        assert_eq!(error.kind(), Some(kind));
        assert_eq!(error.message(), text);
    }
    let io = TransportError::Io(std::io::Error::new(std::io::ErrorKind::Other, "down"));
    assert_eq!(io.kind(), None);
    assert_eq!(io.message(), "down");
}
