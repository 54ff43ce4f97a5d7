//! The frame in which a message and its descriptors travel.
//!
//! ```text
//! 4 bytes: length of the serialized message (big-endian)
//! 4 bytes: number of descriptors (big-endian)
//! N bytes: serialized message
//! ```
//!
//! The descriptors themselves go with the first bytes of the frame, as ancillary data.

use vstd::prelude::*;

use crate::error::TransportError;
use crate::fd::MAX_FDS_PER_MESSAGE;

verus! {

/// Header size: 4 bytes frame length + 4 bytes descriptor count
pub const HEADER_SIZE: usize = 8;

/// Maximum frame size (16 MB)
pub const MAX_FRAME_SIZE: usize = 16 * 1024 * 1024;

/// The four bytes of `n`, most significant first.
pub open spec fn be_bytes(n: u32) -> Seq<u8> {
    seq![
        (n / 0x100_0000) as u8,
        (n / 0x1_0000 % 0x100) as u8,
        (n / 0x100 % 0x100) as u8,
        (n % 0x100) as u8,
    ]
}

/// The number whose four bytes, most significant first, stand at `at` in `bytes`.
pub open spec fn be_value(bytes: Seq<u8>, at: int) -> int {
    bytes[at] * 0x100_0000 + bytes[at + 1] * 0x1_0000 + bytes[at + 2] * 0x100 + bytes[at + 3]
}

/// The remainder of `n` by two to the thirty-second: what the four bytes of a header field can
/// hold of it.
pub open spec fn low_word(n: int) -> u32 {
    (n % 0x1_0000_0000) as u32
}

/// The bytes of the frame for a serialized message and a number of descriptors.
pub open spec fn frame_bytes(body: Seq<u8>, fd_count: int) -> Seq<u8> {
    be_bytes(low_word(body.len() as int)) + be_bytes(low_word(fd_count)) + body
}

/// The length of the body that the header at the start of `data` announces.
pub open spec fn announced_length(data: Seq<u8>) -> int {
    be_value(data, 0)
}

/// The number of descriptors that the header at the start of `data` announces.
pub open spec fn announced_fds(data: Seq<u8>) -> int {
    be_value(data, 4)
}

/// Whether the header at the start of `data` stays within the limits.
pub open spec fn is_acceptable(data: Seq<u8>) -> bool {
    announced_length(data) <= MAX_FRAME_SIZE && announced_fds(data) <= MAX_FDS_PER_MESSAGE
}

/// Appends `n` to `buf`, most significant byte first, by `bytes::BufMut::put_u32`.
///
/// The call is claimed to add the four big-endian bytes of `n` at the end of the vector and to
/// change nothing else. It panics where the vector cannot grow to the new length, so that is
/// left out.
#[verifier::external_body]
fn put_u32(buf: &mut Vec<u8>, n: u32)
    requires
        old(buf).len() + 4 <= isize::MAX,
    ensures
        final(buf)@ == old(buf)@ + be_bytes(n),
{
    bytes::BufMut::put_u32(buf, n)
}

/// Truncates to the four bytes of a header field.
fn truncate(n: usize) -> (word: u32)
    ensures
        word == low_word(n as int),
{
    let wide: u64 = n as u64;
    assert(wide as u32 == wide % 0x1_0000_0000) by (bit_vector);
    wide as u32
}

/// Builds the frame for a serialized message that goes with `fd_count` descriptors.
pub fn encode_frame(encoded: &[u8], fd_count: usize) -> (frame: Vec<u8>)
    requires
        encoded.len() + HEADER_SIZE <= isize::MAX,
    ensures
        frame@ == frame_bytes(encoded@, fd_count as int),
        frame.len() == 8 + encoded.len(),
        frame[0] * 0x100_0000 + frame[1] * 0x1_0000 + frame[2] * 0x100 + frame[3] == encoded@.len()
            % 0x1_0000_0000,
        frame[4] * 0x100_0000 + frame[5] * 0x1_0000 + frame[6] * 0x100 + frame[7] == fd_count as int
            % 0x1_0000_0000,
        frame@.skip(8) == encoded@,
{
    let mut frame: Vec<u8> = Vec::with_capacity(HEADER_SIZE + encoded.len());
    put_u32(&mut frame, truncate(encoded.len()));
    put_u32(&mut frame, truncate(fd_count));
    frame.extend_from_slice(encoded);
    assert(frame@ =~= frame_bytes(encoded@, fd_count as int));
    proof {
        lemma_frame_on_the_wire(encoded@, fd_count as int);
    }
    frame
}

/// What the header of a frame announces.
#[derive(Debug, Clone, Copy, PartialEq, Eq, Structural)]
pub struct FrameHeader {
    /// The length of the body.
    pub frame_length: usize,
    /// The number of descriptors that belong to the frame.
    pub fd_count: usize,
}

/// Reads four bytes as a number, most significant byte first.
fn read_u32(data: &[u8], at: usize) -> (n: u32)
    requires
        at + 4 <= data.len(),
    ensures
        n == be_value(data@, at as int),
{
    data[at] as u32 * 0x100_0000 + data[at + 1] as u32 * 0x1_0000 + data[at + 2] as u32 * 0x100
        + data[at + 3] as u32
}

/// Reads the header at the start of `data` and holds it to the limits.
pub fn decode_header(data: &[u8]) -> (header: Result<FrameHeader, TransportError>)
    requires
        data.len() >= HEADER_SIZE,
    ensures
        match header {
            Ok(h) => {
                &&& is_acceptable(data@)
                &&& h.frame_length == announced_length(data@)
                &&& h.fd_count == announced_fds(data@)
            },
            Err(e) => !is_acceptable(data@) && e == refusal(data@),
        },
        ({
            let length = data[0] * 0x100_0000 + data[1] * 0x1_0000 + data[2] * 0x100 + data[3];
            let count = data[4] * 0x100_0000 + data[5] * 0x1_0000 + data[6] * 0x100 + data[7];
            header == (if length > 0x100_0000 {
                Err(TransportError::FrameTooLarge { length: length as usize })
            } else if count > 253 {
                Err(TransportError::TooManyFdsAnnounced { count: count as usize })
            } else {
                Ok(FrameHeader { frame_length: length as usize, fd_count: count as usize })
            })
        }),
{
    let frame_length: usize = read_u32(data, 0) as usize;
    let fd_count: usize = read_u32(data, 4) as usize;

    if frame_length > MAX_FRAME_SIZE {
        return Err(TransportError::FrameTooLarge { length: frame_length });
    }
    if fd_count > MAX_FDS_PER_MESSAGE {
        return Err(TransportError::TooManyFdsAnnounced { count: fd_count });
    }
    Ok(FrameHeader { frame_length, fd_count })
}

/// The error for a header that does not stay within the limits. The length is looked at first.
pub open spec fn refusal(data: Seq<u8>) -> TransportError {
    if announced_length(data) > MAX_FRAME_SIZE {
        TransportError::FrameTooLarge { length: announced_length(data) as usize }
    } else {
        TransportError::TooManyFdsAnnounced { count: announced_fds(data) as usize }
    }
}

/// Law: the four bytes of a number, read back, give the number.
pub proof fn lemma_be_round_trip(n: u32)
    ensures
        be_value(be_bytes(n), 0) == n,
{
}

/// Law: the header of a frame announces what the frame was built for, as far as four bytes can
/// hold it.
pub proof fn lemma_frame_announces(body: Seq<u8>, fd_count: int)
    ensures
        frame_bytes(body, fd_count).len() == HEADER_SIZE + body.len(),
        announced_length(frame_bytes(body, fd_count)) == low_word(body.len() as int),
        announced_fds(frame_bytes(body, fd_count)) == low_word(fd_count),
        frame_bytes(body, fd_count).skip(HEADER_SIZE as int) == body,
{
    let frame = frame_bytes(body, fd_count);
    lemma_be_round_trip(low_word(body.len() as int));
    lemma_be_round_trip(low_word(fd_count));
    assert(frame.skip(HEADER_SIZE as int) =~= body);
}

/// Law: a frame is accepted at the other end exactly if its body and its descriptors stay
/// within the limits, and is then read as what was written.
pub proof fn lemma_frame_accepted(body: Seq<u8>, fd_count: int)
    requires
        body.len() <= u32::MAX,
        0 <= fd_count <= u32::MAX,
    ensures
        is_acceptable(frame_bytes(body, fd_count)) <==> body.len() <= MAX_FRAME_SIZE && fd_count
            <= MAX_FDS_PER_MESSAGE,
        announced_length(frame_bytes(body, fd_count)) == body.len(),
        announced_fds(frame_bytes(body, fd_count)) == fd_count,
{
    lemma_frame_announces(body, fd_count);
}

/// Law: two frames have the same bytes only if they were built for the same message and number
/// of descriptors.
pub proof fn lemma_frame_injective(a: Seq<u8>, m: int, b: Seq<u8>, n: int)
    requires
        0 <= m <= u32::MAX,
        0 <= n <= u32::MAX,
        frame_bytes(a, m) == frame_bytes(b, n),
    ensures
        a == b,
        m == n,
{
    lemma_frame_announces(a, m);
    lemma_frame_announces(b, n);
}

/// Law: a header is eight bytes long, and a body is at most sixteen times two to the twentieth.
pub proof fn lemma_codec_limits()
    ensures
        HEADER_SIZE == 8,
        MAX_FRAME_SIZE == 16 * 0x10_0000,
{
}

/// Law: the four bytes of a number have it as their big-endian value.
pub proof fn lemma_be_bytes(n: u32)
    ensures
        be_bytes(n).len() == 4,
        be_bytes(n)[0] * 0x100_0000 + be_bytes(n)[1] * 0x1_0000 + be_bytes(n)[2] * 0x100
            + be_bytes(n)[3] == n,
{
}

/// Law: on the wire a frame is eight bytes and the message. The first four bytes have the length
/// of the message as their big-endian value, the next four the number of descriptors, each as
/// far as four bytes can hold it.
pub proof fn lemma_frame_on_the_wire(body: Seq<u8>, fd_count: int)
    ensures
        ({
            let frame = frame_bytes(body, fd_count);
            &&& frame.len() == 8 + body.len()
            &&& frame[0] * 0x100_0000 + frame[1] * 0x1_0000 + frame[2] * 0x100 + frame[3]
                == body.len() % 0x1_0000_0000
            &&& frame[4] * 0x100_0000 + frame[5] * 0x1_0000 + frame[6] * 0x100 + frame[7]
                == fd_count % 0x1_0000_0000
            &&& forall|i: int| 0 <= i < body.len() ==> #[trigger] frame[8 + i] == body[i]
            &&& frame.skip(8) == body
        }),
{
    let frame = frame_bytes(body, fd_count);
    let length = low_word(body.len() as int);
    let count = low_word(fd_count);
    lemma_be_bytes(length);
    lemma_be_bytes(count);
    assert(forall|i: int| 0 <= i < 4 ==> #[trigger] frame[i] == be_bytes(length)[i]);
    assert(frame[4] == be_bytes(count)[0]);
    assert(frame[5] == be_bytes(count)[1]);
    assert(frame[6] == be_bytes(count)[2]);
    assert(frame[7] == be_bytes(count)[3]);
    assert(frame.skip(8) =~= body);
}

/// Law: the length that a header announces is the big-endian value of its first four bytes, and
/// the number of descriptors that of the next four. It is accepted if and only if the first is
/// at most sixteen times two to the twentieth and the second at most two hundred and fifty-three;
/// the length is looked at first, and the error gives the number that is too large.
pub proof fn lemma_header_on_the_wire(data: Seq<u8>)
    requires
        data.len() >= 8,
    ensures
        ({
            let length = data[0] * 0x100_0000 + data[1] * 0x1_0000 + data[2] * 0x100 + data[3];
            let count = data[4] * 0x100_0000 + data[5] * 0x1_0000 + data[6] * 0x100 + data[7];
            &&& announced_length(data) == length
            &&& announced_fds(data) == count
            &&& is_acceptable(data) <==> length <= 0x100_0000 && count <= 253
            &&& length > 0x100_0000 ==> refusal(data) == (TransportError::FrameTooLarge {
                length: length as usize,
            })
            &&& length <= 0x100_0000 && count > 253 ==> refusal(data) == (
            TransportError::TooManyFdsAnnounced { count: count as usize })
        }),
{
}

} // verus!
