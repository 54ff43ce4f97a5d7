//! What holds of a frame on its way from one end of a connection to the other.

use vstd::prelude::*;

use crate::error::TransportError;
use crate::fd::{Slot, MAX_FDS_PER_MESSAGE};
use crate::fd_codec::{HEADER_SIZE, MAX_FRAME_SIZE};
use crate::fd_transport::{Chunk, SendAllModel};
use crate::unix_fd::{
    BodyModel, ReadInput, ReadModel, ReadOutcome, WriteAction, WriteEvent, WriteModel,
};

verus! {

broadcast use vstd::seq_lib::group_seq_properties;

/// The state and the last action of a reading end that has been given one chunk after the
/// other.
pub open spec fn read_all<F>(state: ReadModel<F>, chunks: Seq<Chunk<F>>) -> (
    ReadModel<F>,
    ReadOutcome<F>,
)
    decreases chunks.len(),
{
    if chunks.len() == 0 {
        state.resume()
    } else if chunks.len() == 1 {
        state.receive(chunks[0])
    } else {
        read_all(state.receive(chunks[0]).0, chunks.drop_first())
    }
}

/// Whether a reading end asks for more after each of these chunks but the last, and is never
/// given more than it has asked for.
pub open spec fn read_in_turn<F>(state: ReadModel<F>, chunks: Seq<Chunk<F>>) -> bool
    decreases chunks.len(),
{
    chunks.len() > 0 ==> {
        &&& state.accepts(ReadInput::Received(chunks[0]))
        &&& chunks.len() > 1 ==> {
            &&& state.receive(chunks[0]).1 is Recv
            &&& read_in_turn(state.receive(chunks[0]).0, chunks.drop_first())
        }
    }
}

/// The same for a reader of one frame.
pub open spec fn receive_all<F>(frame: Option<BodyModel<F>>, chunks: Seq<Chunk<F>>) -> (
    Option<BodyModel<F>>,
    ReadOutcome<F>,
)
    recommends
        chunks.len() > 0,
    decreases chunks.len(),
{
    if chunks.len() <= 1 {
        crate::unix_fd::receiver_step(frame, chunks[0])
    } else {
        receive_all(crate::unix_fd::receiver_step(frame, chunks[0]).0, chunks.drop_first())
    }
}

/// Whether no chunk is empty.
pub open spec fn none_empty<F>(chunks: Seq<Chunk<F>>) -> bool {
    forall|i: int| 0 <= i < chunks.len() ==> (#[trigger] chunks[i]).data.len() > 0
}

/// Without its first chunk, a sequence of which none is empty still has none.
proof fn lemma_none_empty_rest<F>(chunks: Seq<Chunk<F>>)
    requires
        chunks.len() > 0,
        none_empty(chunks),
    ensures
        chunks[0].data.len() > 0,
        none_empty(chunks.drop_first()),
{
    let rest = chunks.drop_first();
    assert forall|i: int| 0 <= i < rest.len() implies (#[trigger] rest[i]).data.len() > 0 by {
        assert(chunks[i + 1].data.len() > 0);
    }
    assert(chunks[0].data.len() > 0);
}

/// Chunks of which none is empty have at least as many bytes as there are chunks.
proof fn lemma_data_at_least<F>(chunks: Seq<Chunk<F>>)
    requires
        none_empty(chunks),
    ensures
        crate::fd_transport::all_data(chunks).len() >= chunks.len(),
    decreases chunks.len(),
{
    if chunks.len() > 0 {
        lemma_none_empty_rest(chunks);
        lemma_data_at_least(chunks.drop_first());
    }
}

/// Law: once its header has been read, a frame is delivered when its last bytes arrive,
/// whatever the pieces in which they come.
pub proof fn lemma_body_delivered<F>(body: BodyModel<F>, chunks: Seq<Chunk<F>>)
    requires
        body.within_limits(),
        none_empty(chunks),
        body.bytes.len() + crate::fd_transport::all_data(chunks).len() == body.frame_length,
        body.fds.len() + crate::fd_transport::all_fds(chunks).len() >= body.fd_count,
    ensures
        read_in_turn(ReadModel::Body(body), chunks),
        read_all(ReadModel::Body(body), chunks) == (
            ReadModel::<F>::Idle,
            ReadOutcome::Deliver {
                body: body.bytes + crate::fd_transport::all_data(chunks),
                fds: (body.fds + crate::fd_transport::all_fds(chunks)).take(body.fd_count),
            },
        ),
    decreases chunks.len(),
{
    let data = crate::fd_transport::all_data(chunks);
    let fds = crate::fd_transport::all_fds(chunks);
    if chunks.len() == 0 {
        assert(body.bytes + data =~= body.bytes);
        assert(body.fds + fds =~= body.fds);
    } else {
        let rest = chunks.drop_first();
        lemma_none_empty_rest(chunks);
        lemma_data_at_least(rest);
        let more = body.extended(chunks[0]);
        assert(more.bytes + crate::fd_transport::all_data(rest) =~= body.bytes + data);
        assert(more.fds + crate::fd_transport::all_fds(rest) =~= body.fds + fds);
        lemma_body_delivered(more, rest);
        if chunks.len() == 1 {
            assert(more.bytes =~= body.bytes + data);
            assert(more.fds =~= body.fds + fds);
        }
    }
}

/// Law: what is read is what was written. Whatever the pieces in which the bytes of a frame
/// arrive, if the descriptors come along in order, the reading end delivers the message and its
/// descriptors with the last piece, and is then ready for the next frame.
pub proof fn lemma_reads_what_was_written<F>(
    body: Seq<u8>,
    fds: Seq<F>,
    chunks: Seq<Chunk<F>>,
)
    requires
        body.len() <= MAX_FRAME_SIZE,
        fds.len() <= MAX_FDS_PER_MESSAGE,
        chunks.len() > 0,
        none_empty(chunks),
        crate::fd_transport::all_data(chunks) == crate::fd_codec::frame_bytes(
            body,
            fds.len() as int,
        ),
        crate::fd_transport::all_fds(chunks) == fds,
    ensures
        read_in_turn(ReadModel::<F>::Idle.resume().0, chunks),
        read_all(ReadModel::<F>::Idle.resume().0, chunks) == (
            ReadModel::<F>::Idle,
            ReadOutcome::Deliver { body, fds },
        ),
{
    lemma_header_gathered(Seq::empty(), Seq::empty(), body, fds, chunks);
    assert(Seq::<u8>::empty() + crate::fd_transport::all_data(chunks)
        =~= crate::fd_transport::all_data(chunks));
    assert(Seq::<F>::empty() + crate::fd_transport::all_fds(chunks)
        =~= crate::fd_transport::all_fds(chunks));
}

/// From a part of its header on, a frame is read to its end.
proof fn lemma_header_gathered<F>(
    bytes: Seq<u8>,
    early: Seq<F>,
    body: Seq<u8>,
    fds: Seq<F>,
    chunks: Seq<Chunk<F>>,
)
    requires
        body.len() <= MAX_FRAME_SIZE,
        fds.len() <= MAX_FDS_PER_MESSAGE,
        bytes.len() < HEADER_SIZE,
        none_empty(chunks),
        bytes + crate::fd_transport::all_data(chunks) == crate::fd_codec::frame_bytes(
            body,
            fds.len() as int,
        ),
        early + crate::fd_transport::all_fds(chunks) == fds,
    ensures
        chunks.len() > 0,
        read_in_turn(ReadModel::Header { bytes, fds: early }, chunks),
        read_all(ReadModel::Header { bytes, fds: early }, chunks) == (
            ReadModel::<F>::Idle,
            ReadOutcome::Deliver { body, fds },
        ),
    decreases chunks.len(),
{
    crate::fd_codec::lemma_frame_announces(body, fds.len() as int);
    let state = ReadModel::Header { bytes, fds: early };
    assert(chunks.len() > 0);
    let rest = chunks.drop_first();
    lemma_none_empty_rest(chunks);
    lemma_data_at_least(rest);
    let all = bytes + chunks[0].data;
    let got = early + chunks[0].fds;
    assert(all + crate::fd_transport::all_data(rest) =~= bytes + crate::fd_transport::all_data(
        chunks,
    ));
    assert(got + crate::fd_transport::all_fds(rest) =~= early + crate::fd_transport::all_fds(
        chunks,
    ));
    if all.len() < HEADER_SIZE {
        lemma_header_gathered(all, got, body, fds, rest);
        assert(state.receive(chunks[0]) == (
            ReadModel::Header { bytes: all, fds: got },
            ReadOutcome::<F>::Recv { limit: HEADER_SIZE - all.len() },
        ));
    } else {
        lemma_header_opens(body, fds.len() as int, all, crate::fd_transport::all_data(rest));
        let begun = BodyModel::begun(all, got);
        lemma_body_delivered(begun, rest);
        assert((begun.fds + crate::fd_transport::all_fds(rest)).take(begun.fd_count) =~= fds);
        if chunks.len() == 1 {
            assert(rest =~= Seq::<Chunk<F>>::empty());
        } else {
            assert(state.receive(chunks[0]) == (
                ReadModel::Body(begun),
                ReadOutcome::<F>::Recv { limit: begun.missing() },
            ));
        }
    }
}

/// The first bytes of a frame, if they hold the header, open the frame.
proof fn lemma_header_opens(body: Seq<u8>, fd_count: int, first: Seq<u8>, rest: Seq<u8>)
    requires
        body.len() <= MAX_FRAME_SIZE,
        0 <= fd_count <= MAX_FDS_PER_MESSAGE,
        first.len() >= HEADER_SIZE,
        first + rest == crate::fd_codec::frame_bytes(body, fd_count),
    ensures
        crate::fd_codec::is_acceptable(first),
        crate::fd_codec::announced_length(first) == body.len(),
        crate::fd_codec::announced_fds(first) == fd_count,
        first.skip(HEADER_SIZE as int) + rest == body,
{
    let frame = crate::fd_codec::frame_bytes(body, fd_count);
    crate::fd_codec::lemma_frame_accepted(body, fd_count);
    crate::fd_codec::lemma_frame_announces(body, fd_count);
    assert(forall|i: int| 0 <= i < HEADER_SIZE ==> first[i] == frame[i]);
    assert(first.skip(HEADER_SIZE as int) + rest =~= frame.skip(HEADER_SIZE as int));
}

/// Law: after the header, the reader of one frame and the reading end of a connection do the
/// same.
pub proof fn lemma_readers_agree_on_body<F>(body: BodyModel<F>, chunks: Seq<Chunk<F>>)
    requires
        chunks.len() > 0,
        read_in_turn(ReadModel::Body(body), chunks),
    ensures
        ReadModel::of_frame(receive_all(Some(body), chunks)) == read_all(
            ReadModel::Body(body),
            chunks,
        ),
    decreases chunks.len(),
{
    if chunks.len() > 1 {
        let next = body.receive(chunks[0]).0;
        assert(next is Some);
        lemma_readers_agree_on_body(next.unwrap(), chunks.drop_first());
    }
}

/// Law: the reader of one frame and the reading end of a connection do the same, unless the
/// first piece is shorter than a header.
pub proof fn lemma_readers_agree<F>(chunks: Seq<Chunk<F>>)
    requires
        chunks.len() > 0,
        chunks[0].data.len() == 0 || chunks[0].data.len() >= HEADER_SIZE,
        read_in_turn(ReadModel::<F>::Idle.resume().0, chunks),
    ensures
        ReadModel::of_frame(receive_all(None, chunks)) == read_all(
            ReadModel::<F>::Idle.resume().0,
            chunks,
        ),
{
    assert(Seq::<u8>::empty() + chunks[0].data =~= chunks[0].data);
    assert(Seq::<F>::empty() + chunks[0].fds =~= chunks[0].fds);
    if chunks.len() > 1 {
        let next = crate::unix_fd::receiver_step(None, chunks[0]).0;
        assert(next is Some);
        lemma_readers_agree_on_body(next.unwrap(), chunks.drop_first());
    }
}

/// Law: the reader of one frame, too, reads what was written, if the header comes in one piece.
pub proof fn lemma_receives_what_was_written<F>(
    body: Seq<u8>,
    fds: Seq<F>,
    chunks: Seq<Chunk<F>>,
)
    requires
        body.len() <= MAX_FRAME_SIZE,
        fds.len() <= MAX_FDS_PER_MESSAGE,
        chunks.len() > 0,
        chunks[0].data.len() >= HEADER_SIZE,
        none_empty(chunks),
        crate::fd_transport::all_data(chunks) == crate::fd_codec::frame_bytes(
            body,
            fds.len() as int,
        ),
        crate::fd_transport::all_fds(chunks) == fds,
    ensures
        receive_all(None, chunks) == (
            None::<BodyModel<F>>,
            ReadOutcome::Deliver { body, fds },
        ),
{
    lemma_reads_what_was_written(body, fds, chunks);
    lemma_readers_agree(chunks);
}

/// Law: a report without news changes nothing: a reading end that waits goes on to wait for the
/// same, and so does a writing end.
pub proof fn lemma_waiting_changes_nothing<F>(reader: ReadModel<F>, writer: WriteModel<F>)
    ensures
        reader.resume().1 is Recv ==> reader.resume().0.step(ReadInput::Resume)
            == reader.resume(),
        writer.resume().0.step(WriteEvent::Resume) == writer.resume(),
{
}

/// Law: a reading end that delivers a message, reports an error or the end of the stream is
/// ready for a new frame. The exception is a failure to wait for a header, which leaves all as
/// it was.
pub proof fn lemma_ready_after_report<F>(state: ReadModel<F>, input: ReadInput<F>)
    requires
        state.accepts(input),
        !(state.step(input).1 is Recv),
        !(input is ReadyFailed && state is Header),
    ensures
        state.step(input).0 is Idle,
{
}

/// Whether the frame that is being read, if any, is within the limits; a header that is being
/// read is not yet complete.
pub open spec fn read_within_limits<F>(state: ReadModel<F>) -> bool {
    match state {
        ReadModel::Idle => true,
        ReadModel::Header { bytes, .. } => bytes.len() < HEADER_SIZE,
        ReadModel::Body(body) => body.within_limits(),
    }
}

/// Law: whatever arrives, the limits are kept: no frame beyond them is begun, none is
/// delivered, and no more bytes are asked for than belong to the header or the frame.
pub proof fn lemma_limits_kept<F>(state: ReadModel<F>, input: ReadInput<F>)
    requires
        read_within_limits(state),
        state.accepts(input),
    ensures
        read_within_limits(state.step(input).0),
        state.step(input).1 matches ReadOutcome::Deliver { body, fds } ==> body.len()
            <= MAX_FRAME_SIZE && fds.len() <= MAX_FDS_PER_MESSAGE,
        state.step(input).1 matches ReadOutcome::Recv { limit } ==> 0 <= limit <= (
        if state.step(input).0 is Header {
            HEADER_SIZE
        } else {
            MAX_FRAME_SIZE
        }),
{
}

/// Law: a frame whose body is longer than the limit is answered with an error that gives its
/// length, and one that is not but announces too many descriptors with an error that gives
/// their number, as soon as the last piece of its header is there. The reading end is then ready
/// for a new frame. The reader of one frame gives the same answer to a header in one piece.
pub proof fn lemma_oversized_refused<F>(
    body: Seq<u8>,
    fd_count: int,
    bytes: Seq<u8>,
    fds: Seq<F>,
    last: Chunk<F>,
)
    requires
        body.len() <= u32::MAX,
        0 <= fd_count <= u32::MAX,
        body.len() > MAX_FRAME_SIZE || fd_count > MAX_FDS_PER_MESSAGE,
        bytes.len() < HEADER_SIZE,
        bytes + last.data == crate::fd_codec::frame_bytes(body, fd_count).take(
            HEADER_SIZE as int,
        ),
    ensures
        (ReadModel::Header { bytes, fds }).receive(last) == (
            ReadModel::<F>::Idle,
            ReadOutcome::<F>::Fail(oversized(body.len() as int, fd_count)),
        ),
        bytes.len() == 0 ==> crate::unix_fd::receiver_step(None, last) == (
            None::<BodyModel<F>>,
            ReadOutcome::<F>::Fail(oversized(body.len() as int, fd_count)),
        ),
{
    let frame = crate::fd_codec::frame_bytes(body, fd_count);
    let header = bytes + last.data;
    crate::fd_codec::lemma_frame_accepted(body, fd_count);
    crate::fd_codec::lemma_frame_announces(body, fd_count);
    assert(forall|i: int| 0 <= i < HEADER_SIZE ==> header[i] == frame[i]);
    if bytes.len() == 0 {
        assert(last.data =~= header);
    }
}

/// The error for a frame that exceeds the limits.
pub open spec fn oversized(length: int, fd_count: int) -> TransportError {
    if length > MAX_FRAME_SIZE {
        TransportError::FrameTooLarge { length: length as usize }
    } else {
        TransportError::TooManyFdsAnnounced { count: fd_count as usize }
    }
}

/// Law: a stream that ends before the header of a frame is complete is no error; one that ends
/// behind the header and inside the frame is.
pub proof fn lemma_end_of_stream<F>(state: ReadModel<F>, fds: Seq<F>)
    requires
        !(state is Idle),
    ensures
        state.receive(Chunk { data: Seq::empty(), fds }) == (
            ReadModel::<F>::Idle,
            (if state is Header {
                ReadOutcome::<F>::End
            } else {
                ReadOutcome::Fail(TransportError::UnexpectedEof)
            }),
        ),
{
}

/// The state and the last action of a writing end whose send calls have taken so many bytes
/// each. A send call is made only where the last action has asked for it.
pub open spec fn write_all<F>(state: WriteModel<F>, counts: Seq<int>) -> (
    WriteModel<F>,
    WriteAction,
)
    decreases counts.len(),
{
    if counts.len() == 0 || !(state.resume().1 is Send) {
        state.resume()
    } else {
        let next = state.step(WriteEvent::Sent(counts[0] as usize));
        if next.1 is Send {
            write_all(next.0, counts.drop_first())
        } else {
            next
        }
    }
}

/// What the socket is given by send calls that take so many bytes each. A send call is made only
/// where the last action has asked for it.
pub open spec fn written<F>(state: WriteModel<F>, counts: Seq<int>) -> Seq<Chunk<F>>
    decreases counts.len(),
{
    if counts.len() == 0 || !(state.resume().1 is Send) {
        Seq::empty()
    } else {
        let next = state.step(WriteEvent::Sent(counts[0] as usize));
        seq![Chunk { data: state.rest().take(counts[0]), fds: state.fds() }] + (if next.1 is Send {
            written(next.0, counts.drop_first())
        } else {
            Seq::empty()
        })
    }
}

/// Law: however many bytes each send call takes, the socket is given every byte that was
/// pending, in order and once, and the descriptors once, with the first of them. Then the
/// writing end is ready for a new message.
pub proof fn lemma_writes_all<F>(rest: Seq<u8>, fds: Seq<F>, counts: Seq<int>)
    requires
        rest.len() <= usize::MAX,
        forall|i: int| 0 <= i < counts.len() ==> #[trigger] counts[i] > 0,
        crate::fd_transport::total(counts) == rest.len(),
    ensures
        ({
            let state = WriteModel::Sending { rest, fds };
            let chunks = written(state, counts);
            &&& write_all(state, counts) == (WriteModel::<F>::Idle, WriteAction::Done)
            &&& chunks.len() == counts.len()
            &&& crate::fd_transport::all_data(chunks) == rest
            &&& none_empty(chunks)
            &&& forall|i: int|
                0 <= i < chunks.len() ==> (#[trigger] chunks[i]).fds == (if i == 0 {
                    fds
                } else {
                    Seq::empty()
                })
            &&& rest.len() > 0 ==> crate::fd_transport::all_fds(chunks) == fds
        }),
    decreases counts.len(),
{
    let state = WriteModel::Sending { rest, fds };
    let chunks = written(state, counts);
    if counts.len() == 0 {
        assert(crate::fd_transport::all_data(chunks) =~= rest);
    } else {
        let others = counts.drop_first();
        let n = counts[0];
        assert(n > 0);
        assert forall|i: int| 0 <= i < others.len() implies #[trigger] others[i] > 0 by {
            assert(counts[i + 1] > 0);
        }
        crate::fd_transport::lemma_total_not_negative(others);
        assert(n <= rest.len());
        let after = rest.skip(n);
        let next = state.step(WriteEvent::Sent(n as usize)).0;
        if others.len() == 0 {
            assert(after.len() == 0);
            assert(next is Idle);
            assert(written(next, others) =~= Seq::<Chunk<F>>::empty());
            assert(write_all(next, others) == next.resume());
            assert(chunks.drop_first() =~= Seq::<Chunk<F>>::empty());
            assert(rest.take(n) =~= rest);
            reveal_with_fuel(crate::fd_transport::all_data, 2);
            reveal_with_fuel(crate::fd_transport::all_fds, 2);
            assert(crate::fd_transport::all_data(chunks) =~= rest);
            assert(crate::fd_transport::all_fds(chunks) =~= fds);
        } else {
            lemma_writes_all(after, Seq::<F>::empty(), others);
            assert(next == WriteModel::Sending { rest: after, fds: Seq::<F>::empty() });
            let tail = written(next, others);
            assert(chunks.drop_first() =~= tail);
            assert(rest.take(n) + after =~= rest);
            assert forall|i: int| 1 <= i < chunks.len() implies (#[trigger] chunks[i]).fds
                == Seq::<F>::empty() && chunks[i].data.len() > 0 by {
                assert(chunks[i] == tail[i - 1]);
            }
            assert(crate::fd_transport::all_fds(chunks) =~= fds);
        }
    }
}

/// Law: a send that is carried through in one go gives the socket the same as the writing end
/// of a connection does, call by call.
pub proof fn lemma_writers_agree<F>(
    progress: SendAllModel,
    data: Seq<u8>,
    fds: Seq<F>,
    counts: Seq<int>,
)
    requires
        progress.len == data.len() <= usize::MAX,
        progress.pos <= progress.len,
        forall|i: int| 0 <= i < counts.len() ==> #[trigger] counts[i] > 0,
        crate::fd_transport::total(counts) == progress.len - progress.pos,
    ensures
        progress.transmitted(data, fds, counts) == written(
            WriteModel::Sending {
                rest: data.skip(progress.pos as int),
                fds: if progress.fds_sent {
                    Seq::empty()
                } else {
                    fds
                },
            },
            counts,
        ),
    decreases counts.len(),
{
    if counts.len() > 0 {
        let others = counts.drop_first();
        let n = counts[0];
        assert(n > 0);
        assert forall|i: int| 0 <= i < others.len() implies #[trigger] others[i] > 0 by {
            assert(counts[i + 1] > 0);
        }
        crate::fd_transport::lemma_total_not_negative(others);
        let rest = data.skip(progress.pos as int);
        let state = WriteModel::Sending {
            rest,
            fds: if progress.fds_sent {
                Seq::empty()
            } else {
                fds
            },
        };
        let after = progress.decided().advanced(n);
        lemma_writers_agree(after, data, fds, others);
        assert(data.subrange(progress.pos as int, progress.pos + n) =~= rest.take(n));
        assert(rest.skip(n) =~= data.skip(after.pos as int));
        let next = state.step(WriteEvent::Sent(n as usize)).0;
        if others.len() == 0 {
            assert(after.transmitted(data, fds, others) =~= written(next, others));
        }
    }
}

/// Law: a message arrives as it was sent, if it stays within the limits.
///
/// The frame is sent in any number of calls and read in any number of pieces; only the reader of
/// one frame wants its header in one. The stream keeps bytes and descriptors in order. Then the
/// serialized message arrives unchanged, and each descriptor, injected, comes to the place that
/// it was extracted from.
pub proof fn lemma_message_arrives<F>(
    slots: Seq<Slot<F>>,
    encoded: Seq<u8>,
    counts: Seq<int>,
    chunks: Seq<Chunk<F>>,
)
    requires
        crate::fd::held(slots).len() <= MAX_FDS_PER_MESSAGE,
        encoded.len() <= MAX_FRAME_SIZE,
        forall|i: int| 0 <= i < counts.len() ==> #[trigger] counts[i] > 0,
        crate::fd_transport::total(counts) == HEADER_SIZE + encoded.len(),
        ({
            let sent = written(
                WriteModel::Sending {
                    rest: crate::fd_codec::frame_bytes(
                        encoded,
                        crate::fd::held(slots).len() as int,
                    ),
                    fds: crate::fd::held(slots),
                },
                counts,
            );
            &&& crate::fd_transport::all_data(chunks) == crate::fd_transport::all_data(sent)
            &&& crate::fd_transport::all_fds(chunks) == crate::fd_transport::all_fds(sent)
        }),
        chunks.len() > 0,
        none_empty(chunks),
    ensures
        read_all(ReadModel::<F>::Idle.resume().0, chunks) == (
            ReadModel::<F>::Idle,
            ReadOutcome::Deliver { body: encoded, fds: crate::fd::held(slots) },
        ),
        chunks[0].data.len() >= HEADER_SIZE ==> receive_all(None, chunks) == (
            None::<BodyModel<F>>,
            ReadOutcome::Deliver { body: encoded, fds: crate::fd::held(slots) },
        ),
        crate::fd::injected(
            crate::fd::numbered(slots, 0),
            crate::fd::supplied(crate::fd::held(slots)),
        ) == Seq::new(slots.len(), |k: int|
            Slot { fd: slots[k].fd, index: crate::fd::numbered(slots, 0)[k].index }),
{
    let fds = crate::fd::held(slots);
    crate::fd_codec::lemma_frame_announces(encoded, fds.len() as int);
    lemma_writes_all(crate::fd_codec::frame_bytes(encoded, fds.len() as int), fds, counts);
    lemma_reads_what_was_written(encoded, fds, chunks);
    if chunks[0].data.len() >= HEADER_SIZE {
        lemma_receives_what_was_written(encoded, fds, chunks);
    }
    crate::fd::lemma_inject_restores_extracted(slots);
}

} // verus!
