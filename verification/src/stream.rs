//! What a reader makes of a whole stream, however it is cut into reads.
//!
//! A stream is a sequence of bytes, and a descriptor travels with one of them. It may hold any
//! number of frames, break off inside one, or hold no frame at all. [`outcomes`] says what it
//! amounts to, frame by frame. The laws say that a reader reports just that, whatever the sizes
//! of its reads and however often it has to wait between them.

use vstd::prelude::*;

use crate::delivery::read_within_limits;
use crate::error::TransportError;
use crate::fd::{Slot, MAX_FDS_PER_MESSAGE};
use crate::fd_codec::{HEADER_SIZE, MAX_FRAME_SIZE};
use crate::fd_transport::{Chunk, SendAllModel};
use crate::unix_fd::{BodyModel, ReadInput, ReadModel, ReadOutcome, WriteModel};

verus! {

broadcast use vstd::seq_lib::group_seq_properties;

/// A byte on a stream, and the descriptors that travel with it.
#[verifier::ext_equal]
pub struct Unit<F> {
    pub byte: u8,
    pub fds: Seq<F>,
}

/// The bytes of a stretch of a stream.
pub open spec fn bytes_of<F>(units: Seq<Unit<F>>) -> Seq<u8> {
    units.map_values(|unit: Unit<F>| unit.byte)
}

/// The descriptors of a stretch of a stream, in order.
pub open spec fn fds_of<F>(units: Seq<Unit<F>>) -> Seq<F>
    decreases units.len(),
{
    if units.len() == 0 {
        Seq::empty()
    } else {
        units[0].fds + fds_of(units.drop_first())
    }
}

/// What a receive call gives that reads a stretch of a stream.
pub open spec fn read_of<F>(units: Seq<Unit<F>>) -> Chunk<F> {
    Chunk { data: bytes_of(units), fds: fds_of(units) }
}

/// What a chunk puts on a stream: its descriptors travel with its first byte.
pub open spec fn units_of<F>(chunk: Chunk<F>) -> Seq<Unit<F>> {
    Seq::new(
        chunk.data.len(),
        |i: int|
            Unit {
                byte: chunk.data[i],
                fds: if i == 0 {
                    chunk.fds
                } else {
                    Seq::empty()
                },
            },
    )
}

/// What chunks put on a stream, one after the other.
pub open spec fn stream_of<F>(chunks: Seq<Chunk<F>>) -> Seq<Unit<F>>
    decreases chunks.len(),
{
    if chunks.len() == 0 {
        Seq::empty()
    } else {
        units_of(chunks[0]) + stream_of(chunks.drop_first())
    }
}

/// What has come of a header, if one is being read.
pub open spec fn header_of<F>(state: ReadModel<F>) -> Chunk<F> {
    match state {
        ReadModel::Header { bytes, fds } => Chunk { data: bytes, fds },
        _ => Chunk { data: Seq::empty(), fds: Seq::empty() },
    }
}

/// What is to be reported of a stream, to its end, from the state that a reading end is in.
///
/// A frame whose bytes are all there is delivered, unless descriptors are missing, which is an
/// error. A header beyond the limits is an error, and the next header is looked for behind it. A
/// stream that ends inside the body of a frame is an error; one that ends before a header is
/// complete has just ended.
pub open spec fn outcomes<F>(state: ReadModel<F>, stream: Seq<Unit<F>>) -> Seq<ReadOutcome<F>>
    decreases
            stream.len(),
            (if state is Body {
                1int
            } else {
                0int
            }),
{
    let broken = ReadOutcome::<F>::Fail(TransportError::UnexpectedEof);
    match state {
        ReadModel::Body(body) => {
            let n = body.missing();
            if 0 <= n <= stream.len() {
                let full = body.extended(read_of(stream.take(n)));
                seq![
                    if full.is_complete() {
                        full.next().1
                    } else {
                        broken
                    },
                ] + outcomes(ReadModel::Idle, stream.skip(n))
            } else {
                seq![broken, ReadOutcome::End]
            }
        },
        _ => {
            let n = HEADER_SIZE - header_of(state).data.len();
            if 0 < n <= stream.len() {
                let all = header_of(state).data + bytes_of(stream.take(n));
                let fds = header_of(state).fds + fds_of(stream.take(n));
                if crate::fd_codec::is_acceptable(all) {
                    outcomes(ReadModel::Body(BodyModel::begun(all, fds)), stream.skip(n))
                } else {
                    seq![ReadOutcome::Fail(crate::fd_codec::refusal(all))] + outcomes(
                        ReadModel::Idle,
                        stream.skip(n),
                    )
                }
            } else {
                seq![ReadOutcome::End]
            }
        },
    }
}

/// A reader after one turn, what is left of the stream, and what the reader has reported.
pub struct Turn<S, F> {
    pub state: S,
    pub rest: Seq<Unit<F>>,
    pub report: Option<ReadOutcome<F>>,
}

/// How many bytes a receive call of so many bytes gives, if `limit` bytes are asked for.
pub open spec fn read_size(size: nat, limit: int, left: nat) -> int {
    if size <= limit && size <= left {
        size as int
    } else if limit <= left {
        limit
    } else {
        left as int
    }
}

/// What a reader reports after a step: nothing if it asks for more.
pub open spec fn report_of<F>(outcome: ReadOutcome<F>) -> Option<ReadOutcome<F>> {
    if outcome is Recv {
        None
    } else {
        Some(outcome)
    }
}

/// One turn of a reading end: it is polled, and a receive call gives at most `size` bytes. If
/// `size` is zero, it has to wait. A call that gives no bytes has found the end of the stream, or
/// was not asked for any.
pub open spec fn turn<F>(state: ReadModel<F>, stream: Seq<Unit<F>>, size: nat) -> Turn<
    ReadModel<F>,
    F,
> {
    let (waiting, wanted) = state.resume();
    match wanted {
        ReadOutcome::Recv { limit } => if size == 0 {
            Turn { state: waiting, rest: stream, report: None }
        } else {
            let n = read_size(size, limit, stream.len());
            let (next, outcome) = waiting.receive(read_of(stream.take(n)));
            Turn { state: next, rest: stream.skip(n), report: report_of(outcome) }
        },
        _ => Turn { state: waiting, rest: stream, report: Some(wanted) },
    }
}

/// One turn of a reader of one frame, which then begins with the next.
pub open spec fn receiver_turn<F>(
    frame: Option<BodyModel<F>>,
    stream: Seq<Unit<F>>,
    size: nat,
) -> Turn<Option<BodyModel<F>>, F> {
    if size == 0 {
        Turn { state: frame, rest: stream, report: None }
    } else {
        let n = read_size(size, crate::unix_fd::receiver_limit(frame), stream.len());
        let (next, outcome) = crate::unix_fd::receiver_step(frame, read_of(stream.take(n)));
        Turn { state: next, rest: stream.skip(n), report: report_of(outcome) }
    }
}

/// A reader after any number of turns, what is left of the stream, what the reader has reported,
/// and whether that was the end of the stream.
pub struct Run<S, F> {
    pub state: S,
    pub rest: Seq<Unit<F>>,
    pub reports: Seq<ReadOutcome<F>>,
    pub ended: bool,
}

/// The turns of a reading end until the end of the stream is reported, or the sizes run out.
pub open spec fn run<F>(state: ReadModel<F>, stream: Seq<Unit<F>>, sizes: Seq<nat>) -> Run<
    ReadModel<F>,
    F,
>
    decreases sizes.len(),
{
    if sizes.len() == 0 {
        Run { state, rest: stream, reports: Seq::empty(), ended: false }
    } else {
        let first = turn(state, stream, sizes[0]);
        let others = run(first.state, first.rest, sizes.drop_first());
        match first.report {
            Some(ReadOutcome::End) => Run {
                state: first.state,
                rest: first.rest,
                reports: seq![ReadOutcome::End],
                ended: true,
            },
            Some(report) => Run { reports: seq![report] + others.reports, ..others },
            None => others,
        }
    }
}

/// The turns of a reader of one frame after the other, in the same way.
pub open spec fn receiver_run<F>(
    frame: Option<BodyModel<F>>,
    stream: Seq<Unit<F>>,
    sizes: Seq<nat>,
) -> Run<Option<BodyModel<F>>, F>
    decreases sizes.len(),
{
    if sizes.len() == 0 {
        Run { state: frame, rest: stream, reports: Seq::empty(), ended: false }
    } else {
        let first = receiver_turn(frame, stream, sizes[0]);
        let others = receiver_run(first.state, first.rest, sizes.drop_first());
        match first.report {
            Some(ReadOutcome::End) => Run {
                state: first.state,
                rest: first.rest,
                reports: seq![ReadOutcome::End],
                ended: true,
            },
            Some(report) => Run { reports: seq![report] + others.reports, ..others },
            None => others,
        }
    }
}

/// Whether each header comes to a reader of one frame in one piece.
pub open spec fn headers_whole<F>(
    frame: Option<BodyModel<F>>,
    stream: Seq<Unit<F>>,
    sizes: Seq<nat>,
) -> bool
    decreases sizes.len(),
{
    sizes.len() > 0 ==> {
        let first = receiver_turn(frame, stream, sizes[0]);
        &&& frame is None && sizes[0] > 0 ==> {
            &&& sizes[0] >= HEADER_SIZE
            &&& stream.len() == 0 || stream.len() >= HEADER_SIZE
        }
        &&& headers_whole(first.state, first.rest, sizes.drop_first())
    }
}

/// How many of the turns are reads and not waits.
pub open spec fn reads(sizes: Seq<nat>) -> nat
    decreases sizes.len(),
{
    if sizes.len() == 0 {
        0
    } else {
        (if sizes[0] > 0 {
            1nat
        } else {
            0nat
        }) + reads(sizes.drop_first())
    }
}

/// The descriptors of two stretches are those of the first and then those of the second.
proof fn lemma_fds_add<F>(a: Seq<Unit<F>>, b: Seq<Unit<F>>)
    ensures
        fds_of(a + b) == fds_of(a) + fds_of(b),
    decreases a.len(),
{
    if a.len() == 0 {
        assert(a + b =~= b);
    } else {
        lemma_fds_add(a.drop_first(), b);
        assert((a + b).drop_first() =~= a.drop_first() + b);
    }
    assert(fds_of(a + b) =~= fds_of(a) + fds_of(b));
}

/// A stretch is read in two parts as in one.
proof fn lemma_read_in_parts<F>(stream: Seq<Unit<F>>, n: int, m: int)
    requires
        0 <= n,
        0 <= m,
        n + m <= stream.len(),
    ensures
        bytes_of(stream.take(n)) + bytes_of(stream.skip(n).take(m)) == bytes_of(stream.take(n + m)),
        fds_of(stream.take(n)) + fds_of(stream.skip(n).take(m)) == fds_of(stream.take(n + m)),
        stream.skip(n).skip(m) == stream.skip(n + m),
{
    assert(stream.take(n) + stream.skip(n).take(m) =~= stream.take(n + m));
    lemma_fds_add(stream.take(n), stream.skip(n).take(m));
    assert(bytes_of(stream.take(n)) + bytes_of(stream.skip(n).take(m)) =~= bytes_of(
        stream.take(n + m),
    ));
    assert(stream.skip(n).skip(m) =~= stream.skip(n + m));
}

/// Whether a reading end can wait in this state: what it reads is within the limits, and not
/// complete.
pub open spec fn can_wait<F>(state: ReadModel<F>) -> bool {
    &&& read_within_limits(state)
    &&& state matches ReadModel::Body(body) ==> !body.is_complete()
}

/// How many reads a reading end takes at most to come to the end of a stream.
pub open spec fn reads_left<F>(state: ReadModel<F>, stream: Seq<Unit<F>>) -> nat {
    if state is Body || header_of(state).data.len() > 0 {
        2 * stream.len() + 2
    } else {
        2 * stream.len() + 1
    }
}

/// A turn takes nothing away from what is to be reported, and adds nothing to it.
proof fn lemma_turn<F>(state: ReadModel<F>, stream: Seq<Unit<F>>, size: nat)
    requires
        can_wait(state),
    ensures
        ({
            let after = turn(state, stream, size);
            &&& can_wait(after.state)
            &&& outcomes(state, stream) == (match after.report {
                Some(ReadOutcome::End) => seq![ReadOutcome::<F>::End],
                Some(report) => seq![report] + outcomes(after.state, after.rest),
                None => outcomes(after.state, after.rest),
            })
            &&& size > 0 && after.report != Some(ReadOutcome::<F>::End) ==> reads_left(
                after.state,
                after.rest,
            ) < reads_left(state, stream)
            &&& size == 0 ==> after.report is None && reads_left(after.state, after.rest)
                == reads_left(state, stream)
        }),
{
    match state {
        ReadModel::Body(body) => {
            if size > 0 {
                lemma_body_turn(body, stream, size);
            }
        },
        _ => {
            lemma_header_turn(state, stream, size);
        },
    }
}

/// A turn while a body is being read.
proof fn lemma_body_turn<F>(body: BodyModel<F>, stream: Seq<Unit<F>>, size: nat)
    requires
        can_wait(ReadModel::Body(body)),
        size > 0,
    ensures
        ({
            let state = ReadModel::Body(body);
            let after = turn(state, stream, size);
            &&& can_wait(after.state)
            &&& outcomes(state, stream) == (match after.report {
                Some(report) => seq![report] + outcomes(after.state, after.rest),
                None => outcomes(after.state, after.rest),
            })
            &&& after.report != Some(ReadOutcome::<F>::End)
            &&& reads_left(after.state, after.rest) < reads_left(state, stream)
        }),
{
    let state = ReadModel::Body(body);
    let missing = body.missing();
    let n = read_size(size, missing, stream.len());
    let chunk = read_of(stream.take(n));
    let rest = stream.skip(n);
    if n == 0 {
        assert(stream.take(0) =~= Seq::<Unit<F>>::empty());
        assert(chunk.data =~= Seq::<u8>::empty());
        assert(rest =~= stream);
        if missing == 0 {
            let full = body.extended(chunk);
            assert(full.fds =~= body.fds);
            assert(full.bytes =~= body.bytes);
        } else {
            assert(outcomes(ReadModel::<F>::Idle, stream) =~= seq![ReadOutcome::<F>::End]);
            assert(outcomes(state, stream) =~= seq![
                ReadOutcome::<F>::Fail(TransportError::UnexpectedEof),
            ] + outcomes(ReadModel::<F>::Idle, stream));
        }
    } else {
        assert(chunk.data.len() == n);
        let more = body.extended(chunk);
        if missing <= stream.len() {
            lemma_read_in_parts(stream, n, missing - n);
            let full = body.extended(read_of(stream.take(missing)));
            let again = more.extended(read_of(rest.take(missing - n)));
            assert(full.bytes =~= again.bytes);
            assert(full.fds =~= again.fds);
            if n == missing {
                assert(rest.take(0) =~= Seq::<Unit<F>>::empty());
                assert(read_of(rest.take(0)).data =~= Seq::<u8>::empty());
                assert(again.bytes =~= more.bytes);
                assert(again.fds =~= more.fds);
            }
        }
    }
}

/// A turn between two frames, or while a header is being read.
proof fn lemma_header_turn<F>(state: ReadModel<F>, stream: Seq<Unit<F>>, size: nat)
    requires
        can_wait(state),
        !(state is Body),
    ensures
        ({
            let after = turn(state, stream, size);
            &&& can_wait(after.state)
            &&& outcomes(state, stream) == (match after.report {
                Some(ReadOutcome::End) => seq![ReadOutcome::<F>::End],
                Some(report) => seq![report] + outcomes(after.state, after.rest),
                None => outcomes(after.state, after.rest),
            })
            &&& size > 0 && after.report != Some(ReadOutcome::<F>::End) ==> reads_left(
                after.state,
                after.rest,
            ) < reads_left(state, stream)
            &&& size == 0 ==> after.report is None && reads_left(after.state, after.rest)
                == reads_left(state, stream)
        }),
{
    let header = header_of(state);
    let waiting = state.resume().0;
    assert(waiting == ReadModel::Header { bytes: header.data, fds: header.fds });
    assert(outcomes(waiting, stream) == outcomes(state, stream));
    if size > 0 {
        let missing = HEADER_SIZE - header.data.len();
        let n = read_size(size, missing, stream.len());
        let chunk = read_of(stream.take(n));
        let rest = stream.skip(n);
        let after = turn(state, stream, size);
        if n == 0 {
            assert(stream.len() == 0);
            assert(stream.take(0) =~= Seq::<Unit<F>>::empty());
            assert(chunk.data =~= Seq::<u8>::empty());
            assert(rest =~= stream);
        } else {
            assert(chunk.data.len() == n);
            let all = header.data + chunk.data;
            let fds = header.fds + chunk.fds;
            if all.len() < HEADER_SIZE {
                assert(after.state == ReadModel::Header { bytes: all, fds });
                if missing <= stream.len() {
                    lemma_read_in_parts(stream, n, missing - n);
                    assert(header.data + bytes_of(stream.take(missing)) =~= all + bytes_of(
                        rest.take(missing - n),
                    ));
                    assert(header.fds + fds_of(stream.take(missing)) =~= fds + fds_of(
                        rest.take(missing - n),
                    ));
                }
                assert(outcomes(state, stream) =~= outcomes(after.state, after.rest));
            } else {
                assert(n == missing);
                if crate::fd_codec::is_acceptable(all) {
                    let body = BodyModel::begun(all, fds);
                    assert(body.bytes =~= Seq::<u8>::empty());
                    if body.is_complete() {
                        assert(rest.take(0) =~= Seq::<Unit<F>>::empty());
                        let full = body.extended(read_of(rest.take(0)));
                        assert(read_of(rest.take(0)).data =~= Seq::<u8>::empty());
                        assert(full.bytes =~= body.bytes);
                        assert(full.fds =~= body.fds);
                        assert(rest.skip(0) =~= rest);
                    }
                    assert(outcomes(state, stream) == outcomes(ReadModel::Body(body), rest));
                    assert(after.report is None ==> after.state == ReadModel::Body(body));
                    assert(can_wait(after.state));
                } else {
                    assert(after.state is Idle);
                    assert(outcomes(state, stream) =~= seq![after.report.unwrap()] + outcomes(
                        after.state,
                        after.rest,
                    ));
                }
            }
        }
    }
}

/// Law: a reading end that is given what it has asked for, and no more, can take it in.
pub proof fn lemma_turn_accepted<F>(state: ReadModel<F>, stream: Seq<Unit<F>>, size: nat)
    requires
        can_wait(state),
    ensures
        state.resume().1 is Recv,
        ({
            let n = read_size(size, state.resume().1->limit, stream.len());
            state.resume().0.accepts(ReadInput::Received(read_of(stream.take(n))))
        }),
{
    let n = read_size(size, state.resume().1->limit, stream.len());
    assert(read_of(stream.take(n)).data.len() == n);
}

/// Law: a reading end reports what the stream amounts to. What it has reported at any time is
/// followed by what is still to be reported, and once it has reported the end it has reported
/// all.
pub proof fn lemma_reports_outcomes<F>(
    state: ReadModel<F>,
    stream: Seq<Unit<F>>,
    sizes: Seq<nat>,
)
    requires
        can_wait(state),
    ensures
        can_wait(run(state, stream, sizes).state),
        outcomes(state, stream) == (if run(state, stream, sizes).ended {
            run(state, stream, sizes).reports
        } else {
            run(state, stream, sizes).reports + outcomes(
                run(state, stream, sizes).state,
                run(state, stream, sizes).rest,
            )
        }),
    decreases sizes.len(),
{
    let whole = run(state, stream, sizes);
    if sizes.len() == 0 {
        assert(whole.reports + outcomes(state, stream) =~= outcomes(state, stream));
    } else {
        let first = turn(state, stream, sizes[0]);
        lemma_turn(state, stream, sizes[0]);
        lemma_reports_outcomes(first.state, first.rest, sizes.drop_first());
        let others = run(first.state, first.rest, sizes.drop_first());
        if first.report is Some && first.report != Some(ReadOutcome::<F>::End) {
            let start = seq![first.report.unwrap()];
            assert(whole.reports == start + others.reports);
            if !others.ended {
                assert(start + (others.reports + outcomes(others.state, others.rest)) =~= (start
                    + others.reports) + outcomes(others.state, others.rest));
            }
        }
    }
}

/// Law: after at most two reads for each byte and two more, a reading end has come to the end of
/// the stream, however often it had to wait.
pub proof fn lemma_run_ends<F>(state: ReadModel<F>, stream: Seq<Unit<F>>, sizes: Seq<nat>)
    requires
        can_wait(state),
        reads(sizes) >= reads_left(state, stream),
    ensures
        run(state, stream, sizes).ended,
    decreases sizes.len(),
{
    if sizes.len() > 0 {
        let first = turn(state, stream, sizes[0]);
        lemma_turn(state, stream, sizes[0]);
        if first.report != Some(ReadOutcome::<F>::End) {
            lemma_run_ends(first.state, first.rest, sizes.drop_first());
        }
    }
}

/// Law: two reading ends that get the same stream report the same, one thing after the other, in
/// whatever pieces each reads it and however often each has to wait. This holds of every stream,
/// whether it ends between two frames or breaks off inside one. Where one has come less far than
/// the other, what it has reported is where the other began.
pub proof fn lemma_cuts_do_not_matter<F>(stream: Seq<Unit<F>>, a: Seq<nat>, b: Seq<nat>)
    ensures
        ({
            let left = run(ReadModel::<F>::Idle, stream, a);
            let right = run(ReadModel::<F>::Idle, stream, b);
            &&& left.ended && right.ended ==> left.reports == right.reports
            &&& left.reports.is_prefix_of(right.reports) || right.reports.is_prefix_of(
                left.reports,
            )
        }),
{
    lemma_reports_outcomes(ReadModel::<F>::Idle, stream, a);
    lemma_reports_outcomes(ReadModel::<F>::Idle, stream, b);
    let all = outcomes(ReadModel::<F>::Idle, stream);
    let left = run(ReadModel::<F>::Idle, stream, a).reports;
    let right = run(ReadModel::<F>::Idle, stream, b).reports;
    assert(left =~= all.take(left.len() as int));
    assert(right =~= all.take(right.len() as int));
    if left.len() <= right.len() {
        assert(left =~= right.take(left.len() as int));
    } else {
        assert(right =~= left.take(right.len() as int));
    }
}

/// The reading end of a connection that stands where a reader of one frame does.
pub open spec fn same_place<F>(frame: Option<BodyModel<F>>) -> ReadModel<F> {
    match frame {
        Some(body) => ReadModel::Body(body),
        None => ReadModel::Idle,
    }
}

/// A turn of a reader of one frame is one of a reading end, if a header comes in one piece.
proof fn lemma_receiver_turn<F>(
    frame: Option<BodyModel<F>>,
    stream: Seq<Unit<F>>,
    size: nat,
)
    requires
        can_wait(same_place(frame)),
        size > 0,
        frame is None ==> size >= HEADER_SIZE,
        frame is None ==> stream.len() == 0 || stream.len() >= HEADER_SIZE,
    ensures
        turn(same_place(frame), stream, size).state == same_place(
            receiver_turn(frame, stream, size).state,
        ),
        turn(same_place(frame), stream, size).rest == receiver_turn(frame, stream, size).rest,
        turn(same_place(frame), stream, size).report == receiver_turn(frame, stream, size).report,
{
    let n = read_size(size, crate::unix_fd::receiver_limit(frame), stream.len());
    let chunk = read_of(stream.take(n));
    assert(chunk.data.len() == n);
    if frame is None {
        assert(Seq::<u8>::empty() + chunk.data =~= chunk.data);
        assert(Seq::<F>::empty() + chunk.fds =~= chunk.fds);
    }
}

/// Law: a reader of one frame after the other, too, reports what the stream amounts to, if each
/// header comes in one piece.
pub proof fn lemma_receiver_reports_outcomes<F>(
    frame: Option<BodyModel<F>>,
    stream: Seq<Unit<F>>,
    sizes: Seq<nat>,
)
    requires
        can_wait(same_place(frame)),
        headers_whole(frame, stream, sizes),
    ensures
        outcomes(same_place(frame), stream) == (if receiver_run(frame, stream, sizes).ended {
            receiver_run(frame, stream, sizes).reports
        } else {
            receiver_run(frame, stream, sizes).reports + outcomes(
                same_place(receiver_run(frame, stream, sizes).state),
                receiver_run(frame, stream, sizes).rest,
            )
        }),
        reads(sizes) >= reads_left(same_place(frame), stream) ==> receiver_run(
            frame,
            stream,
            sizes,
        ).ended,
    decreases sizes.len(),
{
    let whole = receiver_run(frame, stream, sizes);
    if sizes.len() == 0 {
        assert(whole.reports + outcomes(same_place(frame), stream) =~= outcomes(
            same_place(frame),
            stream,
        ));
    } else {
        let first = receiver_turn(frame, stream, sizes[0]);
        if sizes[0] > 0 {
            lemma_receiver_turn(frame, stream, sizes[0]);
            lemma_turn(same_place(frame), stream, sizes[0]);
        }
        lemma_receiver_reports_outcomes(first.state, first.rest, sizes.drop_first());
        let others = receiver_run(first.state, first.rest, sizes.drop_first());
        if first.report is Some && first.report != Some(ReadOutcome::<F>::End) {
            let start = seq![first.report.unwrap()];
            assert(whole.reports == start + others.reports);
            if !others.ended {
                let still = outcomes(same_place(others.state), others.rest);
                assert(start + (others.reports + still) =~= (start + others.reports) + still);
            }
        }
    }
}

/// Bytes without descriptors have none.
proof fn lemma_fds_none<F>(units: Seq<Unit<F>>)
    requires
        forall|i: int| 0 <= i < units.len() ==> (#[trigger] units[i]).fds == Seq::<F>::empty(),
    ensures
        fds_of(units) == Seq::<F>::empty(),
    decreases units.len(),
{
    if units.len() > 0 {
        let others = units.drop_first();
        assert forall|i: int| 0 <= i < others.len() implies (#[trigger] others[i]).fds
            == Seq::<F>::empty() by {
            assert(units[i + 1].fds == Seq::<F>::empty());
        }
        lemma_fds_none(others);
        assert(units[0].fds == Seq::<F>::empty());
        assert(fds_of(units) =~= Seq::<F>::empty());
    }
}

/// Law: a frame within the limits amounts to its message, with its own descriptors, and what
/// follows it on the stream is not touched by it.
pub proof fn lemma_frame_outcome<F>(body: Seq<u8>, fds: Seq<F>, rest: Seq<Unit<F>>)
    requires
        body.len() <= MAX_FRAME_SIZE,
        fds.len() <= MAX_FDS_PER_MESSAGE,
    ensures
        ({
            let frame = crate::fd_codec::frame_bytes(body, fds.len() as int);
            outcomes(ReadModel::<F>::Idle, units_of(Chunk { data: frame, fds }) + rest) == seq![
                ReadOutcome::Deliver { body, fds },
            ] + outcomes(ReadModel::<F>::Idle, rest)
        }),
{
    let frame = crate::fd_codec::frame_bytes(body, fds.len() as int);
    crate::fd_codec::lemma_frame_announces(body, fds.len() as int);
    crate::fd_codec::lemma_frame_accepted(body, fds.len() as int);
    let units = units_of(Chunk { data: frame, fds });
    let stream = units + rest;
    let n = HEADER_SIZE as int;
    let header = stream.take(n);
    assert(header =~= units.take(n));
    let all = Seq::<u8>::empty() + bytes_of(header);
    assert(all =~= frame.take(n));
    assert(forall|i: int| 0 <= i < HEADER_SIZE ==> all[i] == frame[i]);
    lemma_fds_none(header.drop_first());
    let got = Seq::<F>::empty() + fds_of(header);
    assert(got =~= fds);
    let begun = BodyModel::begun(all, got);
    assert(begun.bytes =~= Seq::<u8>::empty());
    let behind = stream.skip(n);
    let m = body.len() as int;
    assert(begun.missing() == m);
    assert(behind.take(m) =~= units.skip(n));
    lemma_fds_none(behind.take(m));
    assert(bytes_of(behind.take(m)) =~= frame.skip(n));
    let full = begun.extended(read_of(behind.take(m)));
    assert(full.bytes =~= body);
    assert(full.fds =~= fds);
    assert(full.fds.take(full.fd_count) =~= fds);
    assert(behind.skip(m) =~= rest);
    assert(outcomes(ReadModel::<F>::Idle, stream) == outcomes(ReadModel::Body(begun), behind));
}

/// Chunks of which only the first carries descriptors put on a stream what one chunk does.
proof fn lemma_stream_joined<F>(chunks: Seq<Chunk<F>>)
    requires
        chunks.len() > 0,
        crate::delivery::none_empty(chunks),
        forall|i: int| 0 < i < chunks.len() ==> (#[trigger] chunks[i]).fds == Seq::<F>::empty(),
    ensures
        stream_of(chunks) == units_of(
            Chunk { data: crate::fd_transport::all_data(chunks), fds: chunks[0].fds },
        ),
    decreases chunks.len(),
{
    let others = chunks.drop_first();
    assert(chunks[0].data.len() > 0);
    let joined = Chunk { data: crate::fd_transport::all_data(chunks), fds: chunks[0].fds };
    if others.len() > 0 {
        assert forall|i: int| 0 <= i < others.len() implies (#[trigger] others[i]).data.len() > 0
            && others[i].fds == Seq::<F>::empty() by {
            assert(chunks[i + 1].data.len() > 0);
        }
        lemma_stream_joined(others);
        assert(others[0].fds == Seq::<F>::empty());
    }
    let first = units_of(chunks[0]);
    let tail = crate::fd_transport::all_data(others);
    assert(joined.data == chunks[0].data + tail);
    assert(stream_of(others) =~= units_of(Chunk { data: tail, fds: Seq::<F>::empty() }));
    assert forall|i: int| 0 <= i < joined.data.len() implies #[trigger] units_of(joined)[i] == (
    first + stream_of(others))[i] by {
        if i >= first.len() {
            assert(stream_of(others)[i - first.len()].fds =~= Seq::<F>::empty());
        }
    }
    assert(stream_of(chunks) =~= units_of(joined));
}

/// A message that is sent: its places for descriptors, its serialized form, and how many bytes
/// of its frame each send call takes.
pub struct Outgoing<F> {
    pub slots: Seq<Slot<F>>,
    pub encoded: Seq<u8>,
    pub counts: Seq<int>,
}

impl<F> Outgoing<F> {
    /// Whether the message is within the limits, and the send calls take its whole frame.
    pub open spec fn is_sent(self) -> bool {
        &&& crate::fd::held(self.slots).len() <= MAX_FDS_PER_MESSAGE
        &&& self.encoded.len() <= MAX_FRAME_SIZE
        &&& forall|i: int| 0 <= i < self.counts.len() ==> #[trigger] self.counts[i] > 0
        &&& crate::fd_transport::total(self.counts) == HEADER_SIZE + self.encoded.len()
    }

    /// What the send calls put on the stream.
    pub open spec fn on_stream(self) -> Seq<Unit<F>> {
        stream_of(
            crate::delivery::written(
                WriteModel::Sending {
                    rest: crate::fd_codec::frame_bytes(
                        self.encoded,
                        crate::fd::held(self.slots).len() as int,
                    ),
                    fds: crate::fd::held(self.slots),
                },
                self.counts,
            ),
        )
    }

    /// What is to be reported at the other end.
    pub open spec fn delivery(self) -> ReadOutcome<F> {
        ReadOutcome::Deliver { body: self.encoded, fds: crate::fd::held(self.slots) }
    }
}

/// What messages that are sent one after the other put on the stream.
pub open spec fn all_on_stream<F>(messages: Seq<Outgoing<F>>) -> Seq<Unit<F>>
    decreases messages.len(),
{
    if messages.len() == 0 {
        Seq::empty()
    } else {
        messages[0].on_stream() + all_on_stream(messages.drop_first())
    }
}

/// What is to be reported of messages that are sent one after the other before the stream ends.
pub open spec fn deliveries<F>(messages: Seq<Outgoing<F>>) -> Seq<ReadOutcome<F>> {
    messages.map_values(|message: Outgoing<F>| message.delivery()).push(ReadOutcome::End)
}

/// Messages that are sent one after the other amount to their deliveries.
proof fn lemma_all_outcomes<F>(messages: Seq<Outgoing<F>>)
    requires
        forall|i: int| 0 <= i < messages.len() ==> (#[trigger] messages[i]).is_sent(),
    ensures
        outcomes(ReadModel::<F>::Idle, all_on_stream(messages)) == deliveries(messages),
    decreases messages.len(),
{
    if messages.len() == 0 {
        assert(outcomes(ReadModel::<F>::Idle, all_on_stream(messages)) =~= deliveries(messages));
    } else {
        let first = messages[0];
        assert(first.is_sent());
        let others = messages.drop_first();
        assert forall|i: int| 0 <= i < others.len() implies (#[trigger] others[i]).is_sent() by {
            assert(messages[i + 1].is_sent());
        }
        lemma_all_outcomes(others);
        let fds = crate::fd::held(first.slots);
        let frame = crate::fd_codec::frame_bytes(first.encoded, fds.len() as int);
        crate::fd_codec::lemma_frame_announces(first.encoded, fds.len() as int);
        crate::delivery::lemma_writes_all(frame, fds, first.counts);
        let chunks = crate::delivery::written(
            WriteModel::Sending { rest: frame, fds },
            first.counts,
        );
        lemma_stream_joined(chunks);
        lemma_frame_outcome(first.encoded, fds, all_on_stream(others));
        assert(seq![first.delivery()] + deliveries(others) =~= deliveries(messages));
    }
}

/// Law: a message that is sent in one go puts on the stream what it does if the writing end of a
/// connection sends it.
pub proof fn lemma_sent_either_way<F>(message: Outgoing<F>)
    requires
        message.is_sent(),
    ensures
        ({
            let fds = crate::fd::held(message.slots);
            let frame = crate::fd_codec::frame_bytes(message.encoded, fds.len() as int);
            let progress = SendAllModel { len: frame.len(), pos: 0, fds_sent: false };
            stream_of(progress.transmitted(frame, fds, message.counts)) == message.on_stream()
        }),
{
    let fds = crate::fd::held(message.slots);
    let frame = crate::fd_codec::frame_bytes(message.encoded, fds.len() as int);
    crate::fd_codec::lemma_frame_announces(message.encoded, fds.len() as int);
    let progress = SendAllModel { len: frame.len(), pos: 0, fds_sent: false };
    crate::delivery::lemma_writers_agree(progress, frame, fds, message.counts);
    assert(frame.skip(0) =~= frame);
}

/// Law: messages that are sent one after the other are delivered one after the other, each with
/// its own descriptors, and each descriptor comes to the place that it was extracted from.
///
/// It does not matter how many bytes each send call takes, in what pieces the reading end reads
/// and how often it has to wait. What it has reported at any time is where the deliveries begin;
/// after enough reads it has reported them all, and the end of the stream. The same holds of a
/// reader of one frame after the other to which each header comes in one piece.
pub proof fn lemma_messages_arrive<F>(messages: Seq<Outgoing<F>>, sizes: Seq<nat>)
    requires
        forall|i: int| 0 <= i < messages.len() ==> (#[trigger] messages[i]).is_sent(),
    ensures
        ({
            let stream = all_on_stream(messages);
            let reader = run(ReadModel::<F>::Idle, stream, sizes);
            let receiver = receiver_run(None::<BodyModel<F>>, stream, sizes);
            &&& reader.reports.is_prefix_of(deliveries(messages))
            &&& reader.ended ==> reader.reports == deliveries(messages)
            &&& reads(sizes) > 2 * stream.len() ==> reader.ended
            &&& headers_whole(None::<BodyModel<F>>, stream, sizes) ==> {
                &&& receiver.reports.is_prefix_of(deliveries(messages))
                &&& receiver.ended ==> receiver.reports == deliveries(messages)
                &&& reads(sizes) > 2 * stream.len() ==> receiver.ended
            }
        }),
        forall|i: int|
            0 <= i < messages.len() ==> {
                let slots = (#[trigger] messages[i]).slots;
                crate::fd::injected(
                    crate::fd::numbered(slots, 0),
                    crate::fd::supplied(crate::fd::held(slots)),
                ) == Seq::new(
                    slots.len(),
                    |k: int|
                        Slot { fd: slots[k].fd, index: crate::fd::numbered(slots, 0)[k].index },
                )
            },
{
    let stream = all_on_stream(messages);
    lemma_all_outcomes(messages);
    lemma_reports_outcomes(ReadModel::<F>::Idle, stream, sizes);
    let reader = run(ReadModel::<F>::Idle, stream, sizes);
    assert(reader.reports =~= deliveries(messages).take(reader.reports.len() as int));
    if reads(sizes) > 2 * stream.len() {
        lemma_run_ends(ReadModel::<F>::Idle, stream, sizes);
    }
    if headers_whole(None::<BodyModel<F>>, stream, sizes) {
        lemma_receiver_reports_outcomes(None::<BodyModel<F>>, stream, sizes);
        let receiver = receiver_run(None::<BodyModel<F>>, stream, sizes);
        assert(receiver.reports =~= deliveries(messages).take(receiver.reports.len() as int));
    }
    assert forall|i: int| 0 <= i < messages.len() implies {
        let slots = (#[trigger] messages[i]).slots;
        crate::fd::injected(
            crate::fd::numbered(slots, 0),
            crate::fd::supplied(crate::fd::held(slots)),
        ) == Seq::new(
            slots.len(),
            |k: int| Slot { fd: slots[k].fd, index: crate::fd::numbered(slots, 0)[k].index },
        )
    } by {
        assert(messages[i].is_sent());
        crate::fd::lemma_inject_restores_extracted(messages[i].slots);
    }
}

} // verus!
