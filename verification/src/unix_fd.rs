//! Messages with descriptors over a Unix domain socket.
//!
//! A transport reads and writes frames (see [`crate::fd_codec`]) on a stream that gives and
//! takes bytes in pieces of any size. The types here hold the progress of that work and decide
//! on each step of it. The caller owns the socket and the codec: it performs the step, and
//! reports back what came of it.
//!
//! Two readers are offered. [`Receiver`] reads one frame and is done; a header that comes in
//! pieces is an error to it. [`ReadState`] belongs to a connection and is asked again and again
//! for the next frame; it puts the pieces of a header together.

use vstd::prelude::*;

use crate::error::TransportError;
use crate::fd::{ContainsFds, MAX_FDS_PER_MESSAGE};
use crate::fd_codec::{decode_header, encode_frame, HEADER_SIZE, MAX_FRAME_SIZE};
use crate::fd_transport::{Chunk, FdMessage};

verus! {

broadcast use vstd::seq_lib::group_seq_properties;

/// The body of a frame while it is being read.
#[derive(Debug)]
pub struct Body<F> {
    frame_length: usize,
    fd_count: usize,
    buf: Vec<u8>,
    pos: usize,
    fds: Vec<F>,
}

/// What is known of a frame after its header: what was announced, and what has come of it.
#[verifier::ext_equal]
pub struct BodyModel<F> {
    pub frame_length: int,
    pub fd_count: int,
    pub bytes: Seq<u8>,
    pub fds: Seq<F>,
}

impl<F> View for Body<F> {
    type V = BodyModel<F>;

    closed spec fn view(&self) -> BodyModel<F> {
        BodyModel {
            frame_length: self.frame_length as int,
            fd_count: self.fd_count as int,
            bytes: self.buf@.take(self.pos as int),
            fds: self.fds@,
        }
    }
}

/// What a reader wants the caller to do.
#[derive(Debug)]
pub enum ReadAction<F> {
    /// Wait until the socket is readable, receive at most `limit` bytes and report back.
    Recv { limit: usize },
    /// A frame is complete: deserialize `body` and inject `fds` into the message.
    Deliver { body: Vec<u8>, fds: Vec<F> },
    /// Report the error.
    Fail(TransportError),
    /// The stream has ended, and no frame is open.
    End,
}

/// What a reader wants, as a value of the model.
#[verifier::ext_equal]
pub enum ReadOutcome<F> {
    Recv { limit: int },
    Deliver { body: Seq<u8>, fds: Seq<F> },
    Fail(TransportError),
    End,
}

impl<F> View for ReadAction<F> {
    type V = ReadOutcome<F>;

    open spec fn view(&self) -> ReadOutcome<F> {
        match *self {
            ReadAction::Recv { limit } => ReadOutcome::Recv { limit: limit as int },
            ReadAction::Deliver { body, fds } => ReadOutcome::Deliver {
                body: body@,
                fds: fds@,
            },
            ReadAction::Fail(error) => ReadOutcome::Fail(error),
            ReadAction::End => ReadOutcome::End,
        }
    }
}

impl<F> BodyModel<F> {
    /// What was announced is within the limits, and no more bytes than that have come.
    pub open spec fn within_limits(self) -> bool {
        &&& 0 <= self.frame_length <= MAX_FRAME_SIZE
        &&& 0 <= self.fd_count <= MAX_FDS_PER_MESSAGE
        &&& self.bytes.len() <= self.frame_length
    }

    /// Whether everything that was announced has come.
    pub open spec fn is_complete(self) -> bool {
        self.bytes.len() >= self.frame_length && self.fds.len() >= self.fd_count
    }

    /// How many bytes are missing.
    pub open spec fn missing(self) -> int {
        self.frame_length - self.bytes.len()
    }

    /// What becomes of the frame, and what is wanted next: a complete frame is delivered, with
    /// as many descriptors as were announced for it; else more is to be received.
    pub open spec fn next(self) -> (Option<BodyModel<F>>, ReadOutcome<F>) {
        if self.is_complete() {
            (None, ReadOutcome::Deliver { body: self.bytes, fds: self.fds.take(self.fd_count) })
        } else {
            (Some(self), ReadOutcome::Recv { limit: self.missing() })
        }
    }

    /// The frame with another chunk of it.
    pub open spec fn extended(self, chunk: Chunk<F>) -> BodyModel<F> {
        BodyModel { bytes: self.bytes + chunk.data, fds: self.fds + chunk.fds, ..self }
    }

    /// What becomes of the frame when a chunk arrives. No bytes mean that the stream has ended.
    pub open spec fn receive(self, chunk: Chunk<F>) -> (Option<BodyModel<F>>, ReadOutcome<F>) {
        if chunk.data.len() == 0 {
            (None, ReadOutcome::Fail(TransportError::UnexpectedEof))
        } else {
            self.extended(chunk).next()
        }
    }

    /// The frame that begins with `data`, which holds the whole header.
    pub open spec fn begun(data: Seq<u8>, fds: Seq<F>) -> BodyModel<F> {
        BodyModel {
            frame_length: crate::fd_codec::announced_length(data),
            fd_count: crate::fd_codec::announced_fds(data),
            bytes: data.skip(HEADER_SIZE as int),
            fds,
        }
    }

    /// What becomes of a frame that begins with `data`, which holds the whole header: one that
    /// exceeds the limits is refused.
    pub open spec fn open_frame(data: Seq<u8>, fds: Seq<F>) -> (
        Option<BodyModel<F>>,
        ReadOutcome<F>,
    ) {
        if crate::fd_codec::is_acceptable(data) {
            Self::begun(data, fds).next()
        } else {
            (None, ReadOutcome::Fail(crate::fd_codec::refusal(data)))
        }
    }

    /// Whether `data` does not reach beyond the frame that it begins.
    pub open spec fn opens_at_most_one(data: Seq<u8>) -> bool {
        data.len() >= HEADER_SIZE && crate::fd_codec::is_acceptable(data) ==> data.len()
            - HEADER_SIZE <= crate::fd_codec::announced_length(data)
    }
}

/// Appends the elements of `more` to `list`.
fn extend<T>(list: &mut Vec<T>, more: Vec<T>)
    ensures
        final(list)@ == old(list)@ + more@,
{
    let mut more: Vec<T> = more;
    list.append(&mut more);
}

/// Law: a well-formed frame stays within the limits.
pub proof fn lemma_body_within_limits<F>(body: Body<F>)
    requires
        body.wf(),
    ensures
        body@.within_limits(),
{
}

impl<F> Body<F> {
    /// The buffer is as long as was announced, and no more than that has been read; what was
    /// announced is within the limits.
    pub closed spec fn wf(&self) -> bool {
        &&& self.buf@.len() == self.frame_length
        &&& self.pos <= self.frame_length
        &&& self.frame_length <= MAX_FRAME_SIZE
        &&& self.fd_count <= MAX_FDS_PER_MESSAGE
    }

    /// Copies `data`, from `skip` on, to the place in the buffer where the next bytes go.
    fn fill(&mut self, data: &Vec<u8>, skip: usize)
        requires
            old(self).wf(),
            skip <= data.len(),
            data.len() - skip <= old(self)@.missing(),
        ensures
            final(self).wf(),
            final(self)@ == (BodyModel {
                bytes: old(self)@.bytes + data@.skip(skip as int),
                ..old(self)@
            }),
    {
        let ghost before = self@;
        let ghost start = self.pos;
        let mut i: usize = skip;
        while i < data.len()
            invariant
                self.wf(),
                skip <= i <= data.len(),
                start + (data.len() - skip) <= self.frame_length,
                self.pos == start + (i - skip),
                self@ == (BodyModel {
                    bytes: before.bytes + data@.subrange(skip as int, i as int),
                    ..before
                }),
            decreases data.len() - i,
        {
            let ghost read = self.buf@.take(self.pos as int);
            self.buf[self.pos] = data[i];
            self.pos = self.pos + 1;
            i = i + 1;
            assert(self.buf@.take(self.pos as int) =~= read.push(data@[i - 1]));
            assert(self@.bytes =~= before.bytes + data@.subrange(skip as int, i as int));
        }
        assert(data@.subrange(skip as int, i as int) =~= data@.skip(skip as int));
    }

    /// Begins to read the frame whose header stands at the start of `data`.
    fn begin(data: &Vec<u8>, fds: Vec<F>) -> (begun: Result<Body<F>, TransportError>)
        requires
            data.len() >= HEADER_SIZE,
            BodyModel::<F>::opens_at_most_one(data@),
        ensures
            match begun {
                Ok(body) => {
                    &&& crate::fd_codec::is_acceptable(data@)
                    &&& body.wf()
                    &&& body@ == BodyModel::begun(data@, fds@)
                },
                Err(error) => {
                    &&& !crate::fd_codec::is_acceptable(data@)
                    &&& error == crate::fd_codec::refusal(data@)
                },
            },
    {
        let header = match decode_header(data.as_slice()) {
            Ok(header) => header,
            Err(error) => return Err(error),
        };
        let mut body = Body {
            frame_length: header.frame_length,
            fd_count: header.fd_count,
            buf: vec![0u8; header.frame_length],
            pos: 0,
            fds,
        };
        assert(body@.bytes =~= Seq::<u8>::empty());
        body.fill(data, HEADER_SIZE);
        assert(body@.bytes =~= data@.skip(HEADER_SIZE as int));
        Ok(body)
    }

    /// Delivers the frame if it is complete, and says what to receive if it is not.
    fn next(self) -> (next: (Option<Body<F>>, ReadAction<F>))
        requires
            self.wf(),
        ensures
            next.1@ == self@.next().1,
            match next.0 {
                Some(body) => body.wf() && self@.next().0 == Some(body@),
                None => self@.next().0 is None,
            },
    {
        if self.pos >= self.frame_length && self.fds.len() >= self.fd_count {
            let Body { frame_length, fd_count, buf, pos, fds } = self;
            let mut fds: Vec<F> = fds;
            fds.truncate(fd_count);
            assert(buf@.take(pos as int) =~= buf@);
            (None, ReadAction::Deliver { body: buf, fds })
        } else {
            let limit: usize = self.frame_length - self.pos;
            (Some(self), ReadAction::Recv { limit })
        }
    }

    /// Takes in a chunk of the frame.
    fn receive(self, msg: FdMessage<F>) -> (next: (Option<Body<F>>, ReadAction<F>))
        requires
            self.wf(),
            msg@.data.len() <= self@.missing(),
        ensures
            next.1@ == self@.receive(msg@).1,
            match next.0 {
                Some(body) => body.wf() && self@.receive(msg@).0 == Some(body@),
                None => self@.receive(msg@).0 is None,
            },
    {
        if msg.data.is_empty() {
            return (None, ReadAction::Fail(TransportError::UnexpectedEof));
        }
        let mut body: Body<F> = self;
        body.fill(&msg.data, 0);
        extend(&mut body.fds, msg.fds);
        assert(msg.data@.skip(0) =~= msg.data@);
        body.next()
    }
}

/// Reads one frame from a stream.
#[derive(Debug)]
pub struct Receiver<F> {
    /// The frame, once its header has been read.
    body: Option<Body<F>>,
}

impl<F> View for Receiver<F> {
    type V = Option<BodyModel<F>>;

    closed spec fn view(&self) -> Option<BodyModel<F>> {
        match self.body {
            Some(body) => Some(body@),
            None => None,
        }
    }
}

/// How many bytes to receive at most: first a header, then what is missing of the frame.
pub open spec fn receiver_limit<F>(frame: Option<BodyModel<F>>) -> int {
    match frame {
        Some(body) => body.missing(),
        None => HEADER_SIZE as int,
    }
}

/// What becomes of the frame when a chunk arrives. Before the header has been read, no bytes
/// mean that the stream has ended, and fewer bytes than a header are an error.
pub open spec fn receiver_step<F>(frame: Option<BodyModel<F>>, chunk: Chunk<F>) -> (
    Option<BodyModel<F>>,
    ReadOutcome<F>,
) {
    match frame {
        Some(body) => body.receive(chunk),
        None => if chunk.data.len() == 0 {
            (None, ReadOutcome::End)
        } else if chunk.data.len() < HEADER_SIZE {
            (None, ReadOutcome::Fail(TransportError::IncompleteHeader))
        } else {
            BodyModel::open_frame(chunk.data, chunk.fds)
        },
    }
}

/// Whether a chunk does not reach beyond the frame that is being read.
pub open spec fn receiver_accepts<F>(frame: Option<BodyModel<F>>, chunk: Chunk<F>) -> bool {
    match frame {
        Some(body) => chunk.data.len() <= body.missing(),
        None => BodyModel::<F>::opens_at_most_one(chunk.data),
    }
}

impl<F> Receiver<F> {
    /// The frame that is being read is well formed.
    pub closed spec fn wf(&self) -> bool {
        match self.body {
            Some(body) => body.wf(),
            None => true,
        }
    }

    /// Begins to read a frame.
    pub fn new() -> (receiver: Self)
        ensures
            receiver.wf(),
            receiver@ == None::<BodyModel<F>>,
    {
        Receiver { body: None }
    }

    /// How many bytes to receive at most.
    pub fn limit(&self) -> (limit: usize)
        requires
            self.wf(),
        ensures
            limit == receiver_limit(self@),
            limit == (match self@ {
                Some(body) => body.frame_length - body.bytes.len(),
                None => 8,
            }),
    {
        match &self.body {
            Some(body) => body.frame_length - body.pos,
            None => HEADER_SIZE,
        }
    }

    /// Takes in what was received. When a frame has been delivered, refused or broken off, the
    /// next one can be read.
    pub fn recv(&mut self, msg: FdMessage<F>) -> (action: ReadAction<F>)
        requires
            old(self).wf(),
            receiver_accepts(old(self)@, msg@),
        ensures
            final(self).wf(),
            (final(self)@, action@) == receiver_step(old(self)@, msg@),
            action matches ReadAction::Recv { limit } ==> (final(self)@ matches Some(body)
                && limit == body.frame_length - body.bytes.len()),
            !(action is Recv) ==> final(self)@ is None,
    {
        match self.body.take() {
            Some(body) => {
                let (body, action) = body.receive(msg);
                self.body = body;
                action
            },
            None => {
                if msg.data.is_empty() {
                    return ReadAction::End;
                }
                if msg.data.len() < HEADER_SIZE {
                    return ReadAction::Fail(TransportError::IncompleteHeader);
                }
                match Body::begin(&msg.data, msg.fds) {
                    Ok(body) => {
                        let (body, action) = body.next();
                        self.body = body;
                        action
                    },
                    Err(error) => ReadAction::Fail(error),
                }
            },
        }
    }
}

/// Where the reading end of a connection stands.
#[derive(Debug)]
pub enum ReadState<F> {
    /// Ready to read a new message.
    Idle,
    /// Reading the header.
    ReadingHeader {
        /// What has come of it so far.
        bytes: Vec<u8>,
        /// The descriptors that have come so far.
        fds: Vec<F>,
    },
    /// Reading the message body.
    ReadingBody(Body<F>),
}

/// Where the reading end stands, as a value of the model.
#[verifier::ext_equal]
pub enum ReadModel<F> {
    Idle,
    Header { bytes: Seq<u8>, fds: Seq<F> },
    Body(BodyModel<F>),
}

impl<F> View for ReadState<F> {
    type V = ReadModel<F>;

    open spec fn view(&self) -> ReadModel<F> {
        match *self {
            ReadState::Idle => ReadModel::Idle,
            ReadState::ReadingHeader { bytes, fds } => ReadModel::Header {
                bytes: bytes@,
                fds: fds@,
            },
            ReadState::ReadingBody(body) => ReadModel::Body(body@),
        }
    }
}

/// What the caller reports to the reading end.
#[derive(Debug)]
pub enum ReadEvent<F> {
    /// Nothing new: the transport is polled, or a receive call would have blocked.
    Resume,
    /// Waiting for the socket to become readable has failed.
    ReadyFailed(std::io::Error),
    /// This has been received. No bytes mean that the stream has ended.
    Received(FdMessage<F>),
    /// The receive call has failed.
    RecvFailed(std::io::Error),
}

/// The report of the caller, as a value of the model.
#[verifier::ext_equal]
pub enum ReadInput<F> {
    Resume,
    ReadyFailed(std::io::Error),
    Received(Chunk<F>),
    RecvFailed(std::io::Error),
}

impl<F> View for ReadEvent<F> {
    type V = ReadInput<F>;

    open spec fn view(&self) -> ReadInput<F> {
        match *self {
            ReadEvent::Resume => ReadInput::Resume,
            ReadEvent::ReadyFailed(error) => ReadInput::ReadyFailed(error),
            ReadEvent::Received(msg) => ReadInput::Received(msg@),
            ReadEvent::RecvFailed(error) => ReadInput::RecvFailed(error),
        }
    }
}

impl<F> ReadModel<F> {
    /// The reading end that goes on with a frame, or is ready for a new one.
    pub open spec fn of_frame(step: (Option<BodyModel<F>>, ReadOutcome<F>)) -> (
        ReadModel<F>,
        ReadOutcome<F>,
    ) {
        match step.0 {
            Some(body) => (ReadModel::Body(body), step.1),
            None => (ReadModel::Idle, step.1),
        }
    }

    /// The next state and action when nothing new is reported.
    pub open spec fn resume(self) -> (ReadModel<F>, ReadOutcome<F>) {
        match self {
            ReadModel::Idle => (
                ReadModel::Header { bytes: Seq::empty(), fds: Seq::empty() },
                ReadOutcome::Recv { limit: HEADER_SIZE as int },
            ),
            ReadModel::Header { bytes, .. } => (
                self,
                ReadOutcome::Recv { limit: HEADER_SIZE - bytes.len() },
            ),
            ReadModel::Body(body) => Self::of_frame(body.next()),
        }
    }

    /// The next state and action when a chunk is received.
    ///
    /// A header is put together from as many pieces as it comes in. No bytes mean that the
    /// stream has ended. Until the header of a frame is complete, that is no error.
    pub open spec fn receive(self, chunk: Chunk<F>) -> (ReadModel<F>, ReadOutcome<F>) {
        match self {
            ReadModel::Idle => (self, ReadOutcome::End),
            ReadModel::Header { bytes, fds } => {
                let all = bytes + chunk.data;
                if chunk.data.len() == 0 {
                    (ReadModel::Idle, ReadOutcome::End)
                } else if all.len() < HEADER_SIZE {
                    (
                        ReadModel::Header { bytes: all, fds: fds + chunk.fds },
                        ReadOutcome::Recv { limit: HEADER_SIZE - all.len() },
                    )
                } else {
                    Self::of_frame(BodyModel::open_frame(all, fds + chunk.fds))
                }
            },
            ReadModel::Body(body) => Self::of_frame(body.receive(chunk)),
        }
    }

    /// The next state and action for each report.
    ///
    /// A failure makes the reading end ready for a new frame, except that a failure to wait
    /// for a header leaves the header to be read.
    pub open spec fn step(self, input: ReadInput<F>) -> (ReadModel<F>, ReadOutcome<F>) {
        match input {
            ReadInput::Resume => self.resume(),
            ReadInput::Received(chunk) => self.receive(chunk),
            ReadInput::ReadyFailed(error) => (
                match self {
                    ReadModel::Body(_) => ReadModel::Idle,
                    _ => self,
                },
                ReadOutcome::Fail(TransportError::Io(error)),
            ),
            ReadInput::RecvFailed(error) => (
                ReadModel::Idle,
                ReadOutcome::Fail(TransportError::Io(error)),
            ),
        }
    }

    /// Whether a report can be made in this state: something is received only when it was
    /// asked for, and does not reach beyond the frame that is being read.
    pub open spec fn accepts(self, input: ReadInput<F>) -> bool {
        match input {
            ReadInput::Received(chunk) => match self {
                ReadModel::Idle => false,
                ReadModel::Header { bytes, .. } => BodyModel::<F>::opens_at_most_one(
                    bytes + chunk.data,
                ),
                ReadModel::Body(body) => chunk.data.len() <= body.missing(),
            },
            _ => true,
        }
    }
}

impl<F> ReadState<F> {
    /// The frame that is being read is well formed, and a header that is being read is not yet
    /// complete.
    pub open spec fn wf(&self) -> bool {
        match *self {
            ReadState::Idle => true,
            ReadState::ReadingHeader { bytes, .. } => bytes.len() < HEADER_SIZE,
            ReadState::ReadingBody(body) => body.wf(),
        }
    }

    /// A reading end that is ready for its first message.
    pub fn new() -> (state: Self)
        ensures
            state.wf(),
            state@ == ReadModel::<F>::Idle,
    {
        ReadState::Idle
    }

    /// Goes on with a frame, or makes ready for a new one.
    fn set_frame(&mut self, body: Option<Body<F>>)
        requires
            body matches Some(b) ==> b.wf(),
        ensures
            final(self).wf(),
            final(self)@ == (match body {
                Some(b) => ReadModel::Body(b@),
                None => ReadModel::Idle,
            }),
    {
        *self = match body {
            Some(body) => ReadState::ReadingBody(body),
            None => ReadState::Idle,
        };
    }

    /// Takes in what the caller reports and decides on the next step.
    pub fn poll_next(&mut self, event: ReadEvent<F>) -> (action: ReadAction<F>)
        requires
            old(self).wf(),
            old(self)@.accepts(event@),
        ensures
            final(self).wf(),
            (final(self)@, action@) == old(self)@.step(event@),
            action matches ReadAction::Recv { limit } ==> match *final(self) {
                ReadState::Idle => false,
                ReadState::ReadingHeader { bytes, .. } => limit == 8 - bytes@.len(),
                ReadState::ReadingBody(body) => limit == body@.frame_length - body@.bytes.len(),
            },
            action is Deliver || action is End ==> *final(self) is Idle,
    {
        let mut state: ReadState<F> = ReadState::Idle;
        std::mem::swap(self, &mut state);
        match event {
            ReadEvent::Resume => match state {
                ReadState::Idle => {
                    *self = ReadState::ReadingHeader { bytes: Vec::new(), fds: Vec::new() };
                    ReadAction::Recv { limit: HEADER_SIZE }
                },
                ReadState::ReadingHeader { bytes, fds } => {
                    let limit: usize = HEADER_SIZE - bytes.len();
                    *self = ReadState::ReadingHeader { bytes, fds };
                    ReadAction::Recv { limit }
                },
                ReadState::ReadingBody(body) => {
                    let (body, action) = body.next();
                    self.set_frame(body);
                    action
                },
            },
            ReadEvent::ReadyFailed(error) => {
                match state {
                    ReadState::ReadingBody(_) => {},
                    state => {
                        *self = state;
                    },
                }
                ReadAction::Fail(TransportError::Io(error))
            },
            ReadEvent::Received(msg) => match state {
                ReadState::Idle => ReadAction::End,
                ReadState::ReadingHeader { bytes, fds } => {
                    if msg.data.is_empty() {
                        return ReadAction::End;
                    }
                    let mut bytes: Vec<u8> = bytes;
                    let mut fds: Vec<F> = fds;
                    extend(&mut bytes, msg.data);
                    extend(&mut fds, msg.fds);
                    if bytes.len() < HEADER_SIZE {
                        let limit: usize = HEADER_SIZE - bytes.len();
                        *self = ReadState::ReadingHeader { bytes, fds };
                        return ReadAction::Recv { limit };
                    }
                    match Body::begin(&bytes, fds) {
                        Ok(body) => {
                            let (body, action) = body.next();
                            self.set_frame(body);
                            action
                        },
                        Err(error) => ReadAction::Fail(error),
                    }
                },
                ReadState::ReadingBody(body) => {
                    let (body, action) = body.receive(msg);
                    self.set_frame(body);
                    action
                },
            },
            ReadEvent::RecvFailed(error) => ReadAction::Fail(TransportError::Io(error)),
        }
    }
}

/// Where the writing end of a connection stands.
#[derive(Debug)]
pub enum WriteState<F> {
    /// Ready to accept a new message.
    Idle,
    /// Sending data.
    Sending {
        /// The frame.
        data: Vec<u8>,
        /// How much of it has been sent.
        pos: usize,
        /// The descriptors that go with it.
        fds: Vec<F>,
        /// Whether the descriptors have been sent.
        fds_sent: bool,
    },
}

/// Where the writing end stands: what bytes and what descriptors it still has to send.
#[verifier::ext_equal]
pub enum WriteModel<F> {
    Idle,
    Sending { rest: Seq<u8>, fds: Seq<F> },
}

impl<F> View for WriteState<F> {
    type V = WriteModel<F>;

    open spec fn view(&self) -> WriteModel<F> {
        match *self {
            WriteState::Idle => WriteModel::Idle,
            WriteState::Sending { data, pos, fds, fds_sent } => WriteModel::Sending {
                rest: if pos <= data.len() {
                    data@.skip(pos as int)
                } else {
                    Seq::empty()
                },
                fds: if fds_sent {
                    Seq::empty()
                } else {
                    fds@
                },
            },
        }
    }
}

/// What the caller reports to the writing end.
#[derive(Debug)]
pub enum WriteEvent {
    /// Nothing new: the transport is polled, or a send call would have blocked.
    Resume,
    /// Waiting for the socket to become writable has failed.
    ReadyFailed(std::io::Error),
    /// The send call has taken so many bytes.
    Sent(usize),
    /// The send call has failed.
    SendFailed(std::io::Error),
}

/// What the writing end wants the caller to do.
#[derive(Debug)]
pub enum WriteAction {
    /// Nothing: all has been sent.
    Done,
    /// Wait until the socket is writable, send [`WriteState::pending`] with
    /// [`WriteState::pending_fds`] and report back.
    Send,
    /// Report the error.
    Fail(TransportError),
}

impl<F> WriteModel<F> {
    /// The bytes that are still to be sent.
    pub open spec fn rest(self) -> Seq<u8> {
        match self {
            WriteModel::Idle => Seq::empty(),
            WriteModel::Sending { rest, .. } => rest,
        }
    }

    /// The descriptors that are still to be sent.
    pub open spec fn fds(self) -> Seq<F> {
        match self {
            WriteModel::Idle => Seq::empty(),
            WriteModel::Sending { fds, .. } => fds,
        }
    }

    /// The next state and action when nothing new is reported.
    pub open spec fn resume(self) -> (WriteModel<F>, WriteAction) {
        match self {
            WriteModel::Idle => (self, WriteAction::Done),
            WriteModel::Sending { rest, fds } => if rest.len() == 0 {
                (WriteModel::Idle, WriteAction::Done)
            } else {
                (self, WriteAction::Send)
            },
        }
    }

    /// The writing end once `n` bytes, and with them the descriptors, have been sent.
    pub open spec fn advanced(self, n: int) -> WriteModel<F> {
        match self {
            WriteModel::Idle => self,
            WriteModel::Sending { rest, .. } => WriteModel::Sending {
                rest: if n <= rest.len() {
                    rest.skip(n)
                } else {
                    Seq::empty()
                },
                fds: Seq::empty(),
            },
        }
    }

    /// The next state and action for each report. A failure gives the message up.
    pub open spec fn step(self, event: WriteEvent) -> (WriteModel<F>, WriteAction) {
        match event {
            WriteEvent::Resume => self.resume(),
            WriteEvent::ReadyFailed(error) | WriteEvent::SendFailed(error) => (
                WriteModel::Idle,
                WriteAction::Fail(TransportError::Io(error)),
            ),
            WriteEvent::Sent(n) => if n == 0 {
                (WriteModel::Idle, WriteAction::Fail(TransportError::WriteZero))
            } else {
                self.advanced(n as int).resume()
            },
        }
    }
}

impl<F> WriteState<F> {
    /// A writing end that is ready for its first message.
    pub fn new() -> (state: Self)
        ensures
            state@ == WriteModel::<F>::Idle,
    {
        WriteState::Idle
    }

    /// Whether a new message can be accepted at once; if not, the last one is still to be
    /// flushed.
    pub fn poll_ready(&self) -> (ready: bool)
        ensures
            ready == (self@ is Idle),
            ready == (*self is Idle),
    {
        match self {
            WriteState::Idle => true,
            WriteState::Sending { .. } => false,
        }
    }

    /// Begins to send the frame for a serialized message and the descriptors that were
    /// extracted from it.
    pub fn start_send(&mut self, encoded: &[u8], fds: Vec<F>)
        requires
            encoded.len() + HEADER_SIZE <= isize::MAX,
        ensures
            final(self)@ == (WriteModel::Sending {
                rest: crate::fd_codec::frame_bytes(encoded@, fds@.len() as int),
                fds: fds@,
            }),
    {
        let data: Vec<u8> = encode_frame(encoded, fds.len());
        assert(data@.skip(0) =~= data@);
        *self = WriteState::Sending { data, pos: 0, fds, fds_sent: false };
    }

    /// The bytes for the next send call.
    pub fn pending(&self) -> (bytes: &[u8])
        ensures
            bytes@ == self@.rest(),
    {
        match self {
            WriteState::Idle => &[],
            WriteState::Sending { data, pos, .. } => {
                if *pos <= data.len() {
                    vstd::slice::slice_subrange(data.as_slice(), *pos, data.len())
                } else {
                    &[]
                }
            },
        }
    }

    /// The descriptors for the next send call: all of them with the first bytes of a frame,
    /// none later.
    pub fn pending_fds(&self) -> (fds: &[F])
        ensures
            fds@ == self@.fds(),
    {
        match self {
            WriteState::Idle => &[],
            WriteState::Sending { fds, fds_sent, .. } => {
                if *fds_sent {
                    &[]
                } else {
                    fds.as_slice()
                }
            },
        }
    }

    /// Takes in what the caller reports and decides on the next step.
    pub fn poll_flush(&mut self, event: WriteEvent) -> (action: WriteAction)
        requires
            event matches WriteEvent::Sent(n) ==> old(self).can_count(n),
        ensures
            (final(self)@, action) == old(self)@.step(event),
            action is Done ==> *final(self) is Idle,
            action is Fail ==> *final(self) is Idle,
            action is Send <==> final(self)@.rest().len() > 0,
            action is Fail <==> (event is ReadyFailed || event is SendFailed || event
                == WriteEvent::Sent(0)),
    {
        match event {
            WriteEvent::Resume => {},
            WriteEvent::ReadyFailed(error) | WriteEvent::SendFailed(error) => {
                *self = WriteState::Idle;
                return WriteAction::Fail(TransportError::Io(error));
            },
            WriteEvent::Sent(n) => {
                if n == 0 {
                    *self = WriteState::Idle;
                    return WriteAction::Fail(TransportError::WriteZero);
                }
                if let WriteState::Sending { data, pos, fds: _, fds_sent } = self {
                    *pos = *pos + n;
                    *fds_sent = true;
                }
            },
        }
        let done: bool = match self {
            WriteState::Idle => true,
            WriteState::Sending { data, pos, .. } => *pos >= data.len(),
        };
        if done {
            *self = WriteState::Idle;
            WriteAction::Done
        } else {
            WriteAction::Send
        }
    }

    /// Whether `n` more bytes can be counted. Any number can that a send call of the pending
    /// bytes may return.
    pub open spec fn can_count(&self, n: usize) -> bool {
        match *self {
            WriteState::Idle => true,
            WriteState::Sending { pos, .. } => pos + n <= usize::MAX,
        }
    }
}

/// Takes the descriptors out of a message that is to be sent.
///
/// If there are more than one message can carry, they are dropped and the message cannot be
/// sent.
pub fn extract_for_sending<F, T: ContainsFds<F>>(item: &mut T) -> (fds: Result<
    Vec<F>,
    TransportError,
>)
    requires
        crate::fd::held(old(item).slots()).len() <= u32::MAX,
    ensures
        final(item).slots() == crate::fd::numbered(old(item).slots(), 0),
        <T as ContainsFds<F>>::same_outside(final(item), old(item)),
        match fds {
            Ok(list) => {
                &&& list@ == crate::fd::held(old(item).slots())
                &&& list@.len() <= MAX_FDS_PER_MESSAGE
            },
            Err(error) => {
                &&& crate::fd::held(old(item).slots()).len() > MAX_FDS_PER_MESSAGE
                &&& error == (TransportError::TooManyFdsToSend {
                    count: crate::fd::held(old(item).slots()).len() as usize,
                })
            },
        },
{
    let fds: Vec<F> = item.extract_fds();
    if fds.len() > MAX_FDS_PER_MESSAGE {
        return Err(TransportError::TooManyFdsToSend { count: fds.len() });
    }
    Ok(fds)
}

/// Law: what a reader is told to do is what its action says, number for number and byte for byte.
pub proof fn lemma_action_view<F>(action: ReadAction<F>)
    ensures
        match action {
            ReadAction::Recv { limit } => action@ == (ReadOutcome::<F>::Recv {
                limit: limit as int,
            }),
            ReadAction::Deliver { body, fds } => action@ == (ReadOutcome::Deliver {
                body: body@,
                fds: fds@,
            }),
            ReadAction::Fail(error) => action@ == ReadOutcome::<F>::Fail(error),
            ReadAction::End => action@ == ReadOutcome::<F>::End,
        },
{
}

/// Law: what is reported to a reader is what the event says.
pub proof fn lemma_event_view<F>(event: ReadEvent<F>)
    ensures
        match event {
            ReadEvent::Resume => event@ == ReadInput::<F>::Resume,
            ReadEvent::ReadyFailed(error) => event@ == ReadInput::<F>::ReadyFailed(error),
            ReadEvent::Received(msg) => event@ == ReadInput::Received(
                Chunk { data: msg.data@, fds: msg.fds@ },
            ),
            ReadEvent::RecvFailed(error) => event@ == ReadInput::<F>::RecvFailed(error),
        },
{
}

/// Law: what a reading end has gathered of a header is what its fields hold.
pub proof fn lemma_read_state_view<F>(state: ReadState<F>)
    ensures
        match state {
            ReadState::Idle => state@ == ReadModel::<F>::Idle,
            ReadState::ReadingHeader { bytes, fds } => state@ == (ReadModel::Header {
                bytes: bytes@,
                fds: fds@,
            }),
            ReadState::ReadingBody(body) => state@ == ReadModel::Body(body@),
        },
{
}

/// Law: polled without news, a reading end asks for the bytes that are missing: of a header at
/// first, then of the body; it delivers a body that lacks nothing.
pub proof fn lemma_read_poll<F>(state: ReadModel<F>)
    ensures
        match state {
            ReadModel::Idle => state.step(ReadInput::Resume) == (
                (ReadModel::Header { bytes: Seq::<u8>::empty(), fds: Seq::<F>::empty() }),
                (ReadOutcome::<F>::Recv { limit: 8 }),
            ),
            ReadModel::Header { bytes, .. } => state.step(ReadInput::Resume) == (
                state,
                (ReadOutcome::<F>::Recv { limit: 8 - bytes.len() }),
            ),
            ReadModel::Body(body) => state.step(ReadInput::Resume) == (if body.bytes.len()
                >= body.frame_length && body.fds.len() >= body.fd_count {
                (
                    ReadModel::<F>::Idle,
                    (ReadOutcome::Deliver { body: body.bytes, fds: body.fds.take(body.fd_count) }),
                )
            } else {
                (
                    state,
                    (ReadOutcome::<F>::Recv { limit: body.frame_length - body.bytes.len() }),
                )
            }),
        },
{
}

/// Law: bytes of a header are added to those that have come. As soon as there are eight, the
/// first four have the length of the body as their big-endian value and the next four the number
/// of descriptors; what exceeds the limits is refused with its number, what is complete is
/// delivered, and of the rest the bytes that are missing are asked for.
pub proof fn lemma_read_header<F>(bytes: Seq<u8>, fds: Seq<F>, chunk: Chunk<F>)
    requires
        bytes.len() < 8,
        chunk.data.len() > 0,
    ensures
        ({
            let next = (ReadModel::Header { bytes, fds }).step(ReadInput::Received(chunk));
            let all = bytes + chunk.data;
            let got = fds + chunk.fds;
            let length = all[0] * 0x100_0000 + all[1] * 0x1_0000 + all[2] * 0x100 + all[3];
            let count = all[4] * 0x100_0000 + all[5] * 0x1_0000 + all[6] * 0x100 + all[7];
            if all.len() < 8 {
                next == (
                    (ReadModel::Header { bytes: all, fds: got }),
                    (ReadOutcome::<F>::Recv { limit: 8 - all.len() }),
                )
            } else if length > 0x100_0000 {
                next == (
                    ReadModel::<F>::Idle,
                    ReadOutcome::<F>::Fail(
                        TransportError::FrameTooLarge { length: length as usize },
                    ),
                )
            } else if count > 253 {
                next == (
                    ReadModel::<F>::Idle,
                    ReadOutcome::<F>::Fail(
                        TransportError::TooManyFdsAnnounced { count: count as usize },
                    ),
                )
            } else if all.len() - 8 >= length && got.len() >= count {
                next == (
                    ReadModel::<F>::Idle,
                    (ReadOutcome::Deliver { body: all.skip(8), fds: got.take(count) }),
                )
            } else {
                next == (
                    ReadModel::Body(
                        BodyModel {
                            frame_length: length,
                            fd_count: count,
                            bytes: all.skip(8),
                            fds: got,
                        },
                    ),
                    (ReadOutcome::<F>::Recv { limit: length - (all.len() - 8) }),
                )
            }
        }),
{
    if bytes.len() + chunk.data.len() >= 8 {
        crate::fd_codec::lemma_header_on_the_wire(bytes + chunk.data);
    }
}

/// Law: bytes of a body are added to those that have come. When none is missing, and no
/// descriptor, the body is delivered with as many descriptors as were announced; until then the
/// bytes that are missing are asked for.
pub proof fn lemma_read_body<F>(body: BodyModel<F>, chunk: Chunk<F>)
    requires
        chunk.data.len() > 0,
    ensures
        ({
            let next = ReadModel::Body(body).step(ReadInput::Received(chunk));
            let all = body.bytes + chunk.data;
            let got = body.fds + chunk.fds;
            if all.len() >= body.frame_length && got.len() >= body.fd_count {
                next == (
                    ReadModel::<F>::Idle,
                    (ReadOutcome::Deliver { body: all, fds: got.take(body.fd_count) }),
                )
            } else {
                next == (
                    ReadModel::Body(
                        BodyModel {
                            frame_length: body.frame_length,
                            fd_count: body.fd_count,
                            bytes: all,
                            fds: got,
                        },
                    ),
                    (ReadOutcome::<F>::Recv { limit: body.frame_length - all.len() }),
                )
            }
        }),
{
}

/// Law: no bytes are the end of the stream to a header, and an error to a body. A failed call is
/// reported as it is. Only a failure to wait while no body is being read leaves what has come.
pub proof fn lemma_read_breaks<F>(state: ReadModel<F>, fds: Seq<F>, error: std::io::Error)
    ensures
        state is Header ==> state.step(
            ReadInput::Received(Chunk { data: Seq::<u8>::empty(), fds }),
        ) == (ReadModel::<F>::Idle, ReadOutcome::<F>::End),
        state is Body ==> state.step(
            ReadInput::Received(Chunk { data: Seq::<u8>::empty(), fds }),
        ) == (
            ReadModel::<F>::Idle,
            ReadOutcome::<F>::Fail(TransportError::UnexpectedEof),
        ),
        state.step(ReadInput::RecvFailed(error)) == (
            ReadModel::<F>::Idle,
            ReadOutcome::<F>::Fail(TransportError::Io(error)),
        ),
        state.step(ReadInput::ReadyFailed(error)) == (
            if state is Body {
                ReadModel::<F>::Idle
            } else {
                state
            },
            ReadOutcome::<F>::Fail(TransportError::Io(error)),
        ),
{
}

/// Law: whatever is reported, a reading end that asks for more asks for just the bytes that are
/// missing, which is what it asks for when it is polled again.
pub proof fn lemma_read_limit<F>(state: ReadModel<F>, input: ReadInput<F>)
    requires
        !(state is Idle && input is Received),
    ensures
        state.step(input).1 is Recv ==> {
            let (next, outcome) = state.step(input);
            &&& outcome == next.step(ReadInput::Resume).1
            &&& next == next.step(ReadInput::Resume).0
            &&& match next {
                ReadModel::Idle => false,
                ReadModel::Header { bytes, .. } => outcome == (ReadOutcome::<F>::Recv {
                    limit: 8 - bytes.len(),
                }),
                ReadModel::Body(body) => outcome == (ReadOutcome::<F>::Recv {
                    limit: body.frame_length - body.bytes.len(),
                }),
            }
        },
{
}

/// Law: a reading end that has asked for bytes takes in whatever a receive call gives that does
/// not reach beyond the frame that is being read, so all that it has asked for; and every other
/// report at any time.
pub proof fn lemma_read_accepts<F>(state: ReadModel<F>, chunk: Chunk<F>, error: std::io::Error)
    ensures
        match state {
            ReadModel::Idle => !state.accepts(ReadInput::Received(chunk)),
            ReadModel::Header { bytes, .. } => {
                let all = bytes + chunk.data;
                let length = all[0] * 0x100_0000 + all[1] * 0x1_0000 + all[2] * 0x100 + all[3];
                let count = all[4] * 0x100_0000 + all[5] * 0x1_0000 + all[6] * 0x100 + all[7];
                &&& all.len() <= 8 ==> state.accepts(ReadInput::Received(chunk))
                &&& all.len() > 8 ==> (state.accepts(ReadInput::Received(chunk)) <==> length
                    > 0x100_0000 || count > 253 || all.len() - 8 <= length)
            },
            ReadModel::Body(body) => state.accepts(ReadInput::Received(chunk))
                <==> body.bytes.len() + chunk.data.len() <= body.frame_length,
        },
        state.accepts(ReadInput::Resume),
        state.accepts(ReadInput::ReadyFailed(error)),
        state.accepts(ReadInput::RecvFailed(error)),
{
    if let ReadModel::Header { bytes, .. } = state {
        if bytes.len() + chunk.data.len() >= 8 {
            crate::fd_codec::lemma_header_on_the_wire(bytes + chunk.data);
        }
    }
}

/// Law: a reader of one frame first asks for eight bytes, and for those only in one piece. The
/// first four have the length of the body as their big-endian value and the next four the number
/// of descriptors; what exceeds the limits is refused with its number, what is complete is
/// delivered, and of the rest the bytes that are missing are asked for.
pub proof fn lemma_receiver_header<F>(chunk: Chunk<F>)
    ensures
        receiver_limit(None::<BodyModel<F>>) == 8,
        chunk.data.len() <= 8 ==> receiver_accepts(None, chunk),
        chunk.data.len() > 8 ==> (receiver_accepts(None, chunk) <==> {
            let all = chunk.data;
            let length = all[0] * 0x100_0000 + all[1] * 0x1_0000 + all[2] * 0x100 + all[3];
            let count = all[4] * 0x100_0000 + all[5] * 0x1_0000 + all[6] * 0x100 + all[7];
            length > 0x100_0000 || count > 253 || all.len() - 8 <= length
        }),
        ({
            let next = receiver_step(None, chunk);
            let all = chunk.data;
            let length = all[0] * 0x100_0000 + all[1] * 0x1_0000 + all[2] * 0x100 + all[3];
            let count = all[4] * 0x100_0000 + all[5] * 0x1_0000 + all[6] * 0x100 + all[7];
            if all.len() == 0 {
                next == (None::<BodyModel<F>>, ReadOutcome::<F>::End)
            } else if all.len() < 8 {
                next == (
                    None::<BodyModel<F>>,
                    ReadOutcome::<F>::Fail(TransportError::IncompleteHeader),
                )
            } else if length > 0x100_0000 {
                next == (
                    None::<BodyModel<F>>,
                    ReadOutcome::<F>::Fail(
                        TransportError::FrameTooLarge { length: length as usize },
                    ),
                )
            } else if count > 253 {
                next == (
                    None::<BodyModel<F>>,
                    ReadOutcome::<F>::Fail(
                        TransportError::TooManyFdsAnnounced { count: count as usize },
                    ),
                )
            } else if all.len() - 8 >= length && chunk.fds.len() >= count {
                next == (
                    None::<BodyModel<F>>,
                    (ReadOutcome::Deliver { body: all.skip(8), fds: chunk.fds.take(count) }),
                )
            } else {
                next == (
                    Some(
                        BodyModel {
                            frame_length: length,
                            fd_count: count,
                            bytes: all.skip(8),
                            fds: chunk.fds,
                        },
                    ),
                    (ReadOutcome::<F>::Recv { limit: length - (all.len() - 8) }),
                )
            }
        }),
{
    if chunk.data.len() >= 8 {
        crate::fd_codec::lemma_header_on_the_wire(chunk.data);
    }
}

/// Law: behind the header, a reader of one frame asks for the bytes that are missing, adds those
/// that come, and delivers when none is missing, and no descriptor. No bytes are an error.
pub proof fn lemma_receiver_body<F>(body: BodyModel<F>, chunk: Chunk<F>)
    ensures
        receiver_limit(Some(body)) == body.frame_length - body.bytes.len(),
        receiver_accepts(Some(body), chunk) <==> body.bytes.len() + chunk.data.len()
            <= body.frame_length,
        ({
            let next = receiver_step(Some(body), chunk);
            let all = body.bytes + chunk.data;
            let got = body.fds + chunk.fds;
            if chunk.data.len() == 0 {
                next == (
                    None::<BodyModel<F>>,
                    ReadOutcome::<F>::Fail(TransportError::UnexpectedEof),
                )
            } else if all.len() >= body.frame_length && got.len() >= body.fd_count {
                next == (
                    None::<BodyModel<F>>,
                    (ReadOutcome::Deliver { body: all, fds: got.take(body.fd_count) }),
                )
            } else {
                next == (
                    Some(
                        BodyModel {
                            frame_length: body.frame_length,
                            fd_count: body.fd_count,
                            bytes: all,
                            fds: got,
                        },
                    ),
                    (ReadOutcome::<F>::Recv { limit: body.frame_length - all.len() }),
                )
            }
        }),
{
}

/// Law: a writing end has to send the bytes of its frame behind those that were sent, and its
/// descriptors if they were not. Any number of bytes that a send call can take of them can be
/// counted.
pub proof fn lemma_write_state_view<F>(state: WriteState<F>, n: usize)
    ensures
        match state {
            WriteState::Idle => {
                &&& state@ == WriteModel::<F>::Idle
                &&& state@.rest() == Seq::<u8>::empty()
                &&& state@.fds() == Seq::<F>::empty()
                &&& state.can_count(n)
            },
            WriteState::Sending { data, pos, fds, fds_sent } => {
                &&& state@ is Sending
                &&& pos <= data@.len() ==> state@.rest() == data@.skip(pos as int)
                &&& pos > data@.len() ==> state@.rest() == Seq::<u8>::empty()
                &&& state@.fds() == (if fds_sent {
                    Seq::<F>::empty()
                } else {
                    fds@
                })
                &&& pos + n <= data@.len() ==> state.can_count(n)
            },
        },
{
}

/// Law: polled without news, a writing end wants a send call if and only if bytes are pending,
/// and keeps them and its descriptors for it. If none is, the flush is done and it is ready for a
/// new message.
pub proof fn lemma_write_poll<F>(rest: Seq<u8>, fds: Seq<F>)
    ensures
        WriteModel::<F>::Idle.step(WriteEvent::Resume) == (
            WriteModel::<F>::Idle,
            WriteAction::Done,
        ),
        (WriteModel::Sending { rest, fds }).rest() == rest,
        (WriteModel::Sending { rest, fds }).fds() == fds,
        (WriteModel::Sending { rest, fds }).step(WriteEvent::Resume) == (if rest.len() > 0 {
            ((WriteModel::Sending { rest, fds }), WriteAction::Send)
        } else {
            (WriteModel::<F>::Idle, WriteAction::Done)
        }),
{
}

/// Law: a send call that takes some of the pending bytes leaves the bytes behind them, and no
/// descriptors. If bytes are left another send call is wanted, else the flush is done. A call
/// that takes none is an error.
pub proof fn lemma_write_sent<F>(rest: Seq<u8>, fds: Seq<F>, n: usize)
    requires
        n <= rest.len(),
    ensures
        (WriteModel::Sending { rest, fds }).step(WriteEvent::Sent(n)) == (if n == 0 {
            (WriteModel::<F>::Idle, WriteAction::Fail(TransportError::WriteZero))
        } else if n < rest.len() {
            (
                (WriteModel::Sending { rest: rest.skip(n as int), fds: Seq::<F>::empty() }),
                WriteAction::Send,
            )
        } else {
            (WriteModel::<F>::Idle, WriteAction::Done)
        }),
{
}

/// Law: a failed call is reported as it is, and gives the message up.
pub proof fn lemma_write_breaks<F>(state: WriteModel<F>, error: std::io::Error)
    ensures
        state.step(WriteEvent::ReadyFailed(error)) == (
            WriteModel::<F>::Idle,
            WriteAction::Fail(TransportError::Io(error)),
        ),
        state.step(WriteEvent::SendFailed(error)) == (
            WriteModel::<F>::Idle,
            WriteAction::Fail(TransportError::Io(error)),
        ),
{
}

/// Law: a writing end says that the flush is done only if nothing is left to be sent, and wants a
/// send call whenever, without a failure, something is.
pub proof fn lemma_write_action<F>(state: WriteModel<F>, event: WriteEvent)
    ensures
        ({
            let (next, action) = state.step(event);
            &&& action is Done ==> next == WriteModel::<F>::Idle
            &&& action is Send <==> next.rest().len() > 0
            &&& action is Fail <==> (event is ReadyFailed || event is SendFailed || event
                == WriteEvent::Sent(0))
        }),
{
}

} // verus!
