//! Sending and receiving bytes together with descriptors.
//!
//! The system calls themselves (`sendmsg`, `recvmsg`) are left to the caller. This module
//! decides what goes into them and what comes out: the control message that carries the
//! descriptors, the message that was received, and the progress of a send that takes several
//! calls.

use vstd::prelude::*;

use crate::error::TransportError;
use crate::fd::{Descriptor, RawFd};

verus! {

broadcast use vstd::seq_lib::group_seq_properties;

/// A message containing data and optional file descriptors.
#[derive(Debug)]
pub struct FdMessage<F> {
    /// The data payload.
    pub data: Vec<u8>,
    /// File descriptors received with this message.
    pub fds: Vec<F>,
}

/// Bytes that travel in one piece, and the descriptors that travel with them.
#[verifier::ext_equal]
pub struct Chunk<F> {
    pub data: Seq<u8>,
    pub fds: Seq<F>,
}

impl<F> View for FdMessage<F> {
    type V = Chunk<F>;

    open spec fn view(&self) -> Chunk<F> {
        Chunk { data: self.data@, fds: self.fds@ }
    }
}

impl<F> FdMessage<F> {
    /// Creates a new FdMessage with data only.
    pub fn new(data: Vec<u8>) -> (msg: Self)
        ensures
            msg@ == (Chunk { data: data@, fds: Seq::<F>::empty() }),
            msg.data@ == data@,
            msg.fds@ == Seq::<F>::empty(),
    {
        FdMessage { data, fds: Vec::new() }
    }

    /// Creates a new FdMessage with data and file descriptors.
    pub fn with_fds(data: Vec<u8>, fds: Vec<F>) -> (msg: Self)
        ensures
            msg@ == (Chunk { data: data@, fds: fds@ }),
            msg.data@ == data@,
            msg.fds@ == fds@,
    {
        FdMessage { data, fds }
    }

    /// The message that a receive call has left in `buf`: its first `bytes_read` bytes, with
    /// the descriptors that came along.
    pub fn received(buf: &[u8], bytes_read: usize, fds: Vec<F>) -> (msg: Self)
        requires
            bytes_read <= buf.len(),
        ensures
            msg@ == (Chunk { data: buf@.take(bytes_read as int), fds: fds@ }),
            msg.data@ == buf@.take(bytes_read as int),
            msg.fds@ == fds@,
    {
        let data: Vec<u8> = vstd::slice::slice_to_vec(
            vstd::slice::slice_subrange(buf, 0, bytes_read),
        );
        FdMessage { data, fds }
    }
}

/// The bytes of all chunks, in order.
pub open spec fn all_data<F>(chunks: Seq<Chunk<F>>) -> Seq<u8>
    decreases chunks.len(),
{
    if chunks.len() == 0 {
        Seq::empty()
    } else {
        chunks[0].data + all_data(chunks.drop_first())
    }
}

/// The descriptors of all chunks, in order.
pub open spec fn all_fds<F>(chunks: Seq<Chunk<F>>) -> Seq<F>
    decreases chunks.len(),
{
    if chunks.len() == 0 {
        Seq::empty()
    } else {
        chunks[0].fds + all_fds(chunks.drop_first())
    }
}

/// The size of a descriptor number in a control message.
pub const RAW_FD_SIZE: usize = 4;

/// The constants of the platform that mark a control message as one that carries descriptors.
#[derive(Debug, Clone, Copy, PartialEq, Eq, Structural)]
pub struct ControlLayout {
    /// The level of such a message (`SOL_SOCKET`).
    pub level: i32,
    /// The type of such a message (`SCM_RIGHTS`).
    pub kind: i32,
    /// The size of the header before the payload (`cmsghdr`).
    pub header_size: usize,
}

/// A control message as it is received.
#[derive(Debug)]
pub struct ControlMessage {
    /// The level in its header.
    pub level: i32,
    /// The type in its header.
    pub kind: i32,
    /// The length in its header, which counts the header too.
    pub len: usize,
    /// The descriptor numbers in its payload, as many as [`ControlLayout::fd_count`] says.
    pub words: Vec<RawFd>,
}

/// A control message that carries descriptors, as it is to be sent.
#[derive(Debug)]
pub struct RightsMessage {
    /// The level for its header.
    pub level: i32,
    /// The type for its header.
    pub kind: i32,
    /// The length of its payload.
    pub payload_len: u32,
    /// The descriptor numbers that make up its payload.
    pub words: Vec<RawFd>,
}

impl ControlLayout {
    /// Whether a control message carries descriptors.
    pub open spec fn carries_fds(self, level: i32, kind: i32) -> bool {
        level == self.level && kind == self.kind
    }

    /// How many descriptors a control message carries.
    pub open spec fn count_of(self, level: i32, kind: i32, len: usize) -> int {
        if self.carries_fds(level, kind) {
            (len - self.header_size) / RAW_FD_SIZE as int
        } else {
            0
        }
    }

    /// The descriptor numbers in a sequence of control messages, in order.
    pub open spec fn rights_in(self, messages: Seq<ControlMessage>) -> Seq<RawFd>
        decreases messages.len(),
    {
        if messages.len() == 0 {
            Seq::empty()
        } else {
            let last = messages.last();
            self.rights_in(messages.drop_last()) + last.words@.take(
                self.count_of(last.level, last.kind, last.len),
            )
        }
    }

    /// Whether the header of a received control message and its payload fit together.
    pub open spec fn fits(self, message: ControlMessage) -> bool {
        &&& self.carries_fds(message.level, message.kind) ==> message.len >= self.header_size
        &&& self.count_of(message.level, message.kind, message.len) <= message.words@.len()
    }

    /// How many descriptors to read from the payload of a received control message: as many as
    /// its length leaves room for, none if it is about something else.
    pub fn fd_count(&self, level: i32, kind: i32, len: usize) -> (count: usize)
        requires
            self.carries_fds(level, kind) ==> len >= self.header_size,
        ensures
            count == self.count_of(level, kind, len),
            level == self.level && kind == self.kind ==> 4 * count <= len - self.header_size < 4
                * count + 4,
            !(level == self.level && kind == self.kind) ==> count == 0,
    {
        if level == self.level && kind == self.kind {
            (len - self.header_size) / RAW_FD_SIZE
        } else {
            0
        }
    }

    /// Collects the descriptors from the control messages that came with one receive call.
    pub fn received_fds(&self, messages: &Vec<ControlMessage>) -> (fds: Vec<RawFd>)
        requires
            forall|i: int| 0 <= i < messages.len() ==> self.fits(#[trigger] messages@[i]),
        ensures
            fds@ == self.rights_in(messages@),
    {
        let mut fds: Vec<RawFd> = Vec::new();
        let mut i: usize = 0;
        while i < messages.len()
            invariant
                i <= messages.len(),
                forall|i: int| 0 <= i < messages.len() ==> self.fits(#[trigger] messages@[i]),
                fds@ == self.rights_in(messages@.take(i as int)),
            decreases messages.len() - i,
        {
            assert(self.fits(messages@[i as int]));
            let message: &ControlMessage = &messages[i];
            let count: usize = self.fd_count(message.level, message.kind, message.len);
            let ghost before = fds@;
            let mut k: usize = 0;
            while k < count
                invariant
                    k <= count <= message.words.len(),
                    fds@ == before + message.words@.take(k as int),
                decreases count - k,
            {
                fds.push(message.words[k]);
                k = k + 1;
                assert(fds@ =~= before + message.words@.take(k as int));
            }
            i = i + 1;
            assert(messages@.take(i as int).drop_last() =~= messages@.take(i - 1));
        }
        assert(messages@.take(i as int) =~= messages@);
        fds
    }

    /// The control message that carries `fds`, `None` if there are none to carry.
    pub fn rights_message<F: Descriptor>(&self, fds: &[F]) -> (message: Option<RightsMessage>)
        requires
            fds.len() * RAW_FD_SIZE <= u32::MAX,
        ensures
            message is Some <==> fds.len() > 0,
            message matches Some(m) ==> {
                &&& m.level == self.level
                &&& m.kind == self.kind
                &&& m.payload_len == fds.len() * RAW_FD_SIZE
                &&& m.words@ == numbers(fds@)
                &&& m.payload_len == 4 * fds.len()
                &&& m.words.len() == fds.len()
                &&& forall|i: int|
                    0 <= i < fds.len() ==> #[trigger] m.words@[i] == fds@[i].number()
            },
    {
        if fds.len() > 0 {
            Some(
                RightsMessage {
                    level: self.level,
                    kind: self.kind,
                    payload_len: (fds.len() * RAW_FD_SIZE) as u32,
                    words: raw_numbers(fds),
                },
            )
        } else {
            None
        }
    }
}

/// The descriptor numbers of a list of handles.
pub open spec fn numbers<F: Descriptor>(fds: Seq<F>) -> Seq<RawFd> {
    fds.map_values(|fd: F| fd.number())
}

/// Looks up the descriptor number of each handle.
pub fn raw_numbers<F: Descriptor>(fds: &[F]) -> (raw: Vec<RawFd>)
    ensures
        raw@ == numbers(fds@),
        raw.len() == fds.len(),
        forall|i: int| 0 <= i < fds.len() ==> #[trigger] raw@[i] == fds@[i].number(),
{
    let mut raw: Vec<RawFd> = Vec::with_capacity(fds.len());
    let mut i: usize = 0;
    while i < fds.len()
        invariant
            i <= fds.len(),
            raw@ == numbers(fds@.take(i as int)),
        decreases fds.len() - i,
    {
        raw.push(fds[i].as_raw_fd());
        i = i + 1;
        assert(raw@ =~= numbers(fds@.take(i as int)));
    }
    assert(fds@.take(i as int) =~= fds@);
    raw
}

/// Law: the descriptors of a control message that is built for sending are those that are read
/// from it when it arrives with the length that its payload gives it.
pub proof fn lemma_rights_round_trip<F: Descriptor>(
    layout: ControlLayout,
    fds: Seq<F>,
    arrived: ControlMessage,
)
    requires
        fds.len() > 0,
        arrived.level == layout.level,
        arrived.kind == layout.kind,
        arrived.len == layout.header_size + fds.len() * RAW_FD_SIZE,
        arrived.words@ == numbers(fds),
    ensures
        layout.fits(arrived),
        layout.rights_in(seq![arrived]) == numbers(fds),
{
    assert((fds.len() * RAW_FD_SIZE) / RAW_FD_SIZE as int == fds.len());
    assert(seq![arrived].drop_last() =~= Seq::<ControlMessage>::empty());
    reveal_with_fuel(ControlLayout::rights_in, 2);
    assert(layout.rights_in(seq![arrived]) =~= numbers(fds));
}

/// What to do next in order to send all of some data.
#[derive(Debug, Clone, Copy, PartialEq, Eq, Structural)]
pub enum SendAction {
    /// All data has been sent.
    Done,
    /// Send the data from `from` on, with the descriptors if `with_fds` says so.
    Send { from: usize, with_fds: bool },
}

/// The progress of sending `len` bytes and some descriptors in as many calls as it takes.
///
/// The descriptors go with the first call only.
#[derive(Debug)]
pub struct SendAll {
    len: usize,
    pos: usize,
    fds_sent: bool,
}

/// How many bytes there are and how many of them have been sent, and whether the descriptors
/// have been.
#[verifier::ext_equal]
pub struct SendAllModel {
    pub len: nat,
    pub pos: nat,
    pub fds_sent: bool,
}

impl SendAllModel {
    /// The next call to make.
    pub open spec fn action(self) -> SendAction {
        if self.pos == self.len {
            SendAction::Done
        } else {
            SendAction::Send { from: self.pos as usize, with_fds: !self.fds_sent }
        }
    }

    /// The progress once the next call has been decided on.
    pub open spec fn decided(self) -> SendAllModel {
        SendAllModel { fds_sent: self.fds_sent || self.pos != self.len, ..self }
    }

    /// The progress once a call has sent `n` bytes.
    pub open spec fn advanced(self, n: int) -> SendAllModel {
        SendAllModel { pos: (self.pos + n) as nat, ..self }
    }

    /// What the socket is given if one call after the other takes as many bytes as `counts`
    /// says.
    pub open spec fn transmitted<F>(
        self,
        data: Seq<u8>,
        fds: Seq<F>,
        counts: Seq<int>,
    ) -> Seq<Chunk<F>>
        decreases counts.len(),
    {
        if counts.len() == 0 {
            Seq::empty()
        } else {
            match self.action() {
                SendAction::Done => Seq::empty(),
                SendAction::Send { from, with_fds } => seq![
                    Chunk {
                        data: data.subrange(from as int, from + counts[0]),
                        fds: if with_fds {
                            fds
                        } else {
                            Seq::empty()
                        },
                    },
                ] + self.decided().advanced(counts[0]).transmitted(data, fds, counts.drop_first()),
            }
        }
    }
}

impl View for SendAll {
    type V = SendAllModel;

    closed spec fn view(&self) -> SendAllModel {
        SendAllModel { len: self.len as nat, pos: self.pos as nat, fds_sent: self.fds_sent }
    }
}

impl SendAll {
    /// No more has been sent than there is.
    pub open spec fn wf(&self) -> bool {
        self@.pos <= self@.len
    }

    /// Begins to send `len` bytes.
    pub fn new(len: usize) -> (progress: Self)
        ensures
            progress.wf(),
            progress@ == (SendAllModel { len: len as nat, pos: 0, fds_sent: false }),
    {
        SendAll { len, pos: 0, fds_sent: false }
    }

    /// Decides on the next call. From then on the descriptors count as sent.
    pub fn next(&mut self) -> (action: SendAction)
        requires
            old(self).wf(),
        ensures
            final(self).wf(),
            action == old(self)@.action(),
            final(self)@ == old(self)@.decided(),
            action is Done <==> old(self)@.pos == old(self)@.len,
            action matches SendAction::Send { from, with_fds } ==> from == old(self)@.pos
                && with_fds == !old(self)@.fds_sent,
            final(self)@.len == old(self)@.len,
            final(self)@.pos == old(self)@.pos,
            final(self)@.fds_sent == (old(self)@.fds_sent || action is Send),
    {
        if self.pos < self.len {
            let with_fds: bool = !self.fds_sent;
            self.fds_sent = true;
            SendAction::Send { from: self.pos, with_fds }
        } else {
            SendAction::Done
        }
    }

    /// Records that the call has sent `sent` bytes. A call that sends nothing is an error.
    pub fn sent(&mut self, sent: usize) -> (recorded: Result<(), TransportError>)
        requires
            old(self).wf(),
            sent <= old(self)@.len - old(self)@.pos,
        ensures
            final(self).wf(),
            recorded == (if sent == 0 {
                Err::<(), TransportError>(TransportError::WriteZero)
            } else {
                Ok::<(), TransportError>(())
            }),
            final(self)@ == old(self)@.advanced(sent as int),
            final(self)@.len == old(self)@.len,
            final(self)@.pos == old(self)@.pos + sent,
            final(self)@.fds_sent == old(self)@.fds_sent,
    {
        if sent == 0 {
            return Err(TransportError::WriteZero);
        }
        self.pos = self.pos + sent;
        Ok(())
    }
}

/// The sum of a sequence of byte counts.
pub open spec fn total(counts: Seq<int>) -> int
    decreases counts.len(),
{
    if counts.len() == 0 {
        0
    } else {
        counts[0] + total(counts.drop_first())
    }
}

/// Law: however many bytes each call takes, the socket is given the data that is left, in
/// order, once; and the descriptors, if they have not been sent, once, with the first bytes. Then
/// nothing more is to be done.
pub proof fn lemma_send_all_complete<F>(
    progress: SendAllModel,
    data: Seq<u8>,
    fds: Seq<F>,
    counts: Seq<int>,
)
    requires
        progress.len == data.len() <= usize::MAX,
        progress.pos <= progress.len,
        forall|i: int| 0 <= i < counts.len() ==> #[trigger] counts[i] > 0,
        total(counts) == progress.len - progress.pos,
    ensures
        ({
            let chunks = progress.transmitted(data, fds, counts);
            &&& all_data(chunks) == data.skip(progress.pos as int)
            &&& chunks.len() == counts.len()
            &&& forall|i: int|
                0 <= i < chunks.len() ==> (#[trigger] chunks[i]).fds == (if i == 0
                    && !progress.fds_sent {
                    fds
                } else {
                    Seq::empty()
                })
        }),
        (SendAllModel {
            len: progress.len,
            pos: (progress.pos + total(counts)) as nat,
            fds_sent: progress.fds_sent || counts.len() > 0,
        }).action() is Done,
    decreases counts.len(),
{
    let chunks = progress.transmitted(data, fds, counts);
    if counts.len() == 0 {
        assert(all_data(chunks) =~= data.skip(progress.pos as int));
    } else {
        let rest = counts.drop_first();
        assert(counts[0] > 0);
        assert forall|i: int| 0 <= i < rest.len() implies #[trigger] rest[i] > 0 by {
            assert(counts[i + 1] > 0);
        }
        lemma_total_not_negative(rest);
        let after = progress.decided().advanced(counts[0]);
        lemma_send_all_complete(after, data, fds, rest);
        let others = after.transmitted(data, fds, rest);
        assert(chunks.drop_first() =~= others);
        assert(all_data(chunks) =~= data.skip(progress.pos as int));
        assert forall|i: int| 1 <= i < chunks.len() implies (#[trigger] chunks[i]).fds
            == Seq::<F>::empty() by {
            assert(chunks[i] == others[i - 1]);
        }
    }
}

/// Counts that are all positive do not sum up to less than nothing.
pub proof fn lemma_total_not_negative(counts: Seq<int>)
    requires
        forall|i: int| 0 <= i < counts.len() ==> #[trigger] counts[i] > 0,
    ensures
        total(counts) >= counts.len(),
    decreases counts.len(),
{
    if counts.len() > 0 {
        let rest = counts.drop_first();
        assert(counts[0] > 0);
        assert forall|i: int| 0 <= i < rest.len() implies #[trigger] rest[i] > 0 by {
            assert(counts[i + 1] > 0);
        }
        lemma_total_not_negative(rest);
    }
}

/// The path of a socket's address, or the error for a socket that has none.
pub fn require_pathname<P>(path: Option<P>) -> (named: Result<P, TransportError>)
    ensures
        named == (match path {
            Some(p) => Ok::<P, TransportError>(p),
            None => Err::<P, TransportError>(TransportError::UnnamedSocket),
        }),
{
    match path {
        Some(path) => Ok(path),
        None => Err(TransportError::UnnamedSocket),
    }
}

/// Law: bytes and descriptors of a received message are what its fields hold.
pub proof fn lemma_message_view<F>(msg: FdMessage<F>)
    ensures
        msg@.data == msg.data@,
        msg@.fds == msg.fds@,
{
}

/// Law: a list of handles has as many numbers as handles, and the number at each position is that
/// of the handle there. So the first word of a control message is the number of the first handle
/// that is sent, and the receiver gets the descriptors in the order in which they were sent.
pub proof fn lemma_numbers_in_order<F: Descriptor>(fds: Seq<F>)
    ensures
        numbers(fds).len() == fds.len(),
        forall|i: int| 0 <= i < fds.len() ==> #[trigger] numbers(fds)[i] == fds[i].number(),
{
}

/// Law: what arrives of a control message whose words are the numbers of the handles that were
/// sent, and whose length says how many they are, is read as these numbers, place by place.
pub proof fn lemma_rights_in_order<F: Descriptor>(
    layout: ControlLayout,
    fds: Seq<F>,
    arrived: ControlMessage,
)
    requires
        arrived.level == layout.level,
        arrived.kind == layout.kind,
        arrived.len == layout.header_size + 4 * fds.len(),
        arrived.words@.len() == fds.len(),
        forall|i: int| 0 <= i < fds.len() ==> #[trigger] arrived.words@[i] == fds[i].number(),
    ensures
        layout.rights_in(seq![arrived]).len() == fds.len(),
        forall|i: int|
            0 <= i < fds.len() ==> #[trigger] layout.rights_in(seq![arrived])[i]
                == fds[i].number(),
{
    assert(seq![arrived].drop_last() =~= Seq::<ControlMessage>::empty());
    reveal_with_fuel(ControlLayout::rights_in, 2);
    assert(layout.rights_in(seq![arrived]) =~= arrived.words@);
}

/// Law: a control message is about descriptors if its level and type are those of the layout. It
/// then holds one for every four bytes of its payload, and none otherwise. Only one about
/// descriptors can fail to fit, by a length without room for the header or for more words than
/// there are.
pub proof fn lemma_control_count(layout: ControlLayout, message: ControlMessage)
    ensures
        ({
            let count = layout.count_of(message.level, message.kind, message.len);
            let payload = message.len - layout.header_size;
            if message.level == layout.level && message.kind == layout.kind {
                &&& layout.carries_fds(message.level, message.kind)
                &&& 4 * count <= payload < 4 * count + 4
                &&& layout.fits(message) <==> payload >= 0 && count <= message.words@.len()
            } else {
                &&& !layout.carries_fds(message.level, message.kind)
                &&& count == 0
                &&& layout.fits(message)
            }
        }),
{
}

/// Law: no control messages hold no descriptors, and one more message adds, behind those of the
/// others, the first of its words that its length leaves room for, if it is about descriptors.
pub proof fn lemma_rights_push(
    layout: ControlLayout,
    messages: Seq<ControlMessage>,
    more: ControlMessage,
)
    ensures
        layout.rights_in(Seq::<ControlMessage>::empty()) == Seq::<RawFd>::empty(),
        layout.rights_in(messages.push(more)) == layout.rights_in(messages) + (if more.level
            == layout.level && more.kind == layout.kind {
            more.words@.take((more.len - layout.header_size) / 4)
        } else {
            Seq::empty()
        }),
{
    assert(messages.push(more).drop_last() =~= messages);
    if !(more.level == layout.level && more.kind == layout.kind) {
        assert(more.words@.take(0) =~= Seq::<RawFd>::empty());
    }
}

/// Law: of bytes that are sent in several calls, the next call is owed the rest, with the
/// descriptors if it is the first. Nothing more is owed if and only if all have been sent. The
/// decision for a call counts the descriptors as sent, and a call counts its bytes.
pub proof fn lemma_send_all_owed(progress: SendAllModel, n: nat)
    requires
        progress.pos <= progress.len <= usize::MAX,
    ensures
        progress.action() is Done <==> progress.pos == progress.len,
        progress.pos < progress.len ==> progress.action() == (SendAction::Send {
            from: progress.pos as usize,
            with_fds: !progress.fds_sent,
        }),
        progress.decided().len == progress.len,
        progress.decided().pos == progress.pos,
        progress.decided().fds_sent == (progress.fds_sent || progress.pos < progress.len),
        progress.advanced(n as int).len == progress.len,
        progress.advanced(n as int).pos == progress.pos + n,
        progress.advanced(n as int).fds_sent == progress.fds_sent,
{
}

/// Law: no chunks have no bytes and no descriptors, and one more chunk adds its own behind those
/// of the others.
pub proof fn lemma_all_push<F>(chunks: Seq<Chunk<F>>, more: Chunk<F>)
    ensures
        all_data(Seq::<Chunk<F>>::empty()) == Seq::<u8>::empty(),
        all_fds(Seq::<Chunk<F>>::empty()) == Seq::<F>::empty(),
        all_data(chunks.push(more)) == all_data(chunks) + more.data,
        all_fds(chunks.push(more)) == all_fds(chunks) + more.fds,
    decreases chunks.len(),
{
    let longer = chunks.push(more);
    if chunks.len() == 0 {
        assert(longer.drop_first() =~= Seq::<Chunk<F>>::empty());
        assert(all_data(longer.drop_first()) =~= Seq::<u8>::empty());
        assert(all_fds(longer.drop_first()) =~= Seq::<F>::empty());
    } else {
        lemma_all_push(chunks.drop_first(), more);
        assert(longer.drop_first() =~= chunks.drop_first().push(more));
    }
    assert(all_data(longer) =~= all_data(chunks) + more.data);
    assert(all_fds(longer) =~= all_fds(chunks) + more.fds);
}

/// Law: no counts sum up to nothing, and one more count adds itself.
pub proof fn lemma_total_push(counts: Seq<int>, more: int)
    ensures
        total(Seq::<int>::empty()) == 0,
        total(counts.push(more)) == total(counts) + more,
    decreases counts.len(),
{
    let longer = counts.push(more);
    if counts.len() == 0 {
        assert(longer.drop_first() =~= Seq::<int>::empty());
        assert(total(longer.drop_first()) == 0);
    } else {
        lemma_total_push(counts.drop_first(), more);
        assert(longer.drop_first() =~= counts.drop_first().push(more));
    }
}

} // verus!
