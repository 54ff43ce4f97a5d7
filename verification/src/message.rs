//! The envelopes in which messages travel between client and server.
//!
//! Only the message inside an envelope can hold descriptors; the envelope passes each operation
//! on to it.

use vstd::prelude::*;

use crate::context;
use crate::error::ErrorKind;
use crate::fd::{ContainsFds, NoFds, Slot};
use crate::trace;

verus! {

/// A request with its context.
#[derive(Debug)]
pub struct Request<T> {
    /// The context of the request.
    pub context: context::Context,
    /// Identifies the request among those of one connection.
    pub id: u64,
    /// The message itself.
    pub message: T,
}

/// What a client sends to a server.
#[derive(Debug)]
pub enum ClientMessage<T> {
    /// A request made by the client.
    Request(Request<T>),
    /// The client gives up on a request that it has made.
    Cancel {
        /// The trace that the request is part of.
        trace_context: trace::Context,
        /// The request that is given up.
        request_id: u64,
    },
}

/// An error that a server reports in place of an answer.
#[derive(Debug)]
pub struct ServerError {
    /// What kind of error it is.
    pub kind: ErrorKind,
    /// A description of the error.
    pub detail: String,
}

/// What a server sends to a client.
#[derive(Debug)]
pub struct Response<T> {
    /// The request that is answered.
    pub request_id: u64,
    /// The answer, or the error in its place.
    pub message: Result<T, ServerError>,
}

impl NoFds for ServerError {

}

impl<F, T: ContainsFds<F>> ContainsFds<F> for Request<T> {
    open spec fn slots(&self) -> Seq<Slot<F>> {
        self.message.slots()
    }

    open spec fn same_outside(&self, other: &Self) -> bool {
        &&& self.context == other.context
        &&& self.id == other.id
        &&& <T as ContainsFds<F>>::same_outside(&self.message, &other.message)
    }

    fn extract_fds_with_index(&mut self, next_index: &mut u32) -> (fds: Vec<F>) {
        self.message.extract_fds_with_index(next_index)
    }

    fn inject_fds_from(&mut self, fds: &mut [Option<F>]) {
        self.message.inject_fds_from(fds)
    }

    fn fd_count(&self) -> (count: usize) {
        self.message.fd_count()
    }
}

impl<F, T: ContainsFds<F>> ContainsFds<F> for ClientMessage<T> {
    open spec fn slots(&self) -> Seq<Slot<F>> {
        match *self {
            ClientMessage::Request(req) => req.slots(),
            ClientMessage::Cancel { .. } => Seq::empty(),
        }
    }

    open spec fn same_outside(&self, other: &Self) -> bool {
        match (*self, *other) {
            (
                ClientMessage::Request(a),
                ClientMessage::Request(b),
            ) => <Request<T> as ContainsFds<F>>::same_outside(&a, &b),
            _ => *self == *other,
        }
    }

    fn extract_fds_with_index(&mut self, next_index: &mut u32) -> (fds: Vec<F>) {
        match self {
            ClientMessage::Request(req) => req.extract_fds_with_index(next_index),
            ClientMessage::Cancel { .. } => {
                assert(crate::fd::held(Seq::<Slot<F>>::empty()) =~= Seq::<F>::empty());
                Vec::new()
            },
        }
    }

    fn inject_fds_from(&mut self, fds: &mut [Option<F>]) {
        match self {
            ClientMessage::Request(req) => req.inject_fds_from(fds),
            ClientMessage::Cancel { .. } => {},
        }
    }

    fn fd_count(&self) -> (count: usize) {
        match self {
            ClientMessage::Request(req) => req.fd_count(),
            ClientMessage::Cancel { .. } => {
                assert(crate::fd::held(Seq::<Slot<F>>::empty()) =~= Seq::<F>::empty());
                0
            },
        }
    }
}

impl<F, T: ContainsFds<F>> ContainsFds<F> for Response<T> {
    open spec fn slots(&self) -> Seq<Slot<F>> {
        match self.message {
            Ok(msg) => msg.slots(),
            Err(_) => Seq::empty(),
        }
    }

    open spec fn same_outside(&self, other: &Self) -> bool {
        &&& self.request_id == other.request_id
        &&& match (self.message, other.message) {
            (Ok(a), Ok(b)) => <T as ContainsFds<F>>::same_outside(&a, &b),
            _ => self.message == other.message,
        }
    }

    fn extract_fds_with_index(&mut self, next_index: &mut u32) -> (fds: Vec<F>) {
        match &mut self.message {
            Ok(msg) => msg.extract_fds_with_index(next_index),
            Err(_) => {
                assert(crate::fd::held(Seq::<Slot<F>>::empty()) =~= Seq::<F>::empty());
                Vec::new()
            },
        }
    }

    fn inject_fds_from(&mut self, fds: &mut [Option<F>]) {
        match &mut self.message {
            Ok(msg) => msg.inject_fds_from(fds),
            Err(_) => {},
        }
    }

    fn fd_count(&self) -> (count: usize) {
        match &self.message {
            Ok(msg) => msg.fd_count(),
            Err(_) => {
                assert(crate::fd::held(Seq::<Slot<F>>::empty()) =~= Seq::<F>::empty());
                0
            },
        }
    }
}

/// Law: the places of a client message are those of the message in its request, if it is one; a
/// cancellation has none. So an extraction from it, a numbering, a count or an injection is that
/// of the message inside.
pub proof fn lemma_client_message_slots<F, T: ContainsFds<F>>(msg: ClientMessage<T>)
    ensures
        match msg {
            ClientMessage::Request(req) => <ClientMessage<T> as ContainsFds<F>>::slots(&msg)
                == req.message.slots(),
            ClientMessage::Cancel { .. } => {
                &&& <ClientMessage<T> as ContainsFds<F>>::slots(&msg) == Seq::<Slot<F>>::empty()
                &&& crate::fd::held(<ClientMessage<T> as ContainsFds<F>>::slots(&msg)) == Seq::<
                    F,
                >::empty()
            },
        },
{
    assert(crate::fd::held(Seq::<Slot<F>>::empty()) =~= Seq::<F>::empty());
}

/// Law: the places of a response are those of the message in it; a failed one has none. So an
/// extraction from it, a numbering, a count or an injection is that of the message inside.
pub proof fn lemma_response_slots<F, T: ContainsFds<F>>(response: Response<T>)
    ensures
        match response.message {
            Ok(msg) => <Response<T> as ContainsFds<F>>::slots(&response) == msg.slots(),
            Err(_) => {
                &&& <Response<T> as ContainsFds<F>>::slots(&response) == Seq::<Slot<F>>::empty()
                &&& crate::fd::held(<Response<T> as ContainsFds<F>>::slots(&response)) == Seq::<
                    F,
                >::empty()
            },
        },
{
    assert(crate::fd::held(Seq::<Slot<F>>::empty()) =~= Seq::<F>::empty());
}

/// Law: the places of a request are those of its message, and nothing that is done with them
/// changes the context or the number of the request.
pub proof fn lemma_request_slots<F, T: ContainsFds<F>>(a: Request<T>, b: Request<T>)
    ensures
        <Request<T> as ContainsFds<F>>::slots(&a) == a.message.slots(),
        <Request<T> as ContainsFds<F>>::same_outside(&a, &b) <==> {
            &&& a.context == b.context
            &&& a.id == b.id
            &&& <T as ContainsFds<F>>::same_outside(&a.message, &b.message)
        },
{
}

/// Law: nothing that is done with its places makes a client message another one: a request stays
/// the request that it was outside its message, and a cancellation stays the same.
pub proof fn lemma_client_message_outside<F, T: ContainsFds<F>>(
    a: ClientMessage<T>,
    b: ClientMessage<T>,
)
    requires
        <ClientMessage<T> as ContainsFds<F>>::same_outside(&a, &b),
    ensures
        match (a, b) {
            (ClientMessage::Request(x), ClientMessage::Request(y)) => {
                &&& x.context == y.context
                &&& x.id == y.id
                &&& <T as ContainsFds<F>>::same_outside(&x.message, &y.message)
            },
            _ => a == b,
        },
{
}

/// Law: nothing that is done with its places makes a response another one: it answers the same
/// request, and an error in it stays the same.
pub proof fn lemma_response_outside<F, T: ContainsFds<F>>(a: Response<T>, b: Response<T>)
    requires
        <Response<T> as ContainsFds<F>>::same_outside(&a, &b),
    ensures
        a.request_id == b.request_id,
        match (a.message, b.message) {
            (Ok(x), Ok(y)) => <T as ContainsFds<F>>::same_outside(&x, &y),
            _ => a.message == b.message,
        },
{
}

} // verus!
