//! File descriptor passing over Unix domain sockets.
//!
//! Messages of a remote procedure call can carry file descriptors. The bytes of a message hold
//! an index in place of each descriptor; the descriptors themselves travel as ancillary data
//! (`SCM_RIGHTS`) of the socket. This crate holds everything about that which is decided or
//! computed. Sockets, system calls and serialization are left to the caller.
//!
//! - [`fd`]: the wrapper for a descriptor in a message, and how a message gives its descriptors
//!   away and gets them back.
//! - [`message`], with [`context`] and [`trace`]: the envelopes of requests and responses.
//! - [`fd_codec`]: the frame in which a message travels.
//! - [`fd_transport`]: what goes into the calls that send and receive, and what comes out.
//! - [`unix_fd`]: the reading and the writing end of a connection, step by step.
//! - [`delivery`]: what holds of a frame on its way from one end of a connection to the other.
//! - [`stream`]: what holds of whole streams, with any number of frames.
//! - [`error`], [`text`], [`temp_path`]: errors, numbers as text, names of temporary sockets.

pub mod context;
pub mod delivery;
pub mod error;
pub mod fd;
pub mod fd_codec;
pub mod fd_transport;
pub mod message;
pub mod stream;
pub mod temp_path;
pub mod text;
pub mod trace;
pub mod unix_fd;
