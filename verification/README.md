# fd_passing

Passing file descriptors between processes with the messages of a remote procedure call, over
Unix domain sockets. The library is written and proved in Verus.

A message holds its descriptors in `PassedFd` wrappers. Before it is serialized the descriptors
are extracted, and each wrapper is left with an index. The serialized message travels in a frame:

```text
4 bytes: length of the serialized message (big-endian)
4 bytes: number of descriptors (big-endian)
N bytes: serialized message
```

The descriptors go with the first bytes of the frame, as `SCM_RIGHTS` ancillary data. At the
other end the message is deserialized with its indices, and the descriptors are injected.

## Layout

- `src/` is the library. It holds no socket and makes no system call. It is generic in the handle
  that owns a descriptor. The reading and the writing end of a connection are state machines: the
  caller reports what a call brought, and is told what to do next.
- `app/` is ordinary Rust around it: streams, listeners and transports on `tokio`, the system
  calls, and the forms of the messages that `serde` writes and reads.
- `tests/` runs the library.

## What is proved

Each function has a contract that says what it returns. Over these stand laws, as proof functions
named `lemma_..`. The main ones are in `src/stream.rs`, `src/delivery.rs` and `src/fd.rs`:

- Messages that are sent one after the other are delivered one after the other, each with its own
  descriptors, each descriptor at the place it came from (`lemma_messages_arrive`).
- The reading end of a connection reports the same of a stream whatever the pieces in which it
  reads it and however often it has to wait, even of one that breaks off inside a frame or header
  (`lemma_cuts_do_not_matter`).
- Every byte is sent once and in order, and the descriptors once, with the first bytes
  (`lemma_writes_all`, `lemma_writers_agree`).
- Frames beyond the limits are refused and never begun (`lemma_oversized_refused`,
  `lemma_limits_kept`).
- What is extracted from a message goes back to the place it came from
  (`lemma_inject_restores_extracted`).

The reader of a single frame (`Receiver`) wants a header in one piece and reports an error
otherwise; its laws say so. A wrapper that holds no descriptor travels as one: extraction gives it
an index that names no descriptor.

## What is trusted

- `bytes::BufMut::put_u32` appends four bytes, most significant first.
- `rand::random` returns some number.
- `std::io::Error`, `std::cell::Cell` and `std::cell::RefCell` are opaque types.
- A handle type outside the library returns its own number from both methods of `Descriptor`, and
  a message type outside it keeps to the contracts of `ContainsFds`.
