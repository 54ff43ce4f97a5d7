use fd_passing::context;
use fd_passing::error::ErrorKind;
use fd_passing::fd::{ContainsFds, PassedFd};
use fd_passing::message::{ClientMessage, Request, Response, ServerError};
use fd_passing::trace;

fn trace_context() -> trace::Context {
    trace::Context { trace_id: 1, span_id: 2, sampled: true }
}

fn request(fd: i32) -> Request<PassedFd<i32>> {
    Request {
        context: context::Context { deadline_millis: 10, trace_context: trace_context() },
        id: 5,
        message: PassedFd::new(fd),
    }
}

#[test]
fn request_passes_on_to_its_message() {
    let mut req = request(7);
    assert_eq!(req.fd_count(), 1);
    let fds = req.extract_fds();
    assert_eq!(fds, vec![7]);
    assert_eq!(req.message.index(), Some(0));
    assert_eq!(req.id, 5);
    assert_eq!(req.context.deadline_millis, 10);
    req.inject_fds(fds);
    assert_eq!(req.message.as_raw_fd(), 7);
}

#[test]
fn client_message_with_request() {
    let mut msg = ClientMessage::Request(request(8));
    assert_eq!(msg.fd_count(), 1);
    let mut next: u32 = 3;
    let fds = msg.extract_fds_with_index(&mut next);
    assert_eq!(fds, vec![8]);
    assert_eq!(next, 4);
    let mut supply = vec![None, None, None, Some(9)];
    msg.inject_fds_from(&mut supply);
    assert!(matches!(msg, ClientMessage::Request(ref r) if r.message.as_raw_fd() == 9));
    assert_eq!(supply, vec![None; 4]);
}

#[test]
fn cancel_holds_no_descriptors() {
    let mut msg: ClientMessage<PassedFd<i32>> =
        ClientMessage::Cancel { trace_context: trace_context(), request_id: 6 };
    assert_eq!(msg.fd_count(), 0);
    assert!(msg.extract_fds().is_empty());
    msg.inject_fds(vec![1]);
    assert!(matches!(msg, ClientMessage::Cancel { request_id: 6, .. }));
}

#[test]
fn response_passes_on_to_its_message() {
    let mut res: Response<Vec<PassedFd<i32>>> =
        Response { request_id: 5, message: Ok(vec![PassedFd::new(1), PassedFd::new(2)]) };
    assert_eq!(res.fd_count(), 2);
    let fds = res.extract_fds();
    assert_eq!(fds, vec![1, 2]);
    res.inject_fds(vec![3, 4]);
    let list = res.message.unwrap();
    assert_eq!(list[0].as_raw_fd(), 3);
    assert_eq!(list[1].as_raw_fd(), 4);
}

#[test]
fn failed_response_holds_no_descriptors() {
    let mut res: Response<PassedFd<i32>> = Response {
        request_id: 5,
        message: Err(ServerError { kind: ErrorKind::Other, detail: String::from("no") }),
    };
    assert_eq!(res.fd_count(), 0);
    assert!(res.extract_fds().is_empty());
    res.inject_fds(vec![1]);
    assert!(res.message.is_err());
    assert_eq!(res.request_id, 5);
}
