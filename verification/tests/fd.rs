use fd_passing::error::ErrorKind;
use fd_passing::fd::{
    check_fd_count, ContainsFds, Descriptor, FdError, IndexNotAssigned, PassedFd, RawFd,
    SupportsFdPassing, EMPTY_INDEX, INVALID_INDEX, MAX_FDS_PER_MESSAGE,
};

/// A handle that cannot be copied and knows its number.
#[derive(Debug, PartialEq)]
struct Handle(RawFd);

impl Descriptor for Handle {
    fn as_raw_fd(&self) -> RawFd {
        self.0
    }

    fn into_raw_fd(self) -> RawFd {
        self.0
    }
}

fn some(index: u32) -> Option<u32> {
    Some(index)
}

#[test]
fn test_passed_fd_creation() {
    let fd = Handle(3);
    let raw = fd.as_raw_fd();

    let passed = PassedFd::new(fd);
    assert!(passed.has_fd());
    assert_eq!(passed.as_raw_fd(), raw);
}

#[test]
fn test_passed_fd_into() {
    let passed = PassedFd::new(Handle(3));
    let recovered: Handle = passed.into_fd();
    assert_eq!(recovered, Handle(3));
}

#[test]
fn test_passed_fd_extract_inject() {
    let mut passed = PassedFd::new(Handle(3));

    let extracted = passed.extract_fds();
    assert_eq!(extracted.len(), 1);
    assert!(!passed.has_fd());
    assert_eq!(passed.index(), Some(0));

    passed.inject_fds(extracted);
    assert!(passed.has_fd());
    assert_eq!(passed.as_raw_fd(), 3);
}

#[test]
fn test_no_fds_types() {
    let mut s = String::from("hello");
    assert_eq!(ContainsFds::<Handle>::fd_count(&s), 0);
    assert!(ContainsFds::<Handle>::extract_fds(&mut s).is_empty());
    assert_eq!(s, "hello");

    let v: Vec<i32> = vec![1, 2, 3];
    assert_eq!(ContainsFds::<Handle>::fd_count(&v), 0);
}

#[test]
fn test_vec_passed_fd() {
    let mut vec = vec![PassedFd::new(Handle(4)), PassedFd::new(Handle(5))];

    assert_eq!(vec.fd_count(), 2);

    let extracted = vec.extract_fds();
    assert_eq!(extracted.len(), 2);
    assert_eq!(extracted, vec![Handle(4), Handle(5)]);

    assert_eq!(vec[0].index(), Some(0));
    assert_eq!(vec[1].index(), Some(1));
}

#[test]
fn test_serialization_requires_index() {
    let mut passed = PassedFd::new(Handle(3));

    let result = passed.wire_index();
    assert!(result.is_err());

    passed.set_index(0);
    let json = serde_json::to_string(&passed.wire_index().unwrap()).unwrap();
    assert_eq!(json, "0");
}

#[test]
fn test_deserialization() {
    let json = "42";
    let index: u32 = serde_json::from_str(json).unwrap();
    let passed: PassedFd<Handle> = PassedFd::with_index(index);

    assert_eq!(passed.index(), Some(42));
    assert!(!passed.has_fd());
}

#[test]
fn unassigned_index_is_not_written() {
    let passed = PassedFd::new(Handle(3));
    assert_eq!(passed.index(), None);
    assert_eq!(passed.wire_index(), Err(IndexNotAssigned));
    assert_eq!(
        IndexNotAssigned.message(),
        "PassedFd: index not assigned. FDs must be extracted before serialization."
    );
    let read: PassedFd<Handle> = PassedFd::with_index(INVALID_INDEX);
    assert_eq!(read.index(), None);
}

#[test]
fn handle_comes_out_of_passed_fd() {
    assert_eq!(PassedFd::new(Handle(9)).try_into_fd(), Some(Handle(9)));
    assert_eq!(PassedFd::<Handle>::with_index(1).try_into_fd(), None);
    assert_eq!(PassedFd::new(Handle(9)).into_raw_fd(), 9);
    assert_eq!(PassedFd::new(Handle(9)).as_fd(), &Handle(9));
    assert_eq!(PassedFd::from_raw(9).as_raw_fd(), 9);
    let passed: PassedFd<Handle> = Handle(9).into();
    assert_eq!(passed.as_raw_fd(), 9);
    assert_eq!(passed.index(), None);
}

#[test]
fn take_and_inject_one() {
    let mut passed = PassedFd::new(Handle(1));
    passed.inject_fd(Handle(2));
    assert_eq!(passed.take_fd(), Some(Handle(2)));
    assert_eq!(passed.take_fd(), None);
    assert!(!passed.has_fd());
}

#[test]
fn debug_shows_number_and_index() {
    let mut passed = PassedFd::new(7);
    assert_eq!(format!("{:?}", passed), "PassedFd { fd: Some(7), index: 4294967295 }");
    passed.extract_fds();
    assert_eq!(format!("{:?}", passed), "PassedFd { fd: None, index: 0 }");
}

#[test]
fn extraction_goes_on_from_an_index() {
    let mut a = PassedFd::new(Handle(1));
    let mut b = vec![PassedFd::new(Handle(2)), PassedFd::new(Handle(3))];
    let mut next: u32 = 5;
    let mut fds = a.extract_fds_with_index(&mut next);
    assert_eq!(next, 6);
    fds.append(&mut b.extract_fds_with_index(&mut next));
    assert_eq!(next, 8);
    assert_eq!(fds, vec![Handle(1), Handle(2), Handle(3)]);
    assert_eq!(a.index(), some(5));
    assert_eq!(b[0].index(), some(6));
    assert_eq!(b[1].index(), some(7));
}

#[test]
fn index_names_the_own_descriptor() {
    let mut v = vec![PassedFd::with_index(0), PassedFd::new(Handle(2))];
    let mut next: u32 = 0;
    let fds = v.extract_fds_with_index(&mut next);
    assert_eq!(fds, vec![Handle(2)]);
    assert_eq!(next, 1);
    assert_eq!(v[0].index(), Some(EMPTY_INDEX));
    assert_eq!(v[1].index(), Some(0));
    v.inject_fds(fds);
    assert!(!v[0].has_fd());
    assert_eq!(v[1].as_raw_fd(), 2);
}

#[test]
fn empty_places_use_up_no_index() {
    let mut v = vec![
        PassedFd::new(Handle(6)),
        PassedFd::with_index(3),
        PassedFd::new(Handle(7)),
        PassedFd::with_index(0),
        PassedFd::new(Handle(8)),
    ];
    assert_eq!(v.fd_count(), 3);
    let mut next: u32 = 10;
    assert_eq!(v.extract_fds_with_index(&mut next), vec![Handle(6), Handle(7), Handle(8)]);
    assert_eq!(next, 13);
    let mut indices: Vec<Option<u32>> = Vec::new();
    for p in &v {
        indices.push(p.index());
    }
    let empty = Some(EMPTY_INDEX);
    assert_eq!(indices, vec![Some(10), empty, Some(11), empty, Some(12)]);
}

#[test]
fn empty_places_travel_as_empty_places() {
    let mut v = vec![PassedFd::with_index(0), PassedFd::new(Handle(7)), PassedFd::with_index(0)];
    let fds = v.extract_fds();
    let mut indices: Vec<u32> = Vec::new();
    for p in &v {
        indices.push(p.wire_index().unwrap());
    }
    let json = serde_json::to_string(&indices).unwrap();
    assert_eq!(json, "[4294967294,0,4294967294]");
    let indices: Vec<u32> = serde_json::from_str(&json).unwrap();
    let mut read: Vec<PassedFd<Handle>> = Vec::new();
    for index in indices {
        read.push(PassedFd::with_index(index));
    }
    read.inject_fds(fds);
    assert!(!read[0].has_fd());
    assert_eq!(read[1].as_raw_fd(), 7);
    assert!(!read[2].has_fd());
}

#[test]
fn one_empty_place() {
    let mut passed: PassedFd<Handle> = PassedFd::with_index(4);
    assert_eq!(passed.fd_count(), 0);
    let mut next: u32 = 2;
    assert!(passed.extract_fds_with_index(&mut next).is_empty());
    assert_eq!(next, 2);
    assert_eq!(passed.wire_index(), Ok(4294967294));
    assert_eq!(PassedFd::new(Handle(1)).fd_count(), 1);
}

#[test]
fn extracting_twice_gives_nothing() {
    let mut v = vec![PassedFd::new(Handle(1)), PassedFd::new(Handle(2))];
    assert_eq!(v.extract_fds().len(), 2);
    assert_eq!(v.fd_count(), 0);
    assert!(v.extract_fds().is_empty());
    assert_eq!(v[0].index(), Some(EMPTY_INDEX));
    assert_eq!(v[1].index(), Some(EMPTY_INDEX));
}

#[test]
fn injection_restores_what_was_extracted() {
    let mut v = vec![PassedFd::new(Handle(6)), PassedFd::new(Handle(7)), PassedFd::new(Handle(8))];
    let fds = v.extract_fds();
    // The value at the other end knows only the indices.
    let mut read: Vec<PassedFd<Handle>> = Vec::new();
    for p in &v {
        read.push(PassedFd::with_index(p.wire_index().unwrap()));
    }
    read.inject_fds(fds);
    assert_eq!(read[0].as_raw_fd(), 6);
    assert_eq!(read[1].as_raw_fd(), 7);
    assert_eq!(read[2].as_raw_fd(), 8);
}

#[test]
fn injection_restores_around_empty_places() {
    let mut v = vec![
        PassedFd::with_index(9),
        PassedFd::new(Handle(6)),
        PassedFd::with_index(9),
        PassedFd::new(Handle(7)),
        PassedFd::with_index(9),
    ];
    let fds = v.extract_fds();
    assert_eq!(fds, vec![Handle(6), Handle(7)]);
    v.inject_fds(fds);
    assert!(!v[0].has_fd());
    assert_eq!(v[1].as_raw_fd(), 6);
    assert!(!v[2].has_fd());
    assert_eq!(v[3].as_raw_fd(), 7);
    assert!(!v[4].has_fd());
}

#[test]
fn injection_goes_by_index() {
    let mut v: Vec<PassedFd<Handle>> =
        vec![PassedFd::with_index(1), PassedFd::with_index(0), PassedFd::with_index(7)];
    let mut supply = vec![Some(Handle(10)), Some(Handle(11)), Some(Handle(12))];
    v.inject_fds_from(&mut supply);
    assert_eq!(v[0].as_raw_fd(), 11);
    assert_eq!(v[1].as_raw_fd(), 10);
    assert!(!v[2].has_fd());
    assert_eq!(supply, vec![None, None, Some(Handle(12))]);
}

#[test]
fn injection_hands_out_each_descriptor_once() {
    let mut v: Vec<PassedFd<Handle>> = vec![PassedFd::with_index(0), PassedFd::with_index(0)];
    v.inject_fds(vec![Handle(10)]);
    assert!(v[0].has_fd());
    assert!(!v[1].has_fd());
}

#[test]
fn injection_passes_over_places_without_index() {
    let mut passed = PassedFd::new(Handle(1));
    passed.inject_fds(vec![Handle(2)]);
    assert_eq!(passed.as_raw_fd(), 1);
}

#[test]
fn injection_into_other_types_takes_nothing() {
    let mut n: u8 = 5;
    let mut supply = vec![Some(Handle(1))];
    n.inject_fds_from(&mut supply);
    assert_eq!(n, 5);
    assert_eq!(supply, vec![Some(Handle(1))]);
}

#[test]
fn fd_count_limit() {
    assert_eq!(MAX_FDS_PER_MESSAGE, 253);
    assert!(check_fd_count(0).is_ok());
    assert!(check_fd_count(253).is_ok());
    assert!(matches!(check_fd_count(254), Err(FdError::TooManyFds { count: 254, max: 253 })));
}

#[test]
fn test_too_many_fds() {
    let result = check_fd_count(300);
    assert!(result.is_err());
    let error = result.unwrap_err();
    assert_eq!(error.kind(), Some(ErrorKind::InvalidInput));
    assert_eq!(error.message(), "too many file descriptors (300), maximum is 253");
}

#[test]
fn fd_error_kinds() {
    assert_eq!(FdError::NotSupported.kind(), None);
    assert_eq!(FdError::CountMismatch { expected: 1, actual: 2 }.kind(), None);
    let io = std::io::Error::new(std::io::ErrorKind::Other, "broken");
    assert_eq!(FdError::from(io).kind(), None);
}

#[test]
fn made_from_a_handle() {
    let passed: PassedFd<Handle> = PassedFd::from(Handle(3));
    assert_eq!(passed.as_raw_fd(), 3);
    assert_eq!(passed.index(), None);
}

#[test]
fn fd_error_texts() {
    assert_eq!(FdError::NotSupported.message(), "FD passing not supported on this transport");
    assert_eq!(
        FdError::TooManyFds { count: 300, max: 253 }.message(),
        "too many file descriptors (300), maximum is 253"
    );
    assert_eq!(
        FdError::CountMismatch { expected: 0, actual: 10 }.message(),
        "FD count mismatch: expected 0, received 10"
    );
    let io = std::io::Error::new(std::io::ErrorKind::Other, "broken");
    assert_eq!(FdError::from(io).message(), "I/O error: broken");
}

struct Channel;

impl SupportsFdPassing for Channel {}

fn requires_fd_support<T: SupportsFdPassing>(_transport: &T) -> bool {
    true
}

#[test]
fn marker_for_transports() {
    assert!(requires_fd_support(&Channel));
}
