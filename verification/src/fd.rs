//! File descriptors inside messages.
//!
//! A descriptor travels outside the bytes of a message, as ancillary data of the socket. Inside
//! the bytes only its place in the list of descriptors is written. This module holds the
//! wrapper that a message carries ([`PassedFd`]) and the trait by which a transport takes the
//! descriptors out of a message before it is serialized and puts them back after it has been
//! deserialized ([`ContainsFds`]).
//!
//! Everything is generic in the handle `F` that owns a descriptor: the code moves handles and
//! never opens, duplicates or closes one.

use vstd::prelude::*;

use crate::error::ErrorKind;
use crate::text::append_decimal;
use vstd::string::StringExecFns;

verus! {

broadcast use vstd::seq_lib::group_seq_properties;

/// Maximum number of file descriptors that can be passed in a single message.
///
/// This limit is imposed by the Linux kernel (`SCM_MAX_FD`).
pub const MAX_FDS_PER_MESSAGE: usize = 253;

/// The index of a [`PassedFd`] that has not been numbered yet.
pub const INVALID_INDEX: u32 = u32::MAX;

/// The index that extraction gives a [`PassedFd`] without a descriptor. It can be written like
/// any other, and no message carries so many descriptors that it would name one.
pub const EMPTY_INDEX: u32 = 0xffff_fffe;

/// A descriptor number, as the operating system hands it out.
pub type RawFd = i32;

/// A handle to a kernel resource that is known by its descriptor number.
pub trait Descriptor: Sized {
    /// The descriptor number behind this handle. A type that does not say which it is has some
    /// function from handles to numbers here, of which nothing is known.
    open spec fn number(&self) -> RawFd {
        arbitrary::<spec_fn(&Self) -> RawFd>()(self)
    }

    /// Returns the descriptor number and keeps the handle.
    fn as_raw_fd(&self) -> (raw: RawFd)
        ensures
            raw == self.number(),
    ;

    /// Gives the handle up for its descriptor number.
    fn into_raw_fd(self) -> (raw: RawFd)
        ensures
            raw == self.number(),
    ;
}

/// A bare descriptor number is its own handle.
impl Descriptor for RawFd {
    open spec fn number(&self) -> RawFd {
        *self
    }

    fn as_raw_fd(&self) -> (raw: RawFd)
        ensures
            raw == *self,
    {
        *self
    }

    fn into_raw_fd(self) -> (raw: RawFd)
        ensures
            raw == self,
    {
        self
    }
}

/// A file descriptor that can be passed between processes via RPC.
///
/// It owns the handle until the handle is taken out. When it is serialized, only
/// [`PassedFd::wire_index`] is written; the descriptor itself goes out of band.
#[derive(Debug)]
pub struct PassedFd<F> {
    /// The handle, absent after it was extracted for sending and before it is injected.
    fd: Option<F>,
    /// The place in the list of descriptors, [`INVALID_INDEX`] until one is assigned.
    index: u32,
}

/// What a [`PassedFd`] holds: the model of one place for a descriptor.
#[verifier::ext_equal]
pub struct Slot<F> {
    pub fd: Option<F>,
    pub index: u32,
}

impl<F> Slot<F> {
    /// The index, where one has been assigned.
    pub open spec fn assigned(self) -> Option<u32> {
        if self.index == INVALID_INDEX {
            None
        } else {
            Some(self.index)
        }
    }

    /// Whether this place asks for the descriptor at position `i`.
    pub open spec fn asks_for(self, i: int) -> bool {
        self.index != INVALID_INDEX && self.index as int == i
    }
}

impl<F> View for PassedFd<F> {
    type V = Slot<F>;

    closed spec fn view(&self) -> Slot<F> {
        Slot { fd: self.fd, index: self.index }
    }
}

/// A [`PassedFd`] was to be written before an index had been assigned to it.
#[derive(Debug, Clone, Copy, PartialEq, Eq, Structural)]
pub struct IndexNotAssigned;

impl IndexNotAssigned {
    /// The text of the error.
    pub fn message(&self) -> (text: &'static str)
        ensures
            text@
                == "PassedFd: index not assigned. FDs must be extracted before serialization."@,
    {
        "PassedFd: index not assigned. FDs must be extracted before serialization."
    }
}

impl<F> PassedFd<F> {
    /// Creates a new `PassedFd` that owns `fd` and has no index.
    pub fn new(fd: F) -> (passed: Self)
        ensures
            passed@ == (Slot { fd: Some(fd), index: INVALID_INDEX }),
    {
        PassedFd { fd: Some(fd), index: INVALID_INDEX }
    }

    /// Creates a `PassedFd` with a pre-assigned index and no descriptor.
    ///
    /// This is what deserialization makes of an index; the descriptor is injected later.
    pub fn with_index(index: u32) -> (passed: Self)
        ensures
            passed@ == (Slot { fd: None::<F>, index }),
    {
        PassedFd { fd: None, index }
    }

    /// Returns the index assigned to this descriptor, `None` if there is none yet.
    pub fn index(&self) -> (index: Option<u32>)
        ensures
            index == self@.assigned(),
            index == (if self@.index == u32::MAX {
                None
            } else {
                Some(self@.index)
            }),
    {
        if self.index == INVALID_INDEX {
            None
        } else {
            Some(self.index)
        }
    }

    /// Sets the index for this descriptor.
    pub fn set_index(&mut self, index: u32)
        ensures
            final(self)@ == (Slot { fd: old(self)@.fd, index }),
    {
        self.index = index;
    }

    /// Takes the descriptor out, `None` if it has already been taken.
    pub fn take_fd(&mut self) -> (fd: Option<F>)
        ensures
            fd == old(self)@.fd,
            final(self)@ == (Slot { fd: None::<F>, index: old(self)@.index }),
    {
        self.fd.take()
    }

    /// Puts a descriptor in, in place of any that was there.
    pub fn inject_fd(&mut self, fd: F)
        ensures
            final(self)@ == (Slot { fd: Some(fd), index: old(self)@.index }),
    {
        self.fd = Some(fd);
    }

    /// Checks if this `PassedFd` currently holds a descriptor.
    pub fn has_fd(&self) -> (has: bool)
        ensures
            has == (self@.fd is Some),
    {
        self.fd.is_some()
    }

    /// Consumes the `PassedFd`, which must hold a descriptor, and returns the handle.
    pub fn into_fd(self) -> (fd: F)
        requires
            self@.fd is Some,
        ensures
            Some(fd) == self@.fd,
    {
        self.fd.unwrap()
    }

    /// Consumes the `PassedFd` and returns the handle, `None` if there is none.
    pub fn try_into_fd(self) -> (fd: Option<F>)
        ensures
            fd == self@.fd,
    {
        self.fd
    }

    /// Borrows the handle of a `PassedFd` that holds a descriptor.
    pub fn as_fd(&self) -> (fd: &F)
        requires
            self@.fd is Some,
        ensures
            Some(*fd) == self@.fd,
    {
        self.fd.as_ref().unwrap()
    }

    /// The number that stands for this descriptor in the bytes of a message.
    ///
    /// Only an assigned index can be written: the descriptors of a message are extracted before
    /// it is serialized.
    pub fn wire_index(&self) -> (index: Result<u32, IndexNotAssigned>)
        ensures
            index == (match self@.assigned() {
                Some(i) => Ok::<u32, IndexNotAssigned>(i),
                None => Err::<u32, IndexNotAssigned>(IndexNotAssigned),
            }),
    {
        match self.index() {
            Some(index) => Ok(index),
            None => Err(IndexNotAssigned),
        }
    }
}

impl<F: Descriptor> PassedFd<F> {
    /// Returns the raw file descriptor number of a `PassedFd` that holds a descriptor.
    pub fn as_raw_fd(&self) -> (raw: RawFd)
        requires
            self@.fd is Some,
        ensures
            raw == self@.fd.unwrap().number(),
    {
        self.as_fd().as_raw_fd()
    }

    /// Consumes a `PassedFd` that holds a descriptor for its raw number.
    pub fn into_raw_fd(self) -> (raw: RawFd)
        requires
            self@.fd is Some,
        ensures
            raw == self@.fd.unwrap().number(),
    {
        self.into_fd().into_raw_fd()
    }
}

impl PassedFd<RawFd> {
    /// Creates a `PassedFd` from a raw file descriptor.
    ///
    /// The caller hands over the descriptor: nobody else may close it.
    pub fn from_raw(fd: RawFd) -> (passed: Self)
        ensures
            passed@ == (Slot { fd: Some(fd), index: INVALID_INDEX }),
    {
        PassedFd::new(fd)
    }
}

impl<F> From<F> for PassedFd<F> {
    fn from(fd: F) -> (passed: Self)
        ensures
            passed@ == (Slot { fd: Some(fd), index: INVALID_INDEX }),
    {
        PassedFd::new(fd)
    }
}

impl<F> vstd::std_specs::convert::FromSpecImpl<F> for PassedFd<F> {
    open spec fn obeys_from_spec() -> bool {
        true
    }

    closed spec fn from_spec(fd: F) -> Self {
        PassedFd { fd: Some(fd), index: INVALID_INDEX }
    }
}

/// The descriptors that `slots` hold, in order.
pub open spec fn held<F>(slots: Seq<Slot<F>>) -> Seq<F> {
    slots.filter(|s: Slot<F>| s.fd is Some).map_values(|s: Slot<F>| s.fd.unwrap())
}

/// What extraction leaves behind: no descriptors. A place that held one is left with an index,
/// `start` and on in order: the position of its descriptor in the list of the extracted ones,
/// counted from `start`. A place that held none is left with [`EMPTY_INDEX`].
pub open spec fn numbered<F>(slots: Seq<Slot<F>>, start: int) -> Seq<Slot<F>> {
    Seq::new(
        slots.len(),
        |k: int|
            Slot {
                fd: None::<F>,
                index: if slots[k].fd is Some {
                    (start + held(slots.take(k)).len()) as u32
                } else {
                    EMPTY_INDEX
                },
            },
    )
}

/// Whether every place holds a descriptor.
pub open spec fn all_held<F>(slots: Seq<Slot<F>>) -> bool {
    forall|k: int| 0 <= k < slots.len() ==> (#[trigger] slots[k]).fd is Some
}

/// Whether place `k` is the first that asks for the descriptor at its index.
pub open spec fn asks_first<F>(slots: Seq<Slot<F>>, k: int) -> bool {
    &&& slots[k].index != INVALID_INDEX
    &&& forall|j: int| 0 <= j < k ==> (#[trigger] slots[j]).index != slots[k].index
}

/// What injection makes of `slots`: each place receives the descriptor at its index, if there
/// is one and no earlier place has asked for it; the others stay as they are.
pub open spec fn injected<F>(slots: Seq<Slot<F>>, supply: Seq<Option<F>>) -> Seq<Slot<F>> {
    Seq::new(
        slots.len(),
        |k: int|
            if asks_first(slots, k) && slots[k].index < supply.len()
                && supply[slots[k].index as int] is Some {
                Slot { fd: supply[slots[k].index as int], index: slots[k].index }
            } else {
                slots[k]
            },
    )
}

/// What injection into `slots` leaves of the supply: the positions that nobody asked for.
pub open spec fn left_over<F>(slots: Seq<Slot<F>>, supply: Seq<Option<F>>) -> Seq<Option<F>> {
    Seq::new(
        supply.len(),
        |i: int|
            if exists|k: int| 0 <= k < slots.len() && (#[trigger] slots[k]).asks_for(i) {
                None
            } else {
                supply[i]
            },
    )
}

/// A list of descriptors as a supply for injection.
pub open spec fn supplied<F>(fds: Seq<F>) -> Seq<Option<F>> {
    fds.map_values(|fd: F| Some(fd))
}

/// A trait for types that may contain file descriptors to be passed.
///
/// A transport extracts the descriptors before serialization and injects them after
/// deserialization.
pub trait ContainsFds<F> {
    /// The places for descriptors in this value, in the order in which they are numbered.
    /// A type that does not say which they are has some function from values to places here, of
    /// which nothing is known.
    open spec fn slots(&self) -> Seq<Slot<F>> {
        arbitrary::<spec_fn(&Self) -> Seq<Slot<F>>>()(self)
    }

    /// Whether this value and `other` agree in everything but their places for descriptors.
    /// A type that does not say what else it holds has some relation between values here, of
    /// which nothing is known.
    open spec fn same_outside(&self, other: &Self) -> bool {
        arbitrary::<spec_fn(&Self, &Self) -> bool>()(self, other)
    }

    /// Extracts all file descriptors from this value.
    ///
    /// The descriptors are returned in the order in which they are passed on. The place of each
    /// is left with its position in that order as index; a place that held none is left with an
    /// index that names no descriptor.
    fn extract_fds(&mut self) -> (fds: Vec<F>)
        requires
            held(old(self).slots()).len() <= u32::MAX,
        ensures
            final(self).slots() == numbered(old(self).slots(), 0),
            final(self).same_outside(old(self)),
            fds@ == held(old(self).slots()),
    {
        let mut next_index: u32 = 0;
        self.extract_fds_with_index(&mut next_index)
    }

    /// Extracts the descriptors and numbers the places that held them from `next_index` on,
    /// which is moved to the next free index.
    fn extract_fds_with_index(&mut self, next_index: &mut u32) -> (fds: Vec<F>)
        requires
            *old(next_index) + held(old(self).slots()).len() <= u32::MAX,
        ensures
            *final(next_index) == *old(next_index) + held(old(self).slots()).len(),
            final(self).slots() == numbered(old(self).slots(), *old(next_index) as int),
            final(self).same_outside(old(self)),
            fds@ == held(old(self).slots()),
    ;

    /// Injects file descriptors into this value after deserialization.
    ///
    /// Each place uses its index to find its descriptor in `fds`.
    fn inject_fds(&mut self, fds: Vec<F>)
        ensures
            final(self).slots() == injected(old(self).slots(), supplied(fds@)),
            final(self).same_outside(old(self)),
    {
        let mut supply: Vec<Option<F>> = to_supply(fds);
        self.inject_fds_from(supply.as_mut_slice());
    }

    /// Injects file descriptors from a supply; what is injected is taken out of it.
    fn inject_fds_from(&mut self, fds: &mut [Option<F>])
        ensures
            final(self).slots() == injected(old(self).slots(), old(fds)@),
            final(self).same_outside(old(self)),
            final(fds)@ == left_over(old(self).slots(), old(fds)@),
    ;

    /// Returns the number of file descriptors in this value.
    fn fd_count(&self) -> (count: usize)
        ensures
            count == held(self.slots()).len(),
    ;
}

/// Turns a list of descriptors into a supply from which each can be taken once.
fn to_supply<F>(fds: Vec<F>) -> (supply: Vec<Option<F>>)
    ensures
        supply@ == supplied(fds@),
{
    let mut supply: Vec<Option<F>> = Vec::with_capacity(fds.len());
    for fd in iter: fds
        invariant
            supply@ == supplied(iter.seq().take(iter.index())),
    {
        supply.push(Some(fd));
    }
    supply
}

/// Law: one more place at the end adds its descriptor, if it holds one, at the end.
pub proof fn lemma_held_push<F>(slots: Seq<Slot<F>>, slot: Slot<F>)
    ensures
        held(slots.push(slot)) == (match slot.fd {
            Some(fd) => held(slots).push(fd),
            None => held(slots),
        }),
{
    reveal(Seq::filter);
    assert(slots.push(slot).drop_last() == slots);
}

/// The descriptors of two rows of places are those of the first and then those of the second.
proof fn lemma_held_add<F>(a: Seq<Slot<F>>, b: Seq<Slot<F>>)
    ensures
        held(a + b) == held(a) + held(b),
    decreases b.len(),
{
    if b.len() > 0 {
        let init = b.drop_last();
        lemma_held_add(a, init);
        lemma_held_push(init, b.last());
        assert(init.push(b.last()) =~= b);
        lemma_held_push(a + init, b.last());
        assert((a + init).push(b.last()) =~= a + b);
        assert(held(a + b) =~= held(a) + held(b));
    } else {
        assert(a + b =~= a);
        assert(held(b) =~= Seq::<F>::empty());
        assert(held(a + b) =~= held(a) + held(b));
    }
}

/// The descriptor of place `k` follows those of the places before it.
proof fn lemma_held_at<F>(slots: Seq<Slot<F>>, k: int)
    requires
        0 <= k < slots.len(),
    ensures
        held(slots.take(k + 1)) == (match slots[k].fd {
            Some(fd) => held(slots.take(k)).push(fd),
            None => held(slots.take(k)),
        }),
        held(slots.take(k + 1)).is_prefix_of(held(slots)),
{
    lemma_held_push(slots.take(k), slots[k]);
    assert(slots.take(k).push(slots[k]) =~= slots.take(k + 1));
    lemma_held_add(slots.take(k + 1), slots.skip(k + 1));
    assert(slots.take(k + 1) + slots.skip(k + 1) =~= slots);
}

/// What the first `n + 1` places leave is what the last of them leaves of what the others left.
proof fn lemma_left_over_step<F>(slots: Seq<Slot<F>>, supply: Seq<Option<F>>, n: int)
    requires
        0 <= n < slots.len(),
    ensures
        left_over(slots.take(n + 1), supply) == left_over(
            seq![slots[n]],
            left_over(slots.take(n), supply),
        ),
{
    let one = seq![slots[n]];
    let before = slots.take(n);
    let after = slots.take(n + 1);
    assert forall|i: int| 0 <= i < supply.len() implies #[trigger] left_over(after, supply)[i]
        == left_over(one, left_over(before, supply))[i] by {
        if exists|k: int| 0 <= k < after.len() && (#[trigger] after[k]).asks_for(i) {
            let k = choose|k: int| 0 <= k < after.len() && (#[trigger] after[k]).asks_for(i);
            if k < n {
                assert(before[k].asks_for(i));
            } else {
                assert(one[0].asks_for(i));
            }
        } else {
            if exists|k: int| 0 <= k < one.len() && (#[trigger] one[k]).asks_for(i) {
                assert(after[n].asks_for(i));
            }
            if exists|k: int| 0 <= k < before.len() && (#[trigger] before[k]).asks_for(i) {
                let k = choose|k: int|
                    0 <= k < before.len() && (#[trigger] before[k]).asks_for(i);
                assert(after[k].asks_for(i));
            }
        }
    }
    assert(left_over(after, supply) =~= left_over(one, left_over(before, supply)));
}

/// Injection into one place.
spec fn injected_one<F>(slot: Slot<F>, supply: Seq<Option<F>>) -> Slot<F> {
    if slot.index != INVALID_INDEX && slot.index < supply.len()
        && supply[slot.index as int] is Some {
        Slot { fd: supply[slot.index as int], index: slot.index }
    } else {
        slot
    }
}

/// Place `n` receives what the places before it have left.
proof fn lemma_injected_step<F>(slots: Seq<Slot<F>>, supply: Seq<Option<F>>, n: int)
    requires
        0 <= n < slots.len(),
    ensures
        injected(slots, supply)[n] == injected_one(
            slots[n],
            left_over(slots.take(n), supply),
        ),
{
    let before = slots.take(n);
    let index = slots[n].index;
    if index != INVALID_INDEX && index < supply.len() {
        if asks_first(slots, n) {
            if exists|k: int| 0 <= k < before.len() && (#[trigger] before[k]).asks_for(index as int)
            {
                let k = choose|k: int|
                    0 <= k < before.len() && (#[trigger] before[k]).asks_for(index as int);
                assert(slots[k].index == index);
            }
        } else {
            let j = choose|j: int| 0 <= j < n && (#[trigger] slots[j]).index == index;
            assert(before[j].asks_for(index as int));
        }
    }
}

/// Marker trait for types that definitely don't contain file descriptors.
///
/// Types implementing `NoFds` get a blanket implementation of [`ContainsFds`] that does
/// nothing.
pub trait NoFds {

}

/// Blanket implementation for types that don't contain descriptors.
impl<F, T: NoFds> ContainsFds<F> for T {
    open spec fn slots(&self) -> Seq<Slot<F>> {
        Seq::empty()
    }

    open spec fn same_outside(&self, other: &Self) -> bool {
        *self == *other
    }

    fn extract_fds_with_index(&mut self, next_index: &mut u32) -> (fds: Vec<F>) {
        assert(held(Seq::<Slot<F>>::empty()) =~= Seq::<F>::empty());
        Vec::new()
    }

    fn inject_fds_from(&mut self, fds: &mut [Option<F>]) {
    }

    fn fd_count(&self) -> (count: usize) {
        assert(held(Seq::<Slot<F>>::empty()) =~= Seq::<F>::empty());
        0
    }
}

impl<F> ContainsFds<F> for PassedFd<F> {
    open spec fn slots(&self) -> Seq<Slot<F>> {
        seq![self@]
    }

    open spec fn same_outside(&self, other: &Self) -> bool {
        true
    }

    fn extract_fds_with_index(&mut self, next_index: &mut u32) -> (fds: Vec<F>) {
        proof {
            lemma_held_push(Seq::<Slot<F>>::empty(), self@);
            assert(Seq::<Slot<F>>::empty().push(self@) =~= self.slots());
            assert(held(Seq::<Slot<F>>::empty()) =~= Seq::<F>::empty());
            assert(self.slots().take(0) =~= Seq::<Slot<F>>::empty());
        }
        if let Some(fd) = self.take_fd() {
            self.set_index(*next_index);
            *next_index = *next_index + 1;
            vec![fd]
        } else {
            self.set_index(EMPTY_INDEX);
            vec![]
        }
    }

    fn inject_fds_from(&mut self, fds: &mut [Option<F>]) {
        let ghost before = self.slots();
        let ghost supply = fds@;
        if let Some(idx) = self.index() {
            let idx: usize = idx as usize;
            if idx < fds.len() {
                if let Some(fd) = fds[idx].take() {
                    self.inject_fd(fd);
                }
            }
        }
        assert forall|i: int| 0 <= i < supply.len() implies fds@[i] == #[trigger] left_over(
            before,
            supply,
        )[i] by {
            if before[0].asks_for(i) {
                assert(fds@[i] is None);
            }
        }
        assert(fds@ =~= left_over(before, supply));
    }

    fn fd_count(&self) -> (count: usize) {
        proof {
            lemma_held_push(Seq::<Slot<F>>::empty(), self@);
            assert(Seq::<Slot<F>>::empty().push(self@) =~= self.slots());
            assert(held(Seq::<Slot<F>>::empty()) =~= Seq::<F>::empty());
        }
        if self.has_fd() {
            1
        } else {
            0
        }
    }
}

impl<F> ContainsFds<F> for Vec<PassedFd<F>> {
    open spec fn slots(&self) -> Seq<Slot<F>> {
        self@.map_values(|p: PassedFd<F>| p@)
    }

    open spec fn same_outside(&self, other: &Self) -> bool {
        true
    }

    fn extract_fds_with_index(&mut self, next_index: &mut u32) -> (fds: Vec<F>) {
        let ghost before = self.slots();
        let ghost start = *next_index as int;
        let mut fds: Vec<F> = Vec::with_capacity(self.len());
        let mut k: usize = 0;
        while k < self.len()
            invariant
                k <= self.len() == before.len(),
                start + held(before).len() <= u32::MAX,
                *next_index == start + fds.len(),
                fds@ == held(before.take(k as int)),
                forall|j: int|
                    0 <= j < k ==> (#[trigger] self@[j])@ == numbered(before, start)[j],
                forall|j: int| k <= j < before.len() ==> (#[trigger] self@[j])@ == before[j],
            decreases self.len() - k,
        {
            proof {
                lemma_held_at(before, k as int);
                assert(self@[k as int]@ == before[k as int]);
            }
            let ghost places = self@;
            if let Some(fd) = self[k].take_fd() {
                self[k].set_index(*next_index);
                *next_index = *next_index + 1;
                fds.push(fd);
            } else {
                self[k].set_index(EMPTY_INDEX);
            }
            assert(forall|j: int|
                0 <= j < before.len() && j != k ==> #[trigger] self@[j] == places[j]);
            assert(self@[k as int]@ == numbered(before, start)[k as int]);
            k = k + 1;
        }
        assert(before.take(k as int) =~= before);
        assert(self.slots() =~= numbered(before, start));
        fds
    }

    fn inject_fds_from(&mut self, fds: &mut [Option<F>]) {
        let ghost before = self.slots();
        let ghost supply = fds@;
        let mut k: usize = 0;
        while k < self.len()
            invariant
                k <= self.len() == before.len(),
                fds@ == left_over(before.take(k as int), supply),
                forall|j: int|
                    0 <= j < k ==> (#[trigger] self@[j])@ == injected(before, supply)[j],
                forall|j: int| k <= j < before.len() ==> (#[trigger] self@[j])@ == before[j],
            decreases self.len() - k,
        {
            proof {
                lemma_left_over_step(before, supply, k as int);
                lemma_injected_step(before, supply, k as int);
                assert(self@[k as int]@ == before[k as int]);
            }
            let ghost places = self@;
            let ghost rest = fds@;
            self[k].inject_fds_from(fds);
            assert(forall|j: int|
                0 <= j < before.len() && j != k ==> #[trigger] self@[j] == places[j]);
            assert(self@[k as int].slots()[0] == injected(places[k as int].slots(), rest)[0]);
            assert(self@[k as int]@ == injected(before, supply)[k as int]);
            k = k + 1;
        }
        assert(before.take(k as int) =~= before);
        assert(self.slots() =~= injected(before, supply));
    }

    fn fd_count(&self) -> (count: usize) {
        let ghost slots = self.slots();
        let mut count: usize = 0;
        let mut k: usize = 0;
        while k < self.len()
            invariant
                k <= self.len(),
                slots == self@.map_values(|p: PassedFd<F>| p@),
                count <= k,
                count == held(slots.take(k as int)).len(),
            decreases self.len() - k,
        {
            proof {
                lemma_held_at(slots, k as int);
            }
            if self[k].has_fd() {
                count = count + 1;
            }
            k = k + 1;
        }
        assert(slots.take(k as int) =~= slots);
        count
    }
}

impl NoFds for () {

}

impl NoFds for bool {

}

impl NoFds for char {

}

impl NoFds for i8 {

}

impl NoFds for i16 {

}

impl NoFds for i32 {

}

impl NoFds for i64 {

}

impl NoFds for i128 {

}

impl NoFds for isize {

}

impl NoFds for u8 {

}

impl NoFds for u16 {

}

impl NoFds for u32 {

}

impl NoFds for u64 {

}

impl NoFds for u128 {

}

impl NoFds for usize {

}

impl NoFds for String {

}

impl NoFds for &str {

}

impl<T: NoFds> NoFds for Vec<T> {

}

impl<T: NoFds> NoFds for Option<T> {

}

impl<T: NoFds, E: NoFds> NoFds for Result<T, E> {

}

impl<T: NoFds> NoFds for Box<T> {

}

impl<T: NoFds + ?Sized> NoFds for std::sync::Arc<T> {

}

impl<T: NoFds + ?Sized> NoFds for std::rc::Rc<T> {

}

/// `std::cell::RefCell`, opaque: it appears only as a type that holds no descriptors.
#[verifier::external_type_specification]
#[verifier::external_body]
#[verifier::reject_recursive_types(T)]
pub struct ExRefCell<T: ?Sized>(std::cell::RefCell<T>);

impl<T: NoFds> NoFds for std::cell::RefCell<T> {

}

/// `std::cell::Cell`, opaque: it appears only as a type that holds no descriptors.
#[verifier::external_type_specification]
#[verifier::external_body]
#[verifier::reject_recursive_types(T)]
pub struct ExCell<T: ?Sized>(std::cell::Cell<T>);

impl<T: NoFds + Copy> NoFds for std::cell::Cell<T> {

}

impl<A: NoFds> NoFds for (A,) {

}

impl<A: NoFds, B: NoFds> NoFds for (A, B) {

}

impl<A: NoFds, B: NoFds, C: NoFds> NoFds for (A, B, C) {

}

impl<A: NoFds, B: NoFds, C: NoFds, D: NoFds> NoFds for (A, B, C, D) {

}

impl<A: NoFds, B: NoFds, C: NoFds, D: NoFds, E: NoFds> NoFds for (A, B, C, D, E) {

}

impl<T: NoFds, const N: usize> NoFds for [T; N] {

}

impl<T: NoFds> NoFds for [T] {

}

/// Marker trait for transports that support file descriptor passing.
///
/// A bound on it makes sure at compile time that [`PassedFd`] is only used with transports
/// that can pass descriptors.
pub trait SupportsFdPassing {

}

/// `std::io::Error`, opaque: it is only carried from the call that failed to the caller.
#[verifier::external_type_specification]
#[verifier::external_body]
pub struct ExIoError(std::io::Error);

/// Error type for descriptor passing operations.
#[derive(Debug)]
pub enum FdError {
    /// Descriptor passing is not supported on this transport.
    NotSupported,
    /// Too many file descriptors in a single message.
    TooManyFds {
        /// The number of descriptors attempted.
        count: usize,
        /// The maximum allowed.
        max: usize,
    },
    /// Descriptor count mismatch between sent and received.
    CountMismatch {
        /// Expected number of descriptors.
        expected: usize,
        /// Actual number received.
        actual: usize,
    },
    /// I/O error during descriptor passing.
    Io(std::io::Error),
}

impl From<std::io::Error> for FdError {
    fn from(error: std::io::Error) -> (converted: Self) {
        FdError::Io(error)
    }
}

impl vstd::std_specs::convert::FromSpecImpl<std::io::Error> for FdError {
    open spec fn obeys_from_spec() -> bool {
        true
    }

    open spec fn from_spec(error: std::io::Error) -> Self {
        FdError::Io(error)
    }
}

impl FdError {
    /// The kind of I/O error as which a transport reports this one. `None` stands for one that
    /// has its own, or that no transport reports.
    pub fn kind(&self) -> (kind: Option<ErrorKind>)
        ensures
            kind == (match *self {
                FdError::TooManyFds { .. } => Some(ErrorKind::InvalidInput),
                _ => None::<ErrorKind>,
            }),
    {
        match self {
            FdError::TooManyFds { .. } => Some(ErrorKind::InvalidInput),
            _ => None,
        }
    }

    /// The text of the error. The text of an I/O error is its own, after the words
    /// `I/O error: `.
    pub fn message(&self) -> (text: String)
        ensures
            match *self {
                FdError::NotSupported => text@ == "FD passing not supported on this transport"@,
                FdError::TooManyFds { count, max } => text@ == "too many file descriptors ("@
                    + crate::text::decimal(count as nat) + "), maximum is "@
                    + crate::text::decimal(max as nat),
                FdError::CountMismatch { expected, actual } => text@
                    == "FD count mismatch: expected "@ + crate::text::decimal(expected as nat)
                    + ", received "@ + crate::text::decimal(actual as nat),
                FdError::Io(error) => exists|reason: String|
                    #[trigger] vstd::string::to_string_from_display_ensures::<std::io::Error>(
                        &error,
                        reason,
                    ) && text@ == "I/O error: "@ + reason@,
            },
    {
        match self {
            FdError::NotSupported => "FD passing not supported on this transport".to_owned(),
            FdError::TooManyFds { count, max } => {
                let mut text = "too many file descriptors (".to_owned();
                append_decimal(&mut text, *count);
                text.append("), maximum is ");
                append_decimal(&mut text, *max);
                text
            },
            FdError::CountMismatch { expected, actual } => {
                let mut text = "FD count mismatch: expected ".to_owned();
                append_decimal(&mut text, *expected);
                text.append(", received ");
                append_decimal(&mut text, *actual);
                text
            },
            FdError::Io(error) => {
                let mut text = "I/O error: ".to_owned();
                let reason = error.to_string();
                text.append(reason.as_str());
                text
            },
        }
    }
}

/// Checks that `count` descriptors can go with one message.
pub fn check_fd_count(count: usize) -> (checked: Result<(), FdError>)
    ensures
        checked == (if count > MAX_FDS_PER_MESSAGE {
            Err::<(), FdError>(FdError::TooManyFds { count, max: MAX_FDS_PER_MESSAGE })
        } else {
            Ok::<(), FdError>(())
        }),
{
    if count > MAX_FDS_PER_MESSAGE {
        return Err(FdError::TooManyFds { count, max: MAX_FDS_PER_MESSAGE });
    }
    Ok(())
}

/// Law: where every place holds a descriptor, the extracted descriptors are those of the
/// places, one for one.
pub proof fn lemma_all_held<F>(slots: Seq<Slot<F>>)
    requires
        all_held(slots),
    ensures
        held(slots) == slots.map_values(|s: Slot<F>| s.fd.unwrap()),
    decreases slots.len(),
{
    if slots.len() > 0 {
        let init = slots.drop_last();
        assert forall|k: int| 0 <= k < init.len() implies (#[trigger] init[k]).fd is Some by {
            assert(slots[k].fd is Some);
        }
        lemma_all_held(init);
        lemma_held_push(init, slots.last());
        assert(init.push(slots.last()) =~= slots);
        assert(held(slots) =~= slots.map_values(|s: Slot<F>| s.fd.unwrap()));
    } else {
        assert(held(slots) =~= slots.map_values(|s: Slot<F>| s.fd.unwrap()));
    }
}

/// Law: no more descriptors are extracted than there are places, and as many only where every
/// place holds one.
pub proof fn lemma_held_count<F>(slots: Seq<Slot<F>>)
    ensures
        held(slots).len() <= slots.len(),
        held(slots).len() == slots.len() <==> all_held(slots),
    decreases slots.len(),
{
    if slots.len() > 0 {
        let init = slots.drop_last();
        lemma_held_count(init);
        lemma_held_push(init, slots.last());
        assert(init.push(slots.last()) =~= slots);
        if all_held(slots) {
            assert(slots[slots.len() - 1].fd is Some);
            assert forall|k: int| 0 <= k < init.len() implies (#[trigger] init[k]).fd is Some by {
                assert(slots[k].fd is Some);
            }
        }
        if all_held(init) && slots.last().fd is Some {
            assert forall|k: int| 0 <= k < slots.len() implies (
            #[trigger] slots[k]).fd is Some by {
                if k < init.len() {
                    assert(init[k].fd is Some);
                }
            }
        }
    } else {
        assert(held(slots) =~= Seq::<F>::empty());
    }
}

/// Law: where every place holds a descriptor, the places are numbered one after the other.
pub proof fn lemma_all_numbered<F>(slots: Seq<Slot<F>>, start: int)
    requires
        all_held(slots),
    ensures
        numbered(slots, start) == Seq::new(
            slots.len(),
            |k: int| Slot { fd: None::<F>, index: (start + k) as u32 },
        ),
{
    assert forall|k: int| 0 <= k < slots.len() implies #[trigger] numbered(slots, start)[k] == (
    Slot { fd: None::<F>, index: (start + k) as u32 }) by {
        assert(slots[k].fd is Some);
        assert(all_held(slots.take(k)));
        lemma_held_count(slots.take(k));
    }
    assert(numbered(slots, start) =~= Seq::new(
        slots.len(),
        |k: int| Slot { fd: None::<F>, index: (start + k) as u32 },
    ));
}

/// Law: the index that a place is left with is the position of its own descriptor in the list of
/// the extracted ones, counted from `start`.
pub proof fn lemma_index_finds_own<F>(slots: Seq<Slot<F>>, start: int, k: int)
    requires
        0 <= start,
        start + held(slots).len() <= u32::MAX,
        0 <= k < slots.len(),
        slots[k].fd is Some,
    ensures
        numbered(slots, start)[k].index == start + held(slots.take(k)).len(),
        start <= numbered(slots, start)[k].index < start + held(slots).len(),
        Some(held(slots)[numbered(slots, start)[k].index - start]) == slots[k].fd,
{
    lemma_held_at(slots, k);
    assert(held(slots)[held(slots.take(k)).len() as int] == held(slots.take(k + 1)).last());
}

/// Law: every extracted descriptor is named by the index of one place, that which held it.
pub proof fn lemma_index_onto<F>(slots: Seq<Slot<F>>, i: int) -> (k: int)
    requires
        0 <= i < held(slots).len(),
    ensures
        0 <= k < slots.len(),
        slots[k].fd == Some(held(slots)[i]),
        held(slots.take(k)).len() == i,
    decreases slots.len(),
{
    if slots.len() == 0 {
        assert(held(slots) =~= Seq::<F>::empty());
        0
    } else {
        let init = slots.drop_last();
        lemma_held_push(init, slots.last());
        assert(init.push(slots.last()) =~= slots);
        assert(slots.take(slots.len() - 1) =~= init);
        if i < held(init).len() {
            let k = lemma_index_onto(init, i);
            assert(init.take(k) =~= slots.take(k));
            k
        } else {
            slots.len() - 1
        }
    }
}

/// Law: what is extracted from a value goes back to the place it came from, whichever of its
/// places hold a descriptor.
///
/// It holds for injection into the value itself and into the value at the other end, whose
/// places were made from the indices that extraction assigned. A place that held none holds none
/// then. Nothing is left of the supply.
pub proof fn lemma_inject_restores_extracted<F>(slots: Seq<Slot<F>>)
    requires
        held(slots).len() < u32::MAX,
    ensures
        injected(numbered(slots, 0), supplied(held(slots))) == Seq::new(
            slots.len(),
            |k: int| Slot { fd: slots[k].fd, index: numbered(slots, 0)[k].index },
        ),
        left_over(numbered(slots, 0), supplied(held(slots))) == Seq::new(
            held(slots).len(),
            |k: int| None::<F>,
        ),
{
    let places = numbered(slots, 0);
    let supply = supplied(held(slots));
    assert forall|k: int| 0 <= k < slots.len() implies #[trigger] injected(places, supply)[k] == (
    Slot { fd: slots[k].fd, index: places[k].index }) by {
        if slots[k].fd is Some {
            lemma_index_finds_own(slots, 0, k);
            assert forall|j: int| 0 <= j < k implies (#[trigger] places[j]).index
                != places[k].index by {
                if slots[j].fd is Some {
                    lemma_index_finds_own(slots, 0, j);
                    lemma_held_at(slots.take(k), j);
                    assert(slots.take(k).take(j) =~= slots.take(j));
                    assert(slots.take(k)[j] == slots[j]);
                    assert(held(slots.take(j)).len() < held(slots.take(k)).len());
                }
            }
            assert(asks_first(places, k));
        }
    }
    assert forall|i: int| 0 <= i < supply.len() implies #[trigger] left_over(places, supply)[i]
        == None::<F> by {
        let k = lemma_index_onto(slots, i);
        assert(places[k].asks_for(i));
    }
    assert(injected(places, supply) =~= Seq::new(
        slots.len(),
        |k: int| Slot { fd: slots[k].fd, index: numbered(slots, 0)[k].index },
    ));
    assert(left_over(places, supply) =~= Seq::new(held(slots).len(), |k: int| None::<F>));
}

/// Law: fields that are extracted one after the other, each from where the one before it left
/// the index, are numbered and emptied as one.
pub proof fn lemma_extract_in_sequence<F>(a: Seq<Slot<F>>, b: Seq<Slot<F>>, start: int)
    ensures
        numbered(a + b, start) == numbered(a, start) + numbered(b, start + held(a).len()),
        held(a + b) == held(a) + held(b),
{
    lemma_held_add(a, b);
    let parts = numbered(a, start) + numbered(b, start + held(a).len());
    assert forall|k: int| 0 <= k < (a + b).len() implies #[trigger] numbered(a + b, start)[k]
        == parts[k] by {
        if k < a.len() {
            assert((a + b).take(k) =~= a.take(k));
        } else {
            lemma_held_add(a, b.take(k - a.len()));
            assert((a + b).take(k) =~= a + b.take(k - a.len()));
        }
    }
    assert(numbered(a + b, start) =~= parts);
}

/// Law: fields that are injected one after the other, each from what the one before it left of
/// the supply, are filled as one.
pub proof fn lemma_inject_in_sequence<F>(
    a: Seq<Slot<F>>,
    b: Seq<Slot<F>>,
    supply: Seq<Option<F>>,
)
    ensures
        injected(a + b, supply) == injected(a, supply) + injected(b, left_over(a, supply)),
        left_over(a + b, supply) == left_over(b, left_over(a, supply)),
{
    let both = a + b;
    let rest = left_over(a, supply);
    assert forall|i: int| 0 <= i < supply.len() implies #[trigger] left_over(both, supply)[i]
        == left_over(b, rest)[i] by {
        if exists|k: int| 0 <= k < both.len() && (#[trigger] both[k]).asks_for(i) {
            let k = choose|k: int| 0 <= k < both.len() && (#[trigger] both[k]).asks_for(i);
            if k < a.len() {
                assert(a[k].asks_for(i));
            } else {
                assert(b[k - a.len()].asks_for(i));
            }
        }
        if exists|k: int| 0 <= k < a.len() && (#[trigger] a[k]).asks_for(i) {
            let k = choose|k: int| 0 <= k < a.len() && (#[trigger] a[k]).asks_for(i);
            assert(both[k].asks_for(i));
        }
        if exists|k: int| 0 <= k < b.len() && (#[trigger] b[k]).asks_for(i) {
            let k = choose|k: int| 0 <= k < b.len() && (#[trigger] b[k]).asks_for(i);
            assert(both[k + a.len()].asks_for(i));
        }
    }
    assert(left_over(both, supply) =~= left_over(b, rest));
    assert forall|k: int| 0 <= k < both.len() implies #[trigger] injected(both, supply)[k] == (
    injected(a, supply) + injected(b, rest))[k] by {
        if k < a.len() {
            assert(both[k] == a[k]);
            assert(forall|j: int| 0 <= j < k ==> both[j] == a[j]);
            assert(asks_first(both, k) == asks_first(a, k));
        } else {
            let m = k - a.len();
            let index = b[m].index;
            assert(both[k] == b[m]);
            if index != INVALID_INDEX && index < supply.len() {
                if asks_first(both, k) {
                    assert forall|j: int| 0 <= j < m implies (#[trigger] b[j]).index != index by {
                        assert(both[j + a.len()].index != index);
                    }
                    assert(asks_first(b, m));
                    if exists|j: int| 0 <= j < a.len() && (#[trigger] a[j]).asks_for(index as int)
                    {
                        let j = choose|j: int|
                            0 <= j < a.len() && (#[trigger] a[j]).asks_for(index as int);
                        assert(both[j].index != index);
                    }
                } else {
                    let j = choose|j: int| 0 <= j < k && (#[trigger] both[j]).index == index;
                    if j < a.len() {
                        assert(a[j].asks_for(index as int));
                    } else {
                        assert(b[j - a.len()].index == index);
                    }
                }
            }
        }
    }
    assert(injected(both, supply) =~= injected(a, supply) + injected(b, rest));
}

/// Law: once extracted, a value can be serialized: every place has an index that can be written.
pub proof fn lemma_extracted_is_assigned<F>(slots: Seq<Slot<F>>, start: int, k: int)
    requires
        0 <= start,
        start + held(slots).len() <= u32::MAX,
        0 <= k < slots.len(),
    ensures
        numbered(slots, start)[k].assigned() == Some(numbered(slots, start)[k].index),
{
    if slots[k].fd is Some {
        lemma_index_finds_own(slots, start, k);
    }
}

/// Law: once extracted, a value holds no descriptor; extracting it again gives none, and no
/// place is left with an index that would name one.
pub proof fn lemma_extract_twice<F>(slots: Seq<Slot<F>>, start: int, again: int)
    ensures
        held(numbered(slots, start)) == Seq::<F>::empty(),
        numbered(numbered(slots, start), again) == Seq::new(
            slots.len(),
            |k: int| Slot { fd: None::<F>, index: EMPTY_INDEX },
        ),
{
    let places = numbered(slots, start);
    if held(places).len() > 0 {
        let k = lemma_index_onto(places, 0);
        assert(places[k].fd is None);
    }
    assert(held(places) =~= Seq::<F>::empty());
    assert(numbered(places, again) =~= Seq::new(
        slots.len(),
        |k: int| Slot { fd: None::<F>, index: EMPTY_INDEX },
    ));
}

/// Law: two places never receive the same descriptor of the supply.
pub proof fn lemma_injected_once<F>(slots: Seq<Slot<F>>, j: int, k: int)
    requires
        0 <= j < slots.len(),
        0 <= k < slots.len(),
        j != k,
        asks_first(slots, j),
        asks_first(slots, k),
    ensures
        slots[j].index != slots[k].index,
{
    if j < k {
        assert(slots[j].index != slots[k].index);
    } else {
        assert(slots[k].index != slots[j].index);
    }
}

/// Law: a place without an index, or with an index that the supply does not reach, is left as
/// it is.
pub proof fn lemma_inject_out_of_range<F>(slots: Seq<Slot<F>>, supply: Seq<Option<F>>, k: int)
    requires
        0 <= k < slots.len(),
        slots[k].index == INVALID_INDEX || slots[k].index >= supply.len(),
    ensures
        injected(slots, supply)[k] == slots[k],
{
}

/// Law: a message carries at most two hundred and fifty-three descriptors; the two largest
/// indices stand for no descriptor.
pub proof fn lemma_fd_limits()
    ensures
        MAX_FDS_PER_MESSAGE == 253,
        INVALID_INDEX == u32::MAX,
        EMPTY_INDEX == u32::MAX - 1,
{
}

/// Law: a bare descriptor number is its own number.
pub proof fn lemma_bare_number(fd: RawFd)
    ensures
        fd.number() == fd,
{
}

/// Law: the largest index stands for none; any other is assigned, and asks for the descriptor at
/// its own position and no other.
pub proof fn lemma_slot_index<F>(slot: Slot<F>, i: int)
    ensures
        slot.assigned() is None <==> slot.index == u32::MAX,
        slot.assigned() matches Some(index) ==> index == slot.index,
        slot.asks_for(i) <==> slot.index == i && slot.index != u32::MAX,
{
}

/// Law: places without descriptors hold none, and if there are none none are held.
pub proof fn lemma_none_held<F>(slots: Seq<Slot<F>>)
    requires
        forall|k: int| 0 <= k < slots.len() ==> (#[trigger] slots[k]).fd is None,
    ensures
        held(slots) == Seq::<F>::empty(),
{
    if held(slots).len() > 0 {
        let k = lemma_index_onto(slots, 0);
        assert(slots[k].fd is None);
    }
    assert(held(slots) =~= Seq::<F>::empty());
}

/// Law: extraction leaves as many places as there were, all empty. A place that held a
/// descriptor is left with the number of descriptors held before it, counted from `start`, and
/// one that held none with the largest index but one.
pub proof fn lemma_numbered_places<F>(slots: Seq<Slot<F>>, start: int, k: int)
    requires
        0 <= start,
        start + held(slots).len() <= u32::MAX,
        0 <= k < slots.len(),
    ensures
        numbered(slots, start).len() == slots.len(),
        numbered(slots, start)[k].fd is None,
        slots[k].fd is Some ==> numbered(slots, start)[k].index == start + held(
            slots.take(k),
        ).len(),
        slots[k].fd is None ==> numbered(slots, start)[k].index == u32::MAX - 1,
{
    if slots[k].fd is Some {
        lemma_index_finds_own(slots, start, k);
    }
}

/// Law: injection keeps the places and their indices. A place receives the descriptor at the
/// position that is its index, if there is one and no place before it has the same index; else
/// it keeps what it holds.
pub proof fn lemma_injected_places<F>(slots: Seq<Slot<F>>, supply: Seq<Option<F>>, k: int)
    requires
        0 <= k < slots.len(),
    ensures
        injected(slots, supply).len() == slots.len(),
        injected(slots, supply)[k].index == slots[k].index,
        injected(slots, supply)[k].fd == (if slots[k].index != u32::MAX && slots[k].index
            < supply.len() && supply[slots[k].index as int] is Some && (forall|j: int|
            0 <= j < k ==> (#[trigger] slots[j]).index != slots[k].index) {
            supply[slots[k].index as int]
        } else {
            slots[k].fd
        }),
{
}

/// Law: injection takes out of the supply the descriptors at the positions that are the index of
/// some place, and leaves the others where they are.
pub proof fn lemma_left_over_places<F>(slots: Seq<Slot<F>>, supply: Seq<Option<F>>, i: int)
    requires
        0 <= i < supply.len(),
    ensures
        left_over(slots, supply).len() == supply.len(),
        left_over(slots, supply)[i] == (if exists|k: int|
            0 <= k < slots.len() && (#[trigger] slots[k]).index == i && i != u32::MAX {
            None
        } else {
            supply[i]
        }),
{
    if exists|k: int| 0 <= k < slots.len() && (#[trigger] slots[k]).index == i && i != u32::MAX {
        let k = choose|k: int|
            0 <= k < slots.len() && (#[trigger] slots[k]).index == i && i != u32::MAX;
        assert(slots[k].asks_for(i));
    }
}

/// Law: a list of descriptors supplies each at its own position.
pub proof fn lemma_supplied<F>(fds: Seq<F>)
    ensures
        supplied(fds).len() == fds.len(),
        forall|i: int| 0 <= i < fds.len() ==> #[trigger] supplied(fds)[i] == Some(fds[i]),
{
}

/// Law: a wrapper is one place, and a vector of wrappers one for each, in order.
pub proof fn lemma_places<F>(one: PassedFd<F>, many: Vec<PassedFd<F>>)
    ensures
        one.slots() == seq![one@],
        many.slots().len() == many@.len(),
        forall|k: int| 0 <= k < many@.len() ==> #[trigger] many.slots()[k] == many@[k]@,
{
}

/// Law: a value that holds no descriptors has no places for them, and nothing that is done with
/// its places changes it.
pub proof fn lemma_no_places<F, T: NoFds>(a: T, b: T)
    ensures
        <T as ContainsFds<F>>::slots(&a) == Seq::<Slot<F>>::empty(),
        <T as ContainsFds<F>>::same_outside(&a, &b) <==> a == b,
{
}

} // verus!
