//! Model of the readiness driver: one-shot interest descriptors tagged with a
//! connection key, classification of delivered event masks, and the table of
//! descriptors currently registered with the driver instance.
//!
//! The actual `epoll` system calls live outside the library; this module is
//! the bookkeeping that the event loop reasons about, and the caller mirrors
//! every table operation with the corresponding system call.

use vstd::prelude::*;

verus! {

/// Mask bit meaning "readable".
pub const EVENT_READABLE: u32 = 0x1;

/// Mask bit meaning "writable".
pub const EVENT_WRITABLE: u32 = 0x4;

/// Mask bit requesting one-shot delivery: the interest is disabled after it
/// fires once and must be re-armed explicitly.
pub const EVENT_ONESHOT: u32 = 0x40000000;

/// One-shot read interest: `EVENT_ONESHOT` and `EVENT_READABLE` combined.
pub const READ_FLAGS: u32 = 0x40000001;

/// One-shot write interest: `EVENT_ONESHOT` and `EVENT_WRITABLE` combined.
pub const WRITE_FLAGS: u32 = 0x40000004;

/// An interest descriptor: an event mask together with the opaque key that
/// readiness events for this descriptor will carry.
#[derive(Clone, Copy, PartialEq, Eq, Structural, Debug)]
pub struct EpollEvent {
    pub events: u32,
    pub key: u64,
}

/// Builds a one-shot read interest tagged with `key`.
pub fn listener_read_event(key: u64) -> (e: EpollEvent)
    ensures
        e.events == READ_FLAGS,
        e.key == key,
{
    EpollEvent { events: READ_FLAGS, key }
}

/// Builds a one-shot write interest tagged with `key`.
pub fn listener_write_event(key: u64) -> (e: EpollEvent)
    ensures
        e.events == WRITE_FLAGS,
        e.key == key,
{
    EpollEvent { events: WRITE_FLAGS, key }
}

/// What a delivered event mask asks the loop to do. Decoded once per event;
/// "readable" takes priority when both bits are set.
#[derive(Clone, Copy, PartialEq, Eq, Structural, Debug)]
pub enum EventKind {
    Readable,
    Writable,
    Other,
}

/// Meaning of a raw event mask: readable first, then writable, else other.
pub open spec fn classify_spec(events: u32) -> EventKind {
    if events & EVENT_READABLE == EVENT_READABLE {
        EventKind::Readable
    } else if events & EVENT_WRITABLE == EVENT_WRITABLE {
        EventKind::Writable
    } else {
        EventKind::Other
    }
}

/// Decodes a delivered event mask, testing the readable bit before the
/// writable bit.
pub fn classify_event(events: u32) -> (k: EventKind)
    ensures
        k == classify_spec(events),
{
    if events & EVENT_READABLE == EVENT_READABLE {
        EventKind::Readable
    } else if events & EVENT_WRITABLE == EVENT_WRITABLE {
        EventKind::Writable
    } else {
        EventKind::Other
    }
}

/// The built interests decode back to their own kind: a one-shot read
/// interest classifies as readable, a one-shot write interest as writable.
pub proof fn lemma_classify_flags()
    ensures
        classify_spec(READ_FLAGS) == EventKind::Readable,
        classify_spec(WRITE_FLAGS) == EventKind::Writable,
{
    assert(0x40000001u32 & 0x1u32 == 0x1u32) by (bit_vector);
    assert(0x40000004u32 & 0x1u32 != 0x1u32) by (bit_vector);
    assert(0x40000004u32 & 0x4u32 == 0x4u32) by (bit_vector);
}

/// One row of the driver's table: a registered descriptor and the interest
/// most recently requested for it.
#[derive(Clone, Copy, PartialEq, Eq, Structural, Debug)]
pub struct Registration {
    pub fd: i32,
    pub event: EpollEvent,
}

/// Errors of the driver's table operations.
#[derive(Clone, Copy, PartialEq, Eq, Structural, Debug)]
pub enum EpollError {
    /// Registering a descriptor that is already in the table.
    AlreadyRegistered,
    /// Re-arming a descriptor that is not in the table.
    NotRegistered,
    /// A negative descriptor can never be registered.
    InvalidDescriptor,
}

/// The driver instance's bookkeeping: which descriptors are registered and
/// with what interest, plus a record of every descriptor handed to `close`.
pub struct Epoll {
    pub registrations: Vec<Registration>,
    pub closed: Vec<i32>,
}

impl Epoll {
    /// No descriptor occurs twice in the table.
    pub open spec fn well_formed(self) -> bool {
        forall|i: int, j: int|
            0 <= i < j < self.registrations@.len() ==> self.registrations@[i].fd
                != self.registrations@[j].fd
    }

    /// Whether `fd` is currently registered.
    pub open spec fn is_registered(self, fd: i32) -> bool {
        exists|i: int| 0 <= i < self.registrations@.len() && self.registrations@[i].fd == fd
    }

    /// The interest currently armed for a registered `fd`.
    pub open spec fn armed(self, fd: i32) -> EpollEvent {
        self.registrations@[choose|i: int|
            0 <= i < self.registrations@.len() && self.registrations@[i].fd == fd].event
    }

    /// In a well-formed table, the row holding `fd` determines `armed(fd)`.
    pub proof fn lemma_armed_at(self, i: int)
        requires
            self.well_formed(),
            0 <= i < self.registrations@.len(),
        ensures
            self.armed(self.registrations@[i].fd) == self.registrations@[i].event,
    {
        let fd = self.registrations@[i].fd;
        let j = choose|j: int|
            0 <= j < self.registrations@.len() && self.registrations@[j].fd == fd;
        assert(0 <= j < self.registrations@.len() && self.registrations@[j].fd == fd);
        if i < j {
            assert(self.registrations@[i].fd != self.registrations@[j].fd);
        } else if j < i {
            assert(self.registrations@[j].fd != self.registrations@[i].fd);
        }
    }

    /// Index of `fd` in the table, if any.
    fn find_fd(&self, fd: i32) -> (r: Option<usize>)
        ensures
            match r {
                Some(i) => 0 <= i < self.registrations@.len() && self.registrations@[i as int].fd
                    == fd,
                None => !self.is_registered(fd),
            },
    {
        let mut i: usize = 0;
        while i < self.registrations.len()
            invariant
                i <= self.registrations@.len(),
                forall|j: int| 0 <= j < i ==> self.registrations@[j].fd != fd,
            decreases self.registrations@.len() - i,
        {
            if self.registrations[i].fd == fd {
                return Some(i);
            }
            i = i + 1;
        }
        None
    }

    /// Whether `fd` is currently registered (callable form of `is_registered`).
    pub fn registered(&self, fd: i32) -> (r: bool)
        ensures
            r == self.is_registered(fd),
    {
        self.find_fd(fd).is_some()
    }

    /// The interest currently armed for `fd`, if `fd` is registered.
    pub fn armed_event(&self, fd: i32) -> (r: Option<EpollEvent>)
        requires
            self.well_formed(),
        ensures
            match r {
                Some(e) => self.is_registered(fd) && e == self.armed(fd),
                None => !self.is_registered(fd),
            },
    {
        match self.find_fd(fd) {
            Some(i) => {
                proof {
                    self.lemma_armed_at(i as int);
                }
                Some(self.registrations[i].event)
            },
            None => None,
        }
    }

    /// Registers `fd` with the given one-shot interest. Fails if the
    /// descriptor is negative or already registered; on success every other
    /// row is untouched.
    pub fn add_interest(&mut self, fd: i32, event: EpollEvent) -> (r: Result<(), EpollError>)
        requires
            old(self).well_formed(),
        ensures
            final(self).well_formed(),
            final(self).closed@ == old(self).closed@,
            r is Ok <==> (fd >= 0 && !old(self).is_registered(fd)),
            r is Err ==> *final(self) == *old(self) && (if fd < 0 {
                r == Err::<(), EpollError>(EpollError::InvalidDescriptor)
            } else {
                r == Err::<(), EpollError>(EpollError::AlreadyRegistered)
            }),
            r is Ok ==> final(self).registrations@ == old(self).registrations@.push(
                Registration { fd, event },
            ),
            r is Ok ==> final(self).is_registered(fd) && final(self).armed(fd) == event,
            r is Ok ==> forall|f2: i32|
                f2 != fd ==> final(self).is_registered(f2) == old(self).is_registered(f2),
            r is Ok ==> forall|f2: i32|
                f2 != fd && old(self).is_registered(f2) ==> final(self).armed(f2) == old(
                    self,
                ).armed(f2),
    {
        if fd < 0 {
            return Err(EpollError::InvalidDescriptor);
        }
        if self.registered(fd) {
            return Err(EpollError::AlreadyRegistered);
        }
        let ghost pre = *self;
        self.registrations.push(Registration { fd, event });
        proof {
            let n = self.registrations@.len() - 1;
            assert(self.registrations@[n].fd == fd);
            assert forall|i: int, j: int|
                0 <= i < j < self.registrations@.len() implies self.registrations@[i].fd
                != self.registrations@[j].fd by {
                if j < n {
                    assert(pre.registrations@[i].fd != pre.registrations@[j].fd);
                } else {
                    assert(j == n);
                    if self.registrations@[i].fd == fd {
                        assert(pre.is_registered(fd));
                    }
                }
            }
            self.lemma_armed_at(n);
            assert forall|f2: i32| f2 != fd implies self.is_registered(f2) == pre.is_registered(
                f2,
            ) by {
                if self.is_registered(f2) {
                    let i = choose|i: int|
                        0 <= i < self.registrations@.len() && self.registrations@[i].fd == f2;
                    assert(i != n);
                    assert(pre.registrations@[i].fd == f2);
                }
                if pre.is_registered(f2) {
                    let i = choose|i: int|
                        0 <= i < pre.registrations@.len() && pre.registrations@[i].fd == f2;
                    assert(self.registrations@[i].fd == f2);
                }
            }
            assert forall|f2: i32| f2 != fd && pre.is_registered(f2) implies self.armed(f2)
                == pre.armed(f2) by {
                let i = choose|i: int|
                    0 <= i < pre.registrations@.len() && pre.registrations@[i].fd == f2;
                assert(self.registrations@[i].fd == f2);
                pre.lemma_armed_at(i);
                self.lemma_armed_at(i);
            }
        }
        Ok(())
    }

    /// Re-arms an already-registered descriptor with a new one-shot interest.
    /// Fails if the descriptor is not registered; on success every other row
    /// is untouched.
    pub fn modify_interest(&mut self, fd: i32, event: EpollEvent) -> (r: Result<(), EpollError>)
        requires
            old(self).well_formed(),
        ensures
            final(self).well_formed(),
            final(self).closed@ == old(self).closed@,
            r is Ok <==> old(self).is_registered(fd),
            r is Err ==> *final(self) == *old(self) && r == Err::<(), EpollError>(
                EpollError::NotRegistered,
            ),
            r is Ok ==> final(self).is_registered(fd) && final(self).armed(fd) == event,
            forall|f2: i32| f2 != fd ==> final(self).is_registered(f2) == old(self).is_registered(f2),
            forall|f2: i32|
                f2 != fd && old(self).is_registered(f2) ==> final(self).armed(f2) == old(
                    self,
                ).armed(f2),
    {
        let ghost pre = *self;
        match self.find_fd(fd) {
            Some(i) => {
                let fd_i = self.registrations[i].fd;
                self.registrations.set(i, Registration { fd, event });
                proof {
                    assert(self.registrations@ == pre.registrations@.update(
                        i as int,
                        Registration { fd, event },
                    ));
                    assert forall|a: int, b: int|
                        0 <= a < b < self.registrations@.len() implies self.registrations@[a].fd
                        != self.registrations@[b].fd by {
                        assert(pre.registrations@[a].fd != pre.registrations@[b].fd);
                        assert(pre.registrations@[i as int].fd == fd);
                    }
                    self.lemma_armed_at(i as int);
                    assert forall|f2: i32|
                        f2 != fd implies self.is_registered(f2) == pre.is_registered(f2) by {
                        if self.is_registered(f2) {
                            let a = choose|a: int|
                                0 <= a < self.registrations@.len() && self.registrations@[a].fd
                                    == f2;
                            assert(pre.registrations@[a].fd == f2);
                        }
                        if pre.is_registered(f2) {
                            let a = choose|a: int|
                                0 <= a < pre.registrations@.len() && pre.registrations@[a].fd == f2;
                            assert(a != i);
                            assert(self.registrations@[a].fd == f2);
                        }
                    }
                    assert forall|f2: i32|
                        f2 != fd && pre.is_registered(f2) implies self.armed(f2) == pre.armed(
                        f2,
                    ) by {
                        let a = choose|a: int|
                            0 <= a < pre.registrations@.len() && pre.registrations@[a].fd == f2;
                        assert(a != i);
                        assert(self.registrations@[a].fd == f2);
                        pre.lemma_armed_at(a);
                        self.lemma_armed_at(a);
                    }
                }
                Ok(())
            },
            None => Err(EpollError::NotRegistered),
        }
    }

    /// Removes `fd` from the table. Removing an absent descriptor is reported
    /// as `NotRegistered`, which callers are free to tolerate: either way the
    /// descriptor is absent afterwards and every other row is untouched.
    pub fn remove_interest(&mut self, fd: i32) -> (r: Result<(), EpollError>)
        requires
            old(self).well_formed(),
        ensures
            final(self).well_formed(),
            final(self).closed@ == old(self).closed@,
            r is Ok <==> old(self).is_registered(fd),
            r is Err ==> *final(self) == *old(self) && r == Err::<(), EpollError>(
                EpollError::NotRegistered,
            ),
            !final(self).is_registered(fd),
            forall|f2: i32| f2 != fd ==> final(self).is_registered(f2) == old(self).is_registered(f2),
            forall|f2: i32|
                f2 != fd && old(self).is_registered(f2) ==> final(self).armed(f2) == old(
                    self,
                ).armed(f2),
    {
        let ghost pre = *self;
        match self.find_fd(fd) {
            Some(i) => {
                self.registrations.remove(i);
                proof {
                    pre.lemma_remove_effect(i as int, *self);
                }
                Ok(())
            },
            None => Err(EpollError::NotRegistered),
        }
    }

    /// What removing row `i` does to the table's registration facts.
    proof fn lemma_remove_effect(self, i: int, post: Epoll)
        requires
            self.well_formed(),
            0 <= i < self.registrations@.len(),
            post.registrations@ == self.registrations@.remove(i),
        ensures
            post.well_formed(),
            !post.is_registered(self.registrations@[i].fd),
            forall|f2: i32|
                f2 != self.registrations@[i].fd ==> post.is_registered(f2) == self.is_registered(
                    f2,
                ),
            forall|f2: i32|
                f2 != self.registrations@[i].fd && self.is_registered(f2) ==> post.armed(f2)
                    == self.armed(f2),
    {
        let fd = self.registrations@[i].fd;
        assert forall|a: int, b: int|
            0 <= a < b < post.registrations@.len() implies post.registrations@[a].fd
            != post.registrations@[b].fd by {
            let a0 = if a < i { a } else { a + 1 };
            let b0 = if b < i { b } else { b + 1 };
            assert(post.registrations@[a] == self.registrations@[a0]);
            assert(post.registrations@[b] == self.registrations@[b0]);
            assert(self.registrations@[a0].fd != self.registrations@[b0].fd);
        }
        assert forall|a: int|
            0 <= a < post.registrations@.len() implies post.registrations@[a].fd != fd by {
            let a0 = if a < i { a } else { a + 1 };
            assert(post.registrations@[a] == self.registrations@[a0]);
            if a0 < i {
                assert(self.registrations@[a0].fd != self.registrations@[i].fd);
            } else {
                assert(self.registrations@[i].fd != self.registrations@[a0].fd);
            }
        }
        assert forall|f2: i32| f2 != fd implies post.is_registered(f2) == self.is_registered(
            f2,
        ) by {
            if post.is_registered(f2) {
                let a = choose|a: int|
                    0 <= a < post.registrations@.len() && post.registrations@[a].fd == f2;
                let a0 = if a < i { a } else { a + 1 };
                assert(self.registrations@[a0].fd == f2);
            }
            if self.is_registered(f2) {
                let a0 = choose|a0: int|
                    0 <= a0 < self.registrations@.len() && self.registrations@[a0].fd == f2;
                assert(a0 != i);
                let a = if a0 < i { a0 } else { a0 - 1 };
                assert(post.registrations@[a] == self.registrations@[a0]);
            }
        }
        assert forall|f2: i32| f2 != fd && self.is_registered(f2) implies post.armed(f2)
            == self.armed(f2) by {
            let a0 = choose|a0: int|
                0 <= a0 < self.registrations@.len() && self.registrations@[a0].fd == f2;
            assert(a0 != i);
            let a = if a0 < i { a0 } else { a0 - 1 };
            assert(post.registrations@[a] == self.registrations@[a0]);
            self.lemma_armed_at(a0);
            post.lemma_armed_at(a);
        }
    }

    /// Releases a descriptor: best-effort, never fails. The descriptor leaves
    /// the table (the kernel drops a closed descriptor from the interest set)
    /// and the close is recorded.
    pub fn close(&mut self, fd: i32)
        requires
            old(self).well_formed(),
        ensures
            final(self).well_formed(),
            final(self).closed@ == old(self).closed@.push(fd),
            !final(self).is_registered(fd),
            forall|f2: i32| f2 != fd ==> final(self).is_registered(f2) == old(self).is_registered(f2),
            forall|f2: i32|
                f2 != fd && old(self).is_registered(f2) ==> final(self).armed(f2) == old(
                    self,
                ).armed(f2),
    {
        let idx = self.find_fd(fd);
        self.closed.push(fd);
        let ghost mid = *self;
        proof {
            assert(mid.registrations@ == old(self).registrations@);
            assert forall|f2: i32| mid.is_registered(f2) == old(self).is_registered(f2) by {
                if mid.is_registered(f2) {
                    let a = choose|a: int|
                        0 <= a < mid.registrations@.len() && mid.registrations@[a].fd == f2;
                    assert(old(self).registrations@[a].fd == f2);
                }
                if old(self).is_registered(f2) {
                    let a = choose|a: int|
                        0 <= a < old(self).registrations@.len() && old(self).registrations@[a].fd
                            == f2;
                    assert(mid.registrations@[a].fd == f2);
                }
            }
            assert forall|f2: i32| old(self).is_registered(f2) implies mid.armed(f2) == old(
                self,
            ).armed(f2) by {
                let a = choose|a: int|
                    0 <= a < old(self).registrations@.len() && old(self).registrations@[a].fd == f2;
                old(self).lemma_armed_at(a);
                mid.lemma_armed_at(a);
            }
        }
        match idx {
            Some(i) => {
                self.registrations.remove(i);
                proof {
                    mid.lemma_remove_effect(i as int, *self);
                }
            },
            None => {},
        }
    }
}

/// Allocates a fresh driver instance: an empty table with nothing closed yet.
/// The caller mirrors this by creating the real instance, marked
/// close-on-exec; if that allocation fails the whole system stops.
pub fn epoll_create() -> (e: Epoll)
    ensures
        e.well_formed(),
        e.registrations@.len() == 0,
        e.closed@.len() == 0,
{
    Epoll { registrations: Vec::new(), closed: Vec::new() }
}

} // verus!

