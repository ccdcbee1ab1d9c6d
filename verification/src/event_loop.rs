//! The event loop's decision logic: dispatching readiness events, accepting
//! connections under fresh keys, driving each connection's read and write
//! steps, and tearing connections down. The caller owns the sockets and the
//! real readiness instance; it performs one accept, read or write per
//! decision and mirrors every table operation with the matching system call.

use vstd::prelude::*;
use crate::epoll::{
    Epoll, EpollEvent, EpollError, EventKind, classify_spec, classify_event, epoll_create,
    listener_read_event, READ_FLAGS, WRITE_FLAGS,
};
use crate::http::{
    RequestContext, ReadOutcome, ConnState, HttpError, scan_result, http_response_spec,
};
use crate::registry::Registry;

verus! {

/// The reserved key of the listening socket; connection keys are assigned
/// strictly above it.
pub const LISTENER_KEY: u64 = 100;

/// What the loop decides to do with one delivered readiness event.
#[derive(Clone, Copy, PartialEq, Eq, Structural, Debug)]
pub enum Action {
    /// The listener is readable: accept one pending connection.
    AcceptConnection,
    /// Run the read step of the connection under this key.
    ReadFrom(u64),
    /// Run the write step of the connection under this key.
    WriteTo(u64),
    /// Stale key or unexpected mask: do nothing.
    Ignore,
}

/// The loop's owned state: the driver's table, the connection registry, the
/// key counter, and the listening socket's descriptor.
pub struct EventLoop {
    pub epoll: Epoll,
    pub contexts: Registry,
    pub key: u64,
    pub listener_fd: i32,
}

impl EventLoop {
    /// The loop's invariant: keys are unique, above the reserved key and
    /// bounded by the counter; a context is in the registry exactly with its
    /// descriptor registered at the driver; descriptors belong to one
    /// connection each and never to the listener; and the listener stays
    /// armed for one-shot reads under the reserved key.
    pub open spec fn well_formed(self) -> bool {
        &&& self.contexts.well_formed()
        &&& self.epoll.well_formed()
        &&& self.key >= LISTENER_KEY
        &&& self.listener_fd >= 0
        &&& self.epoll.is_registered(self.listener_fd)
        &&& self.epoll.armed(self.listener_fd) == (EpollEvent {
            events: READ_FLAGS,
            key: LISTENER_KEY,
        })
        &&& forall|k: u64| #[trigger]
            self.contexts.spec_contains(k) ==> LISTENER_KEY < k <= self.key
        &&& forall|k: u64| #[trigger]
            self.contexts.spec_contains(k) ==> self.contexts.ctx_for(k).fd >= 0
                && self.contexts.ctx_for(k).fd != self.listener_fd && self.epoll.is_registered(
                self.contexts.ctx_for(k).fd,
            )
        &&& forall|k1: u64, k2: u64|
            #[trigger] self.contexts.spec_contains(k1) && #[trigger] self.contexts.spec_contains(
                k2,
            ) && k1 != k2 ==> self.contexts.ctx_for(k1).fd != self.contexts.ctx_for(k2).fd
        &&& forall|k: u64| #[trigger]
            self.contexts.spec_contains(k) ==> {
                let c = self.contexts.ctx_for(k);
                &&& (c.state == ConnState::Reading || c.state == ConnState::Writing)
                &&& self.epoll.armed(c.fd) == (EpollEvent {
                    events: if c.state == ConnState::Reading {
                        READ_FLAGS
                    } else {
                        WRITE_FLAGS
                    },
                    key: k,
                })
            }
    }

    /// A fresh loop around the given listening descriptor: empty registry,
    /// counter at the reserved key, listener registered for one-shot reads.
    /// Only a negative descriptor is refused.
    pub fn new(listener_fd: i32) -> (r: Result<EventLoop, EpollError>)
        ensures
            r is Ok <==> listener_fd >= 0,
            r is Err ==> r == Err::<EventLoop, EpollError>(EpollError::InvalidDescriptor),
            r matches Ok(l) ==> {
                &&& l.well_formed()
                &&& l.key == LISTENER_KEY
                &&& l.listener_fd == listener_fd
                &&& l.contexts.entries@.len() == 0
                &&& l.epoll.closed@.len() == 0
                &&& forall|k: u64| !l.contexts.spec_contains(k)
                &&& forall|f: i32| l.epoll.is_registered(f) <==> f == listener_fd
            },
    {
        let mut ep = epoll_create();
        match ep.add_interest(listener_fd, listener_read_event(LISTENER_KEY)) {
            Ok(_) => Ok(
                EventLoop {
                    epoll: ep,
                    contexts: Registry::new(),
                    key: LISTENER_KEY,
                    listener_fd,
                },
            ),
            Err(e) => Err(e),
        }
    }

    /// The dispatch rule: the reserved key means accept; a key with no
    /// registry entry is ignored; otherwise the event mask decides, readable
    /// before writable, and any other mask is ignored.
    pub open spec fn dispatch_spec(self, ev: EpollEvent) -> Action {
        if ev.key == LISTENER_KEY {
            Action::AcceptConnection
        } else if !self.contexts.spec_contains(ev.key) {
            Action::Ignore
        } else {
            match classify_spec(ev.events) {
                EventKind::Readable => Action::ReadFrom(ev.key),
                EventKind::Writable => Action::WriteTo(ev.key),
                EventKind::Other => Action::Ignore,
            }
        }
    }

    /// Decides what to do with one delivered event. Reads the state and
    /// mutates nothing.
    pub fn dispatch(&self, ev: EpollEvent) -> (a: Action)
        ensures
            a == self.dispatch_spec(ev),
    {
        if ev.key == LISTENER_KEY {
            Action::AcceptConnection
        } else if !self.contexts.contains_key(ev.key) {
            Action::Ignore
        } else {
            match classify_event(ev.events) {
                EventKind::Readable => Action::ReadFrom(ev.key),
                EventKind::Writable => Action::WriteTo(ev.key),
                EventKind::Other => Action::Ignore,
            }
        }
    }

    /// An event for a key with no registry entry never does anything: once a
    /// connection is gone (in particular, once its write step has run), every
    /// later event under its key is ignored.
    pub proof fn lemma_stale_key_ignored(l: EventLoop, ev: EpollEvent)
        requires
            ev.key != LISTENER_KEY,
            !l.contexts.spec_contains(ev.key),
        ensures
            l.dispatch_spec(ev) == Action::Ignore,
    {
    }

    /// Keys are never reused: every live connection's key lies strictly
    /// between the reserved key and the counter, and each accepted connection
    /// gets the counter's successor, so no key is ever assigned twice.
    pub proof fn lemma_keys_fresh(l: EventLoop, k: u64)
        requires
            l.well_formed(),
            l.contexts.spec_contains(k),
        ensures
            LISTENER_KEY < k <= l.key,
    {
    }

    /// Handles one listener-readiness event, after the caller tried to accept
    /// one pending connection. `accepted_fd` is the fresh descriptor, already
    /// non-blocking, or `None` if the accept failed (which is skipped, not
    /// fatal). On success the connection gets the next key, a fresh context
    /// and one-shot read interest. Whatever happened, the listener's read
    /// interest is re-armed, so no future connection is missed.
    pub fn handle_listener_event(&mut self, accepted_fd: Option<i32>) -> (r: Option<u64>)
        requires
            old(self).well_formed(),
            old(self).key < u64::MAX,
            accepted_fd matches Some(fd) ==> fd >= 0 && !old(self).epoll.is_registered(fd),
        ensures
            final(self).well_formed(),
            final(self).listener_fd == old(self).listener_fd,
            final(self).epoll.armed(old(self).listener_fd) == (EpollEvent {
                events: READ_FLAGS,
                key: LISTENER_KEY,
            }),
            final(self).epoll.closed@ == old(self).epoll.closed@,
            forall|f2: i32|
                old(self).epoll.is_registered(f2) ==> final(self).epoll.armed(f2) == old(
                    self,
                ).epoll.armed(f2),
            match accepted_fd {
                Option::None => {
                    &&& r is None
                    &&& final(self).key == old(self).key
                    &&& final(self).contexts == old(self).contexts
                    &&& forall|f: i32|
                        final(self).epoll.is_registered(f) == old(self).epoll.is_registered(f)
                },
                Option::Some(fd) => {
                    &&& r == Some(((old(self).key + 1) as u64))
                    &&& final(self).key == ((old(self).key + 1) as u64)
                    &&& !old(self).contexts.spec_contains(((old(self).key + 1) as u64))
                    &&& final(self).contexts.spec_contains(((old(self).key + 1) as u64))
                    &&& final(self).contexts.ctx_for(((old(self).key + 1) as u64)) == (RequestContext {
                        fd,
                        content_length: 0,
                        buf: final(self).contexts.ctx_for(((old(self).key + 1) as u64)).buf,
                        state: ConnState::Reading,
                    })
                    &&& final(self).contexts.ctx_for(((old(self).key + 1) as u64)).buf@.len() == 0
                    &&& final(self).epoll.armed(fd) == (EpollEvent {
                        events: READ_FLAGS,
                        key: ((old(self).key + 1) as u64),
                    })
                    &&& final(self).epoll.is_registered(fd)
                    &&& (forall|f2: i32|
                        f2 != fd ==> final(self).epoll.is_registered(f2) == old(
                            self,
                        ).epoll.is_registered(f2))
                    &&& (forall|k2: u64|
                        k2 != ((old(self).key + 1) as u64) ==> final(self).contexts.spec_contains(k2)
                            == old(self).contexts.spec_contains(k2))
                    &&& (forall|k2: u64|
                        k2 != ((old(self).key + 1) as u64) && old(self).contexts.spec_contains(k2)
                            ==> final(self).contexts.ctx_for(k2) == old(self).contexts.ctx_for(k2))
                },
            },
    {
        let r = match accepted_fd {
            Some(fd) => {
                proof {
                    assert(fd != self.listener_fd);
                    if self.contexts.spec_contains(((self.key + 1) as u64)) {
                        assert(self.key + 1 <= self.key);
                    }
                }
                let k = self.key + 1;
                let res = self.epoll.add_interest(fd, listener_read_event(k));
                proof {
                    assert(res is Ok);
                }
                self.contexts.insert(k, RequestContext::new(fd));
                self.key = k;
                Some(k)
            },
            None => None,
        };
        let res = self.epoll.modify_interest(self.listener_fd, listener_read_event(LISTENER_KEY));
        proof {
            assert(res is Ok);
        }
        r
    }

    /// Runs the read step of the connection under `key` on what the caller's
    /// non-blocking read produced, re-arms the descriptor with the interest
    /// the step chose, and on a malformed header tears only this connection
    /// down: its descriptor is deregistered and closed and its entry removed,
    /// while every other connection is untouched.
    pub fn handle_readable(&mut self, key: u64, outcome: ReadOutcome) -> (r: Result<
        EpollEvent,
        HttpError,
    >)
        requires
            old(self).well_formed(),
            old(self).contexts.spec_contains(key),
            old(self).contexts.ctx_for(key).state == ConnState::Reading,
        ensures
            final(self).well_formed(),
            final(self).key == old(self).key,
            final(self).listener_fd == old(self).listener_fd,
            forall|k2: u64|
                k2 != key ==> final(self).contexts.spec_contains(k2) == old(
                    self,
                ).contexts.spec_contains(k2),
            forall|k2: u64|
                k2 != key && old(self).contexts.spec_contains(k2) ==> final(self).contexts.ctx_for(
                    k2,
                ) == old(self).contexts.ctx_for(k2),
            forall|f2: i32|
                f2 != old(self).contexts.ctx_for(key).fd && old(self).epoll.is_registered(f2)
                    ==> final(self).epoll.armed(f2) == old(self).epoll.armed(f2),
            match r {
                Result::Ok(ev) => {
                    &&& final(self).epoll.closed@ == old(self).epoll.closed@
                    &&& (forall|f: i32|
                        final(self).epoll.is_registered(f) == old(self).epoll.is_registered(f))
                    &&& final(self).contexts.spec_contains(key)
                    &&& final(self).contexts.ctx_for(key).fd == old(self).contexts.ctx_for(key).fd
                    &&& final(self).epoll.armed(final(self).contexts.ctx_for(key).fd) == ev
                    &&& match outcome {
                        ReadOutcome::WouldBlock => final(self).contexts.ctx_for(key) == old(
                            self,
                        ).contexts.ctx_for(key) && ev == (EpollEvent { events: READ_FLAGS, key }),
                        ReadOutcome::Data(d) => {
                            &&& scan_result(old(self).contexts.ctx_for(key).content_length, d@)
                                == Ok::<usize, HttpError>(
                                final(self).contexts.ctx_for(key).content_length,
                            )
                            &&& final(self).contexts.ctx_for(key).buf@ == old(
                                self,
                            ).contexts.ctx_for(key).buf@ + d@
                            &&& if final(self).contexts.ctx_for(key).buf@.len() >= final(self).contexts.ctx_for(key).content_length {
                                final(self).contexts.ctx_for(key).state == ConnState::Writing && ev
                                    == (EpollEvent { events: WRITE_FLAGS, key })
                            } else {
                                final(self).contexts.ctx_for(key).state == ConnState::Reading && ev
                                    == (EpollEvent { events: READ_FLAGS, key })
                            }
                        },
                    }
                },
                Result::Err(e) => {
                    &&& match outcome {
                        ReadOutcome::WouldBlock => false,
                        ReadOutcome::Data(d) => scan_result(
                            old(self).contexts.ctx_for(key).content_length,
                            d@,
                        ) == Err::<usize, HttpError>(e),
                    }
                    &&& !final(self).contexts.spec_contains(key)
                    &&& !final(self).epoll.is_registered(old(self).contexts.ctx_for(key).fd)
                    &&& final(self).epoll.closed@ == old(self).epoll.closed@.push(
                        old(self).contexts.ctx_for(key).fd,
                    )
                    &&& (forall|f: i32|
                        f != old(self).contexts.ctx_for(key).fd ==> final(self).epoll.is_registered(f) == old(self).epoll.is_registered(f))
                },
            },
    {
        match self.contexts.take(key) {
            Some(mut ctx) => {
                match ctx.read_cb(key, outcome) {
                    Ok(ev) => {
                        let res = self.epoll.modify_interest(ctx.fd, ev);
                        proof {
                            assert(res is Ok);
                        }
                        self.contexts.insert(key, ctx);
                        Ok(ev)
                    },
                    Err(e) => {
                        let _ = self.epoll.remove_interest(ctx.fd);
                        self.epoll.close(ctx.fd);
                        Err(e)
                    },
                }
            },
            None => Err(HttpError::InvalidContentLength),
        }
    }

    /// Runs the terminal write step of the connection under `key`: hands back
    /// the fixed response for the caller to send and then, whatever the
    /// write's outcome, retires the connection for good — the descriptor is
    /// deregistered and closed and the key's entry is removed, so the write
    /// step can never run twice for the same connection. Every other
    /// connection is untouched.
    pub fn handle_writable(&mut self, key: u64) -> (r: &'static str)
        requires
            old(self).well_formed(),
            old(self).contexts.spec_contains(key),
            old(self).contexts.ctx_for(key).state == ConnState::Writing,
        ensures
            final(self).well_formed(),
            final(self).key == old(self).key,
            final(self).listener_fd == old(self).listener_fd,
            r@ == http_response_spec(),
            !final(self).contexts.spec_contains(key),
            !final(self).epoll.is_registered(old(self).contexts.ctx_for(key).fd),
            final(self).epoll.closed@ == old(self).epoll.closed@.push(
                old(self).contexts.ctx_for(key).fd,
            ),
            forall|f: i32|
                f != old(self).contexts.ctx_for(key).fd ==> final(self).epoll.is_registered(f)
                    == old(self).epoll.is_registered(f),
            forall|f2: i32|
                f2 != old(self).contexts.ctx_for(key).fd && old(self).epoll.is_registered(f2)
                    ==> final(self).epoll.armed(f2) == old(self).epoll.armed(f2),
            forall|k2: u64|
                k2 != key ==> final(self).contexts.spec_contains(k2) == old(
                    self,
                ).contexts.spec_contains(k2),
            forall|k2: u64|
                k2 != key && old(self).contexts.spec_contains(k2) ==> final(self).contexts.ctx_for(
                    k2,
                ) == old(self).contexts.ctx_for(k2),
    {
        match self.contexts.take(key) {
            Some(mut ctx) => {
                let resp = ctx.write_cb();
                let _ = self.epoll.remove_interest(ctx.fd);
                self.epoll.close(ctx.fd);
                resp
            },
            None => crate::http::http_response(),
        }
    }

    /// Tears the connection under `key` down after a failed read or write:
    /// deregisters and closes its descriptor and removes its entry. A key
    /// with no entry is a no-op. Every other connection is untouched.
    pub fn teardown_connection(&mut self, key: u64)
        requires
            old(self).well_formed(),
        ensures
            final(self).well_formed(),
            final(self).key == old(self).key,
            final(self).listener_fd == old(self).listener_fd,
            !final(self).contexts.spec_contains(key),
            old(self).contexts.spec_contains(key) ==> {
                &&& !final(self).epoll.is_registered(old(self).contexts.ctx_for(key).fd)
                &&& final(self).epoll.closed@ == old(self).epoll.closed@.push(
                    old(self).contexts.ctx_for(key).fd,
                )
                &&& (forall|f: i32|
                    f != old(self).contexts.ctx_for(key).fd ==> final(self).epoll.is_registered(f)
                        == old(self).epoll.is_registered(f))
                &&& (forall|f2: i32|
                    f2 != old(self).contexts.ctx_for(key).fd && old(self).epoll.is_registered(f2)
                        ==> final(self).epoll.armed(f2) == old(self).epoll.armed(f2))
            },
            !old(self).contexts.spec_contains(key) ==> *final(self) == *old(self),
            forall|k2: u64|
                k2 != key ==> final(self).contexts.spec_contains(k2) == old(
                    self,
                ).contexts.spec_contains(k2),
            forall|k2: u64|
                k2 != key && old(self).contexts.spec_contains(k2) ==> final(self).contexts.ctx_for(
                    k2,
                ) == old(self).contexts.ctx_for(k2),
    {
        match self.contexts.take(key) {
            Some(ctx) => {
                let _ = self.epoll.remove_interest(ctx.fd);
                self.epoll.close(ctx.fd);
            },
            None => {},
        }
    }
}

} // verus!
