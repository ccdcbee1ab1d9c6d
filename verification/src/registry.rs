//! The connection registry: an owning mapping from a unique numeric key to
//! its connection context. Entries are inserted on accept and removed exactly
//! once, on completion or failure; the event loop is the only writer.

use vstd::prelude::*;
use crate::http::RequestContext;

verus! {

/// One registry row.
pub struct RegistryEntry {
    pub key: u64,
    pub ctx: RequestContext,
}

/// An owning key-to-context mapping with unique keys.
pub struct Registry {
    pub entries: Vec<RegistryEntry>,
}

impl Registry {
    /// No key occurs twice.
    pub open spec fn well_formed(self) -> bool {
        forall|i: int, j: int|
            0 <= i < j < self.entries@.len() ==> self.entries@[i].key != self.entries@[j].key
    }

    /// Whether `key` has an entry.
    pub open spec fn spec_contains(self, key: u64) -> bool {
        exists|i: int| 0 <= i < self.entries@.len() && self.entries@[i].key == key
    }

    /// The context registered under `key`.
    pub open spec fn ctx_for(self, key: u64) -> RequestContext {
        self.entries@[choose|i: int|
            0 <= i < self.entries@.len() && self.entries@[i].key == key].ctx
    }

    /// In a well-formed registry, the row holding `key` determines
    /// `ctx_for(key)`.
    pub proof fn lemma_ctx_at(self, i: int)
        requires
            self.well_formed(),
            0 <= i < self.entries@.len(),
        ensures
            self.ctx_for(self.entries@[i].key) == self.entries@[i].ctx,
    {
        let key = self.entries@[i].key;
        let j = choose|j: int| 0 <= j < self.entries@.len() && self.entries@[j].key == key;
        assert(0 <= j < self.entries@.len() && self.entries@[j].key == key);
        if i < j {
            assert(self.entries@[i].key != self.entries@[j].key);
        } else if j < i {
            assert(self.entries@[j].key != self.entries@[i].key);
        }
    }

    /// An empty registry.
    pub fn new() -> (r: Registry)
        ensures
            r.well_formed(),
            r.entries@.len() == 0,
            forall|k: u64| !r.spec_contains(k),
    {
        Registry { entries: Vec::new() }
    }

    /// How many connections are in flight.
    pub fn len(&self) -> (n: usize)
        ensures
            n == self.entries@.len(),
    {
        self.entries.len()
    }

    fn find_key(&self, key: u64) -> (r: Option<usize>)
        ensures
            match r {
                Some(i) => 0 <= i < self.entries@.len() && self.entries@[i as int].key == key,
                None => !self.spec_contains(key),
            },
    {
        let mut i: usize = 0;
        while i < self.entries.len()
            invariant
                i <= self.entries@.len(),
                forall|j: int| 0 <= j < i ==> self.entries@[j].key != key,
            decreases self.entries@.len() - i,
        {
            if self.entries[i].key == key {
                return Some(i);
            }
            i = i + 1;
        }
        None
    }

    /// Whether `key` has an entry (callable form of `spec_contains`).
    pub fn contains_key(&self, key: u64) -> (r: bool)
        ensures
            r == self.spec_contains(key),
    {
        self.find_key(key).is_some()
    }

    /// The lifecycle state of the connection under `key`, if any.
    pub fn state_of(&self, key: u64) -> (r: Option<crate::http::ConnState>)
        requires
            self.well_formed(),
        ensures
            match r {
                Some(s) => self.spec_contains(key) && s == self.ctx_for(key).state,
                None => !self.spec_contains(key),
            },
    {
        match self.find_key(key) {
            Some(i) => {
                proof {
                    self.lemma_ctx_at(i as int);
                }
                Some(self.entries[i].ctx.state)
            },
            None => None,
        }
    }

    /// How many bytes the connection under `key` has accumulated, if any.
    pub fn buffered_len(&self, key: u64) -> (r: Option<usize>)
        requires
            self.well_formed(),
        ensures
            match r {
                Some(n) => self.spec_contains(key) && n == self.ctx_for(key).buf@.len(),
                None => !self.spec_contains(key),
            },
    {
        match self.find_key(key) {
            Some(i) => {
                proof {
                    self.lemma_ctx_at(i as int);
                }
                Some(self.entries[i].ctx.buf.len())
            },
            None => None,
        }
    }

    /// The expected length recorded for the connection under `key`, if any.
    pub fn content_length_of(&self, key: u64) -> (r: Option<usize>)
        requires
            self.well_formed(),
        ensures
            match r {
                Some(n) => self.spec_contains(key) && n == self.ctx_for(key).content_length,
                None => !self.spec_contains(key),
            },
    {
        match self.find_key(key) {
            Some(i) => {
                proof {
                    self.lemma_ctx_at(i as int);
                }
                Some(self.entries[i].ctx.content_length)
            },
            None => None,
        }
    }

    /// Inserts a fresh entry. Every other entry is untouched.
    pub fn insert(&mut self, key: u64, ctx: RequestContext)
        requires
            old(self).well_formed(),
            !old(self).spec_contains(key),
        ensures
            final(self).well_formed(),
            final(self).entries@.len() == old(self).entries@.len() + 1,
            final(self).spec_contains(key),
            final(self).ctx_for(key) == ctx,
            forall|k2: u64| k2 != key ==> final(self).spec_contains(k2) == old(self).spec_contains(k2),
            forall|k2: u64|
                k2 != key && old(self).spec_contains(k2) ==> final(self).ctx_for(k2) == old(
                    self,
                ).ctx_for(k2),
    {
        let ghost pre = *self;
        self.entries.push(RegistryEntry { key, ctx });
        proof {
            let n = self.entries@.len() - 1;
            assert(self.entries@[n].key == key);
            assert forall|i: int, j: int|
                0 <= i < j < self.entries@.len() implies self.entries@[i].key
                != self.entries@[j].key by {
                if j < n {
                    assert(pre.entries@[i].key != pre.entries@[j].key);
                } else {
                    assert(j == n);
                    if self.entries@[i].key == key {
                        assert(pre.is_in(i, key));
                    }
                }
            }
            self.lemma_ctx_at(n);
            assert forall|k2: u64| k2 != key implies self.spec_contains(k2) == pre.spec_contains(
                k2,
            ) by {
                if self.spec_contains(k2) {
                    let i = choose|i: int|
                        0 <= i < self.entries@.len() && self.entries@[i].key == k2;
                    assert(i != n);
                    assert(pre.entries@[i].key == k2);
                }
                if pre.spec_contains(k2) {
                    let i = choose|i: int| 0 <= i < pre.entries@.len() && pre.entries@[i].key == k2;
                    assert(self.entries@[i].key == k2);
                }
            }
            assert forall|k2: u64| k2 != key && pre.spec_contains(k2) implies self.ctx_for(k2)
                == pre.ctx_for(k2) by {
                let i = choose|i: int| 0 <= i < pre.entries@.len() && pre.entries@[i].key == k2;
                assert(self.entries@[i].key == k2);
                pre.lemma_ctx_at(i);
                self.lemma_ctx_at(i);
            }
        }
    }

    /// A helper fact for the insert proof.
    spec fn is_in(self, i: int, key: u64) -> bool {
        0 <= i < self.entries@.len() && self.entries@[i].key == key
    }

    /// Removes the entry under `key` and hands its context back; `None` if
    /// there is none. Every other entry is untouched.
    pub fn take(&mut self, key: u64) -> (r: Option<RequestContext>)
        requires
            old(self).well_formed(),
        ensures
            final(self).well_formed(),
            !final(self).spec_contains(key),
            r is Some <==> old(self).spec_contains(key),
            r is Some ==> r == Some(old(self).ctx_for(key)) && final(self).entries@.len() == old(
                self,
            ).entries@.len() - 1,
            r is None ==> *final(self) == *old(self),
            forall|k2: u64| k2 != key ==> final(self).spec_contains(k2) == old(self).spec_contains(k2),
            forall|k2: u64|
                k2 != key && old(self).spec_contains(k2) ==> final(self).ctx_for(k2) == old(
                    self,
                ).ctx_for(k2),
    {
        let ghost pre = *self;
        match self.find_key(key) {
            Some(i) => {
                proof {
                    pre.lemma_ctx_at(i as int);
                }
                let entry = self.entries.remove(i);
                proof {
                    pre.lemma_take_effect(i as int, *self);
                }
                Some(entry.ctx)
            },
            None => None,
        }
    }

    /// What removing row `i` does to the registry's facts.
    proof fn lemma_take_effect(self, i: int, post: Registry)
        requires
            self.well_formed(),
            0 <= i < self.entries@.len(),
            post.entries@ == self.entries@.remove(i),
        ensures
            post.well_formed(),
            !post.spec_contains(self.entries@[i].key),
            forall|k2: u64|
                k2 != self.entries@[i].key ==> post.spec_contains(k2) == self.spec_contains(k2),
            forall|k2: u64|
                k2 != self.entries@[i].key && self.spec_contains(k2) ==> post.ctx_for(k2)
                    == self.ctx_for(k2),
    {
        let key = self.entries@[i].key;
        assert forall|a: int, b: int|
            0 <= a < b < post.entries@.len() implies post.entries@[a].key
            != post.entries@[b].key by {
            let a0 = if a < i { a } else { a + 1 };
            let b0 = if b < i { b } else { b + 1 };
            assert(post.entries@[a] == self.entries@[a0]);
            assert(post.entries@[b] == self.entries@[b0]);
            assert(self.entries@[a0].key != self.entries@[b0].key);
        }
        assert forall|a: int| 0 <= a < post.entries@.len() implies post.entries@[a].key != key by {
            let a0 = if a < i { a } else { a + 1 };
            assert(post.entries@[a] == self.entries@[a0]);
            if a0 < i {
                assert(self.entries@[a0].key != self.entries@[i].key);
            } else {
                assert(self.entries@[i].key != self.entries@[a0].key);
            }
        }
        assert forall|k2: u64| k2 != key implies post.spec_contains(k2) == self.spec_contains(
            k2,
        ) by {
            if post.spec_contains(k2) {
                let a = choose|a: int| 0 <= a < post.entries@.len() && post.entries@[a].key == k2;
                let a0 = if a < i { a } else { a + 1 };
                assert(self.entries@[a0].key == k2);
            }
            if self.spec_contains(k2) {
                let a0 = choose|a0: int|
                    0 <= a0 < self.entries@.len() && self.entries@[a0].key == k2;
                assert(a0 != i);
                let a = if a0 < i { a0 } else { a0 - 1 };
                assert(post.entries@[a] == self.entries@[a0]);
            }
        }
        assert forall|k2: u64| k2 != key && self.spec_contains(k2) implies post.ctx_for(k2)
            == self.ctx_for(k2) by {
            let a0 = choose|a0: int| 0 <= a0 < self.entries@.len() && self.entries@[a0].key == k2;
            assert(a0 != i);
            let a = if a0 < i { a0 } else { a0 - 1 };
            assert(post.entries@[a] == self.entries@[a0]);
            self.lemma_ctx_at(a0);
            post.lemma_ctx_at(a);
        }
    }
}

} // verus!
