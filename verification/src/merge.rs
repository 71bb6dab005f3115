//! Bidirectional iteration over a merged, resolved key space.
//!
//! The per-run cursors are resolved into one ordered sequence of visible
//! pairs; an iterator then walks that shared sequence from both ends. The
//! forward and backward cursors never cross: each pair is yielded exactly
//! once whatever the interleaving of `next` and `next_back`, and once the
//! two ends meet every further call from either end reports exhaustion —
//! the iterator is permanently closed, never resurrected.

use vstd::prelude::*;

use crate::record::bytes_view;
use crate::record::clone_bytes;
use crate::visibility::KvPair;
use crate::visibility::SpecKv;
use crate::visibility::kvs;

verus! {

/// A double-ended iterator over the visible key-value pairs of a merged
/// key space, in ascending key order.
pub struct MergeIter {
    items: Vec<KvPair>,
    lo: usize,
    hi: usize,
}

impl MergeIter {
    /// The full ordered sequence the two ends consume from.
    pub closed spec fn items(self) -> Seq<SpecKv> {
        kvs(self.items@)
    }

    /// The next forward position; everything before it was yielded.
    pub closed spec fn lo(self) -> int {
        self.lo as int
    }

    /// The end bound; everything at or past it was yielded backwards.
    pub closed spec fn hi(self) -> int {
        self.hi as int
    }

    pub closed spec fn wf(self) -> bool {
        0 <= self.lo <= self.hi <= self.items@.len()
    }

    /// An iterator over `items`, with both ends still untouched.
    pub fn from_entries(items: Vec<KvPair>) -> (it: MergeIter)
        ensures
            it.wf(),
            it.items() == kvs(items@),
            it.lo() == 0,
            it.hi() == it.items().len(),
    {
        let hi = items.len();
        MergeIter { items, lo: 0, hi }
    }

    /// How many pairs remain to be yielded, from both ends together.
    pub fn remaining(&self) -> (n: usize)
        requires
            self.wf(),
        ensures
            n == self.hi() - self.lo(),
    {
        self.hi - self.lo
    }

    /// Yields the next pair forward: the first not yet consumed by either
    /// end. After the two ends have met, every call returns `None` and
    /// moves nothing.
    pub fn next(&mut self) -> (r: Option<KvPair>)
        requires
            old(self).wf(),
        ensures
            final(self).wf(),
            final(self).items() == old(self).items(),
            final(self).hi() == old(self).hi(),
            old(self).lo() == old(self).hi() ==> r is None && final(self).lo() == old(self).lo(),
            old(self).lo() < old(self).hi() ==> final(self).lo() == old(self).lo() + 1 && r
                is Some && r.unwrap()@ == old(self).items()[old(self).lo()],
    {
        if self.lo < self.hi {
            let r = self.items[self.lo].clone();
            self.lo += 1;
            Some(r)
        } else {
            None
        }
    }

    /// Yields the next pair backward: the last not yet consumed by either
    /// end, symmetric to `next`. After the two ends have met, every call
    /// returns `None` and moves nothing.
    pub fn next_back(&mut self) -> (r: Option<KvPair>)
        requires
            old(self).wf(),
        ensures
            final(self).wf(),
            final(self).items() == old(self).items(),
            final(self).lo() == old(self).lo(),
            old(self).lo() == old(self).hi() ==> r is None && final(self).hi() == old(self).hi(),
            old(self).lo() < old(self).hi() ==> final(self).hi() == old(self).hi() - 1 && r
                is Some && r.unwrap()@ == old(self).items()[old(self).hi() - 1],
    {
        if self.lo < self.hi {
            let r = self.items[self.hi - 1].clone();
            self.hi -= 1;
            Some(r)
        } else {
            None
        }
    }

    /// The reversed view of this iterator: an iterator whose forward order
    /// is the exact mirror of this one's.
    pub fn rev(self) -> (r: RevIter)
        ensures
            r.inner() == self,
    {
        RevIter { inner: self }
    }
}

/// A merge iterator traversed in descending key order: its `next` consumes
/// what the underlying iterator's `next_back` would, and vice versa, so its
/// forward order is exactly the reverse of the full forward order of the
/// iterator it wraps.
pub struct RevIter {
    inner: MergeIter,
}

impl RevIter {
    pub closed spec fn inner(self) -> MergeIter {
        self.inner
    }

    pub open spec fn wf(self) -> bool {
        self.inner().wf()
    }

    /// Yields pairs in descending key order, from the back of the shared
    /// sequence.
    pub fn next(&mut self) -> (r: Option<KvPair>)
        requires
            old(self).wf(),
        ensures
            final(self).wf(),
            final(self).inner().items() == old(self).inner().items(),
            final(self).inner().lo() == old(self).inner().lo(),
            old(self).inner().lo() == old(self).inner().hi() ==> r is None
                && final(self).inner().hi() == old(self).inner().hi(),
            old(self).inner().lo() < old(self).inner().hi() ==> final(self).inner().hi()
                == old(self).inner().hi() - 1 && r is Some && r.unwrap()@
                == old(self).inner().items()[old(self).inner().hi() - 1],
    {
        self.inner.next_back()
    }

    /// Yields from the ascending end, symmetric to `next`.
    pub fn next_back(&mut self) -> (r: Option<KvPair>)
        requires
            old(self).wf(),
        ensures
            final(self).wf(),
            final(self).inner().items() == old(self).inner().items(),
            final(self).inner().hi() == old(self).inner().hi(),
            old(self).inner().lo() == old(self).inner().hi() ==> r is None
                && final(self).inner().lo() == old(self).inner().lo(),
            old(self).inner().lo() < old(self).inner().hi() ==> final(self).inner().lo()
                == old(self).inner().lo() + 1 && r is Some && r.unwrap()@
                == old(self).inner().items()[old(self).inner().lo()],
    {
        self.inner.next()
    }
}

/// A double-ended iterator over the visible keys alone, in ascending
/// order, with the same exactly-once, permanently-closing discipline as
/// `MergeIter`.
pub struct KeysIter {
    items: Vec<Vec<u8>>,
    lo: usize,
    hi: usize,
}

impl KeysIter {
    /// The full ordered key sequence the two ends consume from.
    pub closed spec fn items(self) -> Seq<Seq<u8>> {
        bytes_view(self.items@)
    }

    pub closed spec fn lo(self) -> int {
        self.lo as int
    }

    pub closed spec fn hi(self) -> int {
        self.hi as int
    }

    pub closed spec fn wf(self) -> bool {
        0 <= self.lo <= self.hi <= self.items@.len()
    }

    /// An iterator over `keys`, with both ends still untouched.
    pub fn from_keys(keys: Vec<Vec<u8>>) -> (it: KeysIter)
        ensures
            it.wf(),
            it.items() == bytes_view(keys@),
            it.lo() == 0,
            it.hi() == it.items().len(),
    {
        let hi = keys.len();
        KeysIter { items: keys, lo: 0, hi }
    }

    /// Yields the next key forward; `None` forever once the ends have met.
    pub fn next(&mut self) -> (r: Option<Vec<u8>>)
        requires
            old(self).wf(),
        ensures
            final(self).wf(),
            final(self).items() == old(self).items(),
            final(self).hi() == old(self).hi(),
            old(self).lo() == old(self).hi() ==> r is None && final(self).lo() == old(self).lo(),
            old(self).lo() < old(self).hi() ==> final(self).lo() == old(self).lo() + 1 && r
                is Some && r.unwrap()@ == old(self).items()[old(self).lo()],
    {
        if self.lo < self.hi {
            let r = clone_bytes(&self.items[self.lo]);
            self.lo += 1;
            Some(r)
        } else {
            None
        }
    }

    /// Yields the next key backward; `None` forever once the ends have met.
    pub fn next_back(&mut self) -> (r: Option<Vec<u8>>)
        requires
            old(self).wf(),
        ensures
            final(self).wf(),
            final(self).items() == old(self).items(),
            final(self).lo() == old(self).lo(),
            old(self).lo() == old(self).hi() ==> r is None && final(self).hi() == old(self).hi(),
            old(self).lo() < old(self).hi() ==> final(self).hi() == old(self).hi() - 1 && r
                is Some && r.unwrap()@ == old(self).items()[old(self).hi() - 1],
    {
        if self.lo < self.hi {
            let r = clone_bytes(&self.items[self.hi - 1]);
            self.hi -= 1;
            Some(r)
        } else {
            None
        }
    }
}

} // verus!
