use vstd::prelude::*;
use std::collections::VecDeque;
use crate::record::{Key, Record};

verus! {

broadcast use vstd::std_specs::vecdeque::group_vec_dequeue_axioms;

/// The contents of a ring after appending `k` to `s` with capacity `max`:
/// the new record goes to the tail and, once the ring would exceed its
/// capacity, the head is dropped.
pub open spec fn appended(s: Seq<Key>, k: Key, max: nat) -> Seq<Key> {
    if s.len() + 1 > max {
        s.push(k).subrange(1, s.len() as int + 1)
    } else {
        s.push(k)
    }
}

/// A bounded FIFO of records, oldest at the head.
pub struct Ring {
    items: VecDeque<Record>,
    max: usize,
}

impl Ring {
    /// The fold keys of the stored records, oldest first.
    pub closed spec fn view(&self) -> Seq<Key> {
        self.items@.map_values(|r: Record| r.key())
    }

    pub closed spec fn capacity(&self) -> nat {
        self.max as nat
    }

    pub closed spec fn wf(&self) -> bool {
        self.items@.len() <= self.max
    }

    pub proof fn lemma_bounded(&self)
        requires
            self.wf(),
        ensures
            self.view().len() <= self.capacity(),
    {
    }

    /// An empty ring holding at most `max` records.
    pub fn new(max: usize) -> (r: Ring)
        ensures
            r.wf(),
            r.view() == Seq::<Key>::empty(),
            r.capacity() == max,
    {
        let r = Ring { items: VecDeque::new(), max };
        proof {
            assert(r.view() =~= Seq::<Key>::empty());
        }
        r
    }

    pub fn max(&self) -> (r: usize)
        ensures
            r == self.capacity(),
    {
        self.max
    }

    pub fn len(&self) -> (r: usize)
        requires
            self.wf(),
        ensures
            r == self.view().len(),
    {
        self.items.len()
    }

    /// The record at position `i`, counted from the oldest.
    pub fn get(&self, i: usize) -> (r: &Record)
        requires
            self.wf(),
            i < self.view().len(),
        ensures
            r.key() == self.view()[i as int],
    {
        &self.items[i]
    }

    /// Appends a record at the tail, dropping the head when the ring is full.
    pub fn push(&mut self, record: Record)
        requires
            old(self).wf(),
        ensures
            final(self).wf(),
            final(self).capacity() == old(self).capacity(),
            final(self).view() == appended(old(self).view(), record.key(), old(self).capacity()),
    {
        let ghost k = record.key();
        let ghost before = self.items@;
        self.items.push_back(record);
        proof {
            assert(self.items@.map_values(|r: Record| r.key()) =~= before.map_values(
                |r: Record| r.key(),
            ).push(k));
        }
        if self.items.len() > self.max {
            let ghost mid = self.items@;
            let _ = self.items.pop_front();
            proof {
                assert(self.items@.map_values(|r: Record| r.key()) =~= mid.map_values(
                    |r: Record| r.key(),
                ).subrange(1, mid.len() as int));
            }
        }
    }
}

/// Whatever records are appended, a ring never holds more than its capacity.
pub proof fn lemma_ring_bounded(s: Seq<Key>, ks: Seq<Key>, max: nat)
    requires
        s.len() <= max,
    ensures
        appended_all(s, ks, max).len() <= max,
    decreases ks.len(),
{
    if ks.len() > 0 {
        lemma_ring_bounded(appended(s, ks[0], max), ks.subrange(1, ks.len() as int), max);
    }
}

/// The contents after appending each of `ks` in turn.
pub open spec fn appended_all(s: Seq<Key>, ks: Seq<Key>, max: nat) -> Seq<Key>
    decreases ks.len(),
{
    if ks.len() == 0 {
        s
    } else {
        appended_all(appended(s, ks[0], max), ks.subrange(1, ks.len() as int), max)
    }
}

/// Appending a batch and then one more record is appending the longer batch.
pub proof fn lemma_appended_all_push(s: Seq<Key>, ks: Seq<Key>, k: Key, max: nat)
    ensures
        appended_all(s, ks.push(k), max) == appended(appended_all(s, ks, max), k, max),
    decreases ks.len(),
{
    if ks.len() == 0 {
        assert(ks.push(k).subrange(1, 1) =~= Seq::<Key>::empty());
        assert(ks.push(k)[0] == k);
        assert(appended_all(appended(s, k, max), Seq::<Key>::empty(), max) == appended(s, k, max));
        assert(appended_all(s, ks, max) == s);
    } else {
        assert(ks.push(k)[0] == ks[0]);
        assert(ks.push(k).subrange(1, ks.len() as int + 1) =~= ks.subrange(
            1,
            ks.len() as int,
        ).push(k));
        lemma_appended_all_push(appended(s, ks[0], max), ks.subrange(1, ks.len() as int), k, max);
    }
}

/// The last `max` elements of `x` (all of them when it is shorter).
pub open spec fn newest(x: Seq<Key>, max: nat) -> Seq<Key> {
    if x.len() <= max {
        x
    } else {
        x.subrange(x.len() - max, x.len() as int)
    }
}

/// A ring fed with a batch holds the newest `max` of its old contents
/// followed by the batch, in order: a record stays at its place in arrival
/// order until `max` newer ones have come.
pub proof fn lemma_ring_keeps_newest(s: Seq<Key>, ks: Seq<Key>, max: nat)
    requires
        s.len() <= max,
    ensures
        appended_all(s, ks, max) == newest(s + ks, max),
    decreases ks.len(),
{
    if ks.len() == 0 {
        assert(s + ks =~= s);
    } else {
        let k = ks.last();
        let ks0 = ks.drop_last();
        lemma_ring_keeps_newest(s, ks0, max);
        assert(ks0.push(k) =~= ks);
        lemma_appended_all_push(s, ks0, k, max);
        let x = s + ks0;
        assert(x.push(k) =~= s + ks);
        assert(appended(newest(x, max), k, max) =~= newest(x.push(k), max));
    }
}

} // verus!
