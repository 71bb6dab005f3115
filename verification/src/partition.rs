//! A partition: one independently persisted, versioned key space.
//!
//! A partition holds one live (mutable) run and zero or more sealed runs,
//! stamps every write with a fresh sequence number from its counter, and
//! serves reads — live or anchored to a snapshot threshold — through the
//! merge of all its runs. Sealing the live structure reorders nothing and
//! loses nothing: the visible content is invariant under flushing.
//!
//! Persistence of sealed runs is the store backend's business; the
//! partition's identity on disk is its canonical absolute location, so
//! reopening is independent of the process's working directory.

use vstd::prelude::*;

use crate::merge::KeysIter;
use crate::merge::MergeIter;
use crate::paths::canonicalize_path;
use crate::paths::resolve;
use crate::record::Record;
use crate::record::Run;
use crate::record::SpecRecord;
use crate::record::clone_bytes;
use crate::record::lemma_concat_contains;
use crate::record::run_sorted;
use crate::seqno::SequenceNumberCounter;
use crate::visibility::best;
use crate::visibility::flat_runs;
use crate::visibility::kvs;
use crate::visibility::visible_entries;
use crate::visibility::visible_keys;
use crate::visibility::visible_keys_ok;
use crate::visibility::visible_ok;

verus! {

pub struct Partition {
    path: Vec<u8>,
    counter: SequenceNumberCounter,
    active: Run,
    sealed: Vec<Run>,
}

/// A read handle bound to a fixed seqno threshold: it exposes the
/// partition's content as it stood at that threshold, records above it
/// filtered out before results are yielded. It owns and copies no data.
pub struct Snapshot<'a> {
    part: &'a Partition,
    threshold: u64,
}

impl Partition {
    /// Every record of the partition, the records of later-flushed runs
    /// standing later and the live structure's last.
    pub closed spec fn all_recs(self) -> Seq<SpecRecord> {
        flat_runs(self.sealed@) + self.active@
    }

    /// The last sequence number the partition's counter issued.
    pub closed spec fn last_seqno(self) -> u64 {
        self.counter@
    }

    /// The canonical absolute location of the partition's persisted runs.
    pub closed spec fn location_spec(self) -> Seq<u8> {
        self.path@
    }

    /// The live and sealed runs are sorted, and no record's seqno is ahead
    /// of the counter — so the counter's next value is fresh.
    pub closed spec fn wf(self) -> bool {
        &&& run_sorted(self.active@)
        &&& forall|i: int|
            0 <= i < self.sealed@.len() ==> run_sorted((#[trigger] self.sealed@[i])@)
        &&& forall|j: int|
            0 <= j < self.active@.len() ==> (#[trigger] self.active@[j]).seqno <= self.counter@
        &&& forall|i: int, j: int|
            0 <= i < self.sealed@.len() && 0 <= j < self.sealed@[i]@.len() ==> (
            #[trigger] self.sealed@[i]@[j]).seqno <= self.counter@
    }

    /// Opens the partition persisted at `path`, resolved under the working
    /// directory `cwd` to a canonical absolute location, so that the same
    /// logical partition is addressed whatever directory the process
    /// stands in. The in-memory content starts empty; rehydrating sealed
    /// runs from disk is the store backend's business.
    pub fn open(cwd: &[u8], path: &[u8]) -> (p: Partition)
        ensures
            p.wf(),
            p.all_recs() == Seq::<SpecRecord>::empty(),
            p.location_spec() == resolve(cwd@, path@),
    {
        let canonical = canonicalize_path(cwd, path);
        let p = Partition {
            path: canonical,
            counter: SequenceNumberCounter::default(),
            active: Run::new(),
            sealed: Vec::new(),
        };
        proof {
            assert(p.all_recs() =~= Seq::<SpecRecord>::empty());
        }
        p
    }

    /// Opens like `open`, but resumes the seqno counter from `prev`, the
    /// greatest seqno committed before a restart, so that no issued value
    /// ever falls at or below a persisted one.
    pub fn open_with_seqno(cwd: &[u8], path: &[u8], prev: u64) -> (p: Partition)
        ensures
            p.wf(),
            p.all_recs() == Seq::<SpecRecord>::empty(),
            p.location_spec() == resolve(cwd@, path@),
            p.last_seqno() == prev,
    {
        let canonical = canonicalize_path(cwd, path);
        let p = Partition {
            path: canonical,
            counter: SequenceNumberCounter::new(prev),
            active: Run::new(),
            sealed: Vec::new(),
        };
        proof {
            assert(p.all_recs() =~= Seq::<SpecRecord>::empty());
        }
        p
    }

    /// The canonical absolute location the partition was opened at.
    pub fn location(&self) -> (r: &Vec<u8>)
        ensures
            r@ == self.location_spec(),
    {
        &self.path
    }

    /// The last issued sequence number: the threshold at which a snapshot
    /// taken now is anchored.
    pub fn current_seqno(&self) -> (s: u64)
        ensures
            s == self.last_seqno(),
    {
        self.counter.get()
    }

    /// Stamps `value` under `key` with a fresh seqno, strictly greater
    /// than every seqno already in the partition. The partition afterwards
    /// holds exactly its old records plus the one new version.
    pub fn insert(&mut self, key: Vec<u8>, value: Vec<u8>) -> (s: u64)
        requires
            old(self).wf(),
            old(self).last_seqno() < u64::MAX,
        ensures
            final(self).wf(),
            s > old(self).last_seqno(),
            final(self).last_seqno() == s,
            final(self).location_spec() == old(self).location_spec(),
            forall|x: SpecRecord|
                #[trigger] final(self).all_recs().contains(x) <==> old(self).all_recs().contains(x)
                    || x == (SpecRecord { key: key@, seqno: s, value: Some(value@) }),
    {
        let s = self.counter.next();
        self.write_record(Record { key, seqno: s, value: Some(value) });
        s
    }

    /// Marks `key` deleted as of a fresh seqno by writing a tombstone:
    /// distinct from the key's absence, it shadows older versions. The
    /// partition afterwards holds exactly its old records plus the
    /// tombstone.
    pub fn remove(&mut self, key: Vec<u8>) -> (s: u64)
        requires
            old(self).wf(),
            old(self).last_seqno() < u64::MAX,
        ensures
            final(self).wf(),
            s > old(self).last_seqno(),
            final(self).last_seqno() == s,
            final(self).location_spec() == old(self).location_spec(),
            forall|x: SpecRecord|
                #[trigger] final(self).all_recs().contains(x) <==> old(self).all_recs().contains(x)
                    || x == (SpecRecord { key: key@, seqno: s, value: None }),
    {
        let s = self.counter.next();
        self.write_record(Record { key, seqno: s, value: None });
        s
    }

    /// Enters an already-stamped record into the live structure.
    fn write_record(&mut self, r: Record)
        requires
            run_sorted(old(self).active@),
            forall|i: int|
                0 <= i < old(self).sealed@.len() ==> run_sorted((#[trigger] old(self).sealed@[i])@),
            forall|j: int|
                0 <= j < old(self).active@.len() ==> (#[trigger] old(self).active@[j]).seqno < r@.seqno,
            forall|i: int, j: int|
                0 <= i < old(self).sealed@.len() && 0 <= j < old(self).sealed@[i]@.len() ==> (
                #[trigger] old(self).sealed@[i]@[j]).seqno < r@.seqno,
            r@.seqno == old(self).counter@,
        ensures
            final(self).wf(),
            final(self).last_seqno() == old(self).last_seqno(),
            final(self).location_spec() == old(self).location_spec(),
            forall|x: SpecRecord|
                #[trigger] final(self).all_recs().contains(x) <==> old(self).all_recs().contains(x)
                    || x == r@,
    {
        proof {
            lemma_concat_contains(flat_runs(self.sealed@), self.active@);
        }
        self.active.insert(r);
        proof {
            lemma_concat_contains(flat_runs(self.sealed@), self.active@);
            assert forall|j: int|
                0 <= j < self.active@.len() implies (#[trigger] self.active@[j]).seqno
                <= self.counter@ by {
                assert(self.active@.contains(self.active@[j]));
            }
        }
    }

    /// Seals the live structure as a new immutable sorted run and starts
    /// an empty one. Nothing becomes visible or invisible: the partition's
    /// records are exactly what they were.
    pub fn flush_active_structure(&mut self)
        requires
            old(self).wf(),
        ensures
            final(self).wf(),
            final(self).all_recs() == old(self).all_recs(),
            final(self).last_seqno() == old(self).last_seqno(),
            final(self).location_spec() == old(self).location_spec(),
    {
        let mut act = Run::new();
        core::mem::swap(&mut act, &mut self.active);
        self.sealed.push(act);
        proof {
            assert(self.sealed@.drop_last() =~= old(self).sealed@);
            assert(self.sealed@.last() == old(self).active);
            assert(flat_runs(self.sealed@) == flat_runs(old(self).sealed@) + old(self).active@);
            assert(self.all_recs() =~= old(self).all_recs());
            assert forall|i: int|
                0 <= i < self.sealed@.len() implies run_sorted((#[trigger] self.sealed@[i])@) by {
                if i < self.sealed@.len() - 1 {
                    assert(self.sealed@[i] == old(self).sealed@[i]);
                }
            }
            assert forall|i: int, j: int|
                0 <= i < self.sealed@.len() && 0 <= j < self.sealed@[i]@.len() implies (
            #[trigger] self.sealed@[i]@[j]).seqno <= self.counter@ by {
                if i < self.sealed@.len() - 1 {
                    assert(self.sealed@[i] == old(self).sealed@[i]);
                }
            }
        }
    }

    /// A bidirectional iterator over the live partition: every key's
    /// newest version, tombstoned keys suppressed, in ascending key order.
    pub fn iter(&self) -> (it: MergeIter)
        ensures
            it.wf(),
            it.lo() == 0,
            it.hi() == it.items().len(),
            visible_ok(self.all_recs(), u64::MAX, it.items()),
    {
        MergeIter::from_entries(visible_entries(&self.sealed, &self.active, u64::MAX))
    }

    /// A bidirectional iterator over the live partition's keys.
    pub fn keys(&self) -> (it: KeysIter)
        ensures
            it.wf(),
            it.lo() == 0,
            it.hi() == it.items().len(),
            visible_keys_ok(self.all_recs(), u64::MAX, it.items()),
    {
        KeysIter::from_keys(visible_keys(&self.sealed, &self.active, u64::MAX))
    }

    /// A read view anchored at `threshold`: records stamped later are
    /// invisible to it, however long it is held.
    pub fn snapshot_at(&self, threshold: u64) -> (s: Snapshot<'_>)
        ensures
            s.threshold() == threshold,
            s.recs() == self.all_recs(),
    {
        Snapshot { part: self, threshold }
    }

    /// A read view anchored at the last issued seqno: everything visible
    /// right now, and nothing written later.
    pub fn snapshot(&self) -> (s: Snapshot<'_>)
        ensures
            s.threshold() == self.last_seqno(),
            s.recs() == self.all_recs(),
    {
        let t = self.counter.get();
        Snapshot { part: self, threshold: t }
    }
}

/// Every record of a sequence of runs whose runs are all bounded by `b`
/// is itself bounded by `b`.
proof fn lemma_flat_runs_bounded(runs: Seq<Run>, b: u64)
    requires
        forall|i: int, j: int|
            0 <= i < runs.len() && 0 <= j < runs[i]@.len() ==> (#[trigger] runs[i]@[j]).seqno <= b,
    ensures
        forall|x: SpecRecord| #[trigger] flat_runs(runs).contains(x) ==> x.seqno <= b,
    decreases runs.len(),
{
    if runs.len() > 0 {
        let dl = runs.drop_last();
        assert forall|i: int, j: int|
            0 <= i < dl.len() && 0 <= j < dl[i]@.len() implies (#[trigger] dl[i]@[j]).seqno
            <= b by {
            assert(dl[i] == runs[i]);
        }
        lemma_flat_runs_bounded(dl, b);
        lemma_concat_contains(flat_runs(dl), runs.last()@);
        assert forall|x: SpecRecord| #[trigger] flat_runs(runs).contains(x) implies x.seqno
            <= b by {
            if runs.last()@.contains(x) {
                let j = choose|j: int| 0 <= j < runs.last()@.len() && runs.last()@[j] == x;
                assert(runs[runs.len() - 1]@[j] == x);
            }
        }
    }
}

/// A snapshot anchored at the partition's current seqno hides nothing: it
/// agrees with the unfiltered live view on the winning version of every
/// key, since no record stands above the counter. Writes stamped later
/// carry larger seqnos and stay invisible to that snapshot.
pub proof fn lemma_snapshot_now_sees_live_content(p: Partition, k: Seq<u8>)
    requires
        p.wf(),
    ensures
        best(p.all_recs(), k, p.last_seqno()) == best(p.all_recs(), k, u64::MAX),
{
    let all = p.all_recs();
    lemma_flat_runs_bounded(p.sealed@, p.counter@);
    lemma_concat_contains(flat_runs(p.sealed@), p.active@);
    assert forall|i: int| 0 <= i < all.len() implies (#[trigger] all[i]).seqno
        <= p.last_seqno() by {
        assert(all.contains(all[i]));
        if p.active@.contains(all[i]) {
            let j = choose|j: int| 0 <= j < p.active@.len() && p.active@[j] == all[i];
            assert(p.active@[j].seqno <= p.counter@);
        }
    }
    crate::visibility::lemma_full_threshold_filters_nothing(all, p.last_seqno(), k);
}

impl<'a> Snapshot<'a> {
    /// The seqno threshold the view is anchored at.
    pub closed spec fn threshold(self) -> u64 {
        self.threshold
    }

    /// The records of the partition the view reads.
    pub closed spec fn recs(self) -> Seq<SpecRecord> {
        self.part.all_recs()
    }

    /// A bidirectional iterator over the view: for each key the newest
    /// version at or below the threshold, tombstoned keys suppressed, in
    /// ascending key order.
    pub fn iter(&self) -> (it: MergeIter)
        ensures
            it.wf(),
            it.lo() == 0,
            it.hi() == it.items().len(),
            visible_ok(self.recs(), self.threshold(), it.items()),
    {
        MergeIter::from_entries(
            visible_entries(&self.part.sealed, &self.part.active, self.threshold),
        )
    }

    /// A bidirectional iterator over the view's keys.
    pub fn keys(&self) -> (it: KeysIter)
        ensures
            it.wf(),
            it.lo() == 0,
            it.hi() == it.items().len(),
            visible_keys_ok(self.recs(), self.threshold(), it.items()),
    {
        KeysIter::from_keys(visible_keys(&self.part.sealed, &self.part.active, self.threshold))
    }

    /// Point lookup under the view: the payload of the key's winning
    /// record at the threshold, `None` when the key is absent there or its
    /// winner is a tombstone.
    pub fn get(&self, key: &[u8]) -> (r: Option<Vec<u8>>)
        ensures
            best(self.recs(), key@, self.threshold()) is Some && best(
                self.recs(),
                key@,
                self.threshold(),
            ).unwrap().value is Some ==> r is Some && Some(r.unwrap()@) == best(
                self.recs(),
                key@,
                self.threshold(),
            ).unwrap().value,
            !(best(self.recs(), key@, self.threshold()) is Some && best(
                self.recs(),
                key@,
                self.threshold(),
            ).unwrap().value is Some) ==> r is None,
    {
        let ghost all = self.recs();
        let ghost t = self.threshold();
        let items = visible_entries(&self.part.sealed, &self.part.active, self.threshold);
        let mut i: usize = 0;
        while i < items.len()
            invariant
                all == self.recs(),
                t == self.threshold(),
                i <= items@.len(),
                visible_ok(all, t, kvs(items@)),
                forall|a: int| 0 <= a < i ==> (#[trigger] kvs(items@)[a]).key != key@,
            decreases items@.len() - i,
        {
            if crate::keys::key_cmp(items[i].key.as_slice(), key) == 0 {
                proof {
                    assert(kvs(items@)[i as int].key == key@);
                    assert(best(all, kvs(items@)[i as int].key, t) is Some && best(
                        all,
                        kvs(items@)[i as int].key,
                        t,
                    ).unwrap().value == Some(kvs(items@)[i as int].value));
                }
                let val = clone_bytes(&items[i].value);
                proof {
                    assert(kvs(items@)[i as int].value == items@[i as int]@.value);
                    assert(val@ == items@[i as int].value@);
                    assert(best(all, key@, t) is Some);
                    assert(best(all, key@, t).unwrap().value == Some(val@));
                }
                return Some(val);
            }
            i += 1;
        }
        proof {
            if best(all, key@, t) is Some && best(all, key@, t).unwrap().value is Some {
                let a = choose|a: int|
                    0 <= a < kvs(items@).len() && (#[trigger] kvs(items@)[a]).key == key@;
                assert(false);
            }
        }
        None
    }
}

} // verus!
