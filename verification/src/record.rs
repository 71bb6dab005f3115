//! Versioned records and sorted runs.
//!
//! A record pairs a byte key with the sequence number of the write that
//! produced it and either a payload or a tombstone. A run is an immutable
//! sorted sequence of records: ascending by key, and for equal keys
//! descending by seqno, so the newest version of a key stands first.

use vstd::prelude::*;

use crate::keys::key_lt;
use crate::keys::key_cmp;
use crate::keys::lemma_key_lt_transitive;

verus! {

/// Mathematical model of a record: key bytes, stamping seqno, and the
/// payload, where `None` marks a tombstone.
#[verifier::ext_equal]
pub ghost struct SpecRecord {
    pub key: Seq<u8>,
    pub seqno: u64,
    pub value: Option<Seq<u8>>,
}

/// A versioned entry of the store. `value == None` is a tombstone: the key
/// was deleted as of `seqno`.
pub struct Record {
    pub key: Vec<u8>,
    pub seqno: u64,
    pub value: Option<Vec<u8>>,
}

impl View for Record {
    type V = SpecRecord;

    open spec fn view(&self) -> SpecRecord {
        SpecRecord {
            key: self.key@,
            seqno: self.seqno,
            value: match self.value {
                Some(v) => Some(v@),
                None => None,
            },
        }
    }
}

/// Copies a byte vector, preserving its abstract contents.
pub fn clone_bytes(v: &Vec<u8>) -> (r: Vec<u8>)
    ensures
        r@ == v@,
{
    vstd::slice::slice_to_vec(v.as_slice())
}

impl Clone for Record {
    fn clone(&self) -> (r: Self)
        ensures
            r@ == self@,
    {
        Record {
            key: clone_bytes(&self.key),
            seqno: self.seqno,
            value: match &self.value {
                Some(v) => Some(clone_bytes(v)),
                None => None,
            },
        }
    }
}

/// The resolution order of records: ascending by key, and for one key
/// descending by seqno, so that the newest version stands first.
pub open spec fn rec_lt(a: SpecRecord, b: SpecRecord) -> bool {
    key_lt(a.key, b.key) || (a.key == b.key && a.seqno > b.seqno)
}

/// A run is sorted strictly by `rec_lt`; in particular no two records of a
/// run share both key and seqno.
pub open spec fn run_sorted(s: Seq<SpecRecord>) -> bool {
    forall|i: int, j: int| 0 <= i < j < s.len() ==> rec_lt(s[i], s[j])
}

/// The abstract contents of a vector of records.
pub open spec fn rv(recs: Seq<Record>) -> Seq<SpecRecord> {
    recs.map_values(|r: Record| r@)
}

/// The abstract contents of a vector of byte strings.
pub open spec fn bytes_view(s: Seq<Vec<u8>>) -> Seq<Seq<u8>> {
    s.map_values(|b: Vec<u8>| b@)
}

/// `rec_lt` is transitive.
pub proof fn lemma_rec_lt_transitive(a: SpecRecord, b: SpecRecord, c: SpecRecord)
    requires
        rec_lt(a, b),
        rec_lt(b, c),
    ensures
        rec_lt(a, c),
{
    if a.key == b.key && b.key == c.key {
    } else if a.key == b.key {
    } else if b.key == c.key {
    } else {
        lemma_key_lt_transitive(a.key, b.key, c.key);
    }
}

/// Two records with neither below the other share key and seqno.
pub proof fn lemma_rec_lt_total(a: SpecRecord, b: SpecRecord)
    requires
        !rec_lt(a, b),
        !rec_lt(b, a),
    ensures
        a.key == b.key && a.seqno == b.seqno,
{
    if a.key != b.key {
        crate::keys::lemma_key_lt_total(a.key, b.key);
    }
}

/// Inserting into a sequence adds exactly the new element to its contents.
pub proof fn lemma_seq_insert_contains(s: Seq<SpecRecord>, i: int, v: SpecRecord)
    requires
        0 <= i <= s.len(),
    ensures
        forall|x: SpecRecord| #[trigger] s.insert(i, v).contains(x) <==> s.contains(x) || x == v,
{
    let t = s.insert(i, v);
    s.insert_ensures(i, v);
    assert forall|x: SpecRecord| #[trigger] t.contains(x) implies s.contains(x) || x == v by {
        let j = choose|j: int| 0 <= j < t.len() && t[j] == x;
        if j < i {
            assert(s[j] == x);
        } else if j > i {
            assert(s[j - 1] == x);
        }
    }
    assert forall|x: SpecRecord| s.contains(x) || x == v implies #[trigger] t.contains(x) by {
        if s.contains(x) {
            let j = choose|j: int| 0 <= j < s.len() && s[j] == x;
            if j < i {
                assert(t[j] == x);
            } else {
                assert(t[j + 1] == x);
            }
        } else {
            assert(t[i] == x);
        }
    }
}

/// Concatenation holds exactly what its two halves hold.
pub proof fn lemma_concat_contains(a: Seq<SpecRecord>, b: Seq<SpecRecord>)
    ensures
        forall|x: SpecRecord| #[trigger] (a + b).contains(x) <==> a.contains(x) || b.contains(x),
{
    assert forall|x: SpecRecord| #[trigger] (a + b).contains(x) implies a.contains(x) || b.contains(
        x,
    ) by {
        let i = choose|i: int| 0 <= i < (a + b).len() && (a + b)[i] == x;
        if i < a.len() {
            assert(a[i] == x);
        } else {
            assert(b[i - a.len()] == x);
        }
    }
    assert forall|x: SpecRecord| a.contains(x) || b.contains(x) implies #[trigger] (a + b).contains(
        x,
    ) by {
        if a.contains(x) {
            let i = choose|i: int| 0 <= i < a.len() && a[i] == x;
            assert((a + b)[i] == x);
        } else {
            let i = choose|i: int| 0 <= i < b.len() && b[i] == x;
            assert((a + b)[a.len() + i] == x);
        }
    }
}

/// An immutable-once-flushed sorted sequence of records; the live in-memory
/// structure of a partition is a run that is still being grown.
pub struct Run {
    pub recs: Vec<Record>,
}

impl View for Run {
    type V = Seq<SpecRecord>;

    open spec fn view(&self) -> Seq<SpecRecord> {
        rv(self.recs@)
    }
}

/// Decides whether `a` stands strictly before `b` in resolution order.
pub fn rec_before(a: &Record, b: &Record) -> (r: bool)
    ensures
        r == rec_lt(a@, b@),
{
    let c = key_cmp(a.key.as_slice(), b.key.as_slice());
    if c == -1 {
        true
    } else if c == 0 {
        a.seqno > b.seqno
    } else {
        false
    }
}

impl Run {
    /// A fresh, empty run.
    pub fn new() -> (r: Run)
        ensures
            r@ == Seq::<SpecRecord>::empty(),
            run_sorted(r@),
    {
        Run { recs: Vec::new() }
    }

    pub open spec fn wf(self) -> bool {
        run_sorted(self@)
    }

    /// The number of records held.
    pub fn len(&self) -> (n: usize)
        ensures
            n == self@.len(),
    {
        self.recs.len()
    }

    /// Adds a record whose (key, seqno) pair is not yet present, keeping
    /// the run sorted. The contents afterwards are the old contents plus
    /// exactly the new record.
    pub fn insert(&mut self, r: Record)
        requires
            old(self).wf(),
            forall|j: int|
                0 <= j < old(self)@.len() ==> !(old(self)@[j].key == r@.key && old(self)@[j].seqno
                    == r@.seqno),
        ensures
            final(self).wf(),
            final(self)@.len() == old(self)@.len() + 1,
            forall|x: SpecRecord|
                #[trigger] final(self)@.contains(x) <==> old(self)@.contains(x) || x == r@,
            exists|i: int|
                0 <= i <= old(self)@.len() && final(self)@ == old(self)@.insert(i, r@),
    {
        let ghost old_view = self@;
        let mut idx: usize = 0;
        loop
            invariant
                idx <= self.recs.len(),
                forall|j: int| 0 <= j < idx ==> rec_lt(self@[j], r@),
            ensures
                idx <= self.recs.len(),
                forall|j: int| 0 <= j < idx ==> rec_lt(self@[j], r@),
                idx == self.recs.len() || !rec_lt(self@[idx as int], r@),
            decreases self.recs.len() - idx,
        {
            if idx >= self.recs.len() {
                break;
            }
            if !rec_before(&self.recs[idx], &r) {
                break;
            }
            idx += 1;
        }
        proof {
            if idx < self.recs.len() && !rec_lt(r@, self@[idx as int]) {
                // the (key, seqno) pair is fresh, so the slot's record
                // cannot tie with the new one
                lemma_rec_lt_total(self@[idx as int], r@);
                assert(false);
            }
            assert forall|j: int| idx <= j < self@.len() implies rec_lt(r@, self@[j]) by {
                if j > idx {
                    lemma_rec_lt_transitive(r@, self@[idx as int], self@[j]);
                }
            }
        }
        self.recs.insert(idx, r);
        proof {
            old(self).recs@.insert_ensures(idx as int, r);
            old_view.insert_ensures(idx as int, r@);
            assert(self@ =~= old_view.insert(idx as int, r@));
            lemma_seq_insert_contains(old_view, idx as int, r@);
            assert forall|i: int, j: int| 0 <= i < j < self@.len() implies rec_lt(
                self@[i],
                self@[j],
            ) by {
                let vi = self@[i];
                let vj = self@[j];
                if i == idx {
                    assert(vj == old_view[j - 1]);
                } else if j == idx {
                    assert(vi == old_view[i]);
                } else if i < idx && j < idx {
                    assert(vi == old_view[i] && vj == old_view[j]);
                } else if i < idx && j > idx {
                    assert(vi == old_view[i] && vj == old_view[j - 1]);
                } else {
                    assert(vi == old_view[i - 1] && vj == old_view[j - 1]);
                }
            }
        }
    }
}

} // verus!
