//! Newest-visible-version resolution across runs.
//!
//! A reader anchored at threshold `t` sees, for each key, the record of
//! that key with the greatest seqno `<= t`; records above the threshold
//! are invisible, older versions are shadowed, and a winning tombstone
//! suppresses the key. Ties on seqno go to the record standing later in
//! the flattened run order, so a later-flushed run (and, last of all, the
//! live structure) shadows an earlier one.
//!
//! The executable side folds every record of every run into one table,
//! sorted strictly ascending by key, holding exactly the winning version
//! of each visible key.

use vstd::prelude::*;
use vstd::pervasive::VecAdditionalExecFns;

use crate::keys::key_lt;
use crate::keys::key_cmp;
use crate::keys::lemma_key_lt_irreflexive;
use crate::keys::lemma_key_lt_total;
use crate::keys::lemma_key_lt_transitive;
use crate::record::Record;
use crate::record::Run;
use crate::record::SpecRecord;
use crate::record::clone_bytes;
use crate::record::rv;

verus! {

/// Of two visible records of one key, the one a reader sees: the newer,
/// with a tie going to `b`, the record standing later in run order.
pub open spec fn better(a: SpecRecord, b: SpecRecord) -> SpecRecord {
    if b.seqno >= a.seqno {
        b
    } else {
        a
    }
}

/// The winning version of key `k` at threshold `t` among `recs` (records
/// of later runs standing later): the record of `k` with the greatest
/// seqno `<= t`, ties resolved towards the later record. `None` when no
/// record of the key is visible at `t`.
pub open spec fn best(recs: Seq<SpecRecord>, k: Seq<u8>, t: u64) -> Option<SpecRecord>
    decreases recs.len(),
{
    if recs.len() == 0 {
        None::<SpecRecord>
    } else {
        let prev = best(recs.drop_last(), k, t);
        let r = recs.last();
        if r.key == k && r.seqno <= t {
            match prev {
                Some(p) => Some(better(p, r)),
                None => Some(r),
            }
        } else {
            prev
        }
    }
}

/// Appending one record changes the winner only for that record's key,
/// and only when the record is visible.
pub proof fn lemma_best_push(recs: Seq<SpecRecord>, r: SpecRecord, k: Seq<u8>, t: u64)
    ensures
        best(recs.push(r), k, t) == (if r.key == k && r.seqno <= t {
            match best(recs, k, t) {
                Some(p) => Some(better(p, r)),
                None => Some(r),
            }
        } else {
            best(recs, k, t)
        }),
{
    assert(recs.push(r).drop_last() =~= recs);
    assert(recs.push(r).last() == r);
}

/// A winner is one of the records, carries the key it won for, and stands
/// at or below the threshold — so a snapshot anchored at `t` never exposes
/// a record with seqno above `t`.
pub proof fn lemma_best_within_threshold(recs: Seq<SpecRecord>, k: Seq<u8>, t: u64)
    requires
        best(recs, k, t) is Some,
    ensures
        recs.contains(best(recs, k, t).unwrap()),
        best(recs, k, t).unwrap().key == k,
        best(recs, k, t).unwrap().seqno <= t,
    decreases recs.len(),
{
    let x = best(recs, k, t).unwrap();
    let dl = recs.drop_last();
    let r = recs.last();
    if best(dl, k, t) is Some {
        lemma_best_within_threshold(dl, k, t);
        let p = best(dl, k, t).unwrap();
        let i = choose|i: int| 0 <= i < dl.len() && dl[i] == p;
        assert(recs[i] == p);
        if x == r {
            assert(recs[recs.len() - 1] == r);
        }
    } else {
        assert(x == r);
        assert(recs[recs.len() - 1] == r);
    }
}

/// The winner's seqno is the greatest among the visible records of its
/// key: no visible record of key `k` is newer than the winner.
pub proof fn lemma_best_is_newest(recs: Seq<SpecRecord>, k: Seq<u8>, t: u64, y: SpecRecord)
    requires
        recs.contains(y),
        y.key == k,
        y.seqno <= t,
    ensures
        best(recs, k, t) is Some,
        y.seqno <= best(recs, k, t).unwrap().seqno,
    decreases recs.len(),
{
    let dl = recs.drop_last();
    let r = recs.last();
    let i = choose|i: int| 0 <= i < recs.len() && recs[i] == y;
    if i < recs.len() - 1 {
        assert(dl[i] == y);
        lemma_best_is_newest(dl, k, t, y);
    } else {
        assert(y == r);
    }
}

/// The merged table under construction: sorted strictly ascending by key,
/// holding for each key exactly the winner among the records folded in so
/// far (`done`), and a key for every winner.
pub open spec fn table_ok(table: Seq<SpecRecord>, done: Seq<SpecRecord>, t: u64) -> bool {
    &&& forall|i: int, j: int| 0 <= i < j < table.len() ==> key_lt(table[i].key, table[j].key)
    &&& forall|i: int|
        0 <= i < table.len() ==> best(done, (#[trigger] table[i]).key, t) == Some(table[i])
    &&& forall|k: Seq<u8>|
        (#[trigger] best(done, k, t)) is Some ==> exists|i: int|
            0 <= i < table.len() && table[i].key == k
}

/// Folds one record into the table: ignored when above the threshold or
/// shadowed by a newer table entry of its key, otherwise replacing that
/// entry or entering at its sorted position.
fn apply_record(table: &mut Vec<Record>, r: &Record, t: u64, Ghost(done): Ghost<Seq<SpecRecord>>)
    requires
        table_ok(rv(old(table)@), done, t),
    ensures
        table_ok(rv(final(table)@), done.push(r@), t),
{
    let ghost done2 = done.push(r@);
    let ghost tv = rv(table@);
    if r.seqno > t {
        proof {
            assert forall|i: int|
                0 <= i < tv.len() implies best(done2, (#[trigger] tv[i]).key, t) == Some(
                tv[i],
            ) by {
                lemma_best_push(done, r@, tv[i].key, t);
            }
            assert forall|k: Seq<u8>| (#[trigger] best(done2, k, t)) is Some implies exists|i: int|
                0 <= i < tv.len() && tv[i].key == k by {
                lemma_best_push(done, r@, k, t);
            }
        }
        return ;
    }
    let mut idx: usize = 0;
    loop
        invariant
            idx <= table.len(),
            forall|j: int| 0 <= j < idx ==> key_lt(rv(table@)[j].key, r@.key),
        ensures
            idx <= table.len(),
            forall|j: int| 0 <= j < idx ==> key_lt(rv(table@)[j].key, r@.key),
            idx == table.len() || !key_lt(rv(table@)[idx as int].key, r@.key),
        decreases table.len() - idx,
    {
        if idx >= table.len() {
            break ;
        }
        if key_cmp(table[idx].key.as_slice(), r.key.as_slice()) != -1 {
            break ;
        }
        idx += 1;
    }
    if idx < table.len() && key_cmp(table[idx].key.as_slice(), r.key.as_slice()) == 0 {
        // the table already holds a version of this key
        let ghost e = tv[idx as int];
        assert(e.key == r@.key);
        if r.seqno >= table[idx].seqno {
            table.set(idx, r.clone());
        }
        proof {
            let ghost tv2 = rv(table@);
            assert(tv2.len() == tv.len());
            assert forall|i: int| 0 <= i < tv2.len() && i != idx implies tv2[i] == tv[i] by {}
            assert(tv2[idx as int] == better(e, r@));
            assert forall|i: int, j: int| 0 <= i < j < tv2.len() implies key_lt(
                tv2[i].key,
                tv2[j].key,
            ) by {
                assert(tv2[i].key == tv[i].key && tv2[j].key == tv[j].key);
            }
            assert forall|i: int|
                0 <= i < tv2.len() implies best(done2, (#[trigger] tv2[i]).key, t) == Some(
                tv2[i],
            ) by {
                lemma_best_push(done, r@, tv2[i].key, t);
                if i != idx {
                    // a different table slot has a different key
                    if tv[i].key == r@.key {
                        if i < idx {
                            lemma_key_lt_irreflexive(tv[i].key);
                        } else {
                            lemma_key_lt_irreflexive(tv[i].key);
                        }
                    }
                }
            }
            assert forall|k: Seq<u8>| (#[trigger] best(done2, k, t)) is Some implies exists|i: int|
                0 <= i < tv2.len() && tv2[i].key == k by {
                lemma_best_push(done, r@, k, t);
                if k == r@.key {
                    assert(tv2[idx as int].key == k);
                } else {
                    let i = choose|i: int| 0 <= i < tv.len() && tv[i].key == k;
                    assert(tv2[i].key == k);
                }
            }
        }
    } else {
        // first version of this key: enter it at its sorted slot
        proof {
            if idx < table.len() {
                if !key_lt(r@.key, tv[idx as int].key) {
                    lemma_key_lt_total(tv[idx as int].key, r@.key);
                    assert(false);
                }
            }
            assert forall|j: int| idx <= j < tv.len() implies key_lt(r@.key, tv[j].key) by {
                if j > idx {
                    lemma_key_lt_transitive(r@.key, tv[idx as int].key, tv[j].key);
                }
            }
            // no table slot holds this key, so it has no winner yet
            assert forall|i: int| 0 <= i < tv.len() implies tv[i].key != r@.key by {
                lemma_key_lt_irreflexive(tv[i].key);
            }
            if best(done, r@.key, t) is Some {
                let i = choose|i: int| 0 <= i < tv.len() && tv[i].key == r@.key;
                assert(false);
            }
        }
        table.insert(idx, r.clone());
        proof {
            let ghost tv2 = rv(table@);
            tv.insert_ensures(idx as int, r@);
            assert(tv2 =~= tv.insert(idx as int, r@));
            assert forall|i: int, j: int| 0 <= i < j < tv2.len() implies key_lt(
                tv2[i].key,
                tv2[j].key,
            ) by {
                if i == idx {
                    assert(tv2[j] == tv[j - 1]);
                } else if j == idx {
                    assert(tv2[i] == tv[i]);
                } else if i < idx && j < idx {
                    assert(tv2[i] == tv[i] && tv2[j] == tv[j]);
                } else if i < idx && j > idx {
                    assert(tv2[i] == tv[i] && tv2[j] == tv[j - 1]);
                } else {
                    assert(tv2[i] == tv[i - 1] && tv2[j] == tv[j - 1]);
                }
            }
            assert forall|i: int|
                0 <= i < tv2.len() implies best(done2, (#[trigger] tv2[i]).key, t) == Some(
                tv2[i],
            ) by {
                if i == idx {
                    lemma_best_push(done, r@, r@.key, t);
                } else {
                    let iold: int = if i < idx { i } else { i - 1 };
                    assert(tv2[i] == tv[iold]);
                    lemma_best_push(done, r@, tv[iold].key, t);
                    if tv[iold].key == r@.key {
                        lemma_key_lt_irreflexive(tv[iold].key);
                    }
                }
            }
            assert forall|k: Seq<u8>| (#[trigger] best(done2, k, t)) is Some implies exists|i: int|
                0 <= i < tv2.len() && tv2[i].key == k by {
                lemma_best_push(done, r@, k, t);
                if k == r@.key {
                    assert(tv2[idx as int].key == k);
                } else {
                    let i = choose|i: int| 0 <= i < tv.len() && tv[i].key == k;
                    if i < idx {
                        assert(tv2[i].key == k);
                    } else {
                        assert(tv2[i + 1].key == k);
                    }
                }
            }
        }
    }
}

/// The records of a sequence of runs, flattened in run order: records of
/// later runs stand later and so shadow equal-seqno ties.
pub open spec fn flat_runs(runs: Seq<Run>) -> Seq<SpecRecord>
    decreases runs.len(),
{
    if runs.len() == 0 {
        Seq::<SpecRecord>::empty()
    } else {
        flat_runs(runs.drop_last()) + runs.last()@
    }
}

/// Flattening one more run appends exactly that run's records.
pub proof fn lemma_flat_runs_take(runs: Seq<Run>, i: int)
    requires
        0 <= i < runs.len(),
    ensures
        flat_runs(runs.take(i + 1)) == flat_runs(runs.take(i)) + runs[i]@,
{
    assert(runs.take(i + 1).drop_last() =~= runs.take(i));
    assert(runs.take(i + 1).last() == runs[i]);
}

/// Folds every record of the sealed runs, then of the live structure,
/// into the merged table for threshold `t`.
fn build_table(sealed: &Vec<Run>, active: &Run, t: u64) -> (table: Vec<Record>)
    ensures
        table_ok(rv(table@), flat_runs(sealed@) + active@, t),
{
    let mut table: Vec<Record> = Vec::new();
    let ghost mut done: Seq<SpecRecord> = Seq::<SpecRecord>::empty();
    proof {
        assert(rv(table@).len() == 0);
        assert(sealed@.take(0) =~= Seq::<Run>::empty());
    }
    let mut ri: usize = 0;
    while ri < sealed.len()
        invariant
            ri <= sealed.len(),
            done == flat_runs(sealed@.take(ri as int)),
            table_ok(rv(table@), done, t),
        decreases sealed.len() - ri,
    {
        let run = &sealed[ri];
        let mut i: usize = 0;
        while i < run.recs.len()
            invariant
                ri < sealed.len(),
                run == &sealed[ri as int],
                i <= run.recs.len(),
                done == flat_runs(sealed@.take(ri as int)) + run@.take(i as int),
                table_ok(rv(table@), done, t),
            decreases run.recs.len() - i,
        {
            apply_record(&mut table, &run.recs[i], t, Ghost(done));
            proof {
                assert(run@.take(i + 1) =~= run@.take(i as int).push(run@[i as int]));
                assert(run@[i as int] == run.recs@[i as int]@);
                done = done.push(run.recs@[i as int]@);
            }
            i += 1;
        }
        proof {
            lemma_flat_runs_take(sealed@, ri as int);
            assert(run@.take(run@.len() as int) =~= run@);
        }
        ri += 1;
    }
    proof {
        assert(sealed@.take(sealed@.len() as int) =~= sealed@);
    }
    let mut i: usize = 0;
    while i < active.recs.len()
        invariant
            i <= active.recs.len(),
            done == flat_runs(sealed@) + active@.take(i as int),
            table_ok(rv(table@), done, t),
        decreases active.recs.len() - i,
    {
        apply_record(&mut table, &active.recs[i], t, Ghost(done));
        proof {
            assert(active@.take(i + 1) =~= active@.take(i as int).push(active@[i as int]));
            assert(active@[i as int] == active.recs@[i as int]@);
            done = done.push(active.recs@[i as int]@);
        }
        i += 1;
    }
    proof {
        assert(active@.take(active@.len() as int) =~= active@);
    }
    table
}

/// A visible key together with the payload its winning record carries.
pub struct KvPair {
    pub key: Vec<u8>,
    pub value: Vec<u8>,
}

/// Mathematical model of a visible key-value pair.
#[verifier::ext_equal]
pub ghost struct SpecKv {
    pub key: Seq<u8>,
    pub value: Seq<u8>,
}

impl View for KvPair {
    type V = SpecKv;

    open spec fn view(&self) -> SpecKv {
        SpecKv { key: self.key@, value: self.value@ }
    }
}

impl Clone for KvPair {
    fn clone(&self) -> (r: Self)
        ensures
            r@ == self@,
    {
        KvPair { key: clone_bytes(&self.key), value: clone_bytes(&self.value) }
    }
}

/// The abstract contents of a vector of pairs.
pub open spec fn kvs(s: Seq<KvPair>) -> Seq<SpecKv> {
    s.map_values(|p: KvPair| p@)
}

/// What a reader anchored at threshold `t` sees of the records `all`:
/// the pairs stand in strictly ascending key order; each pair carries the
/// payload of the winning record of its key, which in particular is no
/// tombstone; and every key whose winner carries a payload is present.
pub open spec fn visible_ok(all: Seq<SpecRecord>, t: u64, items: Seq<SpecKv>) -> bool {
    &&& forall|i: int, j: int| 0 <= i < j < items.len() ==> key_lt(items[i].key, items[j].key)
    &&& forall|i: int|
        0 <= i < items.len() ==> best(all, (#[trigger] items[i]).key, t) is Some && best(
            all,
            items[i].key,
            t,
        ).unwrap().value == Some(items[i].value)
    &&& forall|k: Seq<u8>|
        (#[trigger] best(all, k, t)) is Some && best(all, k, t).unwrap().value is Some
            ==> exists|i: int| 0 <= i < items.len() && items[i].key == k
}

/// A write committed after a snapshot was anchored carries a seqno above
/// the snapshot's threshold, and such a record changes no winner at that
/// threshold: the snapshot's visible content is unaffected.
pub proof fn lemma_later_write_invisible(recs: Seq<SpecRecord>, r: SpecRecord, t: u64, k: Seq<u8>)
    requires
        r.seqno > t,
    ensures
        best(recs.push(r), k, t) == best(recs, k, t),
{
    lemma_best_push(recs, r, k, t);
}

/// A view anchored at threshold `t` never exposes a record with seqno
/// greater than `t`: every visible pair descends from a record that holds
/// that pair's key and payload and stands at or below the threshold.
pub proof fn lemma_view_respects_threshold(
    all: Seq<SpecRecord>,
    t: u64,
    items: Seq<SpecKv>,
    i: int,
)
    requires
        visible_ok(all, t, items),
        0 <= i < items.len(),
    ensures
        exists|x: SpecRecord|
            all.contains(x) && x.key == items[i].key && x.seqno <= t && x.value == Some(
                items[i].value,
            ),
{
    lemma_best_within_threshold(all, items[i].key, t);
    let x = best(all, items[i].key, t).unwrap();
    assert(all.contains(x) && x.key == items[i].key && x.seqno <= t && x.value == Some(
        items[i].value,
    ));
}

/// When every record stands at or below `t` — as all do at the instant a
/// snapshot is anchored at the counter's current value — the threshold
/// filters nothing: the view at `t` and the unfiltered view agree on the
/// winner of every key.
pub proof fn lemma_full_threshold_filters_nothing(recs: Seq<SpecRecord>, t: u64, k: Seq<u8>)
    requires
        forall|i: int| 0 <= i < recs.len() ==> (#[trigger] recs[i]).seqno <= t,
    ensures
        best(recs, k, t) == best(recs, k, u64::MAX),
    decreases recs.len(),
{
    if recs.len() > 0 {
        let dl = recs.drop_last();
        assert forall|i: int| 0 <= i < dl.len() implies (#[trigger] dl[i]).seqno <= t by {
            assert(dl[i] == recs[i]);
        }
        lemma_full_threshold_filters_nothing(dl, t, k);
        assert(recs[recs.len() - 1] == recs.last());
    }
}

/// Merges the sealed runs and the live structure into the sequence of
/// key-value pairs visible at threshold `t`, in ascending key order, with
/// shadowed versions and tombstoned keys resolved away.
#[verifier::rlimit(60)]
pub fn visible_entries(sealed: &Vec<Run>, active: &Run, t: u64) -> (out: Vec<KvPair>)
    ensures
        visible_ok(flat_runs(sealed@) + active@, t, kvs(out@)),
{
    let ghost all = flat_runs(sealed@) + active@;
    let table = build_table(sealed, active, t);
    let ghost tv = rv(table@);
    let mut out: Vec<KvPair> = Vec::new();
    let mut i: usize = 0;
    while i < table.len()
        invariant
            i <= table.len(),
            tv == rv(table@),
            table_ok(tv, all, t),
            forall|a: int, b: int|
                0 <= a < b < kvs(out@).len() ==> key_lt(kvs(out@)[a].key, kvs(out@)[b].key),
            forall|a: int|
                0 <= a < kvs(out@).len() ==> exists|j: int|
                    0 <= j < i && tv[j].key == (#[trigger] kvs(out@)[a]).key && tv[j].value == Some(
                        kvs(out@)[a].value,
                    ),
            forall|j: int|
                0 <= j < i && (#[trigger] tv[j]).value is Some ==> exists|a: int|
                    0 <= a < kvs(out@).len() && kvs(out@)[a].key == tv[j].key,
        decreases table.len() - i,
    {
        let e = &table[i];
        match &e.value {
            Some(v) => {
                let ghost out_old = kvs(out@);
                out.push(KvPair { key: clone_bytes(&e.key), value: clone_bytes(v) });
                proof {
                    assert(kvs(out@) =~= out_old.push(
                        SpecKv { key: tv[i as int].key, value: tv[i as int].value.unwrap() },
                    ));
                    assert forall|a: int, b: int|
                        0 <= a < b < kvs(out@).len() implies key_lt(
                        kvs(out@)[a].key,
                        kvs(out@)[b].key,
                    ) by {
                        if b == kvs(out@).len() - 1 {
                            let j = choose|j: int|
                                0 <= j < i && tv[j].key == kvs(out@)[a].key && tv[j].value == Some(
                                    kvs(out@)[a].value,
                                );
                            assert(key_lt(tv[j].key, tv[i as int].key));
                        }
                    }
                    assert forall|j: int|
                        0 <= j < i + 1 && (#[trigger] tv[j]).value is Some implies exists|a: int|
                        0 <= a < kvs(out@).len() && kvs(out@)[a].key == tv[j].key by {
                        if j < i {
                            let a = choose|a: int|
                                0 <= a < out_old.len() && out_old[a].key == tv[j].key;
                            assert(kvs(out@)[a].key == tv[j].key);
                        } else {
                            assert(kvs(out@)[kvs(out@).len() - 1].key == tv[i as int].key);
                        }
                    }
                }
            },
            None => {},
        }
        i += 1;
    }
    proof {
        assert forall|a: int|
            0 <= a < kvs(out@).len() implies best(all, (#[trigger] kvs(out@)[a]).key, t) is Some
            && best(all, kvs(out@)[a].key, t).unwrap().value == Some(kvs(out@)[a].value) by {
            let j = choose|j: int|
                0 <= j < tv.len() && tv[j].key == kvs(out@)[a].key && tv[j].value == Some(
                    kvs(out@)[a].value,
                );
            assert(best(all, tv[j].key, t) == Some(tv[j]));
        }
        assert forall|k: Seq<u8>|
            (#[trigger] best(all, k, t)) is Some && best(all, k, t).unwrap().value is Some
            implies exists|i: int| 0 <= i < kvs(out@).len() && kvs(out@)[i].key == k by {
            let j = choose|j: int| 0 <= j < tv.len() && tv[j].key == k;
            assert(best(all, tv[j].key, t) == Some(tv[j]));
            assert(tv[j].value is Some);
        }
    }
    out
}

/// What a reader anchored at threshold `t` sees of the key space alone:
/// the keys stand in strictly ascending order, each one's winner carries a
/// payload, and every key whose winner carries a payload is present.
pub open spec fn visible_keys_ok(all: Seq<SpecRecord>, t: u64, ks: Seq<Seq<u8>>) -> bool {
    &&& forall|i: int, j: int| 0 <= i < j < ks.len() ==> key_lt(ks[i], ks[j])
    &&& forall|i: int|
        0 <= i < ks.len() ==> (#[trigger] best(all, ks[i], t)) is Some && best(
            all,
            ks[i],
            t,
        ).unwrap().value is Some
    &&& forall|k: Seq<u8>|
        (#[trigger] best(all, k, t)) is Some && best(all, k, t).unwrap().value is Some
            ==> exists|i: int| 0 <= i < ks.len() && ks[i] == k
}

/// The keys visible at threshold `t`, in ascending order.
pub fn visible_keys(sealed: &Vec<Run>, active: &Run, t: u64) -> (ks: Vec<Vec<u8>>)
    ensures
        visible_keys_ok(flat_runs(sealed@) + active@, t, crate::record::bytes_view(ks@)),
{
    let ghost all = flat_runs(sealed@) + active@;
    let items = visible_entries(sealed, active, t);
    let mut ks: Vec<Vec<u8>> = Vec::new();
    let mut i: usize = 0;
    while i < items.len()
        invariant
            i <= items@.len(),
            visible_ok(all, t, kvs(items@)),
            crate::record::bytes_view(ks@).len() == i,
            forall|a: int|
                0 <= a < i ==> #[trigger] crate::record::bytes_view(ks@)[a] == kvs(items@)[a].key,
        decreases items@.len() - i,
    {
        let ghost pre = ks@;
        ks.push(clone_bytes(&items[i].key));
        proof {
            assert forall|a: int|
                0 <= a < i + 1 implies #[trigger] crate::record::bytes_view(ks@)[a] == kvs(
                items@,
            )[a].key by {
                if a < i {
                    assert(ks@[a] == pre[a]);
                    assert(crate::record::bytes_view(pre)[a] == kvs(items@)[a].key);
                } else {
                    assert(ks@[a]@ == items@[i as int]@.key);
                }
            }
        }
        i += 1;
    }
    proof {
        let kv = crate::record::bytes_view(ks@);
        assert forall|k: Seq<u8>|
            (#[trigger] best(all, k, t)) is Some && best(all, k, t).unwrap().value is Some
            implies exists|i: int| 0 <= i < kv.len() && kv[i] == k by {
            let a = choose|a: int| 0 <= a < kvs(items@).len() && kvs(items@)[a].key == k;
            assert(kv[a] == k);
        }
    }
    ks
}

} // verus!
