use lsm_snapshot::partition::Partition;

#[test]
fn snapshot_at_earlier_threshold_hides_later_writes() {
    // end-to-end: insert "a"; capture t0; insert "b"; the snapshot at t0
    // lists only "a", the live iterator lists both
    let mut p = Partition::open(b"/", b"/data/e2e");
    p.insert(b"a".to_vec(), b"first".to_vec());
    let t0 = p.current_seqno();
    p.insert(b"b".to_vec(), b"second".to_vec());

    let snap = p.snapshot_at(t0);
    let mut ks = snap.keys();
    assert_eq!(ks.next(), Some(b"a".to_vec()));
    assert!(ks.next().is_none());

    let mut live = p.iter();
    assert_eq!(live.next().map(|pair| pair.key), Some(b"a".to_vec()));
    assert_eq!(live.next().map(|pair| pair.key), Some(b"b".to_vec()));
    assert!(live.next().is_none());
}

#[test]
fn snapshot_never_exposes_records_above_its_threshold() {
    let mut p = Partition::open(b"/", b"/data/threshold");
    p.insert(b"a".to_vec(), b"old".to_vec());
    let t = p.current_seqno();
    // writes committed after the anchor carry larger seqnos
    p.insert(b"a".to_vec(), b"new".to_vec());
    p.insert(b"b".to_vec(), b"x".to_vec());
    p.flush_active_structure();
    p.insert(b"c".to_vec(), b"y".to_vec());

    let snap = p.snapshot_at(t);
    assert_eq!(snap.get(b"a"), Some(b"old".to_vec()));
    assert_eq!(snap.get(b"b"), None);
    assert_eq!(snap.get(b"c"), None);
    let mut it = snap.iter();
    let pair = it.next().expect("the anchored version is visible");
    assert_eq!(pair.key, b"a".to_vec());
    assert_eq!(pair.value, b"old".to_vec());
    assert!(it.next().is_none());
}

#[test]
fn snapshot_now_sees_everything_visible_right_now() {
    let mut p = Partition::open(b"/", b"/data/now");
    p.insert(b"x".to_vec(), b"1".to_vec());
    p.insert(b"y".to_vec(), b"2".to_vec());
    let snap = p.snapshot();
    assert_eq!(snap.get(b"x"), Some(b"1".to_vec()));
    assert_eq!(snap.get(b"y"), Some(b"2".to_vec()));
    assert_eq!(snap.get(b"z"), None);
}

#[test]
fn snapshot_before_remove_still_sees_the_key() {
    let mut p = Partition::open(b"/", b"/data/tombsnap");
    p.insert(b"k".to_vec(), b"v".to_vec());
    let t = p.current_seqno();
    p.remove(b"k".to_vec());

    // the tombstone wins now, but not under the earlier anchor
    let snap_old = p.snapshot_at(t);
    assert_eq!(snap_old.get(b"k"), Some(b"v".to_vec()));
    let snap_now = p.snapshot();
    assert_eq!(snap_now.get(b"k"), None);
}

#[test]
fn snapshot_get_resolves_the_newest_visible_version() {
    let mut p = Partition::open(b"/", b"/data/versions");
    p.insert(b"k".to_vec(), b"v1".to_vec());
    p.flush_active_structure();
    p.insert(b"k".to_vec(), b"v2".to_vec());
    let t = p.current_seqno();
    p.insert(b"k".to_vec(), b"v3".to_vec());

    let snap = p.snapshot_at(t);
    assert_eq!(snap.get(b"k"), Some(b"v2".to_vec()));
    let now = p.snapshot();
    assert_eq!(now.get(b"k"), Some(b"v3".to_vec()));
}

#[test]
fn flushing_changes_nothing_visible() {
    let mut p = Partition::open(b"/", b"/data/flushsame");
    p.insert(b"a".to_vec(), b"1".to_vec());
    p.insert(b"b".to_vec(), b"2".to_vec());
    let t = p.current_seqno();
    p.flush_active_structure();
    p.flush_active_structure();
    assert_eq!(p.current_seqno(), t);
    let mut it = p.iter();
    assert_eq!(it.next().map(|pair| (pair.key, pair.value)), Some((b"a".to_vec(), b"1".to_vec())));
    assert_eq!(it.next().map(|pair| (pair.key, pair.value)), Some((b"b".to_vec(), b"2".to_vec())));
    assert!(it.next().is_none());
}

#[test]
fn taking_a_snapshot_never_advances_the_counter() {
    let mut p = Partition::open(b"/", b"/data/anchor");
    p.insert(b"a".to_vec(), b"1".to_vec());
    let before = p.current_seqno();
    {
        let snap = p.snapshot();
        let _ = snap.get(b"a");
        let mut it = snap.iter();
        let _ = it.next();
    }
    assert_eq!(p.current_seqno(), before);
}

#[test]
fn insert_returns_strictly_increasing_seqnos() {
    let mut p = Partition::open(b"/", b"/data/stamps");
    let s1 = p.insert(b"a".to_vec(), b"1".to_vec());
    let s2 = p.insert(b"b".to_vec(), b"2".to_vec());
    let s3 = p.remove(b"a".to_vec());
    assert!(s1 < s2 && s2 < s3);
    assert_eq!(p.current_seqno(), s3);
}
