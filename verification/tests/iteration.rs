use lsm_snapshot::partition::Partition;

fn filled_scrambled_partition() -> Partition {
    // two runs flushed in scrambled key order: {f, e, d} then {a, b, c}
    let mut p = Partition::open(b"/", b"/data/scrambled");
    p.insert(b"f".to_vec(), b"vf".to_vec());
    p.insert(b"e".to_vec(), b"ve".to_vec());
    p.insert(b"d".to_vec(), b"vd".to_vec());
    p.flush_active_structure();
    p.insert(b"a".to_vec(), b"va".to_vec());
    p.insert(b"b".to_vec(), b"vb".to_vec());
    p.insert(b"c".to_vec(), b"vc".to_vec());
    p.flush_active_structure();
    p
}

#[test]
fn scrambled_runs_iterate_in_ascending_key_order() {
    let p = filled_scrambled_partition();
    let mut it = p.iter();
    let mut keys: Vec<Vec<u8>> = Vec::new();
    while let Some(pair) = it.next() {
        keys.push(pair.key);
    }
    let want: Vec<Vec<u8>> = vec![
        b"a".to_vec(),
        b"b".to_vec(),
        b"c".to_vec(),
        b"d".to_vec(),
        b"e".to_vec(),
        b"f".to_vec(),
    ];
    assert_eq!(keys, want);
}

#[test]
fn backward_iteration_is_the_exact_mirror() {
    let p = filled_scrambled_partition();
    let mut it = p.iter();
    let mut keys: Vec<Vec<u8>> = Vec::new();
    while let Some(pair) = it.next_back() {
        keys.push(pair.key);
    }
    let want: Vec<Vec<u8>> = vec![
        b"f".to_vec(),
        b"e".to_vec(),
        b"d".to_vec(),
        b"c".to_vec(),
        b"b".to_vec(),
        b"a".to_vec(),
    ];
    assert_eq!(keys, want);
}

#[test]
fn rev_yields_the_reversed_forward_order() {
    let p = filled_scrambled_partition();
    let mut rit = p.iter().rev();
    let mut keys: Vec<Vec<u8>> = Vec::new();
    while let Some(pair) = rit.next() {
        keys.push(pair.key);
    }
    let want: Vec<Vec<u8>> = vec![
        b"f".to_vec(),
        b"e".to_vec(),
        b"d".to_vec(),
        b"c".to_vec(),
        b"b".to_vec(),
        b"a".to_vec(),
    ];
    assert_eq!(keys, want);
}

#[test]
fn ping_pong_yields_each_key_exactly_once_then_closes_permanently() {
    let p = filled_scrambled_partition();
    let mut it = p.iter();
    let mut yielded: Vec<Vec<u8>> = Vec::new();
    // alternate next() / next_back() over the 6-key partition
    for round in 0..6 {
        let pair = if round % 2 == 0 { it.next() } else { it.next_back() };
        yielded.push(pair.expect("an element is still pending").key);
    }
    assert_eq!(
        yielded,
        vec![
            b"a".to_vec(),
            b"f".to_vec(),
            b"b".to_vec(),
            b"e".to_vec(),
            b"c".to_vec(),
            b"d".to_vec(),
        ]
    );
    // both ends have met: every further call keeps reporting exhaustion
    for _ in 0..3 {
        assert!(it.next().is_none());
        assert!(it.next_back().is_none());
    }
}

#[test]
fn keys_iterator_walks_both_directions() {
    let p = filled_scrambled_partition();
    let mut it = p.keys();
    assert_eq!(it.next(), Some(b"a".to_vec()));
    assert_eq!(it.next_back(), Some(b"f".to_vec()));
    assert_eq!(it.next(), Some(b"b".to_vec()));
    assert_eq!(it.next(), Some(b"c".to_vec()));
    assert_eq!(it.next_back(), Some(b"e".to_vec()));
    assert_eq!(it.next(), Some(b"d".to_vec()));
    assert!(it.next().is_none());
    assert!(it.next_back().is_none());
}

#[test]
fn newer_version_shadows_older_one() {
    let mut p = Partition::open(b"/", b"/data/shadow");
    p.insert(b"k".to_vec(), b"first".to_vec());
    p.flush_active_structure();
    p.insert(b"k".to_vec(), b"second".to_vec());
    let mut it = p.iter();
    let pair = it.next().expect("the key is visible");
    assert_eq!(pair.key, b"k".to_vec());
    assert_eq!(pair.value, b"second".to_vec());
    assert!(it.next().is_none());
}

#[test]
fn tombstone_suppresses_the_key() {
    let mut p = Partition::open(b"/", b"/data/tomb");
    p.insert(b"k".to_vec(), b"v".to_vec());
    p.insert(b"other".to_vec(), b"w".to_vec());
    p.flush_active_structure();
    p.remove(b"k".to_vec());
    let mut it = p.iter();
    let pair = it.next().expect("the untouched key is visible");
    assert_eq!(pair.key, b"other".to_vec());
    assert!(it.next().is_none());
}

#[test]
fn empty_partition_iterates_nothing() {
    let p = Partition::open(b"/", b"/data/empty");
    let mut it = p.iter();
    assert!(it.next().is_none());
    assert!(it.next_back().is_none());
    let mut ks = p.keys();
    assert!(ks.next().is_none());
}

#[test]
fn remaining_counts_down_from_both_ends() {
    let p = filled_scrambled_partition();
    let mut it = p.iter();
    assert_eq!(it.remaining(), 6);
    it.next();
    it.next_back();
    assert_eq!(it.remaining(), 4);
}
