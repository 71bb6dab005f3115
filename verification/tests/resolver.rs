use lsm_snapshot::partition::Partition;
use lsm_snapshot::paths::canonicalize_path;

#[test]
fn absolute_path_resolves_the_same_under_every_working_directory() {
    let cwds: Vec<&[u8]> = vec![
        b"/",
        b"/home",
        b"/home/user",
        b"/tmp",
        b"/var/lib",
        b"/a/b/c",
        b"/a/../a",
        b"/deeply/nested/working/directory",
        b"/x",
        b"/x/y/z",
    ];
    let reference = canonicalize_path(b"/", b"/data/part1");
    for cwd in cwds {
        assert_eq!(canonicalize_path(cwd, b"/data/part1"), reference);
    }
    assert_eq!(reference, b"/data/part1".to_vec());
}

#[test]
fn reopening_under_changed_working_directories_addresses_one_location() {
    // ten reopen cycles, each under another working directory, each time
    // writing and reading the same visible key set
    let cwds: Vec<&[u8]> = vec![
        b"/",
        b"/home",
        b"/home/user",
        b"/tmp",
        b"/var/lib",
        b"/a/b/c",
        b"/a/../a",
        b"/deeply/nested/working/directory",
        b"/x",
        b"/x/y/z",
    ];
    let mut locations: Vec<Vec<u8>> = Vec::new();
    for cwd in cwds {
        let mut p = Partition::open(cwd, b"/data/items");
        p.insert(b"a".to_vec(), b"1".to_vec());
        p.insert(b"b".to_vec(), b"2".to_vec());
        let mut ks = p.keys();
        assert_eq!(ks.next(), Some(b"a".to_vec()));
        assert_eq!(ks.next(), Some(b"b".to_vec()));
        assert!(ks.next().is_none());
        locations.push(p.location().clone());
    }
    for loc in &locations {
        assert_eq!(loc, &locations[0]);
    }
}

#[test]
fn relative_path_is_anchored_to_the_working_directory() {
    assert_eq!(canonicalize_path(b"/x/y", b"z"), b"/x/y/z".to_vec());
    assert_eq!(canonicalize_path(b"/x/y", b"z/w"), b"/x/y/z/w".to_vec());
}

#[test]
fn dot_and_empty_components_vanish() {
    assert_eq!(canonicalize_path(b"/", b"/a/./b//c/"), b"/a/b/c".to_vec());
    assert_eq!(canonicalize_path(b"/x/.", b"y"), b"/x/y".to_vec());
}

#[test]
fn dot_dot_steps_up_and_stops_at_the_root() {
    assert_eq!(canonicalize_path(b"/", b"/a/b/../c"), b"/a/c".to_vec());
    assert_eq!(canonicalize_path(b"/", b"/.."), b"/".to_vec());
    assert_eq!(canonicalize_path(b"/", b"/../../x"), b"/x".to_vec());
    assert_eq!(canonicalize_path(b"/a/b", b"../c"), b"/a/c".to_vec());
}

#[test]
fn empty_relative_path_resolves_to_the_working_directory() {
    assert_eq!(canonicalize_path(b"/x/y", b""), b"/x/y".to_vec());
    assert_eq!(canonicalize_path(b"/", b""), b"/".to_vec());
}

#[test]
fn canonical_form_is_stable_under_repeated_resolution() {
    let once = canonicalize_path(b"/work", b"data/../data/part");
    let twice = canonicalize_path(b"/somewhere/else", &once);
    assert_eq!(once, twice);
    assert_eq!(once, b"/work/data/part".to_vec());
}

#[test]
fn partition_location_is_the_canonical_path() {
    let p = Partition::open(b"/srv", b"stores/./alpha/../beta");
    assert_eq!(p.location(), &b"/srv/stores/beta".to_vec());
}
