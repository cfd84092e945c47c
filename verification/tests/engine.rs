use subset::directory_comparable::CacheExistenceQuery;
use subset::directory_comparable::DirectoryComparableWithFileComparable;
use subset::directory_comparable::TrivialDirectoryComparable;
use subset::directory_comparable::WhichSet;
use subset::file_comparable::FileNameComparable;
use subset::file_comparable::Md5Comparable;
use subset::file_comparable::TrivialComparator;
use subset::file_path::FileEntry;
use subset::file_path::FilePath;

fn path(components: &[&str]) -> FilePath {
    FilePath::new(components.iter().map(|c| c.as_bytes().to_vec()).collect())
}

fn file(components: &[&str], content: &str) -> FileEntry {
    FileEntry::new(path(components), Some(content.as_bytes().to_vec()))
}

fn unreadable(components: &[&str]) -> FileEntry {
    FileEntry::new(path(components), None)
}

fn comps(components: &[&str]) -> Vec<Vec<u8>> {
    components.iter().map(|c| c.as_bytes().to_vec()).collect()
}

#[test]
fn digest_example_nested_tree() {
    // L = {a/x.txt="hi", a/sub/y.txt="bye"}, R = {b/x.txt="hi"}:
    // only y.txt's content has no match; x.txt matches despite its path.
    let mut engine = DirectoryComparableWithFileComparable::new(Md5Comparable::new());
    let left = vec![file(&["a", "x.txt"], "hi"), file(&["a", "sub", "y.txt"], "bye")];
    let right = vec![file(&["b", "x.txt"], "hi")];
    let missing = engine.report_missing(&left, &right);
    assert_eq!(missing.len(), 1);
    assert_eq!(missing[0].components, comps(&["a", "sub", "y.txt"]));
}

#[test]
fn bidirectional_example() {
    // L = {f1="A"}, R = {f2="A", f3="B"}: left-missing = [], right-missing = [f3].
    let mut engine = DirectoryComparableWithFileComparable::new(Md5Comparable::new());
    let left = vec![file(&["f1"], "A")];
    let right = vec![file(&["f2"], "A"), file(&["f3"], "B")];
    let (left_missing, right_missing) = engine.report_missing_bidirectional(&left, &right);
    assert_eq!(left_missing.len(), 0);
    assert_eq!(right_missing.len(), 1);
    assert_eq!(right_missing[0].components, comps(&["f3"]));
}

#[test]
fn bidirectional_matches_two_unidirectional_runs() {
    let left = vec![
        file(&["l", "one"], "shared"),
        file(&["l", "two"], "left-only"),
        unreadable(&["l", "broken"]),
    ];
    let right = vec![
        file(&["r", "uno"], "shared"),
        file(&["r", "dos"], "right-only"),
    ];

    let mut bidir = DirectoryComparableWithFileComparable::new(Md5Comparable::new());
    let (bl, br) = bidir.report_missing_bidirectional(&left, &right);

    let mut uni1 = DirectoryComparableWithFileComparable::new(Md5Comparable::new());
    let ul = uni1.report_missing(&left, &right);
    let mut uni2 = DirectoryComparableWithFileComparable::new(Md5Comparable::new());
    let ur = uni2.report_missing(&right, &left);

    let views = |v: &Vec<FilePath>| v.iter().map(|p| p.components.clone()).collect::<Vec<_>>();
    assert_eq!(views(&bl), views(&ul));
    assert_eq!(views(&br), views(&ur));
}

#[test]
fn trivial_strategy_nonempty_superset_matches_everything() {
    let mut engine = DirectoryComparableWithFileComparable::new(TrivialComparator::new());
    let left = vec![file(&["a"], "anything"), unreadable(&["b"])];
    let right = vec![file(&["z"], "unrelated")];
    let missing = engine.report_missing(&left, &right);
    assert_eq!(missing.len(), 0);
}

#[test]
fn trivial_strategy_empty_superset_reports_all() {
    let mut engine = DirectoryComparableWithFileComparable::new(TrivialComparator::new());
    let left = vec![file(&["a"], "x"), file(&["b"], "y")];
    let right = vec![];
    let missing = engine.report_missing(&left, &right);
    assert_eq!(missing.len(), 2);
    assert_eq!(missing[0].components, comps(&["a"]));
    assert_eq!(missing[1].components, comps(&["b"]));
}

#[test]
fn unreadable_file_always_missing() {
    // A file without a key can never match, whatever the superset holds.
    let mut engine = DirectoryComparableWithFileComparable::new(Md5Comparable::new());
    let left = vec![unreadable(&["ghost.txt"]), file(&["ok.txt"], "hi")];
    let right = vec![file(&["ok2.txt"], "hi"), file(&["ghost.txt"], "hi")];
    let missing = engine.report_missing(&left, &right);
    assert_eq!(missing.len(), 1);
    assert_eq!(missing[0].components, comps(&["ghost.txt"]));
}

#[test]
fn unreadable_superset_file_satisfies_nothing() {
    let mut engine = DirectoryComparableWithFileComparable::new(Md5Comparable::new());
    let left = vec![file(&["a"], "hi")];
    let right = vec![unreadable(&["a"])];
    let missing = engine.report_missing(&left, &right);
    assert_eq!(missing.len(), 1);
}

#[test]
fn build_map_records_matches_and_misses() {
    let mut engine = DirectoryComparableWithFileComparable::new(Md5Comparable::new());
    let left = vec![file(&["a", "x.txt"], "hi"), file(&["a", "y.txt"], "bye")];
    let right = vec![file(&["b", "x.txt"], "hi")];
    let map = engine.build_map(&left, &right);
    assert_eq!(map.len(), 2);
    let hit = map.get(&path(&["a", "x.txt"])).expect("x.txt should be mapped");
    match hit {
        Some(p) => assert_eq!(p.components, comps(&["b", "x.txt"])),
        None => panic!("x.txt should have found a match"),
    }
    let miss = map.get(&path(&["a", "y.txt"])).expect("y.txt should be mapped");
    assert!(miss.is_none());
}

#[test]
fn build_map_is_ordered_by_path() {
    let mut engine = DirectoryComparableWithFileComparable::new(Md5Comparable::new());
    // Insert out of path order; the result map lists paths in order.
    let left = vec![file(&["b"], "1"), file(&["a"], "2"), file(&["a", "c"], "3")];
    let right = vec![];
    let map = engine.build_map(&left, &right);
    assert_eq!(map.len(), 3);
    assert_eq!(map.get_entry(0).0.components, comps(&["a"]));
    assert_eq!(map.get_entry(1).0.components, comps(&["a", "c"]));
    assert_eq!(map.get_entry(2).0.components, comps(&["b"]));
}

#[test]
fn build_map_twice_identical_ordered_output() {
    let left = vec![file(&["b"], "hi"), file(&["a"], "bye"), unreadable(&["c"])];
    let right = vec![file(&["r1"], "hi"), file(&["r2"], "other")];

    let mut e1 = DirectoryComparableWithFileComparable::new(Md5Comparable::new());
    let m1 = e1.build_map(&left, &right);
    let mut e2 = DirectoryComparableWithFileComparable::new(Md5Comparable::new());
    let m2 = e2.build_map(&left, &right);

    assert_eq!(m1.len(), m2.len());
    for i in 0..m1.len() {
        let (k1, v1) = m1.get_entry(i);
        let (k2, v2) = m2.get_entry(i);
        assert_eq!(k1.components, k2.components);
        match (v1, v2) {
            (Some(p1), Some(p2)) => assert_eq!(p1.components, p2.components),
            (None, None) => {},
            _ => panic!("matching entries disagree"),
        }
    }
}

#[test]
fn duplicate_keys_last_representative_wins() {
    // Both right files hold the same content; the later one is the
    // representative, and the earlier one still counts as present.
    let mut engine = DirectoryComparableWithFileComparable::new(Md5Comparable::new());
    let left = vec![file(&["l"], "hi")];
    let right = vec![file(&["first"], "hi"), file(&["second"], "hi")];
    let map = engine.build_map(&left, &right);
    let hit = map.get(&path(&["l"])).expect("l should be mapped");
    match hit {
        Some(p) => assert_eq!(p.components, comps(&["second"])),
        None => panic!("l should have matched"),
    }
}

#[test]
fn filename_strategy_engine_run() {
    let mut engine = DirectoryComparableWithFileComparable::new(FileNameComparable::new());
    let left = vec![
        file(&["a", "same.txt"], "left content"),
        file(&["a", "only-here.txt"], "shared content"),
    ];
    let right = vec![file(&["b", "same.txt"], "right content")];
    let missing = engine.report_missing(&left, &right);
    assert_eq!(missing.len(), 1);
    assert_eq!(missing[0].components, comps(&["a", "only-here.txt"]));
}

#[test]
fn caching_query_populates_other_side() {
    let mut engine = DirectoryComparableWithFileComparable::new(Md5Comparable::new());
    let queried = file(&["left", "doc"], "payload");
    // Query against the (empty) right side, caching into the left index.
    let r = engine.exists_in_directory(
        &queried,
        WhichSet::Right,
        CacheExistenceQuery::CacheForBidirectional,
    );
    assert!(r.is_none());
    // The same content now counts as present on the left.
    let probe = file(&["right", "doc2"], "payload");
    let hit = engine.exists_in_directory(&probe, WhichSet::Left, CacheExistenceQuery::DoNotCache);
    match hit {
        Some(p) => assert_eq!(p.components, comps(&["left", "doc"])),
        None => panic!("cached left entry should have matched"),
    }
}

#[test]
fn non_caching_query_leaves_other_side_empty() {
    let mut engine = DirectoryComparableWithFileComparable::new(Md5Comparable::new());
    let queried = file(&["left", "doc"], "payload");
    let r = engine.exists_in_directory(&queried, WhichSet::Right, CacheExistenceQuery::DoNotCache);
    assert!(r.is_none());
    let probe = file(&["right", "doc2"], "payload");
    let hit = engine.exists_in_directory(&probe, WhichSet::Left, CacheExistenceQuery::DoNotCache);
    assert!(hit.is_none());
}

#[test]
fn mark_file_as_seen_then_query() {
    let mut engine = DirectoryComparableWithFileComparable::new(Md5Comparable::new());
    let seen = file(&["somewhere", "f"], "data");
    engine.mark_file_as_seen(&seen, WhichSet::Left);
    let probe = file(&["elsewhere", "g"], "data");
    let hit = engine.exists_in_directory(&probe, WhichSet::Left, CacheExistenceQuery::DoNotCache);
    match hit {
        Some(p) => assert_eq!(p.components, comps(&["somewhere", "f"])),
        None => panic!("marked file should be present"),
    }
    // The right side stays untouched.
    let miss = engine.exists_in_directory(&probe, WhichSet::Right, CacheExistenceQuery::DoNotCache);
    assert!(miss.is_none());
}

#[test]
fn trivial_mock_judges_everything_present() {
    let mut mock = TrivialDirectoryComparable;
    let f = file(&["any", "where"], "x");
    let r = mock.exists_in_directory(&f, WhichSet::Right, CacheExistenceQuery::DoNotCache);
    match r {
        Some(p) => assert_eq!(p.components, comps(&["any", "where"])),
        None => panic!("trivial mock never misses"),
    }
}
