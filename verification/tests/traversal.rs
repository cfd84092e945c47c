use subset::directory_files::DirEntry;
use subset::directory_files::DirectoryFiles;
use subset::directory_files::TraversalStep;
use subset::file_path::FilePath;

fn path(components: &[&str]) -> FilePath {
    FilePath::new(components.iter().map(|c| c.as_bytes().to_vec()).collect())
}

fn entry(components: &[&str], is_dir: bool) -> DirEntry {
    DirEntry { path: path(components), is_dir }
}

/// Drives a walk over an in-memory tree: `listings` maps a directory's
/// components to its entries.
fn drain(root: &[&str], listings: &[(&[&str], Vec<DirEntry>)]) -> (Vec<FilePath>, u32) {
    let mut walk = DirectoryFiles::new(&path(root));
    let root_listing = listings
        .iter()
        .find(|(d, _)| {
            path(d).components == path(root).components
        })
        .map(|(_, es)| es.clone())
        .unwrap_or_default();
    walk.enqueue(root_listing);
    let mut files = Vec::new();
    loop {
        assert!(walk.num_found_items < u32::MAX);
        match walk.next() {
            TraversalStep::Done => break,
            TraversalStep::File(p) => files.push(p),
            TraversalStep::Descend(dir) => {
                let listing = listings
                    .iter()
                    .find(|(d, _)| path(d).components == dir.components)
                    .map(|(_, es)| es.clone())
                    .unwrap_or_default();
                walk.enqueue(listing);
            }
        }
    }
    let count = walk.num_found_items;
    (files, count)
}

#[test]
fn walk_is_breadth_first() {
    // root: x (file), a (dir); a: y (file), b (dir); b: z (file).
    // Breadth-first: x before y, y before z.
    let listings: Vec<(&[&str], Vec<DirEntry>)> = vec![
        (
            &["root"][..],
            vec![entry(&["root", "x"], false), entry(&["root", "a"], true)],
        ),
        (
            &["root", "a"][..],
            vec![entry(&["root", "a", "y"], false), entry(&["root", "a", "b"], true)],
        ),
        (
            &["root", "a", "b"][..],
            vec![entry(&["root", "a", "b", "z"], false)],
        ),
    ];
    let (files, count) = drain(&["root"], &listings);
    let got: Vec<Vec<Vec<u8>>> = files.iter().map(|p| p.components.clone()).collect();
    assert_eq!(
        got,
        vec![
            path(&["root", "x"]).components,
            path(&["root", "a", "y"]).components,
            path(&["root", "a", "b", "z"]).components,
        ]
    );
    // Five entries were dequeued in all: three files and two directories.
    assert_eq!(count, 5);
}

#[test]
fn unlistable_directory_is_treated_as_empty() {
    // The driver hands an empty listing for a directory that cannot be
    // read; the walk continues with the rest.
    let listings: Vec<(&[&str], Vec<DirEntry>)> = vec![(
        &["top"][..],
        vec![entry(&["top", "locked"], true), entry(&["top", "f"], false)],
    )];
    let (files, count) = drain(&["top"], &listings);
    assert_eq!(files.len(), 1);
    assert_eq!(files[0].components, path(&["top", "f"]).components);
    assert_eq!(count, 2);
}

#[test]
fn empty_root_yields_nothing() {
    let (files, count) = drain(&["nowhere"], &[]);
    assert!(files.is_empty());
    assert_eq!(count, 0);
}

#[test]
fn count_renders_as_decimal() {
    let mut walk = DirectoryFiles::new(&path(&["r"]));
    assert_eq!(walk.count_decimal(), b"0".to_vec());
    walk.num_found_items = 7;
    assert_eq!(walk.count_decimal(), b"7".to_vec());
    walk.num_found_items = 1234;
    assert_eq!(walk.count_decimal(), b"1234".to_vec());
    walk.num_found_items = 4294967295;
    assert_eq!(walk.count_decimal(), b"4294967295".to_vec());
}

#[test]
fn render_joins_components_with_slashes() {
    assert_eq!(path(&["a", "sub", "y.txt"]).render(), b"a/sub/y.txt".to_vec());
    assert_eq!(path(&["solo"]).render(), b"solo".to_vec());
    assert_eq!(FilePath::new(Vec::new()).render(), Vec::<u8>::new());
}

#[test]
fn file_name_is_last_component() {
    let p = path(&["a", "b", "c.txt"]);
    assert_eq!(p.file_name(), Some(&b"c.txt".to_vec()));
    assert_eq!(FilePath::new(Vec::new()).file_name(), None);
}
