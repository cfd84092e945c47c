use subset::file_comparable::FileComparable;
use subset::file_comparable::FileNameComparable;
use subset::file_comparable::Md5Comparable;
use subset::file_comparable::Md5Comparator;
use subset::file_comparable::TrivialComparator;
use subset::file_path::FileEntry;
use subset::file_path::FilePath;

fn path(components: &[&str]) -> FilePath {
    FilePath::new(components.iter().map(|c| c.as_bytes().to_vec()).collect())
}

fn file(components: &[&str], content: &[u8]) -> FileEntry {
    FileEntry::new(path(components), Some(content.to_vec()))
}

#[test]
fn md5_key_is_exact_lowercase_hex() {
    let mut strat = Md5Comparable::new();
    let key = strat.get_key(&file(&["x"], b"hi")).expect("readable file has a key");
    assert_eq!(key, b"49f68a5c8493ec2c0bf489821c21fc3b".to_vec());
    let key2 = strat.get_key(&file(&["y"], b"hello")).expect("readable file has a key");
    assert_eq!(key2, b"5d41402abc4b2a76b9719d911017c592".to_vec());
}

#[test]
fn md5_comparator_agrees_with_md5_comparable() {
    let mut a = Md5Comparable::new();
    let mut b = Md5Comparator::new();
    let f = file(&["x"], b"bye");
    assert_eq!(a.get_key(&f), b.get_key(&f));
    assert_eq!(a.get_key(&f), Some(b"bfa99df33b137bc8fb5f5407d7e58da8".to_vec()));
}

#[test]
fn md5_key_ignores_name_and_depends_on_content() {
    let mut strat = Md5Comparable::new();
    let k1 = strat.get_key(&file(&["deep", "nested", "one"], b"hi"));
    let k2 = strat.get_key(&file(&["two"], b"hi"));
    assert_eq!(k1, k2);
    // Changing a single byte changes the key.
    let k3 = strat.get_key(&file(&["two"], b"hj"));
    assert_ne!(k1, k3);
    assert_eq!(k3, Some(b"1f28e49f34e2406fdb6d6158eebd793b".to_vec()));
}

#[test]
fn md5_unreadable_file_has_no_key() {
    let mut strat = Md5Comparable::new();
    let entry = FileEntry::new(path(&["cannot", "read"]), None);
    assert_eq!(strat.get_key(&entry), None);
}

#[test]
fn filename_key_is_final_component() {
    let mut strat = FileNameComparable::new();
    let k1 = strat.get_key(&file(&["a", "b", "name.txt"], b"content one"));
    let k2 = strat.get_key(&file(&["name.txt"], b"content two"));
    assert_eq!(k1, Some(b"name.txt".to_vec()));
    // Same base name, different content: judged equal.
    assert_eq!(k1, k2);
    // Same content, different names: judged unequal.
    let k3 = strat.get_key(&file(&["a", "b", "other.txt"], b"content one"));
    assert_ne!(k1, k3);
}

#[test]
fn filename_empty_path_has_no_key() {
    let mut strat = FileNameComparable::new();
    let entry = FileEntry::new(FilePath::new(Vec::new()), None);
    assert_eq!(strat.get_key(&entry), None);
}

#[test]
fn trivial_key_is_constant() {
    let mut strat = TrivialComparator::new();
    let k1 = strat.get_key(&file(&["a"], b"x"));
    let k2 = strat.get_key(&FileEntry::new(path(&["b"]), None));
    assert_eq!(k1, Some(vec![1u8]));
    assert_eq!(k1, k2);
}
