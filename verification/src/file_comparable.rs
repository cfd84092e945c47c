use vstd::prelude::*;
use crate::file_path::FileEntry;
use crate::file_path::FileEntryView;
use crate::file_path::copy_bytes;
use crate::file_path::lemma_bytes_deep_view;
use crypto::digest::Digest;
use crypto::md5::Md5;

verus! {

/// The lowercase hexadecimal rendering of the MD5 digest of a byte sequence,
/// as the `crypto` crate computes it.
pub uninterp spec fn md5_hex_of(bytes: Seq<u8>) -> Seq<u8>;

/// Relies on `crypto::md5::Md5` through `crypto::digest::Digest::input` and
/// `Digest::result_str`: the digest is a function of the input bytes alone,
/// rendered as 32 lowercase hexadecimal characters.
#[verifier::external_body]
fn md5_hex_digest(bytes: &Vec<u8>) -> (r: Vec<u8>)
    ensures
        r@ == md5_hex_of(bytes@),
        r@.len() == 32,
{
    let mut sh = Md5::new();
    sh.input(bytes.as_slice());
    sh.result_str().into_bytes()
}

/// A pluggable identity strategy: maps one file to an optional ordered key.
/// Files whose key is `None` are excluded from every comparison.  The key a
/// strategy assigns must depend on the file alone, never on the strategy
/// value's state, so repeated extractions agree.
pub trait FileComparable: Sized {
    /// The key this strategy assigns to a file, if any.
    spec fn key_spec(file: FileEntryView) -> Option<Seq<u8>>;

    /// Extracts the key of one file.
    fn get_key(&mut self, file: &FileEntry) -> (r: Option<Vec<u8>>)
        ensures
            r.deep_view() == Self::key_spec(file@),
    ;
}

/// Content identity: two files are the same when their byte contents hash to
/// the same MD5 digest.  A file without readable content gets no key.
pub struct Md5Comparable;

impl Md5Comparable {
    pub fn new() -> Md5Comparable {
        Md5Comparable {  }
    }
}

impl FileComparable for Md5Comparable {
    open spec fn key_spec(file: FileEntryView) -> Option<Seq<u8>> {
        match file.content {
            Some(c) => Some(md5_hex_of(c)),
            None => None,
        }
    }

    fn get_key(&mut self, file: &FileEntry) -> (r: Option<Vec<u8>>) {
        match &file.content {
            Some(c) => {
                let digest = md5_hex_digest(c);
                proof {
                    lemma_bytes_deep_view(digest);
                    lemma_bytes_deep_view(*c);
                }
                Some(digest)
            },
            None => None,
        }
    }
}

/// Name identity: the key is the final path component; a path without
/// components gets no key.
pub struct FileNameComparable;

impl FileNameComparable {
    pub fn new() -> FileNameComparable {
        FileNameComparable {  }
    }
}

impl FileComparable for FileNameComparable {
    open spec fn key_spec(file: FileEntryView) -> Option<Seq<u8>> {
        if file.path.len() == 0 {
            None
        } else {
            Some(file.path.last())
        }
    }

    fn get_key(&mut self, file: &FileEntry) -> (r: Option<Vec<u8>>) {
        match file.path.file_name() {
            Some(name) => {
                let key = copy_bytes(name);
                proof {
                    lemma_bytes_deep_view(key);
                }
                Some(key)
            },
            None => None,
        }
    }
}

/// A second content-digest strategy with the same behaviour as
/// `Md5Comparable`, kept for callers that select strategies by this name.
pub struct Md5Comparator;

impl Md5Comparator {
    pub fn new() -> Md5Comparator {
        Md5Comparator {  }
    }
}

impl FileComparable for Md5Comparator {
    open spec fn key_spec(file: FileEntryView) -> Option<Seq<u8>> {
        match file.content {
            Some(c) => Some(md5_hex_of(c)),
            None => None,
        }
    }

    fn get_key(&mut self, file: &FileEntry) -> (r: Option<Vec<u8>>) {
        match &file.content {
            Some(c) => {
                let digest = md5_hex_digest(c);
                proof {
                    lemma_bytes_deep_view(digest);
                    lemma_bytes_deep_view(*c);
                }
                Some(digest)
            },
            None => None,
        }
    }
}

/// Trivial identity: every file gets the same constant key, so any two files
/// compare equal.  A correctness baseline for testing.
pub struct TrivialComparator;

impl TrivialComparator {
    pub fn new() -> TrivialComparator {
        TrivialComparator {  }
    }
}

impl FileComparable for TrivialComparator {
    open spec fn key_spec(file: FileEntryView) -> Option<Seq<u8>> {
        Some(seq![1u8])
    }

    fn get_key(&mut self, file: &FileEntry) -> (r: Option<Vec<u8>>) {
        let mut key: Vec<u8> = Vec::new();
        key.push(1u8);
        proof {
            lemma_bytes_deep_view(key);
            assert(key@ =~= seq![1u8]);
        }
        Some(key)
    }
}

/// Name identity judges two files equal exactly when their final path
/// components agree, whatever their contents hold.
pub proof fn lemma_filename_identity(f1: FileEntry, f2: FileEntry)
    requires
        f1@.path.len() > 0,
        f2@.path.len() > 0,
    ensures
        (FileNameComparable::key_spec(f1@) == FileNameComparable::key_spec(f2@)) <==> (
        f1@.path.last() == f2@.path.last()),
{
}

/// Content identity judges two files with byte-identical readable contents
/// equal, whatever their names or paths.
pub proof fn lemma_digest_identity(f1: FileEntry, f2: FileEntry)
    requires
        f1@.content is Some,
        f1@.content == f2@.content,
    ensures
        Md5Comparable::key_spec(f1@) == Md5Comparable::key_spec(f2@),
{
}

} // verus!
