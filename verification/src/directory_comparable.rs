use vstd::prelude::*;
use crate::file_comparable::FileComparable;
use crate::file_comparable::TrivialComparator;
use crate::file_path::FileEntry;
use crate::file_path::FilePath;
use crate::set_index::OrderedMap;

verus! {

/// Whether a membership query should also record the queried file in the
/// other side's index.  The bidirectional pass caches every queried left-side
/// file, hit or miss, so that the left index is complete when the right side
/// is checked against it.
pub enum CacheExistenceQuery {
    CacheForBidirectional,
    DoNotCache,
}

/// Which of the two indexed sides a query or an insertion refers to.
pub enum WhichSet {
    Left,
    Right,
}

/// The side a cached entry goes to: the opposite of the side being queried.
pub open spec fn other_set(set: WhichSet) -> WhichSet {
    match set {
        WhichSet::Left => WhichSet::Right,
        WhichSet::Right => WhichSet::Left,
    }
}

/// The index that results from marking every file of `files` as seen, in
/// order, starting from `init`: each keyed file maps its key to its path,
/// later files overriding earlier ones of the same key; keyless files leave
/// no trace.
pub open spec fn marked<C: FileComparable>(
    init: Map<Seq<u8>, Seq<Seq<u8>>>,
    files: Seq<FileEntry>,
) -> Map<Seq<u8>, Seq<Seq<u8>>>
    decreases files.len(),
{
    if files.len() == 0 {
        init
    } else {
        let rest = marked::<C>(init, files.drop_last());
        match C::key_spec(files.last()@) {
            Some(k) => rest.insert(k, files.last()@.path),
            None => rest,
        }
    }
}

/// The representative path that the index `idx` holds for `file`'s key, or
/// `None` when the file has no key or its key is absent.
pub open spec fn match_result<C: FileComparable>(
    idx: Map<Seq<u8>, Seq<Seq<u8>>>,
    file: FileEntry,
) -> Option<Seq<Seq<u8>>> {
    match C::key_spec(file@) {
        Some(k) => if idx.contains_key(k) {
            Some(idx[k])
        } else {
            None
        },
        None => None,
    }
}

/// Whether `file`'s key is present in the index `idx`.
pub open spec fn has_match<C: FileComparable>(
    idx: Map<Seq<u8>, Seq<Seq<u8>>>,
    file: FileEntry,
) -> bool {
    match_result::<C>(idx, file) is Some
}

/// The paths of the files of `files`, in traversal order, that have no match
/// in the index `idx`.
pub open spec fn missing_from<C: FileComparable>(
    idx: Map<Seq<u8>, Seq<Seq<u8>>>,
    files: Seq<FileEntry>,
) -> Seq<Seq<Seq<u8>>>
    decreases files.len(),
{
    if files.len() == 0 {
        Seq::empty()
    } else {
        let rest = missing_from::<C>(idx, files.drop_last());
        if has_match::<C>(idx, files.last()) {
            rest
        } else {
            rest.push(files.last()@.path)
        }
    }
}

/// The mapping from each file's path to its optional matching representative
/// in the index `idx`, one entry per queried file.
pub open spec fn match_map<C: FileComparable>(
    idx: Map<Seq<u8>, Seq<Seq<u8>>>,
    files: Seq<FileEntry>,
) -> Map<Seq<Seq<u8>>, Option<Seq<Seq<u8>>>>
    decreases files.len(),
{
    if files.len() == 0 {
        Map::empty()
    } else {
        match_map::<C>(idx, files.drop_last()).insert(
            files.last()@.path,
            match_result::<C>(idx, files.last()),
        )
    }
}

/// Trivial mock: every file is judged present, as itself.
pub struct TrivialDirectoryComparable;

impl TrivialDirectoryComparable {
    pub fn mark_as_seen(&mut self, dir: &Vec<FileEntry>) {
    }

    pub fn mark_file_as_seen(&mut self, file: &FileEntry, set: WhichSet) {
    }

    pub fn exists_in_directory(
        &mut self,
        file: &FileEntry,
        set: WhichSet,
        should_cache: CacheExistenceQuery,
    ) -> (r: Option<FilePath>)
        ensures
            match r {
                Some(p) => p@ == file@.path,
                None => false,
            },
    {
        Some(file.path.clone())
    }
}

/// The reconciliation engine: a directory comparer built from a pluggable
/// file identity strategy.  It keeps one ordered index per side, from
/// identity key to the representative path that produced it.
pub struct DirectoryComparableWithFileComparable<C: FileComparable> {
    /// The identity strategy.
    pub comp: C,
    /// Index of the left (subset-candidate) side.
    pub left_map: OrderedMap<Vec<u8>, FilePath>,
    /// Index of the right (superset-candidate) side.
    pub right_map: OrderedMap<Vec<u8>, FilePath>,
}

impl<C: FileComparable> DirectoryComparableWithFileComparable<C> {
    /// The left index as a mapping from key to representative path.
    pub open spec fn left_index(&self) -> Map<Seq<u8>, Seq<Seq<u8>>> {
        self.left_map@
    }

    /// The right index as a mapping from key to representative path.
    pub open spec fn right_index(&self) -> Map<Seq<u8>, Seq<Seq<u8>>> {
        self.right_map@
    }

    pub open spec fn index_of(&self, set: WhichSet) -> Map<Seq<u8>, Seq<Seq<u8>>> {
        match set {
            WhichSet::Left => self.left_index(),
            WhichSet::Right => self.right_index(),
        }
    }

    /// Both indexes are well-formed ordered maps.
    pub open spec fn inv(&self) -> bool {
        self.left_map.wf() && self.right_map.wf()
    }

    pub fn new(comparator: C) -> (r: Self)
        ensures
            r.inv(),
            r.left_index() == Map::<Seq<u8>, Seq<Seq<u8>>>::empty(),
            r.right_index() == Map::<Seq<u8>, Seq<Seq<u8>>>::empty(),
    {
        DirectoryComparableWithFileComparable {
            comp: comparator,
            left_map: OrderedMap::new(),
            right_map: OrderedMap::new(),
        }
    }

    /// Marks one file as seen on the given side: a keyed file's key comes to
    /// map to its path there; a keyless file changes nothing.
    pub fn mark_file_as_seen(&mut self, file: &FileEntry, set: WhichSet)
        requires
            old(self).inv(),
        ensures
            final(self).inv(),
            match C::key_spec(file@) {
                Some(k) => final(self).index_of(set) == old(self).index_of(set).insert(
                    k,
                    file@.path,
                ) && final(self).index_of(other_set(set)) == old(self).index_of(other_set(set)),
                None => final(self).left_index() == old(self).left_index()
                    && final(self).right_index() == old(self).right_index(),
            },
    {
        match self.comp.get_key(file) {
            Some(hashed) => {
                proof {
                    crate::file_path::lemma_bytes_deep_view(hashed);
                }
                let path_copy = file.path.clone();
                match set {
                    WhichSet::Left => {
                        self.left_map.insert(hashed, path_copy);
                    },
                    WhichSet::Right => {
                        self.right_map.insert(hashed, path_copy);
                    },
                }
            },
            None => {},
        }
    }

    /// Drains a directory listing into the right index, marking every file
    /// as seen there.
    pub fn mark_as_seen(&mut self, dir: &Vec<FileEntry>)
        requires
            old(self).inv(),
        ensures
            final(self).inv(),
            final(self).right_index() == marked::<C>(old(self).right_index(), dir@),
            final(self).left_index() == old(self).left_index(),
    {
        let n = dir.len();
        let mut i: usize = 0;
        while i < n
            invariant
                n == dir@.len(),
                i <= n,
                self.inv(),
                self.right_index() == marked::<C>(old(self).right_index(), dir@.subrange(0, i as int)),
                self.left_index() == old(self).left_index(),
            decreases n - i,
        {
            let ghost prefix = dir@.subrange(0, i as int);
            self.mark_file_as_seen(&dir[i], WhichSet::Right);
            i = i + 1;
            proof {
                let prefix2 = dir@.subrange(0, i as int);
                assert(prefix2.drop_last() =~= prefix);
                assert(prefix2.last() == dir@[i - 1]);
            }
        }
        proof {
            assert(dir@.subrange(0, n as int) =~= dir@);
        }
    }

    /// Answers whether a file with an equal identity exists on the given
    /// side, returning that side's representative path for the key.  With
    /// `CacheForBidirectional`, the queried file is first marked as seen on
    /// the other side — whether or not the query then hits.
    pub fn exists_in_directory(
        &mut self,
        file: &FileEntry,
        set: WhichSet,
        should_cache: CacheExistenceQuery,
    ) -> (r: Option<FilePath>)
        requires
            old(self).inv(),
        ensures
            final(self).inv(),
            r.deep_view() == match_result::<C>(old(self).index_of(set), *file),
            final(self).index_of(set) == old(self).index_of(set),
            match (should_cache, C::key_spec(file@)) {
                (CacheExistenceQuery::CacheForBidirectional, Some(k)) => final(self).index_of(
                    other_set(set),
                ) == old(self).index_of(other_set(set)).insert(k, file@.path),
                _ => final(self).index_of(other_set(set)) == old(self).index_of(other_set(set)),
            },
    {
        match self.comp.get_key(file) {
            Some(hashed) => {
                proof {
                    crate::file_path::lemma_bytes_deep_view(hashed);
                }
                match should_cache {
                    CacheExistenceQuery::CacheForBidirectional => {
                        let cache_side = match &set {
                            WhichSet::Left => WhichSet::Right,
                            WhichSet::Right => WhichSet::Left,
                        };
                        self.mark_file_as_seen(file, cache_side);
                    },
                    CacheExistenceQuery::DoNotCache => {},
                }
                let which_map = match &set {
                    WhichSet::Left => &self.left_map,
                    WhichSet::Right => &self.right_map,
                };
                match which_map.get(&hashed) {
                    Some(found) => Some(found.clone()),
                    None => None,
                }
            },
            None => None,
        }
    }

    /// Drains the superset listing into the right index, then maps every
    /// subset file's path to the representative path matching it there, or
    /// to `None`.  The result is ordered by path for deterministic output.
    pub fn build_map(
        &mut self,
        subset_dir: &Vec<FileEntry>,
        superset_dir: &Vec<FileEntry>,
    ) -> (r: OrderedMap<FilePath, Option<FilePath>>)
        requires
            old(self).inv(),
        ensures
            final(self).inv(),
            final(self).right_index() == marked::<C>(old(self).right_index(), superset_dir@),
            final(self).left_index() == old(self).left_index(),
            r.wf(),
            r@ == match_map::<C>(
                marked::<C>(old(self).right_index(), superset_dir@),
                subset_dir@,
            ),
    {
        self.mark_as_seen(superset_dir);
        let mut result: OrderedMap<FilePath, Option<FilePath>> = OrderedMap::new();
        let n = subset_dir.len();
        let mut i: usize = 0;
        while i < n
            invariant
                n == subset_dir@.len(),
                i <= n,
                self.inv(),
                self.right_index() == marked::<C>(old(self).right_index(), superset_dir@),
                self.left_index() == old(self).left_index(),
                result.wf(),
                result@ == match_map::<C>(self.right_index(), subset_dir@.subrange(0, i as int)),
            decreases n - i,
        {
            let ghost prefix = subset_dir@.subrange(0, i as int);
            let path_copy = subset_dir[i].path.clone();
            let corresponding_path = self.exists_in_directory(
                &subset_dir[i],
                WhichSet::Right,
                CacheExistenceQuery::DoNotCache,
            );
            result.insert(path_copy, corresponding_path);
            i = i + 1;
            proof {
                let prefix2 = subset_dir@.subrange(0, i as int);
                assert(prefix2.drop_last() =~= prefix);
                assert(prefix2.last() == subset_dir@[i - 1]);
            }
        }
        proof {
            assert(subset_dir@.subrange(0, n as int) =~= subset_dir@);
        }
        result
    }

    /// Drains the superset listing into the right index, then reports the
    /// subset files with no match there, in traversal order.
    pub fn report_missing(
        &mut self,
        subset_dir: &Vec<FileEntry>,
        superset_dir: &Vec<FileEntry>,
    ) -> (r: Vec<FilePath>)
        requires
            old(self).inv(),
        ensures
            final(self).inv(),
            final(self).right_index() == marked::<C>(old(self).right_index(), superset_dir@),
            final(self).left_index() == old(self).left_index(),
            r.deep_view() == missing_from::<C>(
                marked::<C>(old(self).right_index(), superset_dir@),
                subset_dir@,
            ),
    {
        self.mark_as_seen(superset_dir);
        let mut result: Vec<FilePath> = Vec::new();
        let n = subset_dir.len();
        let mut i: usize = 0;
        while i < n
            invariant
                n == subset_dir@.len(),
                i <= n,
                self.inv(),
                self.right_index() == marked::<C>(old(self).right_index(), superset_dir@),
                self.left_index() == old(self).left_index(),
                result.deep_view() == missing_from::<C>(
                    self.right_index(),
                    subset_dir@.subrange(0, i as int),
                ),
            decreases n - i,
        {
            let ghost prefix = subset_dir@.subrange(0, i as int);
            let ghost dv = result.deep_view();
            match self.exists_in_directory(
                &subset_dir[i],
                WhichSet::Right,
                CacheExistenceQuery::DoNotCache,
            ) {
                Some(_) => {},
                None => {
                    result.push(subset_dir[i].path.clone());
                    proof {
                        assert(result.deep_view() =~= dv.push(subset_dir@[i as int]@.path));
                    }
                },
            }
            i = i + 1;
            proof {
                let prefix2 = subset_dir@.subrange(0, i as int);
                assert(prefix2.drop_last() =~= prefix);
                assert(prefix2.last() == subset_dir@[i - 1]);
            }
        }
        proof {
            assert(subset_dir@.subrange(0, n as int) =~= subset_dir@);
        }
        result
    }

    /// Computes both "left files missing from right" and "right files
    /// missing from left" in one pass over each side.  The right listing is
    /// drained into the right index first; each left file is then queried
    /// against the right index and — hit or miss — cached into the left
    /// index, so that the final pass can check every right file against a
    /// complete left index without traversing the left side again.
    pub fn report_missing_bidirectional(
        &mut self,
        left_dir: &Vec<FileEntry>,
        right_dir: &Vec<FileEntry>,
    ) -> (r: (Vec<FilePath>, Vec<FilePath>))
        requires
            old(self).inv(),
        ensures
            final(self).inv(),
            final(self).right_index() == marked::<C>(old(self).right_index(), right_dir@),
            final(self).left_index() == marked::<C>(old(self).left_index(), left_dir@),
            r.0.deep_view() == missing_from::<C>(
                marked::<C>(old(self).right_index(), right_dir@),
                left_dir@,
            ),
            r.1.deep_view() == missing_from::<C>(
                marked::<C>(old(self).left_index(), left_dir@),
                right_dir@,
            ),
    {
        // The caller hands the right side as a materialized vector: a lazy
        // enumeration can be drained only once, and both the mark-as-seen
        // pass and the final right-side pass below must see every right
        // path.
        self.mark_as_seen(right_dir);

        let mut left_missing_result: Vec<FilePath> = Vec::new();
        let nl = left_dir.len();
        let mut i: usize = 0;
        while i < nl
            invariant
                nl == left_dir@.len(),
                i <= nl,
                self.inv(),
                self.right_index() == marked::<C>(old(self).right_index(), right_dir@),
                self.left_index() == marked::<C>(
                    old(self).left_index(),
                    left_dir@.subrange(0, i as int),
                ),
                left_missing_result.deep_view() == missing_from::<C>(
                    self.right_index(),
                    left_dir@.subrange(0, i as int),
                ),
            decreases nl - i,
        {
            let ghost prefix = left_dir@.subrange(0, i as int);
            let ghost dv = left_missing_result.deep_view();
            match self.exists_in_directory(
                &left_dir[i],
                WhichSet::Right,
                CacheExistenceQuery::CacheForBidirectional,
            ) {
                Some(_) => {},
                None => {
                    left_missing_result.push(left_dir[i].path.clone());
                    proof {
                        assert(left_missing_result.deep_view() =~= dv.push(
                            left_dir@[i as int]@.path,
                        ));
                    }
                },
            }
            i = i + 1;
            proof {
                let prefix2 = left_dir@.subrange(0, i as int);
                assert(prefix2.drop_last() =~= prefix);
                assert(prefix2.last() == left_dir@[i - 1]);
            }
        }
        proof {
            assert(left_dir@.subrange(0, nl as int) =~= left_dir@);
        }

        // Now check every materialized right path against the left index,
        // which the pass above has fully populated; no index changes here.
        let mut right_missing_result: Vec<FilePath> = Vec::new();
        let nr = right_dir.len();
        let mut j: usize = 0;
        while j < nr
            invariant
                nr == right_dir@.len(),
                j <= nr,
                self.inv(),
                self.right_index() == marked::<C>(old(self).right_index(), right_dir@),
                self.left_index() == marked::<C>(old(self).left_index(), left_dir@),
                right_missing_result.deep_view() == missing_from::<C>(
                    self.left_index(),
                    right_dir@.subrange(0, j as int),
                ),
            decreases nr - j,
        {
            let ghost prefix = right_dir@.subrange(0, j as int);
            let ghost dv = right_missing_result.deep_view();
            match self.exists_in_directory(
                &right_dir[j],
                WhichSet::Left,
                CacheExistenceQuery::DoNotCache,
            ) {
                Some(_) => {},
                None => {
                    right_missing_result.push(right_dir[j].path.clone());
                    proof {
                        assert(right_missing_result.deep_view() =~= dv.push(
                            right_dir@[j as int]@.path,
                        ));
                    }
                },
            }
            j = j + 1;
            proof {
                let prefix2 = right_dir@.subrange(0, j as int);
                assert(prefix2.drop_last() =~= prefix);
                assert(prefix2.last() == right_dir@[j - 1]);
            }
        }
        proof {
            assert(right_dir@.subrange(0, nr as int) =~= right_dir@);
        }

        (left_missing_result, right_missing_result)
    }
}

/// Whether some file of `files` carries the same (present) key as `file`.
pub open spec fn has_key_match<C: FileComparable>(file: FileEntry, files: Seq<FileEntry>) -> bool {
    C::key_spec(file@) is Some && exists|i: int|
        0 <= i < files.len() && C::key_spec(#[trigger] files[i]@) == C::key_spec(file@)
}

/// A key is present in the index built by marking `files` over `init`
/// exactly when `init` already held it or some file of `files` carries it.
pub proof fn lemma_marked_contains<C: FileComparable>(
    init: Map<Seq<u8>, Seq<Seq<u8>>>,
    files: Seq<FileEntry>,
    k: Seq<u8>,
)
    ensures
        marked::<C>(init, files).contains_key(k) <==> (init.contains_key(k) || exists|i: int|
            0 <= i < files.len() && C::key_spec(#[trigger] files[i]@) == Some(k)),
    decreases files.len(),
{
    if files.len() > 0 {
        lemma_marked_contains::<C>(init, files.drop_last(), k);
        let dl = files.drop_last();
        if marked::<C>(init, files).contains_key(k) {
            if C::key_spec(files.last()@) == Some(k) {
                assert(C::key_spec(files[files.len() - 1]@) == Some(k));
            } else if !init.contains_key(k) {
                let w = choose|w: int| 0 <= w < dl.len() && C::key_spec(#[trigger] dl[w]@) == Some(
                    k,
                );
                assert(C::key_spec(files[w]@) == Some(k));
            }
        }
        if exists|i: int| 0 <= i < files.len() && C::key_spec(#[trigger] files[i]@) == Some(k) {
            let w = choose|w: int|
                0 <= w < files.len() && C::key_spec(#[trigger] files[w]@) == Some(k);
            if w < files.len() - 1 {
                assert(C::key_spec(dl[w]@) == Some(k));
            }
        }
    }
}

/// What `report_missing` reports, starting from an empty index: exactly the
/// subset files whose key has no equal key among the superset files — a
/// keyless file never matches — listed by path as the subsequence of the
/// subset in traversal order.
pub proof fn lemma_report_missing_exact<C: FileComparable>(
    subset: Seq<FileEntry>,
    superset: Seq<FileEntry>,
)
    ensures
        missing_from::<C>(
            marked::<C>(Map::empty(), superset),
            subset,
        ) == subset.filter(|f: FileEntry| !has_key_match::<C>(f, superset)).map_values(
            |f: FileEntry| f@.path,
        ),
    decreases subset.len(),
{
    reveal(Seq::filter);
    let idx = marked::<C>(Map::empty(), superset);
    let pred = |f: FileEntry| !has_key_match::<C>(f, superset);
    let pathof = |f: FileEntry| f@.path;
    if subset.len() == 0 {
        assert(subset.filter(pred).map_values(pathof) =~= Seq::<Seq<Seq<u8>>>::empty());
    } else {
        lemma_report_missing_exact::<C>(subset.drop_last(), superset);
        let last = subset.last();
        match C::key_spec(last@) {
            Some(k) => {
                lemma_marked_contains::<C>(Map::empty(), superset, k);
            },
            None => {},
        }
        assert(has_match::<C>(idx, last) == has_key_match::<C>(last, superset));
        if pred(last) {
            assert(subset.filter(pred) == subset.drop_last().filter(pred).push(last));
            assert(subset.filter(pred).map_values(pathof) =~= subset.drop_last().filter(
                pred,
            ).map_values(pathof).push(last@.path));
        } else {
            assert(subset.filter(pred) == subset.drop_last().filter(pred));
        }
    }
}

/// Bidirectional symmetry: whatever `report_missing_bidirectional` returns
/// equals the pair of the two one-directional `report_missing` reports, one
/// per direction, each run from the same initial index its side had.  The
/// hypotheses are exactly what the three operations' contracts state of
/// their results.
pub proof fn lemma_bidirectional_symmetry<C: FileComparable>(
    bidir_left: Seq<Seq<Seq<u8>>>,
    bidir_right: Seq<Seq<Seq<u8>>>,
    uni_left: Seq<Seq<Seq<u8>>>,
    uni_right: Seq<Seq<Seq<u8>>>,
    left_init: Map<Seq<u8>, Seq<Seq<u8>>>,
    right_init: Map<Seq<u8>, Seq<Seq<u8>>>,
    left: Seq<FileEntry>,
    right: Seq<FileEntry>,
)
    requires
        bidir_left == missing_from::<C>(marked::<C>(right_init, right), left),
        bidir_right == missing_from::<C>(marked::<C>(left_init, left), right),
        uni_left == missing_from::<C>(marked::<C>(right_init, right), left),
        uni_right == missing_from::<C>(marked::<C>(left_init, left), right),
    ensures
        (bidir_left, bidir_right) == (uni_left, uni_right),
{
}

/// When every file finds a match in the index, nothing is reported missing.
pub proof fn lemma_all_match_missing_empty<C: FileComparable>(
    idx: Map<Seq<u8>, Seq<Seq<u8>>>,
    files: Seq<FileEntry>,
)
    requires
        forall|i: int| 0 <= i < files.len() ==> has_match::<C>(idx, #[trigger] files[i]),
    ensures
        missing_from::<C>(idx, files) == Seq::<Seq<Seq<u8>>>::empty(),
    decreases files.len(),
{
    if files.len() > 0 {
        lemma_all_match_missing_empty::<C>(idx, files.drop_last());
        assert(files[files.len() - 1] == files.last());
    }
}

/// Against an empty index every file is reported missing, in order.
pub proof fn lemma_empty_index_missing_all<C: FileComparable>(files: Seq<FileEntry>)
    ensures
        missing_from::<C>(Map::empty(), files) == files.map_values(|f: FileEntry| f@.path),
    decreases files.len(),
{
    let pathof = |f: FileEntry| f@.path;
    if files.len() == 0 {
        assert(files.map_values(pathof) =~= Seq::<Seq<Seq<u8>>>::empty());
    } else {
        lemma_empty_index_missing_all::<C>(files.drop_last());
        assert(files.map_values(pathof) =~= files.drop_last().map_values(pathof).push(
            files.last()@.path,
        ));
    }
}

/// With the trivial strategy every file carries the same constant key: a
/// non-empty superset satisfies every subset file, and an empty superset
/// satisfies none, so the report lists all subset paths.
pub proof fn lemma_trivial_strategy_missing(subset: Seq<FileEntry>, superset: Seq<FileEntry>)
    ensures
        superset.len() > 0 ==> missing_from::<TrivialComparator>(
            marked::<TrivialComparator>(Map::empty(), superset),
            subset,
        ) == Seq::<Seq<Seq<u8>>>::empty(),
        superset.len() == 0 ==> missing_from::<TrivialComparator>(
            marked::<TrivialComparator>(Map::empty(), superset),
            subset,
        ) == subset.map_values(|f: FileEntry| f@.path),
{
    let idx = marked::<TrivialComparator>(Map::empty(), superset);
    if superset.len() > 0 {
        lemma_marked_contains::<TrivialComparator>(Map::empty(), superset, seq![1u8]);
        assert(TrivialComparator::key_spec(superset[0]@) == Some(seq![1u8]));
        assert(idx.contains_key(seq![1u8]));
        assert forall|i: int| 0 <= i < subset.len() implies has_match::<TrivialComparator>(
            idx,
            #[trigger] subset[i],
        ) by {
            assert(TrivialComparator::key_spec(subset[i]@) == Some(seq![1u8]));
        }
        lemma_all_match_missing_empty::<TrivialComparator>(idx, subset);
    } else {
        lemma_empty_index_missing_all::<TrivialComparator>(subset);
    }
}

/// Idempotence of `build_map`: two runs from the same initial right index on
/// the same listings denote the same mapping, and well-formed ordered maps
/// are canonical, so the two results hold identical entries in identical
/// order.
pub proof fn lemma_build_map_idempotent<C: FileComparable>(
    r1: &OrderedMap<FilePath, Option<FilePath>>,
    r2: &OrderedMap<FilePath, Option<FilePath>>,
    right_init: Map<Seq<u8>, Seq<Seq<u8>>>,
    subset: Seq<FileEntry>,
    superset: Seq<FileEntry>,
)
    requires
        r1.wf(),
        r2.wf(),
        r1@ == match_map::<C>(marked::<C>(right_init, superset), subset),
        r2@ == match_map::<C>(marked::<C>(right_init, superset), subset),
    ensures
        r1.entry_keys() == r2.entry_keys(),
        r1.entry_values() == r2.entry_values(),
{
    crate::set_index::lemma_ordered_map_canonical(r1, r2);
}

/// A file whose strategy yields no key is always reported missing, whatever
/// the index holds: it can never match.
pub proof fn lemma_keyless_always_missing<C: FileComparable>(
    idx: Map<Seq<u8>, Seq<Seq<u8>>>,
    files: Seq<FileEntry>,
    i: int,
)
    requires
        0 <= i < files.len(),
        C::key_spec(files[i]@) is None,
    ensures
        missing_from::<C>(idx, files).contains(files[i]@.path),
    decreases files.len(),
{
    let m = missing_from::<C>(idx, files);
    if i == files.len() - 1 {
        assert(m[m.len() - 1] == files[i]@.path);
    } else {
        assert(files.drop_last()[i] == files[i]);
        lemma_keyless_always_missing::<C>(idx, files.drop_last(), i);
        let rest = missing_from::<C>(idx, files.drop_last());
        let w = choose|w: int| 0 <= w < rest.len() && rest[w] == files[i]@.path;
        assert(m[w] == files[i]@.path);
    }
}

} // verus!
