use vstd::prelude::*;

verus! {

/// One location in a filesystem tree, held as the sequence of its path
/// components, each component the bytes of one name.  Paths are ordered
/// lexicographically over their component sequences, so that collections of
/// results can be kept in a deterministic order.
pub struct FilePath {
    pub components: Vec<Vec<u8>>,
}

impl View for FilePath {
    type V = Seq<Seq<u8>>;

    open spec fn view(&self) -> Seq<Seq<u8>> {
        self.components.deep_view()
    }
}

impl DeepView for FilePath {
    type V = Seq<Seq<u8>>;

    open spec fn deep_view(&self) -> Seq<Seq<u8>> {
        self.view()
    }
}

/// Copies a byte vector element by element.
pub fn copy_bytes(src: &Vec<u8>) -> (r: Vec<u8>)
    ensures
        r@ == src@,
{
    let mut out: Vec<u8> = Vec::new();
    let mut i: usize = 0;
    while i < src.len()
        invariant
            i <= src.len(),
            out@ == src@.subrange(0, i as int),
        decreases src.len() - i,
    {
        out.push(src[i]);
        i = i + 1;
        proof {
            assert(out@ =~= src@.subrange(0, i as int));
        }
    }
    proof {
        assert(out@ =~= src@);
    }
    out
}

/// A byte vector's deep view is its view.
pub proof fn lemma_bytes_deep_view(v: Vec<u8>)
    ensures
        v.deep_view() == v@,
{
    assert(v.deep_view() =~= v@);
}

/// A component vector's deep view indexes to the views of its elements.
pub proof fn lemma_components_deep_view(v: Vec<Vec<u8>>)
    ensures
        v.deep_view().len() == v@.len(),
        forall|j: int| 0 <= j < v@.len() ==> v.deep_view()[j] == v@[j]@,
{
    assert forall|j: int| 0 <= j < v@.len() implies v.deep_view()[j] == v@[j]@ by {
        lemma_bytes_deep_view(v@[j]);
    }
}

impl FilePath {
    pub fn new(components: Vec<Vec<u8>>) -> (r: FilePath)
        ensures
            r@ == components.deep_view(),
    {
        FilePath { components }
    }

    /// The final path component, or `None` for a path with no components.
    pub fn file_name(&self) -> (r: Option<&Vec<u8>>)
        ensures
            match r {
                Some(name) => self@.len() > 0 && name@ == self@.last(),
                None => self@.len() == 0,
            },
    {
        if self.components.len() == 0 {
            None
        } else {
            Some(&self.components[self.components.len() - 1])
        }
    }
}

impl Clone for FilePath {
    fn clone(&self) -> (r: Self)
        ensures
            r@ == self@,
    {
        let mut comps: Vec<Vec<u8>> = Vec::new();
        let mut i: usize = 0;
        while i < self.components.len()
            invariant
                i <= self.components.len(),
                comps@.len() == i,
                forall|j: int| 0 <= j < i ==> comps@[j]@ == self.components@[j]@,
            decreases self.components.len() - i,
        {
            comps.push(copy_bytes(&self.components[i]));
            i = i + 1;
        }
        proof {
            lemma_components_deep_view(comps);
            lemma_components_deep_view(self.components);
            assert(comps.deep_view() =~= self@);
        }
        FilePath { components: comps }
    }
}

/// The byte rendering of a path: its components joined by `/`.
pub open spec fn path_bytes(p: Seq<Seq<u8>>) -> Seq<u8>
    decreases p.len(),
{
    if p.len() == 0 {
        Seq::empty()
    } else if p.len() == 1 {
        p[0]
    } else {
        path_bytes(p.drop_last()) + seq![47u8] + p.last()
    }
}

impl FilePath {
    /// Renders the path as bytes, components joined by `/`.
    pub fn render(&self) -> (r: Vec<u8>)
        ensures
            r@ == path_bytes(self@),
    {
        proof {
            lemma_components_deep_view(self.components);
        }
        let mut out: Vec<u8> = Vec::new();
        let n = self.components.len();
        let mut i: usize = 0;
        while i < n
            invariant
                n == self.components@.len(),
                self@.len() == n,
                forall|j: int| 0 <= j < n ==> self@[j] == self.components@[j]@,
                i <= n,
                out@ == path_bytes(self@.subrange(0, i as int)),
            decreases n - i,
        {
            let ghost pre = self@.subrange(0, i as int);
            if i > 0 {
                out.push(47);
            }
            let ghost mid = out@;
            let comp = &self.components[i];
            let mut k: usize = 0;
            proof {
                assert(out@ =~= mid + comp@.subrange(0, 0));
            }
            while k < comp.len()
                invariant
                    k <= comp@.len(),
                    out@ == mid + comp@.subrange(0, k as int),
                decreases comp@.len() - k,
            {
                out.push(comp[k]);
                k = k + 1;
                proof {
                    assert(out@ =~= mid + comp@.subrange(0, k as int));
                }
            }
            i = i + 1;
            proof {
                let cur = self@.subrange(0, i as int);
                assert(comp@.subrange(0, comp@.len() as int) =~= comp@);
                assert(comp@ == self@[i - 1]);
                if i == 1 {
                    assert(out@ =~= path_bytes(cur));
                } else {
                    assert(cur.drop_last() =~= pre);
                    assert(cur.last() == self@[i - 1]);
                    assert(mid =~= path_bytes(pre) + seq![47u8]);
                    assert(out@ =~= path_bytes(cur));
                }
            }
        }
        proof {
            assert(self@.subrange(0, n as int) =~= self@);
        }
        out
    }
}

/// One file as handed to the library: its path together with its byte
/// contents, or `None` where the file could not be read.
pub struct FileEntry {
    pub path: FilePath,
    pub content: Option<Vec<u8>>,
}

/// The mathematical shape of a `FileEntry`: the path's component sequence and
/// the content bytes, if any.
pub struct FileEntryView {
    pub path: Seq<Seq<u8>>,
    pub content: Option<Seq<u8>>,
}

impl View for FileEntry {
    type V = FileEntryView;

    open spec fn view(&self) -> FileEntryView {
        FileEntryView { path: self.path@, content: self.content.deep_view() }
    }
}

impl FileEntry {
    pub fn new(path: FilePath, content: Option<Vec<u8>>) -> (r: FileEntry)
        ensures
            r@.path == path@,
            r@.content == content.deep_view(),
    {
        FileEntry { path, content }
    }
}

} // verus!
