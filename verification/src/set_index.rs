use vstd::prelude::*;
use crate::file_path::FilePath;
use crate::file_path::lemma_components_deep_view;

verus! {

/// Outcome of a three-way key comparison.
pub enum KeyOrder {
    Less,
    Equal,
    Greater,
}

/// A key usable in an `OrderedMap`: a strict total order over key views,
/// decided at run time by a three-way comparison.
pub trait MapKey: View + Sized {
    /// The strict order over key views.
    spec fn key_lt(a: Self::V, b: Self::V) -> bool;

    proof fn lemma_key_lt_irreflexive(a: Self::V)
        ensures
            !Self::key_lt(a, a),
    ;

    proof fn lemma_key_lt_transitive(a: Self::V, b: Self::V, c: Self::V)
        requires
            Self::key_lt(a, b),
            Self::key_lt(b, c),
        ensures
            Self::key_lt(a, c),
    ;

    proof fn lemma_key_lt_total(a: Self::V, b: Self::V)
        ensures
            a == b || Self::key_lt(a, b) || Self::key_lt(b, a),
    ;

    fn key_cmp(&self, other: &Self) -> (r: KeyOrder)
        ensures
            match r {
                KeyOrder::Less => Self::key_lt(self@, other@),
                KeyOrder::Equal => self@ == other@,
                KeyOrder::Greater => Self::key_lt(other@, self@),
            },
    ;
}

/// Lexicographic order over byte sequences.
pub open spec fn bytes_lt(a: Seq<u8>, b: Seq<u8>) -> bool
    decreases a.len(),
{
    if a.len() == 0 {
        b.len() > 0
    } else if b.len() == 0 {
        false
    } else {
        a[0] < b[0] || (a[0] == b[0] && bytes_lt(a.drop_first(), b.drop_first()))
    }
}

/// Two byte sequences that agree on a common prefix are ordered by the first
/// difference, or by length when one is a prefix of the other.
pub proof fn lemma_bytes_lt_from_prefix(a: Seq<u8>, b: Seq<u8>, i: int)
    requires
        0 <= i <= a.len(),
        i <= b.len(),
        forall|j: int| 0 <= j < i ==> a[j] == b[j],
        (i == a.len() && i < b.len()) || (i < a.len() && i < b.len() && a[i] < b[i]),
    ensures
        bytes_lt(a, b),
    decreases i,
{
    if i > 0 {
        assert forall|j: int| 0 <= j < i - 1 implies a.drop_first()[j] == b.drop_first()[j] by {
            assert(a[j + 1] == b[j + 1]);
        }
        lemma_bytes_lt_from_prefix(a.drop_first(), b.drop_first(), i - 1);
    }
}

pub proof fn lemma_bytes_lt_irreflexive(a: Seq<u8>)
    ensures
        !bytes_lt(a, a),
    decreases a.len(),
{
    if a.len() > 0 {
        lemma_bytes_lt_irreflexive(a.drop_first());
    }
}

pub proof fn lemma_bytes_lt_transitive(a: Seq<u8>, b: Seq<u8>, c: Seq<u8>)
    requires
        bytes_lt(a, b),
        bytes_lt(b, c),
    ensures
        bytes_lt(a, c),
    decreases a.len(),
{
    if a.len() > 0 && b.len() > 0 && c.len() > 0 {
        if a[0] == b[0] && b[0] == c[0] {
            lemma_bytes_lt_transitive(a.drop_first(), b.drop_first(), c.drop_first());
        }
    }
}

pub proof fn lemma_bytes_lt_total(a: Seq<u8>, b: Seq<u8>)
    ensures
        a == b || bytes_lt(a, b) || bytes_lt(b, a),
    decreases a.len(),
{
    if a.len() > 0 && b.len() > 0 && a[0] == b[0] {
        lemma_bytes_lt_total(a.drop_first(), b.drop_first());
        if a.drop_first() == b.drop_first() {
            assert(a.drop_first().len() == b.drop_first().len());
            assert(a.len() == b.len());
            assert forall|j: int| 0 <= j < a.len() implies a[j] == b[j] by {
                if j > 0 {
                    assert(a.drop_first()[j - 1] == b.drop_first()[j - 1]);
                }
            }
            assert(a =~= b);
        }
    } else if a.len() == 0 && b.len() == 0 {
        assert(a =~= b);
    }
}

impl MapKey for Vec<u8> {
    open spec fn key_lt(a: Seq<u8>, b: Seq<u8>) -> bool {
        bytes_lt(a, b)
    }

    proof fn lemma_key_lt_irreflexive(a: Seq<u8>) {
        lemma_bytes_lt_irreflexive(a);
    }

    proof fn lemma_key_lt_transitive(a: Seq<u8>, b: Seq<u8>, c: Seq<u8>) {
        lemma_bytes_lt_transitive(a, b, c);
    }

    proof fn lemma_key_lt_total(a: Seq<u8>, b: Seq<u8>) {
        lemma_bytes_lt_total(a, b);
    }

    fn key_cmp(&self, other: &Self) -> (r: KeyOrder) {
        let mut i: usize = 0;
        while i < self.len() && i < other.len()
            invariant
                i <= self@.len(),
                i <= other@.len(),
                forall|j: int| 0 <= j < i ==> self@[j] == other@[j],
            decreases self@.len() - i,
        {
            if self[i] < other[i] {
                proof {
                    lemma_bytes_lt_from_prefix(self@, other@, i as int);
                }
                return KeyOrder::Less;
            }
            if other[i] < self[i] {
                proof {
                    lemma_bytes_lt_from_prefix(other@, self@, i as int);
                }
                return KeyOrder::Greater;
            }
            i = i + 1;
        }
        if self.len() < other.len() {
            proof {
                lemma_bytes_lt_from_prefix(self@, other@, i as int);
            }
            KeyOrder::Less
        } else if other.len() < self.len() {
            proof {
                lemma_bytes_lt_from_prefix(other@, self@, i as int);
            }
            KeyOrder::Greater
        } else {
            proof {
                assert(self@ =~= other@);
            }
            KeyOrder::Equal
        }
    }
}

/// Lexicographic order over paths: component sequences ordered by `bytes_lt`
/// on the first differing component, or by length.
pub open spec fn path_lt(a: Seq<Seq<u8>>, b: Seq<Seq<u8>>) -> bool
    decreases a.len(),
{
    if a.len() == 0 {
        b.len() > 0
    } else if b.len() == 0 {
        false
    } else {
        bytes_lt(a[0], b[0]) || (a[0] == b[0] && path_lt(a.drop_first(), b.drop_first()))
    }
}

pub proof fn lemma_path_lt_from_prefix(a: Seq<Seq<u8>>, b: Seq<Seq<u8>>, i: int)
    requires
        0 <= i <= a.len(),
        i <= b.len(),
        forall|j: int| 0 <= j < i ==> a[j] == b[j],
        (i == a.len() && i < b.len()) || (i < a.len() && i < b.len() && bytes_lt(a[i], b[i])),
    ensures
        path_lt(a, b),
    decreases i,
{
    if i > 0 {
        assert forall|j: int| 0 <= j < i - 1 implies a.drop_first()[j] == b.drop_first()[j] by {
            assert(a[j + 1] == b[j + 1]);
        }
        lemma_path_lt_from_prefix(a.drop_first(), b.drop_first(), i - 1);
    }
}

pub proof fn lemma_path_lt_irreflexive(a: Seq<Seq<u8>>)
    ensures
        !path_lt(a, a),
    decreases a.len(),
{
    if a.len() > 0 {
        lemma_bytes_lt_irreflexive(a[0]);
        lemma_path_lt_irreflexive(a.drop_first());
    }
}

pub proof fn lemma_path_lt_transitive(a: Seq<Seq<u8>>, b: Seq<Seq<u8>>, c: Seq<Seq<u8>>)
    requires
        path_lt(a, b),
        path_lt(b, c),
    ensures
        path_lt(a, c),
    decreases a.len(),
{
    if a.len() > 0 && b.len() > 0 && c.len() > 0 {
        if a[0] == b[0] && b[0] == c[0] {
            lemma_bytes_lt_irreflexive(a[0]);
            lemma_path_lt_transitive(a.drop_first(), b.drop_first(), c.drop_first());
        } else if bytes_lt(a[0], b[0]) && bytes_lt(b[0], c[0]) {
            lemma_bytes_lt_transitive(a[0], b[0], c[0]);
        }
    }
}

pub proof fn lemma_path_lt_total(a: Seq<Seq<u8>>, b: Seq<Seq<u8>>)
    ensures
        a == b || path_lt(a, b) || path_lt(b, a),
    decreases a.len(),
{
    if a.len() > 0 && b.len() > 0 {
        lemma_bytes_lt_total(a[0], b[0]);
        if a[0] == b[0] {
            lemma_path_lt_total(a.drop_first(), b.drop_first());
            if a.drop_first() == b.drop_first() {
                assert(a.drop_first().len() == b.drop_first().len());
                assert(a.len() == b.len());
                assert forall|j: int| 0 <= j < a.len() implies a[j] == b[j] by {
                    if j > 0 {
                        assert(a.drop_first()[j - 1] == b.drop_first()[j - 1]);
                    }
                }
                assert(a =~= b);
            }
        }
    } else if a.len() == 0 && b.len() == 0 {
        assert(a =~= b);
    }
}

impl MapKey for FilePath {
    open spec fn key_lt(a: Seq<Seq<u8>>, b: Seq<Seq<u8>>) -> bool {
        path_lt(a, b)
    }

    proof fn lemma_key_lt_irreflexive(a: Seq<Seq<u8>>) {
        lemma_path_lt_irreflexive(a);
    }

    proof fn lemma_key_lt_transitive(a: Seq<Seq<u8>>, b: Seq<Seq<u8>>, c: Seq<Seq<u8>>) {
        lemma_path_lt_transitive(a, b, c);
    }

    proof fn lemma_key_lt_total(a: Seq<Seq<u8>>, b: Seq<Seq<u8>>) {
        lemma_path_lt_total(a, b);
    }

    fn key_cmp(&self, other: &Self) -> (r: KeyOrder) {
        proof {
            lemma_components_deep_view(self.components);
            lemma_components_deep_view(other.components);
        }
        let mut i: usize = 0;
        while i < self.components.len() && i < other.components.len()
            invariant
                i <= self@.len(),
                i <= other@.len(),
                self@.len() == self.components@.len(),
                other@.len() == other.components@.len(),
                forall|j: int| 0 <= j < self@.len() ==> self@[j] == self.components@[j]@,
                forall|j: int| 0 <= j < other@.len() ==> other@[j] == other.components@[j]@,
                forall|j: int| 0 <= j < i ==> self@[j] == other@[j],
            decreases self@.len() - i,
        {
            match self.components[i].key_cmp(&other.components[i]) {
                KeyOrder::Less => {
                    proof {
                        lemma_path_lt_from_prefix(self@, other@, i as int);
                    }
                    return KeyOrder::Less;
                },
                KeyOrder::Greater => {
                    proof {
                        lemma_path_lt_from_prefix(other@, self@, i as int);
                    }
                    return KeyOrder::Greater;
                },
                KeyOrder::Equal => {
                    i = i + 1;
                },
            }
        }
        if self.components.len() < other.components.len() {
            proof {
                lemma_path_lt_from_prefix(self@, other@, i as int);
            }
            KeyOrder::Less
        } else if other.components.len() < self.components.len() {
            proof {
                lemma_path_lt_from_prefix(other@, self@, i as int);
            }
            KeyOrder::Greater
        } else {
            proof {
                assert(self@ =~= other@);
            }
            KeyOrder::Equal
        }
    }
}

/// An ordered mapping from keys to values, held as a vector of entries
/// sorted strictly ascending by key.  Inserting an existing key replaces the
/// value: the most recent insertion wins.
pub struct OrderedMap<K: MapKey, T: DeepView> {
    /// The entries in strictly ascending key order; kept sorted by the
    /// operations below, which state and preserve `wf`.
    pub entries: Vec<(K, T)>,
}

impl<K: MapKey, T: DeepView> OrderedMap<K, T> {
    /// The key views of an entry sequence, in order.
    pub open spec fn keys_of(s: Seq<(K, T)>) -> Seq<K::V> {
        Seq::new(s.len(), |i: int| s[i].0@)
    }

    /// The mapping that an entry sequence denotes, later entries overriding
    /// earlier ones of the same key.
    pub open spec fn map_of(s: Seq<(K, T)>) -> Map<K::V, T::V>
        decreases s.len(),
    {
        if s.len() == 0 {
            Map::empty()
        } else {
            Self::map_of(s.drop_last()).insert(s.last().0@, s.last().1.deep_view())
        }
    }

    /// An entry sequence sorted strictly ascending by key view.
    pub open spec fn sorted(s: Seq<(K, T)>) -> bool {
        forall|i: int, j: int|
            0 <= i < j < s.len() ==> K::key_lt(#[trigger] s[i].0@, #[trigger] s[j].0@)
    }

    pub open spec fn entry_keys(&self) -> Seq<K::V> {
        Self::keys_of(self.entries@)
    }

    pub open spec fn entry_values(&self) -> Seq<T::V> {
        Seq::new(self.entries@.len(), |i: int| self.entries@[i].1.deep_view())
    }

    /// Well-formedness: the entries stand in strictly ascending key order.
    pub open spec fn wf(&self) -> bool {
        Self::sorted(self.entries@)
    }

    pub fn new() -> (r: Self)
        ensures
            r.wf(),
            r@ == Map::<K::V, T::V>::empty(),
            r.entry_keys().len() == 0,
    {
        OrderedMap { entries: Vec::new() }
    }

    pub fn len(&self) -> (r: usize)
        ensures
            r == self.entry_keys().len(),
    {
        self.entries.len()
    }

    pub fn get_entry(&self, i: usize) -> (r: (&K, &T))
        requires
            i < self.entry_keys().len(),
        ensures
            r.0@ == self.entry_keys()[i as int],
            r.1.deep_view() == self.entry_values()[i as int],
    {
        (&self.entries[i].0, &self.entries[i].1)
    }

    pub fn get(&self, key: &K) -> (r: Option<&T>)
        requires
            self.wf(),
        ensures
            match r {
                Some(v) => self@.contains_key(key@) && v.deep_view() == self@[key@],
                None => !self@.contains_key(key@),
            },
    {
        let n = self.entries.len();
        let mut i: usize = 0;
        while i < n
            invariant
                n == self.entries@.len(),
                i <= n,
                self.wf(),
                forall|j: int| 0 <= j < i ==> (#[trigger] self.entries@[j].0@) != key@,
            decreases n - i,
        {
            match self.entries[i].0.key_cmp(key) {
                KeyOrder::Equal => {
                    proof {
                        assert forall|j: int| (i as int) < j < n implies self.entries@[j].0@
                            != self.entries@[i as int].0@ by {
                            if self.entries@[j].0@ == self.entries@[i as int].0@ {
                                K::lemma_key_lt_irreflexive(self.entries@[i as int].0@);
                            }
                        }
                        lemma_map_of_value::<K, T>(self.entries@, i as int);
                    }
                    return Some(&self.entries[i].1);
                },
                KeyOrder::Less => {
                    proof {
                        if self.entries@[i as int].0@ == key@ {
                            K::lemma_key_lt_irreflexive(key@);
                        }
                    }
                    i = i + 1;
                },
                KeyOrder::Greater => {
                    proof {
                        if self.entries@[i as int].0@ == key@ {
                            K::lemma_key_lt_irreflexive(key@);
                        }
                    }
                    i = i + 1;
                },
            }
        }
        proof {
            if Self::keys_of(self.entries@).contains(key@) {
                let w = choose|w: int|
                    0 <= w < self.entries@.len() && Self::keys_of(self.entries@)[w] == key@;
                assert(self.entries@[w].0@ == key@);
            }
            lemma_map_of_contains::<K, T>(self.entries@, key@);
        }
        None
    }

    pub fn insert(&mut self, key: K, value: T)
        requires
            old(self).wf(),
        ensures
            final(self).wf(),
            final(self)@ == old(self)@.insert(key@, value.deep_view()),
    {
        let n = self.entries.len();
        let mut i: usize = 0;
        while i < n
            invariant
                n == self.entries@.len(),
                i <= n,
                self.entries@ == old(self).entries@,
                self.wf(),
                forall|j: int| 0 <= j < i ==> K::key_lt(#[trigger] self.entries@[j].0@, key@),
            decreases n - i,
        {
            match self.entries[i].0.key_cmp(&key) {
                KeyOrder::Less => {
                    i = i + 1;
                },
                KeyOrder::Equal => {
                    proof {
                        assert forall|j: int| (i as int) < j < n implies self.entries@[j].0@
                            != self.entries@[i as int].0@ by {
                            if self.entries@[j].0@ == self.entries@[i as int].0@ {
                                K::lemma_key_lt_irreflexive(self.entries@[i as int].0@);
                            }
                        }
                        lemma_map_of_update::<K, T>(self.entries@, i as int, (key, value));
                    }
                    let ghost s_old = self.entries@;
                    self.entries.set(i, (key, value));
                    proof {
                        assert forall|p: int, q: int|
                            0 <= p < q < self.entries@.len() implies K::key_lt(
                            self.entries@[p].0@,
                            self.entries@[q].0@,
                        ) by {
                            assert(K::key_lt(s_old[p].0@, s_old[q].0@));
                        }
                    }
                    return;
                },
                KeyOrder::Greater => {
                    proof {
                        lemma_insert_point::<K, T>(self.entries@, i as int, key@);
                        lemma_map_of_insert::<K, T>(self.entries@, i as int, (key, value));
                        self.entries@.insert_ensures(i as int, (key, value));
                    }
                    let ghost s_old = self.entries@;
                    self.entries.insert(i, (key, value));
                    proof {
                        lemma_sorted_after_insert::<K, T>(s_old, i as int, (key, value));
                    }
                    return;
                },
            }
        }
        proof {
            lemma_insert_point::<K, T>(self.entries@, n as int, key@);
            lemma_map_of_insert::<K, T>(self.entries@, n as int, (key, value));
            self.entries@.insert_ensures(n as int, (key, value));
            assert(self.entries@.insert(n as int, (key, value)) =~= self.entries@.push(
                (key, value),
            ));
        }
        let ghost s_old = self.entries@;
        self.entries.push((key, value));
        proof {
            lemma_sorted_after_insert::<K, T>(s_old, s_old.len() as int, (key, value));
            assert(self.entries@ == s_old.insert(s_old.len() as int, (key, value)));
        }
    }
}

impl<K: MapKey, T: DeepView> View for OrderedMap<K, T> {
    type V = Map<K::V, T::V>;

    open spec fn view(&self) -> Map<K::V, T::V> {
        Self::map_of(self.entries@)
    }
}

/// A key's membership in the denoted mapping matches its occurrence among the
/// entry keys.
pub proof fn lemma_map_of_contains<K: MapKey, T: DeepView>(s: Seq<(K, T)>, k: K::V)
    ensures
        OrderedMap::<K, T>::map_of(s).contains_key(k) <==> OrderedMap::<K, T>::keys_of(
            s,
        ).contains(k),
    decreases s.len(),
{
    let keys = OrderedMap::<K, T>::keys_of(s);
    if s.len() == 0 {
        assert(keys.len() == 0);
        if keys.contains(k) {
            let w = choose|w: int| 0 <= w < keys.len() && keys[w] == k;
        }
    } else {
        lemma_map_of_contains::<K, T>(s.drop_last(), k);
        let sub_keys = OrderedMap::<K, T>::keys_of(s.drop_last());
        if OrderedMap::<K, T>::map_of(s).contains_key(k) {
            if s.last().0@ == k {
                assert(keys[s.len() - 1] == k);
            } else {
                let w = choose|w: int| 0 <= w < sub_keys.len() && sub_keys[w] == k;
                assert(keys[w] == k);
            }
        }
        if keys.contains(k) {
            let w = choose|w: int| 0 <= w < keys.len() && keys[w] == k;
            if w < s.len() - 1 {
                assert(sub_keys[w] == k);
            }
        }
    }
}

/// The denoted mapping sends the key of an entry that no later entry shadows
/// to that entry's value.
pub proof fn lemma_map_of_value<K: MapKey, T: DeepView>(s: Seq<(K, T)>, i: int)
    requires
        0 <= i < s.len(),
        forall|j: int| i < j < s.len() ==> (#[trigger] s[j].0@) != s[i].0@,
    ensures
        OrderedMap::<K, T>::map_of(s).contains_key(s[i].0@),
        OrderedMap::<K, T>::map_of(s)[s[i].0@] == s[i].1.deep_view(),
    decreases s.len(),
{
    if i < s.len() - 1 {
        assert(s.drop_last()[i] == s[i]);
        lemma_map_of_value::<K, T>(s.drop_last(), i);
    }
}

/// Replacing the unshadowed entry of a key rewrites that key's value in the
/// denoted mapping.
pub proof fn lemma_map_of_update<K: MapKey, T: DeepView>(s: Seq<(K, T)>, i: int, e: (K, T))
    requires
        0 <= i < s.len(),
        e.0@ == s[i].0@,
        forall|j: int| i < j < s.len() ==> (#[trigger] s[j].0@) != s[i].0@,
    ensures
        OrderedMap::<K, T>::map_of(s.update(i, e)) == OrderedMap::<K, T>::map_of(s).insert(
            e.0@,
            e.1.deep_view(),
        ),
    decreases s.len(),
{
    let su = s.update(i, e);
    if i == s.len() - 1 {
        assert(su.drop_last() =~= s.drop_last());
        assert(su.last() == e);
        assert(OrderedMap::<K, T>::map_of(su) =~= OrderedMap::<K, T>::map_of(s).insert(
            e.0@,
            e.1.deep_view(),
        ));
    } else {
        assert(su.drop_last() =~= s.drop_last().update(i, e));
        assert(s.drop_last()[i] == s[i]);
        lemma_map_of_update::<K, T>(s.drop_last(), i, e);
        assert(su.last() == s.last());
        assert(OrderedMap::<K, T>::map_of(su) =~= OrderedMap::<K, T>::map_of(s).insert(
            e.0@,
            e.1.deep_view(),
        ));
    }
}

/// Inserting an entry whose key occurs nowhere in the sequence adds exactly
/// that key to the denoted mapping.
pub proof fn lemma_map_of_insert<K: MapKey, T: DeepView>(s: Seq<(K, T)>, i: int, e: (K, T))
    requires
        0 <= i <= s.len(),
        forall|j: int| 0 <= j < s.len() ==> (#[trigger] s[j].0@) != e.0@,
    ensures
        OrderedMap::<K, T>::map_of(s.insert(i, e)) == OrderedMap::<K, T>::map_of(s).insert(
            e.0@,
            e.1.deep_view(),
        ),
    decreases s.len(),
{
    let si = s.insert(i, e);
    s.insert_ensures(i, e);
    if i == s.len() {
        assert(si.drop_last() =~= s);
        assert(si.last() == e);
    } else {
        assert(si.last() == s.last());
        assert(si.drop_last() =~= s.drop_last().insert(i, e));
        assert forall|j: int| 0 <= j < s.drop_last().len() implies (#[trigger] s.drop_last()[j].0@)
            != e.0@ by {
            assert(s.drop_last()[j] == s[j]);
        }
        lemma_map_of_insert::<K, T>(s.drop_last(), i, e);
        assert(OrderedMap::<K, T>::map_of(si) =~= OrderedMap::<K, T>::map_of(s).insert(
            e.0@,
            e.1.deep_view(),
        ));
    }
}

/// Two sorted entry sequences holding the same key set list the keys
/// identically.
proof fn lemma_sorted_same_keys<K: MapKey, T: DeepView>(s1: Seq<(K, T)>, s2: Seq<(K, T)>)
    requires
        OrderedMap::<K, T>::sorted(s1),
        OrderedMap::<K, T>::sorted(s2),
        forall|k: K::V|
            OrderedMap::<K, T>::keys_of(s1).contains(k) <==> OrderedMap::<K, T>::keys_of(
                s2,
            ).contains(k),
    ensures
        OrderedMap::<K, T>::keys_of(s1) == OrderedMap::<K, T>::keys_of(s2),
    decreases s1.len(),
{
    let k1s = OrderedMap::<K, T>::keys_of(s1);
    let k2s = OrderedMap::<K, T>::keys_of(s2);
    if s1.len() == 0 {
        if s2.len() > 0 {
            assert(k2s.contains(k2s[0]));
            let w = choose|w: int| 0 <= w < k1s.len() && k1s[w] == k2s[0];
        }
        assert(k1s =~= k2s);
    } else {
        assert(k1s.contains(k1s[0]));
        if s2.len() == 0 {
            let w = choose|w: int| 0 <= w < k2s.len() && k2s[w] == k1s[0];
        }
        let h1 = k1s[0];
        let h2 = k2s[0];
        assert(k2s.contains(h2));
        let w1 = choose|w: int| 0 <= w < k2s.len() && k2s[w] == h1;
        let w2 = choose|w: int| 0 <= w < k1s.len() && k1s[w] == h2;
        if h1 != h2 {
            assert(w1 > 0 && K::key_lt(s2[0].0@, s2[w1].0@));
            assert(w2 > 0 && K::key_lt(s1[0].0@, s1[w2].0@));
            K::lemma_key_lt_transitive(h1, h2, h1);
            K::lemma_key_lt_irreflexive(h1);
        }
        let t1 = s1.drop_first();
        let t2 = s2.drop_first();
        let tk1 = OrderedMap::<K, T>::keys_of(t1);
        let tk2 = OrderedMap::<K, T>::keys_of(t2);
        assert forall|p: int, q: int| 0 <= p < q < t1.len() implies K::key_lt(
            #[trigger] t1[p].0@,
            #[trigger] t1[q].0@,
        ) by {
            assert(t1[p] == s1[p + 1] && t1[q] == s1[q + 1]);
        }
        assert forall|p: int, q: int| 0 <= p < q < t2.len() implies K::key_lt(
            #[trigger] t2[p].0@,
            #[trigger] t2[q].0@,
        ) by {
            assert(t2[p] == s2[p + 1] && t2[q] == s2[q + 1]);
        }
        assert forall|k: K::V| tk1.contains(k) <==> tk2.contains(k) by {
            lemma_tail_keys_contains::<K, T>(s1, k);
            lemma_tail_keys_contains::<K, T>(s2, k);
        }
        lemma_sorted_same_keys::<K, T>(t1, t2);
        assert(tk1.len() == tk2.len());
        assert(s1.len() == s2.len());
        assert forall|j: int| 0 <= j < k1s.len() implies k1s[j] == k2s[j] by {
            if j > 0 {
                assert(tk1[j - 1] == tk2[j - 1]);
                assert(t1[j - 1] == s1[j] && t2[j - 1] == s2[j]);
            }
        }
        assert(k1s =~= k2s);
    }
}

/// A key occurs in a sorted sequence's tail exactly when it occurs in the
/// whole sequence and differs from the head key.
proof fn lemma_tail_keys_contains<K: MapKey, T: DeepView>(s: Seq<(K, T)>, k: K::V)
    requires
        s.len() > 0,
        OrderedMap::<K, T>::sorted(s),
    ensures
        OrderedMap::<K, T>::keys_of(s.drop_first()).contains(k) <==> (OrderedMap::<K,
        T>::keys_of(s).contains(k) && k != s[0].0@),
{
    let ks = OrderedMap::<K, T>::keys_of(s);
    let tk = OrderedMap::<K, T>::keys_of(s.drop_first());
    if tk.contains(k) {
        let m = choose|m: int| 0 <= m < tk.len() && tk[m] == k;
        assert(s.drop_first()[m] == s[m + 1]);
        assert(ks[m + 1] == k);
        assert(K::key_lt(s[0].0@, s[m + 1].0@));
        if k == s[0].0@ {
            K::lemma_key_lt_irreflexive(k);
        }
        assert(ks.contains(k));
    }
    if ks.contains(k) && k != s[0].0@ {
        let m = choose|m: int| 0 <= m < ks.len() && ks[m] == k;
        assert(m > 0);
        assert(s.drop_first()[m - 1] == s[m]);
        assert(tk[m - 1] == k);
        assert(tk.contains(k));
    }
}

/// The entry order of a well-formed `OrderedMap` is determined by the mapping
/// it denotes: two well-formed maps that denote the same mapping hold the
/// same keys and values in the same order.
pub proof fn lemma_ordered_map_canonical<K: MapKey, T: DeepView>(
    m1: &OrderedMap<K, T>,
    m2: &OrderedMap<K, T>,
)
    requires
        m1.wf(),
        m2.wf(),
        m1@ == m2@,
    ensures
        m1.entry_keys() == m2.entry_keys(),
        m1.entry_values() == m2.entry_values(),
{
    let s1 = m1.entries@;
    let s2 = m2.entries@;
    assert forall|k: K::V|
        OrderedMap::<K, T>::keys_of(s1).contains(k) <==> OrderedMap::<K, T>::keys_of(
            s2,
        ).contains(k) by {
        lemma_map_of_contains::<K, T>(s1, k);
        lemma_map_of_contains::<K, T>(s2, k);
    }
    lemma_sorted_same_keys::<K, T>(s1, s2);
    assert(OrderedMap::<K, T>::keys_of(s1).len() == OrderedMap::<K, T>::keys_of(s2).len());
    assert(s1.len() == s2.len());
    assert forall|i: int| 0 <= i < s1.len() implies m1.entry_values()[i]
        == m2.entry_values()[i] by {
        assert forall|j: int| i < j < s1.len() implies (#[trigger] s1[j].0@) != s1[i].0@ by {
            if s1[j].0@ == s1[i].0@ {
                K::lemma_key_lt_irreflexive(s1[i].0@);
            }
        }
        assert forall|j: int| i < j < s2.len() implies (#[trigger] s2[j].0@) != s2[i].0@ by {
            if s2[j].0@ == s2[i].0@ {
                K::lemma_key_lt_irreflexive(s2[i].0@);
            }
        }
        lemma_map_of_value::<K, T>(s1, i);
        lemma_map_of_value::<K, T>(s2, i);
        assert(OrderedMap::<K, T>::keys_of(s1)[i] == OrderedMap::<K, T>::keys_of(s2)[i]);
        assert(s1[i].0@ == s2[i].0@);
    }
    assert(m1.entry_values() =~= m2.entry_values());
}

/// At the insertion point found by the ascending scan, the new key occurs
/// nowhere in the sequence.
proof fn lemma_insert_point<K: MapKey, T: DeepView>(s: Seq<(K, T)>, i: int, k: K::V)
    requires
        0 <= i <= s.len(),
        OrderedMap::<K, T>::sorted(s),
        forall|j: int| 0 <= j < i ==> K::key_lt(#[trigger] s[j].0@, k),
        i < s.len() ==> K::key_lt(k, s[i].0@),
    ensures
        forall|j: int| 0 <= j < s.len() ==> (#[trigger] s[j].0@) != k,
{
    assert forall|j: int| 0 <= j < s.len() implies (#[trigger] s[j].0@) != k by {
        if j < i {
            if s[j].0@ == k {
                K::lemma_key_lt_irreflexive(k);
            }
        } else {
            if j > i {
                K::lemma_key_lt_transitive(k, s[i].0@, s[j].0@);
            }
            if s[j].0@ == k {
                K::lemma_key_lt_irreflexive(k);
            }
        }
    }
}

/// Inserting at the scan's stopping point keeps the entries sorted.
proof fn lemma_sorted_after_insert<K: MapKey, T: DeepView>(s: Seq<(K, T)>, i: int, e: (K, T))
    requires
        0 <= i <= s.len(),
        OrderedMap::<K, T>::sorted(s),
        forall|j: int| 0 <= j < i ==> K::key_lt(#[trigger] s[j].0@, e.0@),
        i < s.len() ==> K::key_lt(e.0@, s[i].0@),
    ensures
        OrderedMap::<K, T>::sorted(s.insert(i, e)),
{
    let si = s.insert(i, e);
    s.insert_ensures(i, e);
    assert forall|p: int, q: int| 0 <= p < q < si.len() implies K::key_lt(
        #[trigger] si[p].0@,
        #[trigger] si[q].0@,
    ) by {
        if p < i && q < i {
            assert(si[p] == s[p] && si[q] == s[q]);
        } else if p < i && q == i {
            assert(si[p] == s[p]);
        } else if p < i && q > i {
            assert(si[p] == s[p] && si[q] == s[q - 1]);
            if q - 1 > p {
                assert(K::key_lt(s[p].0@, s[q - 1].0@));
            } else {
                K::lemma_key_lt_transitive(s[p].0@, e.0@, s[i].0@);
            }
        } else if p == i && q > i {
            assert(si[q] == s[q - 1]);
            if q - 1 > i {
                K::lemma_key_lt_transitive(e.0@, s[i].0@, s[q - 1].0@);
            }
        } else {
            assert(si[p] == s[p - 1] && si[q] == s[q - 1]);
        }
    }
}

} // verus!
