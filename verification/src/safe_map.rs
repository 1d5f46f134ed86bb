//! Keyed stores.
//!
//! `Table` is a finite mapping held as a list of entries with distinct keys.
//! Keys are compared by their mathematical content, so that text can be a
//! key: of a hash map with `String` keys nothing can be proved, since vstd
//! specifies hash maps only for keys such as integers.
//! `SafeMap` adds an explicit two-stage lifecycle: it starts out
//! uninitialised, `init` installs an empty mapping, and until then every
//! structural operation is a no-op that reports absence.

use vstd::prelude::*;

verus! {

/// Values that can be copied so that the copy has the same mathematical
/// content as the value it was made from.
pub trait Snapshot: DeepView + Sized {
    fn snapshot(&self) -> (copy: Self)
        ensures
            copy.deep_view() == self.deep_view(),
    ;
}

/// Keys of a `SafeMap`: two keys are the same key exactly when their
/// mathematical contents agree.
pub trait MapKey: Snapshot {
    fn same(&self, other: &Self) -> (r: bool)
        ensures
            r == (self.deep_view() == other.deep_view()),
    ;
}

impl Snapshot for String {
    fn snapshot(&self) -> (copy: Self) {
        self.clone()
    }
}

impl MapKey for String {
    fn same(&self, other: &Self) -> (r: bool) {
        *self == *other
    }
}

impl Snapshot for u128 {
    fn snapshot(&self) -> (copy: Self) {
        *self
    }
}

impl MapKey for u128 {
    fn same(&self, other: &Self) -> (r: bool) {
        *self == *other
    }
}

impl<T: Snapshot> Snapshot for Vec<T> {
    fn snapshot(&self) -> (copy: Self) {
        let mut copy: Vec<T> = Vec::new();
        let mut i: usize = 0;
        while i < self.len()
            invariant
                i <= self.len(),
                copy.len() == i,
                forall|j: int| 0 <= j < i ==> copy@[j].deep_view() == self@[j].deep_view(),
            decreases self.len() - i,
        {
            copy.push(self[i].snapshot());
            i += 1;
        }
        assert(copy.deep_view() =~= self.deep_view());
        copy
    }
}

/// The keys of a list of pairs, in order.
pub open spec fn keys_of<K, V>(pairs: Seq<(K, V)>) -> Seq<K> {
    pairs.map_values(|p: (K, V)| p.0)
}

/// No two pairs share a key.
pub open spec fn distinct_keys<K, V>(pairs: Seq<(K, V)>) -> bool {
    keys_of(pairs).no_duplicates()
}

/// The mapping that a list of pairs stands for: each key maps to the value
/// of the last pair that holds it.
pub open spec fn map_of<K, V>(pairs: Seq<(K, V)>) -> Map<K, V>
    decreases pairs.len(),
{
    if pairs.len() == 0 {
        Map::empty()
    } else {
        map_of(pairs.drop_last()).insert(pairs.last().0, pairs.last().1)
    }
}

/// The keys of the mapping are the keys of the pairs.
pub proof fn lemma_map_of_dom<K, V>(pairs: Seq<(K, V)>)
    ensures
        map_of(pairs).dom() == keys_of(pairs).to_set(),
    decreases pairs.len(),
{
    if pairs.len() == 0 {
        assert(map_of(pairs).dom() =~= keys_of(pairs).to_set());
    } else {
        let d = pairs.drop_last();
        lemma_map_of_dom(d);
        assert(keys_of(pairs) =~= keys_of(d).push(pairs.last().0));
        assert forall|k: K| map_of(pairs).dom().contains(k) <==> keys_of(pairs).to_set().contains(
            k,
        ) by {
            if keys_of(d).to_set().contains(k) {
                let j = choose|j: int| 0 <= j < keys_of(d).len() && keys_of(d)[j] == k;
                assert(keys_of(pairs)[j] == k);
            }
            if keys_of(pairs).contains(k) {
                let j = choose|j: int| 0 <= j < keys_of(pairs).len() && keys_of(pairs)[j] == k;
                if j < d.len() {
                    assert(keys_of(d)[j] == k);
                }
            }
            assert(keys_of(pairs)[pairs.len() - 1] == pairs.last().0);
        }
        assert(map_of(pairs).dom() =~= keys_of(pairs).to_set());
    }
}

/// In a list with distinct keys, each key maps to the value beside it.
pub proof fn lemma_map_of_index<K, V>(pairs: Seq<(K, V)>, i: int)
    requires
        distinct_keys(pairs),
        0 <= i < pairs.len(),
    ensures
        map_of(pairs).contains_key(pairs[i].0),
        map_of(pairs)[pairs[i].0] == pairs[i].1,
    decreases pairs.len(),
{
    let d = pairs.drop_last();
    if i < pairs.len() - 1 {
        assert(keys_of(d) =~= keys_of(pairs).drop_last());
        assert(distinct_keys(d)) by {
            assert forall|a: int, b: int|
                0 <= a < keys_of(d).len() && 0 <= b < keys_of(d).len() && a != b implies keys_of(
                d,
            )[a] != keys_of(d)[b] by {
                assert(keys_of(pairs)[a] != keys_of(pairs)[b]);
            }
        }
        lemma_map_of_index(d, i);
        assert(keys_of(pairs)[i] != keys_of(pairs)[pairs.len() - 1]);
    }
}

/// Appending a pair inserts it; the keys stay distinct where the new key
/// was absent.
pub proof fn lemma_map_of_push<K, V>(pairs: Seq<(K, V)>, p: (K, V))
    ensures
        map_of(pairs.push(p)) == map_of(pairs).insert(p.0, p.1),
        distinct_keys(pairs) && !map_of(pairs).contains_key(p.0) ==> distinct_keys(pairs.push(p)),
{
    let after = pairs.push(p);
    assert(after.drop_last() =~= pairs);
    lemma_map_of_dom(pairs);
    if distinct_keys(pairs) && !map_of(pairs).contains_key(p.0) {
        assert(keys_of(after) =~= keys_of(pairs).push(p.0));
        assert forall|a: int, b: int|
            0 <= a < keys_of(after).len() && 0 <= b < keys_of(after).len() && a != b implies keys_of(
            after,
        )[a] != keys_of(after)[b] by {
            if a < pairs.len() && b < pairs.len() {
                assert(keys_of(pairs)[a] != keys_of(pairs)[b]);
            } else if a < pairs.len() {
                assert(keys_of(pairs).contains(keys_of(pairs)[a]));
            } else {
                assert(keys_of(pairs).contains(keys_of(pairs)[b]));
            }
        }
    }
}

/// Moving the last pair into position `i` removes the key that was there.
pub proof fn lemma_map_of_swap_remove<K, V>(pairs: Seq<(K, V)>, i: int)
    requires
        distinct_keys(pairs),
        0 <= i < pairs.len(),
    ensures
        distinct_keys(pairs.update(i, pairs.last()).drop_last()),
        map_of(pairs.update(i, pairs.last()).drop_last()) == map_of(pairs).remove(pairs[i].0),
{
    let after = pairs.update(i, pairs.last()).drop_last();
    let last = pairs.len() - 1;
    let gone = pairs[i].0;
    let origin = |j: int| if j == i { last } else { j };
    assert forall|j: int| 0 <= j < after.len() implies after[j] == pairs[origin(j)] && origin(j)
        != i by {}
    assert forall|a: int, b: int|
        0 <= a < keys_of(after).len() && 0 <= b < keys_of(after).len() && a != b implies keys_of(
        after,
    )[a] != keys_of(after)[b] by {
        assert(keys_of(pairs)[origin(a)] != keys_of(pairs)[origin(b)]);
    }
    lemma_map_of_dom(after);
    lemma_map_of_dom(pairs);
    let lhs = map_of(after);
    let rhs = map_of(pairs).remove(gone);
    assert forall|k: K| lhs.dom().contains(k) <==> rhs.dom().contains(k) by {
        if keys_of(after).contains(k) {
            let j = choose|j: int| 0 <= j < keys_of(after).len() && keys_of(after)[j] == k;
            assert(keys_of(pairs)[origin(j)] == k);
            assert(keys_of(pairs)[origin(j)] != keys_of(pairs)[i]);
        }
        if keys_of(pairs).contains(k) && k != gone {
            let j = choose|j: int| 0 <= j < keys_of(pairs).len() && keys_of(pairs)[j] == k;
            if j == last {
                assert(keys_of(after)[i] == k);
            } else {
                assert(keys_of(after)[j] == k);
            }
        }
    }
    assert forall|k: K| lhs.dom().contains(k) implies lhs[k] == rhs[k] by {
        let j = choose|j: int| 0 <= j < keys_of(after).len() && keys_of(after)[j] == k;
        lemma_map_of_index(after, j);
        lemma_map_of_index(pairs, origin(j));
    }
    assert(lhs =~= rhs);
}

/// `base` with every pair inserted, one after the other.
pub open spec fn insert_all<K, V>(base: Map<K, V>, pairs: Seq<(K, V)>) -> Map<K, V>
    decreases pairs.len(),
{
    if pairs.len() == 0 {
        base
    } else {
        insert_all(base, pairs.drop_last()).insert(pairs.last().0, pairs.last().1)
    }
}

/// Inserting pairs into the empty mapping gives the mapping of the pairs.
pub proof fn lemma_insert_all_empty<K, V>(pairs: Seq<(K, V)>)
    ensures
        insert_all(Map::<K, V>::empty(), pairs) == map_of(pairs),
    decreases pairs.len(),
{
    if pairs.len() > 0 {
        lemma_insert_all_empty(pairs.drop_last());
    }
}

/// A finite mapping from keys to values.
pub struct Table<A: MapKey, T: DeepView> {
    entries: Vec<(A, T)>,
}

impl<A: MapKey, T: DeepView> Table<A, T> {
    #[verifier::type_invariant]
    spec fn well_formed(self) -> bool {
        distinct_keys(self.entries.deep_view())
    }

    /// The mapping that the table holds.
    pub closed spec fn view(&self) -> Map<A::V, T::V> {
        map_of(self.entries.deep_view())
    }

    /// An empty table.
    pub fn new() -> (t: Self)
        ensures
            t@ == Map::<A::V, T::V>::empty(),
    {
        let t = Table { entries: Vec::new() };
        assert(t.entries.deep_view() =~= Seq::<(A::V, T::V)>::empty());
        t
    }

    /// The number of entries.
    pub fn len(&self) -> (n: usize)
        ensures
            self@.dom().finite(),
            n == self@.dom().len(),
    {
        proof {
            use_type_invariant(self);
            lemma_map_of_dom(self.entries.deep_view());
            keys_of(self.entries.deep_view()).unique_seq_to_set();
            vstd::seq_lib::seq_to_set_is_finite(keys_of(self.entries.deep_view()));
        }
        self.entries.len()
    }

    /// The position of `key` among the entries, if it is present.
    fn find(&self, key: &A) -> (r: Option<usize>)
        ensures
            match r {
                Some(i) => i < self.entries@.len() && self.entries.deep_view()[i as int].0
                    == key.deep_view(),
                None => !self@.contains_key(key.deep_view()),
            },
    {
        let ghost pairs = self.entries.deep_view();
        let mut i: usize = 0;
        while i < self.entries.len()
            invariant
                pairs == self.entries.deep_view(),
                i <= self.entries@.len(),
                forall|j: int| 0 <= j < i ==> keys_of(pairs)[j] != key.deep_view(),
            decreases self.entries@.len() - i,
        {
            assert(pairs[i as int] == self.entries@[i as int].deep_view());
            if self.entries[i].0.same(key) {
                return Some(i);
            }
            i += 1;
        }
        proof {
            lemma_map_of_dom(pairs);
        }
        None
    }

    /// Whether `key` is present.
    pub fn contains_key(&self, key: &A) -> (present: bool)
        ensures
            present == self@.contains_key(key.deep_view()),
    {
        proof {
            use_type_invariant(self);
        }
        match self.find(key) {
            Some(i) => {
                proof {
                    lemma_map_of_index(self.entries.deep_view(), i as int);
                }
                true
            },
            None => false,
        }
    }

    /// Stores `value` under `key`, replacing what was there, and returns the
    /// value that was replaced.
    pub fn insert(&mut self, key: A, value: T) -> (previous: Option<T>)
        ensures
            final(self)@ == old(self)@.insert(key.deep_view(), value.deep_view()),
            match previous {
                Some(p) => old(self)@.contains_key(key.deep_view()) && p.deep_view() == old(self)@[key.deep_view()],
                None => !old(self)@.contains_key(key.deep_view()),
            },
    {
        proof {
            use_type_invariant(&*self);
        }
        let found = self.find(&key);
        let mut entries: Vec<(A, T)> = Vec::new();
        assert(entries.deep_view() =~= Seq::<(A::V, T::V)>::empty());
        core::mem::swap(&mut self.entries, &mut entries);
        let ghost before = entries.deep_view();
        let ghost pair = (key.deep_view(), value.deep_view());
        let previous = match found {
            Some(i) => {
                proof {
                    lemma_map_of_index(before, i as int);
                    lemma_map_of_swap_remove(before, i as int);
                }
                let old_entry = entries.swap_remove(i);
                proof {
                    assert(old_entry.deep_view() == before[i as int]);
                    assert(entries.deep_view() =~= before.update(
                        i as int,
                        before.last(),
                    ).drop_last());
                    assert(map_of(before).remove(pair.0).insert(pair.0, pair.1) =~= map_of(
                        before,
                    ).insert(pair.0, pair.1));
                }
                Some(old_entry.1)
            },
            None => None,
        };
        let ghost reduced = entries.deep_view();
        proof {
            lemma_map_of_push(reduced, pair);
        }
        entries.push((key, value));
        assert(entries.deep_view() =~= reduced.push(pair));
        core::mem::swap(&mut self.entries, &mut entries);
        previous
    }

    /// The value stored under `key`, if any.
    pub fn get(&self, key: &A) -> (found: Option<&T>)
        ensures
            match found {
                Some(v) => self@.contains_key(key.deep_view()) && v.deep_view()
                    == self@[key.deep_view()],
                None => !self@.contains_key(key.deep_view()),
            },
    {
        proof {
            use_type_invariant(self);
        }
        match self.find(key) {
            Some(i) => {
                proof {
                    lemma_map_of_index(self.entries.deep_view(), i as int);
                    assert(self.entries.deep_view()[i as int] == self.entries@[i as int].deep_view());
                }
                Some(&self.entries[i].1)
            },
            None => None,
        }
    }

    /// Removes `key` and returns the value that was stored under it.
    pub fn remove(&mut self, key: &A) -> (removed: Option<T>)
        ensures
            match removed {
                Some(v) => {
                    &&& old(self)@.contains_key(key.deep_view())
                    &&& v.deep_view() == old(self)@[key.deep_view()]
                    &&& final(self)@ == old(self)@.remove(key.deep_view())
                },
                None => !old(self)@.contains_key(key.deep_view()) && final(self)@ == old(self)@,
            },
    {
        proof {
            use_type_invariant(&*self);
        }
        match self.find(key) {
            Some(i) => {
                let mut entries: Vec<(A, T)> = Vec::new();
                assert(entries.deep_view() =~= Seq::<(A::V, T::V)>::empty());
                core::mem::swap(&mut self.entries, &mut entries);
                let ghost before = entries.deep_view();
                proof {
                    lemma_map_of_index(before, i as int);
                    lemma_map_of_swap_remove(before, i as int);
                }
                let old_entry = entries.swap_remove(i);
                proof {
                    assert(old_entry.deep_view() == before[i as int]);
                    assert(entries.deep_view() =~= before.update(
                        i as int,
                        before.last(),
                    ).drop_last());
                }
                core::mem::swap(&mut self.entries, &mut entries);
                Some(old_entry.1)
            },
            None => None,
        }
    }

    /// A copy of every key, each exactly once.
    pub fn keys(&self) -> (keys: Vec<A>)
        ensures
            keys.deep_view().no_duplicates(),
            keys.deep_view().to_set() == self@.dom(),
    {
        proof {
            use_type_invariant(self);
        }
        let ghost pairs = self.entries.deep_view();
        let mut keys: Vec<A> = Vec::new();
        let mut i: usize = 0;
        while i < self.entries.len()
            invariant
                pairs == self.entries.deep_view(),
                i <= self.entries@.len(),
                keys@.len() == i,
                forall|j: int| 0 <= j < i ==> (#[trigger] keys@[j]).deep_view() == keys_of(pairs)[j],
            decreases self.entries@.len() - i,
        {
            assert(pairs[i as int] == self.entries@[i as int].deep_view());
            keys.push(self.entries[i].0.snapshot());
            i += 1;
        }
        proof {
            assert(keys.deep_view() =~= keys_of(pairs));
            lemma_map_of_dom(pairs);
        }
        keys
    }

    /// A copy of every entry: no key twice, and together the entries stand
    /// for the mapping.
    pub fn entries(&self) -> (snapshot: Vec<(A, T)>) where T: Snapshot
        ensures
            distinct_keys(snapshot.deep_view()),
            map_of(snapshot.deep_view()) == self@,
    {
        proof {
            use_type_invariant(self);
        }
        let ghost pairs = self.entries.deep_view();
        let mut snapshot: Vec<(A, T)> = Vec::new();
        let mut i: usize = 0;
        while i < self.entries.len()
            invariant
                pairs == self.entries.deep_view(),
                i <= self.entries@.len(),
                snapshot@.len() == i,
                forall|j: int| 0 <= j < i ==> (#[trigger] snapshot@[j]).deep_view() == pairs[j],
            decreases self.entries@.len() - i,
        {
            assert(pairs[i as int] == self.entries@[i as int].deep_view());
            let k = self.entries[i].0.snapshot();
            let v = self.entries[i].1.snapshot();
            snapshot.push((k, v));
            i += 1;
        }
        proof {
            assert(snapshot.deep_view() =~= pairs);
        }
        snapshot
    }
}

impl<A: MapKey, T: DeepView> DeepView for Table<A, T> {
    type V = Map<A::V, T::V>;

    open spec fn deep_view(&self) -> Map<A::V, T::V> {
        self@
    }
}

impl<A: MapKey, T: Snapshot> Snapshot for Table<A, T> {
    fn snapshot(&self) -> (copy: Self) {
        let entries = self.entries();
        Table { entries }
    }
}

/// A keyed store that must be initialised before it holds anything.
pub struct SafeMap<A: MapKey, T: DeepView> {
    inner: Option<Table<A, T>>,
}

impl<A: MapKey, T: DeepView> SafeMap<A, T> {
    /// `None` while uninitialised, the current mapping afterwards.
    pub closed spec fn view(&self) -> Option<Map<A::V, T::V>> {
        match self.inner {
            Some(table) => Some(table@),
            None => None,
        }
    }

    /// An uninitialised store.
    pub fn new() -> (m: Self)
        ensures
            m@ is None,
    {
        SafeMap { inner: None }
    }

    /// The number of entries; none while uninitialised.
    pub fn len(&self) -> (n: usize)
        ensures
            match self@ {
                None => n == 0,
                Some(m) => m.dom().finite() && n == m.dom().len(),
            },
    {
        match &self.inner {
            Some(table) => table.len(),
            None => 0,
        }
    }

    /// Installs an empty mapping unless one is already installed.
    pub fn init(&mut self)
        ensures
            final(self)@ == (if old(self)@ is None {
                Some(Map::<A::V, T::V>::empty())
            } else {
                old(self)@
            }),
    {
        if self.inner.is_none() {
            self.inner = Some(Table::new());
        }
    }

    /// Stores `value` under `key`, replacing what was there, and returns the
    /// value that was replaced. On an uninitialised store nothing happens.
    pub fn insert(&mut self, key: A, value: T) -> (previous: Option<T>)
        ensures
            match old(self)@ {
                None => final(self)@ is None && previous is None,
                Some(m) => {
                    &&& final(self)@ == Some(m.insert(key.deep_view(), value.deep_view()))
                    &&& match previous {
                        Some(p) => m.contains_key(key.deep_view()) && p.deep_view()
                            == m[key.deep_view()],
                        None => !m.contains_key(key.deep_view()),
                    }
                },
            },
    {
        match self.inner.take() {
            Some(mut table) => {
                let previous = table.insert(key, value);
                self.inner = Some(table);
                previous
            },
            None => None,
        }
    }

    /// The value stored under `key`, if any.
    pub fn get(&self, key: &A) -> (found: Option<&T>)
        ensures
            match self@ {
                None => found is None,
                Some(m) => match found {
                    Some(v) => m.contains_key(key.deep_view()) && v.deep_view()
                        == m[key.deep_view()],
                    None => !m.contains_key(key.deep_view()),
                },
            },
    {
        match &self.inner {
            Some(table) => table.get(key),
            None => None,
        }
    }

    /// Removes `key` and returns the value that was stored under it.
    pub fn remove(&mut self, key: &A) -> (removed: Option<T>)
        ensures
            match old(self)@ {
                None => final(self)@ is None && removed is None,
                Some(m) => match removed {
                    Some(v) => {
                        &&& m.contains_key(key.deep_view())
                        &&& v.deep_view() == m[key.deep_view()]
                        &&& final(self)@ == Some(m.remove(key.deep_view()))
                    },
                    None => !m.contains_key(key.deep_view()) && final(self)@ == Some(m),
                },
            },
    {
        match self.inner.take() {
            Some(mut table) => {
                let removed = table.remove(key);
                self.inner = Some(table);
                removed
            },
            None => None,
        }
    }

    /// A copy of the store, initialised or not as this one is.
    pub fn duplicate(&self) -> (copy: Self) where T: Snapshot
        ensures
            copy@ == self@,
    {
        match &self.inner {
            Some(table) => SafeMap { inner: Some(table.snapshot()) },
            None => SafeMap { inner: None },
        }
    }

    /// A copy of every key currently present, each exactly once; none
    /// while uninitialised.
    pub fn keys(&self) -> (keys: Vec<A>)
        ensures
            keys.deep_view().no_duplicates(),
            match self@ {
                None => keys@.len() == 0,
                Some(m) => keys.deep_view().to_set() == m.dom(),
            },
    {
        match &self.inner {
            Some(table) => table.keys(),
            None => {
                let keys: Vec<A> = Vec::new();
                assert(keys.deep_view() =~= Seq::<A::V>::empty());
                keys
            },
        }
    }

    /// A copy of every entry: no key twice, and together the entries stand
    /// for the current mapping; none while uninitialised.
    pub fn to_map(&self) -> (snapshot: Vec<(A, T)>) where T: Snapshot
        ensures
            distinct_keys(snapshot.deep_view()),
            match self@ {
                None => snapshot@.len() == 0,
                Some(m) => map_of(snapshot.deep_view()) == m,
            },
    {
        match &self.inner {
            Some(table) => table.entries(),
            None => {
                let snapshot: Vec<(A, T)> = Vec::new();
                assert(snapshot.deep_view() =~= Seq::<(A::V, T::V)>::empty());
                snapshot
            },
        }
    }
}

} // verus!
