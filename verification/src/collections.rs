//! Maps that keep their entries in the order in which they came.

use indexmap::IndexMap;
use vstd::prelude::*;

use crate::syntax::Id;

verus! {

/// `indexmap::IndexMap`: a hash table whose entries have an order.
#[verifier::external_type_specification]
#[verifier::external_body]
#[verifier::reject_recursive_types(K)]
#[verifier::reject_recursive_types(V)]
#[verifier::reject_recursive_types(S)]
pub struct ExIndexMap<K, V, S>(indexmap::IndexMap<K, V, S>);

/// The entries of a map with texts for keys, in their order.
pub uninterp spec fn text_entries(m: IndexMap<String, usize>) -> Seq<(Seq<char>, usize)>;

/// The entries of a map with pairs of numbers for keys, in their order.
pub uninterp spec fn pair_entries(m: IndexMap<(usize, usize), usize>) -> Seq<
    ((usize, usize), usize),
>;

/// The entries of a map with identifiers for keys, in their order.
pub uninterp spec fn id_entries(m: IndexMap<(String, u32), usize>) -> Seq<
    ((Seq<char>, u32), usize),
>;

/// The first place from `from` on at which the key stands, or the length.
pub open spec fn key_place_from<K, V>(s: Seq<(K, V)>, key: K, from: int) -> int
    decreases s.len() - from,
{
    if from >= s.len() {
        s.len() as int
    } else if s[from].0 == key {
        from
    } else {
        key_place_from(s, key, from + 1)
    }
}

/// The place of a key, or the number of entries.
pub open spec fn key_place<K, V>(s: Seq<(K, V)>, key: K) -> int {
    key_place_from(s, key, 0)
}

/// Whether some entry has the key.
pub open spec fn has_key<K, V>(s: Seq<(K, V)>, key: K) -> bool {
    key_place(s, key) < s.len()
}

/// The entries with one put in: in place of the one with the same key, or else
/// at the end.
pub open spec fn with_entry<K, V>(s: Seq<(K, V)>, key: K, value: V) -> Seq<(K, V)> {
    if has_key(s, key) {
        s.update(key_place(s, key), (key, value))
    } else {
        s.push((key, value))
    }
}

/// Whether no key stands twice.
pub open spec fn distinct_keys<K, V>(s: Seq<(K, V)>) -> bool {
    forall|i: int, j: int| 0 <= i < j < s.len() ==> (#[trigger] s[i]).0 != (#[trigger] s[j]).0
}

proof fn lemma_key_place_from<K, V>(s: Seq<(K, V)>, key: K, from: int)
    requires
        0 <= from <= s.len(),
    ensures
        from <= key_place_from(s, key, from) <= s.len(),
        key_place_from(s, key, from) < s.len() ==> s[key_place_from(s, key, from)].0 == key,
        forall|i: int|
            from <= i < key_place_from(s, key, from) ==> (#[trigger] s[i]).0 != key,
    decreases s.len() - from,
{
    if from < s.len() && s[from].0 != key {
        lemma_key_place_from(s, key, from + 1);
    }
}

/// What [`key_place`] points to.
pub broadcast proof fn lemma_key_place<K, V>(s: Seq<(K, V)>, key: K)
    ensures
        0 <= #[trigger] key_place(s, key) <= s.len(),
        key_place(s, key) < s.len() ==> s[key_place(s, key)].0 == key,
        forall|i: int| 0 <= i < key_place(s, key) ==> (#[trigger] s[i]).0 != key,
{
    lemma_key_place_from(s, key, 0);
}

/// The place of a key depends on the keys alone.
pub proof fn lemma_key_place_same<K, V, W>(s: Seq<(K, V)>, t: Seq<(K, W)>, key: K)
    requires
        s.len() == t.len(),
        forall|i: int| 0 <= i < s.len() ==> (#[trigger] s[i]).0 == (#[trigger] t[i]).0,
    ensures
        key_place(s, key) == key_place(t, key),
{
    lemma_key_place(s, key);
    lemma_key_place(t, key);
    if key_place(s, key) < key_place(t, key) {
        assert(s[key_place(s, key)].0 == t[key_place(s, key)].0);
    }
    if key_place(t, key) < key_place(s, key) {
        assert(s[key_place(t, key)].0 == t[key_place(t, key)].0);
    }
}

/// An entry found at some place, where no key stands twice.
pub proof fn lemma_key_place_is<K, V>(s: Seq<(K, V)>, i: int)
    requires
        distinct_keys(s),
        0 <= i < s.len(),
    ensures
        key_place(s, s[i].0) == i,
{
    lemma_key_place(s, s[i].0);
    let p = key_place(s, s[i].0);
    if p < i {
        assert(s[p].0 != s[i].0);
    }
}

/// `IndexMap::new`: a map without entries.
#[verifier::external_body]
fn text_map() -> (r: IndexMap<String, usize>)
    ensures
        text_entries(r) == Seq::<(Seq<char>, usize)>::empty(),
{
    IndexMap::new()
}

/// `IndexMap::get`: the value that is stored for the key, if there is one.
#[verifier::external_body]
fn text_get(m: &IndexMap<String, usize>, key: &str) -> (r: Option<usize>)
    ensures
        r == (if has_key(text_entries(*m), key@) {
            Some(text_entries(*m)[key_place(text_entries(*m), key@)].1)
        } else {
            None::<usize>
        }),
{
    m.get(key).copied()
}

/// `IndexMap::get_index`: the entry at a place, of which this hands out the key.
#[verifier::external_body]
fn text_key_at(m: &IndexMap<String, usize>, i: usize) -> (r: Option<&String>)
    ensures
        r is Some <==> i < text_entries(*m).len(),
        r matches Some(k) ==> k@ == text_entries(*m)[i as int].0,
{
    m.get_index(i).map(|e| e.0)
}

/// `IndexMap::insert`: puts the value in place of the one of an equal key, whose
/// entry keeps its place, or adds an entry at the end.
#[verifier::external_body]
fn text_insert(m: &mut IndexMap<String, usize>, key: String, value: usize)
    ensures
        text_entries(*final(m)) == with_entry(text_entries(*old(m)), key@, value),
{
    m.insert(key, value);
}

/// `IndexMap::pop`: removes the last entry and hands it out.
#[verifier::external_body]
fn text_pop(m: &mut IndexMap<String, usize>) -> (r: Option<(String, usize)>)
    ensures
        r is Some <==> text_entries(*old(m)).len() > 0,
        r matches Some(e) ==> (e.0@, e.1) == text_entries(*old(m)).last() && text_entries(*final(m))
            == text_entries(*old(m)).drop_last(),
        r is None ==> text_entries(*final(m)) == text_entries(*old(m)),
{
    m.pop()
}

/// `IndexMap::new`: a map without entries.
#[verifier::external_body]
fn pair_map() -> (r: IndexMap<(usize, usize), usize>)
    ensures
        pair_entries(r) == Seq::<((usize, usize), usize)>::empty(),
{
    IndexMap::new()
}

/// `IndexMap::get`: the value that is stored for the key, if there is one.
#[verifier::external_body]
fn pair_get(m: &IndexMap<(usize, usize), usize>, key: (usize, usize)) -> (r: Option<usize>)
    ensures
        r == (if has_key(pair_entries(*m), key) {
            Some(pair_entries(*m)[key_place(pair_entries(*m), key)].1)
        } else {
            None::<usize>
        }),
{
    m.get(&key).copied()
}

/// `IndexMap::get_index`: the entry at a place, of which this hands out the key.
#[verifier::external_body]
fn pair_key_at(m: &IndexMap<(usize, usize), usize>, i: usize) -> (r: Option<(usize, usize)>)
    ensures
        r == (if i < pair_entries(*m).len() {
            Some(pair_entries(*m)[i as int].0)
        } else {
            None::<(usize, usize)>
        }),
{
    m.get_index(i).map(|e| *e.0)
}

/// `IndexMap::insert`: puts the value in place of the one of an equal key, whose
/// entry keeps its place, or adds an entry at the end.
#[verifier::external_body]
fn pair_insert(m: &mut IndexMap<(usize, usize), usize>, key: (usize, usize), value: usize)
    ensures
        pair_entries(*final(m)) == with_entry(pair_entries(*old(m)), key, value),
{
    m.insert(key, value);
}

/// `IndexMap::new`: a map without entries.
#[verifier::external_body]
fn id_map() -> (r: IndexMap<(String, u32), usize>)
    ensures
        id_entries(r) == Seq::<((Seq<char>, u32), usize)>::empty(),
{
    IndexMap::new()
}

/// `IndexMap::get`: the value that is stored for the key, if there is one.
#[verifier::external_body]
fn id_get(m: &IndexMap<(String, u32), usize>, key: &Id) -> (r: Option<usize>)
    ensures
        r == (if has_key(id_entries(*m), key@) {
            Some(id_entries(*m)[key_place(id_entries(*m), key@)].1)
        } else {
            None::<usize>
        }),
{
    m.get(&(key.name.clone(), key.ctxt)).copied()
}

/// `IndexMap::insert`: puts the value in place of the one of an equal key, whose
/// entry keeps its place, or adds an entry at the end.
#[verifier::external_body]
fn id_insert(m: &mut IndexMap<(String, u32), usize>, key: &Id, value: usize)
    ensures
        id_entries(*final(m)) == with_entry(id_entries(*old(m)), key@, value),
{
    m.insert((key.name.clone(), key.ctxt), value);
}

/// A map from texts to values that keeps the order in which the keys came.
pub struct TextMap<V> {
    index: IndexMap<String, usize>,
    values: Vec<V>,
}

impl<V> TextMap<V> {
    /// The entries, in the order in which the keys came.
    pub closed spec fn view(&self) -> Seq<(Seq<char>, V)> {
        Seq::new(
            self.values@.len(),
            |i: int| (text_entries(self.index)[i].0, self.values@[i]),
        )
    }

    /// The index leads from each key to the place of its value.
    pub closed spec fn wf(&self) -> bool {
        &&& text_entries(self.index).len() == self.values@.len()
        &&& distinct_keys(text_entries(self.index))
        &&& forall|i: int|
            0 <= i < self.values@.len() ==> (#[trigger] text_entries(self.index)[i]).1 == i
    }

    /// No key stands twice.
    pub broadcast proof fn lemma_distinct(&self)
        requires
            #[trigger] self.wf(),
        ensures
            distinct_keys(self@),
    {
        assert forall|i: int, j: int| 0 <= i < j < self@.len() implies (#[trigger] self@[i]).0 != (
        #[trigger] self@[j]).0 by {
            assert(text_entries(self.index)[i].0 != text_entries(self.index)[j].0);
        }
    }

    pub fn new() -> (r: TextMap<V>)
        ensures
            r.wf(),
            r@ == Seq::<(Seq<char>, V)>::empty(),
    {
        let r = TextMap { index: text_map(), values: Vec::new() };
        assert(r@ =~= Seq::<(Seq<char>, V)>::empty());
        r
    }

    pub fn len(&self) -> (r: usize)
        requires
            self.wf(),
        ensures
            r == self@.len(),
    {
        self.values.len()
    }

    /// The place of a key.
    pub fn place(&self, key: &str) -> (r: Option<usize>)
        requires
            self.wf(),
        ensures
            r is Some <==> has_key(self@, key@),
            r matches Some(i) ==> i == key_place(self@, key@) && i < self@.len(),
            r is None ==> key_place(self@, key@) == self@.len(),
    {
        proof {
            lemma_key_place_same(self@, text_entries(self.index), key@);
            lemma_key_place(self@, key@);
        }
        text_get(&self.index, key)
    }

    pub fn contains_key(&self, key: &str) -> (r: bool)
        requires
            self.wf(),
        ensures
            r == has_key(self@, key@),
    {
        self.place(key).is_some()
    }

    /// The value of a key.
    pub fn get(&self, key: &str) -> (r: Option<&V>)
        requires
            self.wf(),
        ensures
            r is Some <==> has_key(self@, key@),
            r matches Some(v) ==> *v == self@[key_place(self@, key@)].1,
    {
        match self.place(key) {
            Some(i) => Some(&self.values[i]),
            None => None,
        }
    }

    /// The key of the entry at a place.
    pub fn key_at(&self, i: usize) -> (r: &String)
        requires
            self.wf(),
            i < self@.len(),
        ensures
            r@ == self@[i as int].0,
    {
        text_key_at(&self.index, i).unwrap()
    }

    /// The value of the entry at a place.
    pub fn value_at(&self, i: usize) -> (r: &V)
        requires
            self.wf(),
            i < self@.len(),
        ensures
            *r == self@[i as int].1,
    {
        &self.values[i]
    }

    /// The value of the entry at a place, to be changed.
    pub fn value_at_mut(&mut self, i: usize) -> (r: &mut V)
        requires
            old(self).wf(),
            i < old(self)@.len(),
        ensures
            *r == old(self)@[i as int].1,
            final(self).wf(),
            final(self)@ =~= old(self)@.update(i as int, (old(self)@[i as int].0, *final(r))),
    {
        &mut self.values[i]
    }

    /// Puts a value in: in place of that of the same key, or at the end.
    pub fn insert(&mut self, key: String, value: V)
        requires
            old(self).wf(),
        ensures
            final(self).wf(),
            final(self)@ == with_entry(old(self)@, key@, value),
    {
        let ghost before = self@;
        proof {
            lemma_key_place_same(before, text_entries(self.index), key@);
            lemma_key_place(before, key@);
            lemma_key_place(text_entries(self.index), key@);
        }
        match self.place(key.as_str()) {
            Some(i) => {
                self.values[i] = value;
                assert(self@ =~= with_entry(before, key@, value));
            },
            None => {
                let i: usize = self.values.len();
                let ghost k = key@;
                text_insert(&mut self.index, key, i);
                self.values.push(value);
                assert(self@ =~= with_entry(before, k, value));
            },
        }
    }

    /// Removes the last entry.
    pub fn pop(&mut self) -> (r: Option<(String, V)>)
        requires
            old(self).wf(),
        ensures
            final(self).wf(),
            r is Some <==> old(self)@.len() > 0,
            r matches Some(e) ==> (e.0@, e.1) == old(self)@.last() && final(self)@ == old(
                self,
            )@.drop_last(),
            r is None ==> final(self)@ == old(self)@,
    {
        let ghost before = self@;
        match text_pop(&mut self.index) {
            Some(e) => {
                let v = self.values.pop().unwrap();
                assert(self@ =~= before.drop_last());
                Some((e.0, v))
            },
            None => {
                assert(self@ =~= before);
                None
            },
        }
    }
}

/// A map from pairs of numbers to values that keeps the order in which the
/// keys came.
pub struct PairMap<V> {
    index: IndexMap<(usize, usize), usize>,
    values: Vec<V>,
}

impl<V> PairMap<V> {
    /// The entries, in the order in which the keys came.
    pub closed spec fn view(&self) -> Seq<((usize, usize), V)> {
        Seq::new(
            self.values@.len(),
            |i: int| (pair_entries(self.index)[i].0, self.values@[i]),
        )
    }

    /// The index leads from each key to the place of its value.
    pub closed spec fn wf(&self) -> bool {
        &&& pair_entries(self.index).len() == self.values@.len()
        &&& distinct_keys(pair_entries(self.index))
        &&& forall|i: int|
            0 <= i < self.values@.len() ==> (#[trigger] pair_entries(self.index)[i]).1 == i
    }

    /// No key stands twice.
    pub broadcast proof fn lemma_distinct(&self)
        requires
            #[trigger] self.wf(),
        ensures
            distinct_keys(self@),
    {
        assert forall|i: int, j: int| 0 <= i < j < self@.len() implies (#[trigger] self@[i]).0 != (
        #[trigger] self@[j]).0 by {
            assert(pair_entries(self.index)[i].0 != pair_entries(self.index)[j].0);
        }
    }

    pub fn new() -> (r: PairMap<V>)
        ensures
            r.wf(),
            r@ == Seq::<((usize, usize), V)>::empty(),
    {
        let r = PairMap { index: pair_map(), values: Vec::new() };
        assert(r@ =~= Seq::<((usize, usize), V)>::empty());
        r
    }

    pub fn len(&self) -> (r: usize)
        requires
            self.wf(),
        ensures
            r == self@.len(),
    {
        self.values.len()
    }

    /// The place of a key.
    pub fn place(&self, key: (usize, usize)) -> (r: Option<usize>)
        requires
            self.wf(),
        ensures
            r is Some <==> has_key(self@, key),
            r matches Some(i) ==> i == key_place(self@, key) && i < self@.len(),
            r is None ==> key_place(self@, key) == self@.len(),
    {
        proof {
            lemma_key_place_same(self@, pair_entries(self.index), key);
            lemma_key_place(self@, key);
        }
        pair_get(&self.index, key)
    }

    pub fn contains_key(&self, key: (usize, usize)) -> (r: bool)
        requires
            self.wf(),
        ensures
            r == has_key(self@, key),
    {
        self.place(key).is_some()
    }

    /// The value of a key.
    pub fn get(&self, key: (usize, usize)) -> (r: Option<&V>)
        requires
            self.wf(),
        ensures
            r is Some <==> has_key(self@, key),
            r matches Some(v) ==> *v == self@[key_place(self@, key)].1,
    {
        match self.place(key) {
            Some(i) => Some(&self.values[i]),
            None => None,
        }
    }

    /// The key of the entry at a place.
    pub fn key_at(&self, i: usize) -> (r: (usize, usize))
        requires
            self.wf(),
            i < self@.len(),
        ensures
            r == self@[i as int].0,
    {
        pair_key_at(&self.index, i).unwrap()
    }

    /// The value of the entry at a place.
    pub fn value_at(&self, i: usize) -> (r: &V)
        requires
            self.wf(),
            i < self@.len(),
        ensures
            *r == self@[i as int].1,
    {
        &self.values[i]
    }

    /// The value of the entry at a place, to be changed.
    pub fn value_at_mut(&mut self, i: usize) -> (r: &mut V)
        requires
            old(self).wf(),
            i < old(self)@.len(),
        ensures
            *r == old(self)@[i as int].1,
            final(self).wf(),
            final(self)@ =~= old(self)@.update(i as int, (old(self)@[i as int].0, *final(r))),
    {
        &mut self.values[i]
    }

    /// Puts a value in: in place of that of the same key, or at the end.
    pub fn insert(&mut self, key: (usize, usize), value: V)
        requires
            old(self).wf(),
        ensures
            final(self).wf(),
            final(self)@ == with_entry(old(self)@, key, value),
    {
        let ghost before = self@;
        proof {
            lemma_key_place_same(before, pair_entries(self.index), key);
            lemma_key_place(before, key);
            lemma_key_place(pair_entries(self.index), key);
        }
        match self.place(key) {
            Some(i) => {
                self.values[i] = value;
                assert(self@ =~= with_entry(before, key, value));
            },
            None => {
                let i: usize = self.values.len();
                pair_insert(&mut self.index, key, i);
                self.values.push(value);
                assert(self@ =~= with_entry(before, key, value));
            },
        }
    }
}

/// A map from identifiers to values that keeps the order in which the keys came.
pub struct IdMap<V> {
    index: IndexMap<(String, u32), usize>,
    entries: Vec<(Id, V)>,
}

impl<V> IdMap<V> {
    /// The entries, in the order in which the keys came.
    pub closed spec fn view(&self) -> Seq<((Seq<char>, u32), V)> {
        Seq::new(self.entries@.len(), |i: int| (self.entries@[i].0@, self.entries@[i].1))
    }

    /// The index leads from each key to the place of its value.
    pub closed spec fn wf(&self) -> bool {
        &&& id_entries(self.index).len() == self.entries@.len()
        &&& distinct_keys(id_entries(self.index))
        &&& forall|i: int|
            0 <= i < self.entries@.len() ==> (#[trigger] id_entries(self.index)[i]).1 == i
                && id_entries(self.index)[i].0 == self.entries@[i].0@
    }

    /// No key stands twice.
    pub broadcast proof fn lemma_distinct(&self)
        requires
            #[trigger] self.wf(),
        ensures
            distinct_keys(self@),
    {
        assert forall|i: int, j: int| 0 <= i < j < self@.len() implies (#[trigger] self@[i]).0 != (
        #[trigger] self@[j]).0 by {
            assert(id_entries(self.index)[i].0 != id_entries(self.index)[j].0);
        }
    }

    pub fn new() -> (r: IdMap<V>)
        ensures
            r.wf(),
            r@ == Seq::<((Seq<char>, u32), V)>::empty(),
    {
        let r = IdMap { index: id_map(), entries: Vec::new() };
        assert(r@ =~= Seq::<((Seq<char>, u32), V)>::empty());
        r
    }

    pub fn len(&self) -> (r: usize)
        requires
            self.wf(),
        ensures
            r == self@.len(),
    {
        self.entries.len()
    }

    /// The place of a key.
    fn place(&self, key: &Id) -> (r: Option<usize>)
        requires
            self.wf(),
        ensures
            r is Some <==> has_key(self@, key@),
            r matches Some(i) ==> i == key_place(self@, key@) && i < self@.len(),
            r is None ==> key_place(self@, key@) == self@.len(),
    {
        proof {
            lemma_key_place_same(self@, id_entries(self.index), key@);
            lemma_key_place(self@, key@);
        }
        id_get(&self.index, key)
    }

    pub fn contains_key(&self, key: &Id) -> (r: bool)
        requires
            self.wf(),
        ensures
            r == has_key(self@, key@),
    {
        self.place(key).is_some()
    }

    /// The value of a key.
    pub fn get(&self, key: &Id) -> (r: Option<&V>)
        requires
            self.wf(),
        ensures
            r is Some <==> has_key(self@, key@),
            r matches Some(v) ==> *v == self@[key_place(self@, key@)].1,
    {
        match self.place(key) {
            Some(i) => Some(&self.entries[i].1),
            None => None,
        }
    }

    /// The key of the entry at a place.
    pub fn key_at(&self, i: usize) -> (r: &Id)
        requires
            self.wf(),
            i < self@.len(),
        ensures
            r@ == self@[i as int].0,
    {
        &self.entries[i].0
    }

    /// The value of the entry at a place.
    pub fn value_at(&self, i: usize) -> (r: &V)
        requires
            self.wf(),
            i < self@.len(),
        ensures
            *r == self@[i as int].1,
    {
        &self.entries[i].1
    }

    /// Puts a value in: in place of that of the same key, or at the end.
    pub fn insert(&mut self, key: Id, value: V)
        requires
            old(self).wf(),
        ensures
            final(self).wf(),
            final(self)@ == with_entry(old(self)@, key@, value),
    {
        let ghost before = self@;
        let ghost k = key@;
        proof {
            lemma_key_place_same(before, id_entries(self.index), key@);
            lemma_key_place(before, key@);
            lemma_key_place(id_entries(self.index), key@);
        }
        match self.place(&key) {
            Some(i) => {
                self.entries[i] = (key, value);
                assert(self@ =~= with_entry(before, k, value));
            },
            None => {
                let i: usize = self.entries.len();
                id_insert(&mut self.index, &key, i);
                self.entries.push((key, value));
                assert(self@ =~= with_entry(before, k, value));
            },
        }
    }
}

}
