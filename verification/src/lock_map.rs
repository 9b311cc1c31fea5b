//! A small map from lock names to per-lock state, in insertion order.
use vstd::prelude::*;

use crate::text::str_eq;

verus! {

/// The content of a [`LockMap`]: which names it holds, in the order in which
/// they were added, and what each name maps to.
#[verifier::ext_equal]
#[verifier::reject_recursive_types(V)]
pub struct Table<V> {
    pub keys: Seq<Seq<char>>,
    pub map: Map<Seq<char>, V>,
}

impl<V> Table<V> {
    /// The table without entries.
    pub open spec fn empty() -> Table<V> {
        Table { keys: Seq::empty(), map: Map::empty() }
    }

    /// Names occur once, and exactly the listed names are mapped.
    pub open spec fn wf(self) -> bool {
        &&& self.keys.no_duplicates()
        &&& forall|k: Seq<char>| #[trigger] self.map.contains_key(k) <==> self.keys.contains(k)
    }

    /// Map `key` to `value`; a new name goes to the end.
    pub open spec fn put(self, key: Seq<char>, value: V) -> Table<V> {
        Table {
            keys: if self.keys.contains(key) {
                self.keys
            } else {
                self.keys.push(key)
            },
            map: self.map.insert(key, value),
        }
    }

    /// Forget `key`; the other names keep their order.
    pub open spec fn del(self, key: Seq<char>) -> Table<V> {
        Table {
            keys: if self.keys.contains(key) {
                self.keys.remove(self.keys.index_of(key))
            } else {
                self.keys
            },
            map: self.map.remove(key),
        }
    }

    /// What `key` maps to, if anything.
    pub open spec fn get(self, key: Seq<char>) -> Option<V> {
        if self.map.contains_key(key) {
            Some(self.map[key])
        } else {
            None
        }
    }
}

impl<V> Table<V> {
    /// The last of two changes to one entry counts.
    pub proof fn lemma_put_put(self, key: Seq<char>, a: V, b: V)
        ensures
            self.put(key, a).put(key, b) == self.put(key, b),
    {
        let t = self.put(key, a);
        if !self.keys.contains(key) {
            assert(t.keys[t.keys.len() - 1] == key);
        }
        assert(t.keys.contains(key));
        assert(t.put(key, b).map =~= self.put(key, b).map);
    }

    /// Mapping a name to what it maps to changes nothing.
    pub proof fn lemma_put_same(self, key: Seq<char>)
        requires
            self.wf(),
            self.map.contains_key(key),
        ensures
            self.put(key, self.map[key]) == self,
    {
        assert(self.put(key, self.map[key]).map =~= self.map);
    }
}

/// Tables stay well-formed when entries change.
pub proof fn lemma_table_put_wf<V>(t: Table<V>, k: Seq<char>, v: V)
    requires
        t.wf(),
    ensures
        t.put(k, v).wf(),
{
    let u = t.put(k, v);
    assert forall|x: Seq<char>| #[trigger] u.map.contains_key(x) <==> u.keys.contains(x) by {
        if !t.keys.contains(k) {
            assert(u.keys[u.keys.len() - 1] == k);
            if t.keys.contains(x) {
                assert(u.keys[t.keys.index_of(x)] == x);
            }
        }
        assert(t.map.contains_key(x) <==> t.keys.contains(x));
    }
}

/// Tables stay well-formed when entries go.
pub proof fn lemma_table_del_wf<V>(t: Table<V>, k: Seq<char>)
    requires
        t.wf(),
    ensures
        t.del(k).wf(),
{
    let u = t.del(k);
    if t.keys.contains(k) {
        let i = t.keys.index_of(k);
        assert forall|x: Seq<char>| #[trigger] u.map.contains_key(x) <==> u.keys.contains(x) by {
            assert(t.map.contains_key(x) <==> t.keys.contains(x));
            if t.keys.contains(x) && x != k {
                let j = t.keys.index_of(x);
                if j < i {
                    assert(u.keys[j] == x);
                } else {
                    assert(u.keys[j - 1] == x);
                }
            }
            if u.keys.contains(x) {
                let j = u.keys.index_of(x);
                let m = if j < i {
                    j
                } else {
                    j + 1
                };
                assert(t.keys[m] == x);
                if x == k {
                    assert(t.keys[m] == t.keys[i]);
                }
            }
        }
    } else {
        assert(!t.map.contains_key(k));
        assert(u.map =~= t.map);
    }
}

/// The characters of each name.
pub open spec fn name_views(names: Seq<String>) -> Seq<Seq<char>> {
    names.map_values(|s: String| s@)
}

/// **Tables keep what was put last.** A name maps to what was put under it last, and to
/// nothing once it was taken out; other names keep what they have. New names go to the end,
/// and names that stay keep their order.
pub proof fn law_tables_keep_what_was_put_last<V>(
    t: Table<V>,
    key: Seq<char>,
    value: V,
    other: Seq<char>,
)
    requires
        t.wf(),
        other != key,
    ensures
        Table::<V>::empty().get(key) is None,
        t.put(key, value).get(key) == Some(value),
        t.put(key, value).get(other) == t.get(other),
        t.get(key) is None ==> t.put(key, value).keys == t.keys.push(key),
        t.get(key) is Some ==> t.put(key, value).keys == t.keys,
        t.del(key).get(key) is None,
        t.del(key).get(other) == t.get(other),
        t.get(key) is None ==> t.del(key).keys == t.keys,
        t.get(key) is Some ==> exists|i: int|
            0 <= i < t.keys.len() && #[trigger] t.keys[i] == key && t.del(key).keys
                == t.keys.remove(i),
{
    if t.get(key) is Some {
        let i = t.keys.index_of(key);
        assert(t.keys[i] == key);
    }
}

/// A map from lock names to values that keeps insertion order.
pub struct LockMap<V> {
    names: Vec<String>,
    values: Vec<V>,
}

impl<V: View> View for LockMap<V> {
    type V = Table<V::V>;

    closed spec fn view(&self) -> Table<V::V> {
        columns(self.names@, self.values@)
    }
}

/// The table with the given names and values.
spec fn columns<V: View>(names: Seq<String>, values: Seq<V>) -> Table<V::V> {
    Table {
        keys: name_views(names),
        map: Map::new(
            |k: Seq<char>| name_views(names).contains(k),
            |k: Seq<char>| values[name_views(names).index_of(k)]@,
        ),
    }
}

/// Changing one value changes what its name maps to.
proof fn lemma_update<V: View>(names: Seq<String>, values: Seq<V>, i: int, v: V)
    requires
        names.len() == values.len(),
        name_views(names).no_duplicates(),
        0 <= i < names.len(),
    ensures
        columns(names, values.update(i, v)) == columns(names, values).put(names[i]@, v@),
{
    let keys = name_views(names);
    assert(keys[i] == names[i]@);
    assert(columns(names, values.update(i, v)).map =~= columns(names, values).map.insert(
        names[i]@,
        v@,
    )) by {
        assert forall|k: Seq<char>| keys.contains(k) implies (keys.index_of(k) == i <==> k
            == names[i]@) by {}
    }
}

impl<V: View> LockMap<V> {
    /// The two columns line up and no name occurs twice.
    pub closed spec fn wf(&self) -> bool {
        &&& self.names@.len() == self.values@.len()
        &&& name_views(self.names@).no_duplicates()
    }

    /// A well-formed map has a well-formed content.
    pub proof fn lemma_wf_view(&self)
        requires
            self.wf(),
        ensures
            self@.wf(),
    {
    }

    /// The map without entries.
    pub fn new() -> (m: Self)
        ensures
            m.wf(),
            m@ == Table::<V::V>::empty(),
    {
        let m = LockMap { names: Vec::new(), values: Vec::new() };
        proof {
            assert(m@.keys =~= Seq::empty());
            assert(m@.map =~= Map::empty());
        }
        m
    }

    /// The number of entries.
    pub fn len(&self) -> (n: usize)
        requires
            self.wf(),
        ensures
            n == self@.keys.len(),
    {
        self.names.len()
    }

    /// The position of `key`, if it is mapped.
    pub fn find(&self, key: &str) -> (r: Option<usize>)
        requires
            self.wf(),
        ensures
            match r {
                Some(i) => i < self@.keys.len() && self@.keys[i as int] == key@
                    && self@.map.contains_key(key@),
                None => !self@.map.contains_key(key@) && !self@.keys.contains(key@),
            },
    {
        let mut i: usize = 0;
        while i < self.names.len()
            invariant
                self.wf(),
                i <= self.names@.len(),
                forall|j: int| 0 <= j < i ==> #[trigger] self@.keys[j] != key@,
            decreases self.names@.len() - i,
        {
            if str_eq(self.names[i].as_str(), key) {
                assert(self@.keys[i as int] == key@);
                return Some(i);
            }
            i += 1;
        }
        assert(!self@.keys.contains(key@));
        None
    }

    /// The name at position `i`.
    pub fn name(&self, i: usize) -> (s: &String)
        requires
            self.wf(),
            i < self@.keys.len(),
        ensures
            s@ == self@.keys[i as int],
    {
        &self.names[i]
    }

    /// The value at position `i`.
    pub fn value(&self, i: usize) -> (v: &V)
        requires
            self.wf(),
            i < self@.keys.len(),
        ensures
            self@.map.contains_key(self@.keys[i as int]),
            v@ == self@.map[self@.keys[i as int]],
    {
        let v = &self.values[i];
        proof {
            assert(self@.keys.index_of(self@.keys[i as int]) == i);
        }
        v
    }

    /// The value at position `i`, to be changed in place.
    pub fn value_mut(&mut self, i: usize) -> (v: &mut V)
        requires
            old(self).wf(),
            i < old(self)@.keys.len(),
        ensures
            old(self)@.map.contains_key(old(self)@.keys[i as int]),
            v@ == old(self)@.map[old(self)@.keys[i as int]],
            final(self).wf(),
            final(self)@ == old(self)@.put(old(self)@.keys[i as int], (*final(v))@),
    {
        proof {
            assert(self@.keys.index_of(self@.keys[i as int]) == i);
            assert forall|w: V|
                columns(self.names@, #[trigger] self.values@.update(i as int, w)) == self@.put(
                    self@.keys[i as int],
                    w@,
                ) by {
                lemma_update(self.names@, self.values@, i as int, w);
            }
        }
        &mut self.values[i]
    }

    /// Map a name that is not in the map yet.
    pub fn push(&mut self, key: String, value: V)
        requires
            old(self).wf(),
            !old(self)@.keys.contains(key@),
        ensures
            final(self).wf(),
            final(self)@ == old(self)@.put(key@, value@),
    {
        let ghost before = self@;
        self.names.push(key);
        self.values.push(value);
        proof {
            let keys = self@.keys;
            assert(keys =~= before.keys.push(key@));
            assert(self.wf());
            assert(keys[keys.len() - 1] == key@);
            assert forall|k: Seq<char>| before.keys.contains(k) implies keys.contains(k)
                && keys.index_of(k) == before.keys.index_of(k) by {
                assert(keys[before.keys.index_of(k)] == k);
            }
            assert(self@.map =~= before.map.insert(key@, value@));
        }
    }

    /// Forget the entry at position `i` and return its value.
    pub fn remove_at(&mut self, i: usize) -> (v: V)
        requires
            old(self).wf(),
            i < old(self)@.keys.len(),
        ensures
            final(self).wf(),
            final(self)@ == old(self)@.del(old(self)@.keys[i as int]),
            final(self)@.keys == old(self)@.keys.remove(i as int),
            old(self)@.map.contains_key(old(self)@.keys[i as int]),
            v@ == old(self)@.map[old(self)@.keys[i as int]],
    {
        let ghost before = self@;
        let ghost key = self@.keys[i as int];
        assert(before.keys.index_of(key) == i);
        let _ = self.names.remove(i);
        let v = self.values.remove(i);
        proof {
            let keys = self@.keys;
            assert(keys =~= before.keys.remove(i as int));
            assert(self.wf());
            assert forall|k: Seq<char>| #[trigger] keys.contains(k) <==> (before.keys.contains(k)
                && k != key) by {
                if before.keys.contains(k) && k != key {
                    let j = before.keys.index_of(k);
                    if j < i {
                        assert(keys[j] == k);
                    } else {
                        assert(keys[j - 1] == k);
                    }
                }
            }
            assert forall|k: Seq<char>| keys.contains(k) implies self.values@[keys.index_of(k)]@
                == before.map[k] by {
                let j = before.keys.index_of(k);
                if j < i {
                    assert(keys[j] == k);
                } else {
                    assert(keys[j - 1] == k);
                }
            }
            assert(self@.map =~= before.map.remove(key));
        }
        v
    }

    /// Forget `key` and return what it mapped to.
    pub fn remove(&mut self, key: &str) -> (r: Option<V>)
        requires
            old(self).wf(),
        ensures
            final(self).wf(),
            final(self)@ == old(self)@.del(key@),
            match r {
                Some(v) => old(self)@.map.contains_key(key@) && v@ == old(self)@.map[key@],
                None => !old(self)@.map.contains_key(key@),
            },
    {
        match self.find(key) {
            Some(i) => Some(self.remove_at(i)),
            None => {
                assert(self@.map.remove(key@) =~= self@.map);
                None
            },
        }
    }

    /// Map `key` to `value`, whether or not it is mapped.
    pub fn set(&mut self, key: String, value: V)
        requires
            old(self).wf(),
        ensures
            final(self).wf(),
            final(self)@ == old(self)@.put(key@, value@),
    {
        match self.find(key.as_str()) {
            Some(i) => {
                *self.value_mut(i) = value;
            },
            None => {
                self.push(key, value);
            },
        }
    }
}

} // verus!
