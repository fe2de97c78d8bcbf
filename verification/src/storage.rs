//! The persisted name-to-offset store: an ordered mapping with upsert
//! semantics, kept unique by name, together with its text form.
//!
//! Reading and writing the backing file is I/O and happens outside the
//! library; `dump_data` and `load` only turn the mapping into its text
//! and back.

use vstd::prelude::*;

use crate::codec::{
    entries_view, map_text, parse_storage, render_storage, sp_map, unique_keys, values_in_range,
};
use crate::strutil::str_eq;

verus! {

/// Whether some entry of `m` carries the name `k`.
pub open spec fn has_key(m: Seq<(Seq<char>, int)>, k: Seq<char>) -> bool {
    exists|i: int| 0 <= i < m.len() && (#[trigger] m[i]).0 == k
}

/// The position of the first entry named `k`.
pub open spec fn key_index(m: Seq<(Seq<char>, int)>, k: Seq<char>) -> int
    decreases m.len(),
{
    if m.len() == 0 {
        0
    } else if m[0].0 == k {
        0
    } else {
        1 + key_index(m.drop_first(), k)
    }
}

/// Insert-or-overwrite by name: an existing entry keeps its place and
/// takes the new value, a new name goes to the end.
pub open spec fn upsert_model(
    m: Seq<(Seq<char>, int)>,
    k: Seq<char>,
    v: int,
) -> Seq<(Seq<char>, int)> {
    if has_key(m, k) {
        m.update(key_index(m, k), (k, v))
    } else {
        m.push((k, v))
    }
}

/// Removal by name: an absent name changes nothing.
pub open spec fn remove_model(m: Seq<(Seq<char>, int)>, k: Seq<char>) -> Seq<(Seq<char>, int)> {
    if has_key(m, k) {
        m.remove(key_index(m, k))
    } else {
        m
    }
}

/// The first entry named `k` is at `key_index`, and no entry before it
/// carries that name.
pub proof fn lemma_key_index(m: Seq<(Seq<char>, int)>, k: Seq<char>)
    requires
        has_key(m, k),
    ensures
        0 <= key_index(m, k) < m.len(),
        m[key_index(m, k)].0 == k,
        forall|j: int| 0 <= j < key_index(m, k) ==> (#[trigger] m[j]).0 != k,
    decreases m.len(),
{
    if m[0].0 == k {
    } else {
        let m2 = m.drop_first();
        assert(has_key(m2, k)) by {
            let i = choose|i: int| 0 <= i < m.len() && (#[trigger] m[i]).0 == k;
            assert(i >= 1);
            assert(m2[i - 1] == m[i]);
        }
        lemma_key_index(m2, k);
        assert(m[key_index(m, k)] == m2[key_index(m2, k)]);
        assert(forall|j: int| 1 <= j < key_index(m, k) ==> (#[trigger] m[j]) == m2[j - 1]);
    }
}

/// Two mappings with the same names in the same places agree on
/// `has_key` and `key_index`.
proof fn lemma_key_index_same_keys(m1: Seq<(Seq<char>, int)>, m2: Seq<(Seq<char>, int)>, k: Seq<
    char,
>)
    requires
        m1.len() == m2.len(),
        forall|i: int| 0 <= i < m1.len() ==> (#[trigger] m1[i]).0 == (#[trigger] m2[i]).0,
    ensures
        has_key(m1, k) == has_key(m2, k),
        key_index(m1, k) == key_index(m2, k),
    decreases m1.len(),
{
    if m1.len() == 0 {
    } else {
        assert(m1[0].0 == m2[0].0);
        assert forall|i: int| 0 <= i < m1.drop_first().len() implies (#[trigger] m1.drop_first()[
            i
        ]).0 == (#[trigger] m2.drop_first()[i]).0 by {
            assert(m1.drop_first()[i] == m1[i + 1]);
            assert(m2.drop_first()[i] == m2[i + 1]);
        }
        lemma_key_index_same_keys(m1.drop_first(), m2.drop_first(), k);
        if has_key(m1, k) {
            let i = choose|i: int| 0 <= i < m1.len() && (#[trigger] m1[i]).0 == k;
            assert(m2[i].0 == k);
        }
        if has_key(m2, k) {
            let i = choose|i: int| 0 <= i < m2.len() && (#[trigger] m2[i]).0 == k;
            assert(m1[i].0 == k);
        }
        if m1[0].0 != k {
            if has_key(m1, k) {
                let i = choose|i: int| 0 <= i < m1.len() && (#[trigger] m1[i]).0 == k;
                assert(i >= 1);
                assert(m1.drop_first()[i - 1].0 == k);
            }
            if has_key(m2, k) {
                let i = choose|i: int| 0 <= i < m2.len() && (#[trigger] m2[i]).0 == k;
                assert(i >= 1);
                assert(m2.drop_first()[i - 1].0 == k);
            }
        }
    }
}

/// Upserting keeps names unique.
pub proof fn lemma_upsert_wf(m: Seq<(Seq<char>, int)>, k: Seq<char>, v: int)
    requires
        unique_keys(m),
    ensures
        unique_keys(upsert_model(m, k, v)),
{
    if has_key(m, k) {
        lemma_key_index(m, k);
        let r = m.update(key_index(m, k), (k, v));
        assert forall|i: int, j: int| 0 <= i < j < r.len() implies (#[trigger] r[i]).0 != (
        #[trigger] r[j]).0 by {
            assert(r[i].0 == m[i].0);
            assert(r[j].0 == m[j].0);
        }
    } else {
        let r = m.push((k, v));
        assert forall|i: int, j: int| 0 <= i < j < r.len() implies (#[trigger] r[i]).0 != (
        #[trigger] r[j]).0 by {
            if j < m.len() {
                assert(r[i].0 == m[i].0 && r[j].0 == m[j].0);
            } else {
                assert(r[j] == (k, v));
                assert(r[i] == m[i]);
                assert(!(m[i].0 == k));
            }
        }
    }
}

/// Removing keeps names unique.
pub proof fn lemma_remove_wf(m: Seq<(Seq<char>, int)>, k: Seq<char>)
    requires
        unique_keys(m),
    ensures
        unique_keys(remove_model(m, k)),
{
    if has_key(m, k) {
        lemma_key_index(m, k);
        let x = key_index(m, k);
        let r = m.remove(x);
        assert forall|i: int, j: int| 0 <= i < j < r.len() implies (#[trigger] r[i]).0 != (
        #[trigger] r[j]).0 by {
            let i0 = if i < x {
                i
            } else {
                i + 1
            };
            let j0 = if j < x {
                j
            } else {
                j + 1
            };
            assert(r[i] == m[i0]);
            assert(r[j] == m[j0]);
        }
    }
}

/// Upserting the same name and value twice is the same as doing it
/// once.
pub proof fn lemma_upsert_idempotent(m: Seq<(Seq<char>, int)>, k: Seq<char>, v: int)
    requires
        unique_keys(m),
    ensures
        upsert_model(upsert_model(m, k, v), k, v) == upsert_model(m, k, v),
{
    let m1 = upsert_model(m, k, v);
    if has_key(m, k) {
        lemma_key_index(m, k);
        let x = key_index(m, k);
        assert(m1 == m.update(x, (k, v)));
        lemma_key_index_same_keys(m, m1, k);
        assert(has_key(m1, k) && key_index(m1, k) == x);
        assert(m1.update(x, (k, v)) =~= m1);
    } else {
        assert(m1 == m.push((k, v)));
        assert(m1[m.len() as int].0 == k);
        assert(has_key(m1, k));
        lemma_key_index(m1, k);
        assert(key_index(m1, k) == m.len()) by {
            let x = key_index(m1, k);
            if x < m.len() {
                assert(m[x] == m1[x]);
                assert(has_key(m, k));
            }
        }
        assert(m1.update(m.len() as int, (k, v)) =~= m1);
    }
}

/// Upserting a name twice with different values leaves exactly one
/// entry under that name, carrying the second value.
pub proof fn lemma_upsert_overwrite(m: Seq<(Seq<char>, int)>, k: Seq<char>, v1: int, v2: int)
    requires
        unique_keys(m),
    ensures
        ({
            let m2 = upsert_model(upsert_model(m, k, v1), k, v2);
            &&& unique_keys(m2)
            &&& has_key(m2, k)
            &&& m2[key_index(m2, k)] == (k, v2)
            &&& m2.len() == upsert_model(m, k, v1).len()
            &&& forall|i: int|
                0 <= i < m2.len() && i != key_index(m2, k) ==> (#[trigger] m2[i]).0 != k
        }),
{
    let m1 = upsert_model(m, k, v1);
    lemma_upsert_wf(m, k, v1);
    let x1 = if has_key(m, k) {
        key_index(m, k)
    } else {
        m.len() as int
    };
    if has_key(m, k) {
        lemma_key_index(m, k);
    }
    assert(m1[x1] == (k, v1));
    assert(has_key(m1, k));
    lemma_key_index(m1, k);
    let m2 = upsert_model(m1, k, v2);
    lemma_upsert_wf(m1, k, v2);
    assert(m2 == m1.update(key_index(m1, k), (k, v2)));
    assert(forall|i: int| 0 <= i < m1.len() ==> (#[trigger] m1[i]).0 == (#[trigger] m2[i]).0);
    lemma_key_index_same_keys(m1, m2, k);
    lemma_key_index(m2, k);
    assert(m2[key_index(m2, k)] == (k, v2));
    assert forall|i: int|
        0 <= i < m2.len() && i != key_index(m2, k) implies (#[trigger] m2[i]).0 != k by {
        if m2[i].0 == k {
            let x = key_index(m2, k);
            assert(m2[x].0 == k);
            if i < x {
                assert((m2[i]).0 != (m2[x]).0);
            } else {
                assert((m2[x]).0 != (m2[i]).0);
            }
        }
    }
}

/// The in-memory store: an ordered list of entries, unique by name,
/// exclusively owned by the controller.
pub struct Storage {
    items: Vec<(String, i64)>,
}

impl View for Storage {
    type V = Seq<(Seq<char>, int)>;

    closed spec fn view(&self) -> Seq<(Seq<char>, int)> {
        entries_view(self.items@)
    }
}

impl Storage {
    /// Names are unique.
    pub open spec fn wf(&self) -> bool {
        unique_keys(self@)
    }

    /// The stored values all fit their type.
    pub proof fn lemma_values_in_range(&self)
        ensures
            values_in_range(self@),
    {
    }

    /// An empty store.
    pub fn new() -> (r: Storage)
        ensures
            r@ =~= Seq::<(Seq<char>, int)>::empty(),
            r.wf(),
    {
        Storage { items: Vec::new() }
    }

    /// The position of the entry named `key`, if one exists.
    fn find_index(&self, key: &str) -> (r: Option<usize>)
        ensures
            match r {
                Some(i) => has_key(self@, key@) && i == key_index(self@, key@) && i < self@.len(),
                None => !has_key(self@, key@),
            },
    {
        let ghost m = self@;
        let n = self.items.len();
        let mut i: usize = 0;
        while i < n
            invariant
                n == self.items@.len(),
                m == self@,
                m.len() == n,
                0 <= i <= n,
                forall|j: int| 0 <= j < i ==> (#[trigger] m[j]).0 != key@,
            decreases n - i,
        {
            if str_eq(self.items[i].0.as_str(), key) {
                proof {
                    assert(m[i as int].0 == key@);
                    lemma_key_index_prefix(m, key@, i as int);
                }
                return Some(i);
            }
            proof {
                assert(m[i as int].0 == self.items@[i as int].0@);
            }
            i += 1;
        }
        None
    }

    /// Checks if the key passed in exists in the storage map.
    pub fn contains(&self, key: &str) -> (r: bool)
        ensures
            r == has_key(self@, key@),
    {
        match self.find_index(key) {
            Some(_) => true,
            None => false,
        }
    }

    /// Adds a key-value pair to the storage map.
    /// If the entry already exists, the value is overwritten.
    pub fn add(&mut self, key: &str, value: i64)
        requires
            old(self).wf(),
        ensures
            final(self).wf(),
            final(self)@ == upsert_model(old(self)@, key@, value as int),
    {
        let ghost m = self@;
        proof {
            lemma_upsert_wf(m, key@, value as int);
        }
        match self.find_index(key) {
            Some(i) => {
                proof {
                    lemma_key_index(m, key@);
                    assert(m[i as int].0 == key@);
                    assert(self.items@[i as int].0@ == key@);
                }
                let pair = self.items.remove(i);
                self.items.insert(i, (pair.0, value));
                proof {
                    assert(pair.0@ == key@);
                    assert(self@ =~= m.update(key_index(m, key@), (key@, value as int)));
                }
            },
            None => {
                self.items.push((key.to_owned(), value));
                proof {
                    assert(self@ =~= m.push((key@, value as int)));
                }
            },
        }
    }

    /// Removes a key-value pair from the storage map.
    /// If the entry doesn't exist, nothing is changed.
    pub fn remove(&mut self, key: &str)
        requires
            old(self).wf(),
        ensures
            final(self).wf(),
            final(self)@ == remove_model(old(self)@, key@),
    {
        let ghost m = self@;
        proof {
            lemma_remove_wf(m, key@);
        }
        match self.find_index(key) {
            Some(i) => {
                self.items.remove(i);
                proof {
                    assert(self@ =~= m.remove(key_index(m, key@)));
                }
            },
            None => {},
        }
    }

    /// Simply get all the items from the storage, as an owned snapshot
    /// whose mutation cannot touch the store.
    pub fn get_all(&self) -> (r: Vec<(String, i64)>)
        ensures
            entries_view(r@) == self@,
    {
        let n = self.items.len();
        let mut out: Vec<(String, i64)> = Vec::new();
        let mut i: usize = 0;
        while i < n
            invariant
                n == self.items@.len(),
                0 <= i <= n,
                out@.len() == i,
                forall|j: int|
                    0 <= j < i ==> (#[trigger] out@[j]).0@ == self.items@[j].0@ && out@[j].1
                        == self.items@[j].1,
            decreases n - i,
        {
            let name = self.items[i].0.clone();
            let offset = self.items[i].1;
            out.push((name, offset));
            i += 1;
        }
        proof {
            assert(entries_view(out@) =~= self@);
        }
        out
    }

    /// The storage map, serialized to its canonical text.
    pub fn dump_data(&self) -> (r: String)
        ensures
            r@ == map_text(self@),
    {
        render_storage(&self.items)
    }

    /// Reads a store back from its text; `None` on malformed text or
    /// on names that appear twice.
    pub fn load(s: &str) -> (r: Option<Storage>)
        ensures
            match sp_map(s@) {
                None => r is None,
                Some(m) => if unique_keys(m) {
                    r is Some && (r->0)@ == m && (r->0).wf()
                } else {
                    r is None
                },
            },
    {
        match parse_storage(s) {
            Some(items) => {
                let st = Storage { items };
                if st.check_unique() {
                    Some(st)
                } else {
                    None
                }
            },
            None => None,
        }
    }

    /// Whether no name appears twice.
    fn check_unique(&self) -> (r: bool)
        ensures
            r == unique_keys(self@),
    {
        let ghost m = self@;
        let n = self.items.len();
        let mut i: usize = 0;
        while i < n
            invariant
                n == self.items@.len(),
                m == self@,
                m.len() == n,
                0 <= i <= n,
                forall|a: int, b: int|
                    0 <= a < b < m.len() && a < i ==> (#[trigger] m[a]).0 != (#[trigger] m[b]).0,
            decreases n - i,
        {
            let mut j: usize = i + 1;
            while j < n
                invariant
                    n == self.items@.len(),
                    m == self@,
                    m.len() == n,
                    0 <= i < j <= n,
                    forall|b: int| i < b < j ==> (#[trigger] m[b]).0 != m[i as int].0,
                decreases n - j,
            {
                if str_eq(self.items[i].0.as_str(), self.items[j].0.as_str()) {
                    proof {
                        assert(m[i as int].0 == m[j as int].0);
                    }
                    return false;
                }
                proof {
                    assert(m[i as int].0 == self.items@[i as int].0@);
                    assert(m[j as int].0 == self.items@[j as int].0@);
                }
                j += 1;
            }
            i += 1;
        }
        true
    }

    /// Round trip: the text written by `dump_data` reads back as
    /// exactly the same mapping, for every well-formed store, the
    /// empty one included.
    pub proof fn lemma_round_trip(&self)
        requires
            self.wf(),
        ensures
            sp_map(map_text(self@)) == Some(self@),
    {
        self.lemma_values_in_range();
        crate::codec::lemma_parse_render(self@);
    }
}

/// If no earlier entry matches and entry `i` does, then `i` is the
/// first match.
pub proof fn lemma_key_index_prefix(m: Seq<(Seq<char>, int)>, k: Seq<char>, i: int)
    requires
        0 <= i < m.len(),
        m[i].0 == k,
        forall|j: int| 0 <= j < i ==> (#[trigger] m[j]).0 != k,
    ensures
        has_key(m, k),
        key_index(m, k) == i,
    decreases m.len(),
{
    if i == 0 {
    } else {
        assert(m[0].0 != k);
        let m2 = m.drop_first();
        assert(m2[i - 1] == m[i]);
        assert forall|j: int| 0 <= j < i - 1 implies (#[trigger] m2[j]).0 != k by {
            assert(m2[j] == m[j + 1]);
        }
        lemma_key_index_prefix(m2, k, i - 1);
    }
}

} // verus!
