//! The host's table store: for each table identifier, a mapping from key bytes
//! to value bytes.
use vstd::prelude::*;
use crate::codec::{extend_from_range, push_u32_le};
use crate::persist::{is_snapshot, is_stored_entry, lemma_persisted_key_split, pair_views, persisted_key};
use crate::keylist::{keys_fit_wire, lemma_key_list_round_trip, parse_keys, lemma_serialize_prefix_len, lemma_serialize_push, serialize_keys};

verus! {

/// Whether two byte strings are equal.
pub fn bytes_eq(a: &[u8], b: &[u8]) -> (r: bool)
    ensures
        r == (a@ == b@),
{
    if a.len() != b.len() {
        return false;
    }
    let mut i: usize = 0;
    while i < a.len()
        invariant
            a@.len() == b@.len(),
            0 <= i <= a@.len(),
            forall|j: int| 0 <= j < i ==> a@[j] == b@[j],
        decreases a@.len() - i,
    {
        if a[i] != b[i] {
            return false;
        }
        i = i + 1;
    }
    assert(a@ =~= b@);
    true
}

/// A fresh vector holding the bytes of `s`.
pub fn copy_bytes(s: &[u8]) -> (r: Vec<u8>)
    ensures
        r@ == s@,
{
    let mut r: Vec<u8> = Vec::new();
    extend_from_range(&mut r, s, 0, s.len());
    assert(s@.subrange(0, s@.len() as int) =~= s@);
    r
}

/// One key and its value.
pub struct Entry {
    key: Vec<u8>,
    value: Vec<u8>,
}

/// The entries of one table, in the order their keys first went in.
pub struct Table {
    id: u32,
    entries: Vec<Entry>,
}

/// What a request for a bounded key list finds.
pub enum Lookup {
    Found(Vec<u8>),
    NotFound,
    TooSmall,
}

spec fn keys_of_entries(es: Seq<Entry>) -> Seq<Seq<u8>> {
    Seq::new(es.len(), |i: int| es[i].key@)
}

spec fn entries_wf(es: Seq<Entry>) -> bool {
    &&& keys_of_entries(es).no_duplicates()
    &&& keys_fit_wire(keys_of_entries(es))
}

spec fn map_of_entries(es: Seq<Entry>) -> Map<Seq<u8>, Seq<u8>> {
    Map::new(
        |k: Seq<u8>| keys_of_entries(es).contains(k),
        |k: Seq<u8>| es[keys_of_entries(es).index_of(k)].value@,
    )
}

proof fn lemma_map_at(es: Seq<Entry>, i: int)
    requires
        entries_wf(es),
        0 <= i < es.len(),
    ensures
        map_of_entries(es).contains_key(es[i].key@),
        map_of_entries(es)[es[i].key@] == es[i].value@,
{
    let k = es[i].key@;
    assert(keys_of_entries(es)[i] == k);
    assert(keys_of_entries(es).contains(k));
    let j = keys_of_entries(es).index_of(k);
    assert(keys_of_entries(es)[j] == k);
}

/// `m` is the mapping of `es` when it agrees on the keys and on each entry.
proof fn lemma_map_equal(es: Seq<Entry>, m: Map<Seq<u8>, Seq<u8>>)
    requires
        entries_wf(es),
        forall|k: Seq<u8>| m.contains_key(k) <==> keys_of_entries(es).contains(k),
        forall|i: int| 0 <= i < es.len() ==> m[#[trigger] es[i].key@] == es[i].value@,
    ensures
        map_of_entries(es) == m,
{
    assert forall|k: Seq<u8>| #[trigger] m.contains_key(k) implies map_of_entries(es)[k] == m[k] by {
        let i = choose|i: int| 0 <= i < keys_of_entries(es).len() && keys_of_entries(es)[i] == k;
        lemma_map_at(es, i);
    }
    assert(map_of_entries(es) =~= m);
}

impl Table {
    spec fn key_seq(&self) -> Seq<Seq<u8>> {
        keys_of_entries(self.entries@)
    }

    spec fn wf(&self) -> bool {
        entries_wf(self.entries@)
    }

    spec fn map(&self) -> Map<Seq<u8>, Seq<u8>> {
        map_of_entries(self.entries@)
    }

    fn find(&self, key: &[u8]) -> (r: Option<usize>)
        ensures
            match r {
                Some(i) => i < self.entries@.len() && self.key_seq()[i as int] == key@,
                None => !self.key_seq().contains(key@),
            },
    {
        let mut i: usize = 0;
        while i < self.entries.len()
            invariant
                0 <= i <= self.entries@.len(),
                forall|j: int| 0 <= j < i ==> self.key_seq()[j] != key@,
            decreases self.entries@.len() - i,
        {
            if bytes_eq(self.entries[i].key.as_slice(), key) {
                return Some(i);
            }
            i = i + 1;
        }
        None
    }

    fn put(&mut self, key: &[u8], value: &[u8])
        requires
            old(self).wf(),
            key@.len() <= u32::MAX,
        ensures
            final(self).wf(),
            final(self).id == old(self).id,
            final(self).map() == old(self).map().insert(key@, value@),
    {
        let ghost old_es = self.entries@;
        let ghost old_keys = self.key_seq();
        let e = Entry { key: copy_bytes(key), value: copy_bytes(value) };
        match self.find(key) {
            Some(i) => {
                self.entries.set(i, e);
                assert(self.key_seq() =~= old_keys);
                assert(self.key_seq()[i as int] == key@);
                let ghost m = map_of_entries(old_es).insert(key@, value@);
                assert forall|j: int| 0 <= j < self.entries@.len() implies m[
                    #[trigger] self.entries@[j].key@] == self.entries@[j].value@ by {
                    if j != i {
                        lemma_map_at(old_es, j);
                        assert(old_keys[j] != old_keys[i as int]);
                    }
                }
            },
            None => {
                self.entries.push(e);
                assert(self.key_seq() =~= old_keys.push(key@));
                assert forall|k: Seq<u8>| #[trigger] self.key_seq().contains(k) <==> (
                old_keys.contains(k) || k == key@) by {
                    if old_keys.contains(k) {
                        let j = choose|j: int| 0 <= j < old_keys.len() && old_keys[j] == k;
                        assert(self.key_seq()[j] == k);
                    }
                    if k == key@ {
                        assert(self.key_seq()[old_keys.len() as int] == k);
                    }
                }
                let ghost m = map_of_entries(old_es).insert(key@, value@);
                assert forall|j: int| 0 <= j < self.entries@.len() implies m[
                    #[trigger] self.entries@[j].key@] == self.entries@[j].value@ by {
                    if j < old_es.len() {
                        lemma_map_at(old_es, j);
                        assert(old_keys[j] == old_es[j].key@);
                    }
                }
            },
        }
        proof {
            lemma_map_equal(self.entries@, map_of_entries(old_es).insert(key@, value@));
        }
    }

    fn remove_key(&mut self, key: &[u8])
        requires
            old(self).wf(),
        ensures
            final(self).wf(),
            final(self).id == old(self).id,
            final(self).map() == old(self).map().remove(key@),
    {
        let ghost old_es = self.entries@;
        let ghost old_keys = self.key_seq();
        match self.find(key) {
            Some(i) => {
                self.entries.remove(i);
                let ghost new_keys = self.key_seq();
                assert(new_keys =~= old_keys.remove(i as int));
                assert forall|a: int, b: int|
                    0 <= a < new_keys.len() && 0 <= b < new_keys.len() && a != b implies new_keys[a]
                    != new_keys[b] by {
                    let oa = if a < i { a } else { a + 1 };
                    let ob = if b < i { b } else { b + 1 };
                    assert(new_keys[a] == old_keys[oa]);
                    assert(new_keys[b] == old_keys[ob]);
                }
                assert forall|j: int| 0 <= j < new_keys.len() implies #[trigger] new_keys[j].len()
                    <= u32::MAX by {
                    let oj = if j < i { j } else { j + 1 };
                    assert(new_keys[j] == old_keys[oj]);
                }
                let ghost m = map_of_entries(old_es).remove(key@);
                assert forall|k: Seq<u8>| #[trigger] new_keys.contains(k) <==> (old_keys.contains(k)
                    && k != key@) by {
                    if new_keys.contains(k) {
                        let j = choose|j: int| 0 <= j < new_keys.len() && new_keys[j] == k;
                        let oj = if j < i { j } else { j + 1 };
                        assert(old_keys[oj] == k);
                        assert(oj != i);
                    }
                    if old_keys.contains(k) && k != key@ {
                        let oj = choose|j: int| 0 <= j < old_keys.len() && old_keys[j] == k;
                        let j = if oj < i { oj } else { oj - 1 };
                        assert(new_keys[j] == k);
                    }
                }
                assert forall|j: int| 0 <= j < self.entries@.len() implies m[
                    #[trigger] self.entries@[j].key@] == self.entries@[j].value@ by {
                    let oj = if j < i { j } else { j + 1 };
                    assert(self.entries@[j] == old_es[oj]);
                    lemma_map_at(old_es, oj);
                    assert(old_keys[oj] != old_keys[i as int]);
                }
                proof {
                    lemma_map_equal(self.entries@, m);
                }
            },
            None => {
                assert(map_of_entries(old_es).remove(key@) =~= map_of_entries(old_es));
            },
        }
    }

    /// The serialized key list, where it fits in `max_len` bytes.
    fn key_list(&self, max_len: usize) -> (r: Option<Vec<u8>>)
        requires
            self.wf(),
        ensures
            match r {
                Some(b) => b@ == serialize_keys(self.key_seq()) && b@.len() <= max_len,
                None => serialize_keys(self.key_seq()).len() > max_len,
            },
    {
        let ghost ks = self.key_seq();
        let mut out: Vec<u8> = Vec::new();
        let mut i: usize = 0;
        assert(ks.take(0) =~= Seq::<Seq<u8>>::empty());
        while i < self.entries.len()
            invariant
                self.wf(),
                ks == self.key_seq(),
                0 <= i <= self.entries@.len(),
                out@ == serialize_keys(ks.take(i as int)),
                out@.len() <= max_len,
            decreases self.entries@.len() - i,
        {
            let k = &self.entries[i].key;
            assert(ks[i as int] == k@);
            assert(ks.take(i as int).push(k@) =~= ks.take(i + 1));
            proof {
                lemma_serialize_push(ks.take(i as int), k@);
                lemma_serialize_prefix_len(ks, i + 1);
            }
            if max_len - out.len() < 4 || max_len - out.len() - 4 < k.len() {
                return None;
            }
            push_u32_le(&mut out, k.len() as u32);
            extend_from_range(&mut out, k.as_slice(), 0, k.len());
            assert(k@.subrange(0, k@.len() as int) =~= k@);
            i = i + 1;
        }
        assert(ks.take(i as int) =~= ks);
        Some(out)
    }
}

spec fn has_in(ts: Seq<Table>, t: u32) -> bool {
    exists|i: int| 0 <= i < ts.len() && ts[i].id == t
}

spec fn index_in(ts: Seq<Table>, t: u32) -> int {
    choose|i: int| 0 <= i < ts.len() && ts[i].id == t
}

spec fn table_in(ts: Seq<Table>, t: u32) -> Map<Seq<u8>, Seq<u8>> {
    if has_in(ts, t) {
        ts[index_in(ts, t)].map()
    } else {
        Map::empty()
    }
}

spec fn keys_in(ts: Seq<Table>, t: u32) -> Seq<Seq<u8>> {
    if has_in(ts, t) {
        ts[index_in(ts, t)].key_seq()
    } else {
        Seq::empty()
    }
}

spec fn tables_wf(ts: Seq<Table>) -> bool {
    &&& forall|i: int, j: int| 0 <= i < ts.len() && 0 <= j < ts.len() && i != j ==> ts[i].id != ts[j].id
    &&& forall|i: int| 0 <= i < ts.len() ==> (#[trigger] ts[i]).wf()
}

proof fn lemma_table_at(ts: Seq<Table>, i: int)
    requires
        tables_wf(ts),
        0 <= i < ts.len(),
    ensures
        has_in(ts, ts[i].id),
        table_in(ts, ts[i].id) == ts[i].map(),
        keys_in(ts, ts[i].id) == ts[i].key_seq(),
{
    let j = index_in(ts, ts[i].id);
    assert(ts[j].id == ts[i].id);
}

/// Replacing or adding the table of one identifier leaves every other table as it was.
proof fn lemma_frame(ts: Seq<Table>, ns: Seq<Table>, t: u32)
    requires
        tables_wf(ts),
        tables_wf(ns),
        forall|i: int| 0 <= i < ns.len() && ns[i].id != t ==> i < ts.len() && ns[i] == ts[i],
        forall|i: int| 0 <= i < ts.len() && ts[i].id != t ==> i < ns.len() && ns[i] == ts[i],
    ensures
        forall|u: u32| u != t ==> #[trigger] has_in(ns, u) == has_in(ts, u),
        forall|u: u32| u != t ==> #[trigger] table_in(ns, u) == table_in(ts, u),
        forall|u: u32| u != t ==> #[trigger] keys_in(ns, u) == keys_in(ts, u),
{
    assert forall|u: u32| u != t implies #[trigger] has_in(ns, u) == has_in(ts, u) && table_in(
        ns,
        u,
    ) == table_in(ts, u) && keys_in(ns, u) == keys_in(ts, u) by {
        if has_in(ts, u) {
            let j = index_in(ts, u);
            lemma_table_at(ts, j);
            lemma_table_at(ns, j);
        }
        if has_in(ns, u) {
            let j = index_in(ns, u);
            lemma_table_at(ns, j);
            lemma_table_at(ts, j);
        }
    }
}

/// Some pair of `out` stands under durable key `pk`.
spec fn covered(out: Seq<(Vec<u8>, Vec<u8>)>, pk: Seq<u8>) -> bool {
    exists|i: int| 0 <= i < out.len() && out[i].0@ == pk
}

/// The host's tables, each under its own identifier.
pub struct TableStore {
    tables: Vec<Table>,
}

impl View for TableStore {
    type V = Map<u32, Map<Seq<u8>, Seq<u8>>>;

    /// The entries of every table; a table with no entries maps to the empty mapping.
    open spec fn view(&self) -> Map<u32, Map<Seq<u8>, Seq<u8>>> {
        Map::new(|t: u32| true, |t: u32| self.table(t))
    }
}

impl TableStore {
    pub closed spec fn wf(&self) -> bool {
        tables_wf(self.tables@)
    }

    /// A table under `t` has been created (by a `set`), though it may now be empty.
    pub closed spec fn has_table(&self, t: u32) -> bool {
        has_in(self.tables@, t)
    }

    /// The entries of table `t`.
    pub closed spec fn table(&self, t: u32) -> Map<Seq<u8>, Seq<u8>> {
        table_in(self.tables@, t)
    }

    /// The keys of table `t` in the order the store lists them.
    pub closed spec fn keys_of(&self, t: u32) -> Seq<Seq<u8>> {
        keys_in(self.tables@, t)
    }

    /// The listed keys of a table are its keys, each once.
    pub proof fn lemma_keys_of(&self, t: u32)
        requires
            self.wf(),
        ensures
            self.keys_of(t).no_duplicates(),
            self.keys_of(t).to_set() == self.table(t).dom(),
            keys_fit_wire(self.keys_of(t)),
            self.keys_of(t).len() == self.table(t).len(),
            !self.has_table(t) ==> self.keys_of(t).len() == 0,
    {
        if has_in(self.tables@, t) {
            let i = index_in(self.tables@, t);
            let tbl = self.tables@[i];
            assert(tbl.wf());
            assert(self.keys_of(t) == tbl.key_seq());
            assert(self.keys_of(t).no_duplicates());
            assert(self.keys_of(t).to_set() =~= self.table(t).dom());
        } else {
            assert(self.keys_of(t) =~= Seq::<Seq<u8>>::empty());
            assert(self.keys_of(t).to_set() =~= self.table(t).dom());
            assert(self.keys_of(t).no_duplicates());
        }
        self.keys_of(t).unique_seq_to_set();
    }

    /// An empty store.
    pub fn new() -> (r: TableStore)
        ensures
            r.wf(),
            forall|t: u32| !r.has_table(t) && #[trigger] r.table(t) == Map::<Seq<u8>, Seq<u8>>::empty(),
    {
        TableStore { tables: Vec::new() }
    }

    fn find_table(&self, t: u32) -> (r: Option<usize>)
        requires
            self.wf(),
        ensures
            match r {
                Some(i) => i < self.tables@.len() && self.tables@[i as int].id == t,
                None => !self.has_table(t),
            },
    {
        let mut i: usize = 0;
        while i < self.tables.len()
            invariant
                0 <= i <= self.tables@.len(),
                forall|j: int| 0 <= j < i ==> self.tables@[j].id != t,
            decreases self.tables@.len() - i,
        {
            if self.tables[i].id == t {
                return Some(i);
            }
            i = i + 1;
        }
        None
    }

    /// Inserts or overwrites the value under `key` in table `t`, creating the table.
    pub fn set(&mut self, t: u32, key: &[u8], value: &[u8])
        requires
            old(self).wf(),
            key@.len() <= u32::MAX,
        ensures
            final(self).wf(),
            final(self).has_table(t),
            final(self).table(t) == old(self).table(t).insert(key@, value@),
            forall|u: u32|
                u != t ==> final(self).has_table(u) == old(self).has_table(u)
                    && #[trigger] final(self).table(u) == old(self).table(u)
                    && final(self).keys_of(u) == old(self).keys_of(u),
    {
        let ghost ts = self.tables@;
        match self.find_table(t) {
            Some(ti) => {
                let mut tbl = self.tables.remove(ti);
                proof {
                    lemma_table_at(ts, ti as int);
                }
                tbl.put(key, value);
                self.tables.insert(ti, tbl);
                assert(self.tables@ =~= ts.update(ti as int, tbl));
                assert(tables_wf(self.tables@));
                proof {
                    lemma_table_at(self.tables@, ti as int);
                }
            },
            None => {
                let mut tbl = Table { id: t, entries: Vec::new() };
                assert(tbl.map() =~= table_in(ts, t));
                tbl.put(key, value);
                self.tables.push(tbl);
                assert(self.tables@ =~= ts.push(tbl));
                assert(tables_wf(self.tables@));
                proof {
                    lemma_table_at(self.tables@, ts.len() as int);
                }
            },
        }
        proof {
            lemma_frame(ts, self.tables@, t);
        }
    }

    /// Removes the entry under `key` in table `t`, if there is one.
    pub fn delete(&mut self, t: u32, key: &[u8])
        requires
            old(self).wf(),
        ensures
            final(self).wf(),
            final(self).table(t) == old(self).table(t).remove(key@),
            forall|u: u32| final(self).has_table(u) == old(self).has_table(u),
            forall|u: u32|
                u != t ==> #[trigger] final(self).table(u) == old(self).table(u)
                    && final(self).keys_of(u) == old(self).keys_of(u),
    {
        let ghost ts = self.tables@;
        match self.find_table(t) {
            Some(ti) => {
                let mut tbl = self.tables.remove(ti);
                proof {
                    lemma_table_at(ts, ti as int);
                }
                tbl.remove_key(key);
                self.tables.insert(ti, tbl);
                assert(self.tables@ =~= ts.update(ti as int, tbl));
                assert(tables_wf(self.tables@));
                proof {
                    lemma_table_at(self.tables@, ti as int);
                }
            },
            None => {
                assert(Map::<Seq<u8>, Seq<u8>>::empty().remove(key@) =~= Map::<
                    Seq<u8>,
                    Seq<u8>,
                >::empty());
            },
        }
        proof {
            lemma_frame(ts, self.tables@, t);
            assert forall|u: u32| self.has_table(u) == has_in(ts, u) by {
                if u == t {
                    if has_in(ts, u) {
                        lemma_table_at(self.tables@, index_in(ts, u));
                    }
                    if self.has_table(u) {
                        lemma_table_at(ts, index_in(self.tables@, u));
                    }
                }
            }
        }
    }

    /// The value under `key` in table `t`.
    pub fn get(&self, t: u32, key: &[u8]) -> (r: Option<&Vec<u8>>)
        requires
            self.wf(),
        ensures
            match r {
                Some(v) => self.table(t).contains_key(key@) && v@ == self.table(t)[key@],
                None => !self.table(t).contains_key(key@),
            },
    {
        match self.find_table(t) {
            None => None,
            Some(ti) => {
                proof {
                    lemma_table_at(self.tables@, ti as int);
                }
                let tbl = &self.tables[ti];
                match tbl.find(key) {
                    None => None,
                    Some(i) => {
                        proof {
                            lemma_map_at(tbl.entries@, i as int);
                        }
                        Some(&tbl.entries[i].value)
                    },
                }
            },
        }
    }

    /// The number of entries in table `t`; 0 where there is no such table.
    pub fn size(&self, t: u32) -> (r: usize)
        requires
            self.wf(),
        ensures
            r == self.table(t).len(),
    {
        proof {
            self.lemma_keys_of(t);
        }
        match self.find_table(t) {
            None => 0,
            Some(ti) => {
                proof {
                    lemma_table_at(self.tables@, ti as int);
                }
                self.tables[ti].entries.len()
            },
        }
    }

    /// The serialized key list of table `t`, where it fits in `max_len` bytes.
    pub fn key_list(&self, t: u32, max_len: usize) -> (r: Lookup)
        requires
            self.wf(),
        ensures
            match r {
                Lookup::NotFound => !self.has_table(t),
                Lookup::TooSmall => self.has_table(t) && serialize_keys(self.keys_of(t)).len()
                    > max_len,
                Lookup::Found(b) => self.has_table(t) && b@ == serialize_keys(self.keys_of(t))
                    && b@.len() <= max_len,
            },
    {
        match self.find_table(t) {
            None => Lookup::NotFound,
            Some(ti) => {
                proof {
                    lemma_table_at(self.tables@, ti as int);
                }
                match self.tables[ti].key_list(max_len) {
                    Some(b) => Lookup::Found(b),
                    None => Lookup::TooSmall,
                }
            },
        }
    }

    /// Every entry of every table, each under its durable key: the table
    /// identifier's four little-endian bytes, then the entry's key.
    pub fn snapshot(&self) -> (r: Vec<(Vec<u8>, Vec<u8>)>)
        requires
            self.wf(),
        ensures
            is_snapshot(*self, pair_views(r@)),
    {
        let mut out: Vec<(Vec<u8>, Vec<u8>)> = Vec::new();
        let mut ti: usize = 0;
        while ti < self.tables.len()
            invariant
                self.wf(),
                0 <= ti <= self.tables@.len(),
                forall|i: int| 0 <= i < out@.len() ==> is_stored_entry(*self, #[trigger] pair_views(out@)[i]),
                forall|a: int, b: int|
                    0 <= a < ti && 0 <= b < self.tables@[a].entries@.len() ==> covered(
                        out@,
                        #[trigger] persisted_key(self.tables@[a].id, self.tables@[a].entries@[b].key@),
                    ),
            decreases self.tables@.len() - ti,
        {
            let tbl = &self.tables[ti];
            proof {
                lemma_table_at(self.tables@, ti as int);
            }
            let mut e: usize = 0;
            while e < tbl.entries.len()
                invariant
                    self.wf(),
                    0 <= ti < self.tables@.len(),
                    *tbl == self.tables@[ti as int],
                    0 <= e <= tbl.entries@.len(),
                    self.table(tbl.id) == tbl.map(),
                    forall|i: int| 0 <= i < out@.len() ==> is_stored_entry(*self, #[trigger] pair_views(out@)[i]),
                    forall|a: int, b: int|
                        0 <= a < ti && 0 <= b < self.tables@[a].entries@.len() ==> covered(
                            out@,
                            #[trigger] persisted_key(self.tables@[a].id, self.tables@[a].entries@[b].key@),
                        ),
                    forall|b: int|
                        0 <= b < e ==> covered(
                            out@,
                            #[trigger] persisted_key(tbl.id, tbl.entries@[b].key@),
                        ),
                decreases tbl.entries@.len() - e,
            {
                let ent = &tbl.entries[e];
                let mut pk: Vec<u8> = Vec::new();
                push_u32_le(&mut pk, tbl.id);
                extend_from_range(&mut pk, ent.key.as_slice(), 0, ent.key.len());
                assert(ent.key@.subrange(0, ent.key@.len() as int) =~= ent.key@);
                assert(pk@ == persisted_key(tbl.id, ent.key@));
                let v = copy_bytes(ent.value.as_slice());
                let ghost before = out@;
                out.push((pk, v));
                proof {
                    lemma_persisted_key_split(tbl.id, ent.key@);
                    lemma_map_at(tbl.entries@, e as int);
                    assert(is_stored_entry(*self, pair_views(out@)[before.len() as int]));
                    assert forall|i: int| 0 <= i < out@.len() implies is_stored_entry(*self, #[trigger] pair_views(out@)[i]) by {
                        if i < before.len() {
                            assert(pair_views(out@)[i] == pair_views(before)[i]);
                        }
                    }
                    assert forall|pk2: Seq<u8>| covered(before, pk2) implies #[trigger] covered(out@, pk2) by {
                        let i = choose|i: int| 0 <= i < before.len() && before[i].0@ == pk2;
                        assert(out@[i] == before[i]);
                    }
                    assert(out@[before.len() as int].0@ == persisted_key(tbl.id, ent.key@));
                    assert(covered(out@, persisted_key(tbl.id, ent.key@)));
                }
                e = e + 1;
            }
            ti = ti + 1;
        }
        proof {
            assert forall|t: u32, k: Seq<u8>| #[trigger] self.table(t).contains_key(k) implies exists|i: int|
                0 <= i < pair_views(out@).len() && #[trigger] pair_views(out@)[i].0 == persisted_key(t, k) by {
                let a = index_in(self.tables@, t);
                lemma_table_at(self.tables@, a);
                let tbl = self.tables@[a];
                let b = choose|b: int| 0 <= b < tbl.key_seq().len() && tbl.key_seq()[b] == k;
                assert(tbl.entries@[b].key@ == k);
                assert(covered(out@, persisted_key(self.tables@[a].id, self.tables@[a].entries@[b].key@)));
                let i = choose|i: int| 0 <= i < out@.len() && out@[i].0@ == persisted_key(t, k);
                assert(pair_views(out@)[i].0 == persisted_key(t, k));
            }
        }
        out
    }
}

/// The entries that inserting `vs[i]` under `ks[i]`, for each `i` in order,
/// gives when started from `m`.
pub open spec fn insert_all(
    m: Map<Seq<u8>, Seq<u8>>,
    ks: Seq<Seq<u8>>,
    vs: Seq<Seq<u8>>,
) -> Map<Seq<u8>, Seq<u8>>
    decreases ks.len(),
{
    if ks.len() == 0 || vs.len() == 0 {
        m
    } else {
        insert_all(m, ks.drop_last(), vs.drop_last()).insert(ks.last(), vs.last())
    }
}

proof fn lemma_insert_all(ks: Seq<Seq<u8>>, vs: Seq<Seq<u8>>)
    requires
        ks.no_duplicates(),
        ks.len() == vs.len(),
    ensures
        insert_all(Map::empty(), ks, vs).dom() == ks.to_set(),
        forall|i: int| 0 <= i < ks.len() ==> insert_all(Map::empty(), ks, vs)[#[trigger] ks[i]] == vs[i],
    decreases ks.len(),
{
    if ks.len() > 0 {
        let pk = ks.drop_last();
        let pv = vs.drop_last();
        assert(pk.no_duplicates()) by {
            assert forall|a: int, b: int| 0 <= a < pk.len() && 0 <= b < pk.len() && a != b implies pk[a] != pk[b] by {
                assert(pk[a] == ks[a] && pk[b] == ks[b]);
            }
        }
        lemma_insert_all(pk, pv);
        assert(ks.to_set() =~= pk.to_set().insert(ks.last())) by {
            assert forall|k: Seq<u8>| ks.to_set().contains(k) implies #[trigger] pk.to_set().insert(ks.last()).contains(k) by {
                let i = choose|i: int| 0 <= i < ks.len() && ks[i] == k;
                if i < pk.len() {
                    assert(pk[i] == k);
                }
            }
            assert forall|k: Seq<u8>| #[trigger] pk.to_set().insert(ks.last()).contains(k) implies ks.to_set().contains(k) by {
                if k != ks.last() {
                    let i = choose|i: int| 0 <= i < pk.len() && pk[i] == k;
                    assert(ks[i] == k);
                } else {
                    assert(ks[ks.len() - 1] == k);
                }
            }
        }
        assert forall|i: int| 0 <= i < ks.len() implies insert_all(Map::empty(), ks, vs)[#[trigger] ks[i]] == vs[i] by {
            if i < pk.len() {
                assert(pk[i] == ks[i]);
                assert(ks[i] != ks[ks.len() - 1]);
            }
        }
    } else {
        assert(ks.to_set() =~= Set::<Seq<u8>>::empty());
        assert(insert_all(Map::empty(), ks, vs).dom() =~= Set::<Seq<u8>>::empty());
    }
}

/// Deleting a key that a table lacks leaves the table, and so its size, as
/// it was.
pub proof fn lemma_delete_absent(s: TableStore, t: u32, k: Seq<u8>)
    requires
        s.wf(),
        !s.table(t).contains_key(k),
    ensures
        s.table(t).remove(k) == s.table(t),
        s.table(t).remove(k).len() == s.table(t).len(),
{
    assert(s.table(t).remove(k) =~= s.table(t));
}

/// After two writes under one key, a read of it gives the second value.
pub proof fn lemma_overwrite(s: TableStore, t: u32, k: Seq<u8>, v1: Seq<u8>, v2: Seq<u8>)
    requires
        s.wf(),
    ensures
        s.table(t).insert(k, v1).insert(k, v2).contains_key(k),
        s.table(t).insert(k, v1).insert(k, v2)[k] == v2,
        s.table(t).insert(k, v1).insert(k, v2) == s.table(t).insert(k, v2),
{
    assert(s.table(t).insert(k, v1).insert(k, v2) =~= s.table(t).insert(k, v2));
}

/// After writes under distinct keys into an empty table, the table lists
/// exactly those keys, its serialized key list parses back to that listing,
/// and each key reads back its value.
pub proof fn lemma_enumeration_complete(
    s: TableStore,
    t: u32,
    ks: Seq<Seq<u8>>,
    vs: Seq<Seq<u8>>,
)
    requires
        s.wf(),
        ks.no_duplicates(),
        ks.len() == vs.len(),
        s.table(t) == insert_all(Map::empty(), ks, vs),
    ensures
        s.keys_of(t).len() == ks.len(),
        s.keys_of(t).to_set() == ks.to_set(),
        parse_keys(serialize_keys(s.keys_of(t))) == Some(s.keys_of(t)),
        forall|i: int|
            0 <= i < ks.len() ==> s.table(t).contains_key(#[trigger] ks[i]) && s.table(t)[ks[i]]
                == vs[i],
{
    lemma_insert_all(ks, vs);
    s.lemma_keys_of(t);
    ks.unique_seq_to_set();
    lemma_key_list_round_trip(s.keys_of(t));
    assert forall|i: int| 0 <= i < ks.len() implies s.table(t).contains_key(#[trigger] ks[i]) by {
        assert(ks.to_set().contains(ks[i]));
    }
}

} // verus!
