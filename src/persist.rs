//! Snapshots of the table store for a durable byte-keyed store, and restoring
//! from one. A durable key is the table identifier's four little-endian bytes
//! followed by the entry's key.
use vstd::prelude::*;
use crate::codec::{extend_from_range, le_u32, lemma_u32_le_round_trip, read_u32_le, u32_le};
use crate::store::TableStore;

verus! {

/// Why a durable store could not be loaded.
#[derive(Clone, Copy, Debug, PartialEq, Eq, Structural)]
pub enum PersistError {
    /// A durable key is shorter than the four bytes of a table identifier.
    CorruptKey,
}

/// The durable key of entry `k` of table `t`.
pub open spec fn persisted_key(t: u32, k: Seq<u8>) -> Seq<u8> {
    u32_le(t) + k
}

/// The table identifier at the front of a durable key.
pub open spec fn key_table(pk: Seq<u8>) -> u32 {
    le_u32(pk.subrange(0, 4))
}

/// The entry key after the table identifier of a durable key.
pub open spec fn key_rest(pk: Seq<u8>) -> Seq<u8> {
    pk.subrange(4, pk.len() as int)
}

/// The byte strings held by a sequence of pairs of vectors.
pub open spec fn pair_views(items: Seq<(Vec<u8>, Vec<u8>)>) -> Seq<(Seq<u8>, Seq<u8>)> {
    Seq::new(items.len(), |i: int| (items[i].0@, items[i].1@))
}

/// A store in which no table has an entry.
pub open spec fn no_entries() -> Map<u32, Map<Seq<u8>, Seq<u8>>> {
    Map::new(|t: u32| true, |t: u32| Map::<Seq<u8>, Seq<u8>>::empty())
}

/// The tables that loading `items` in order into an empty store gives.
pub open spec fn load_spec(items: Seq<(Seq<u8>, Seq<u8>)>) -> Map<u32, Map<Seq<u8>, Seq<u8>>>
    decreases items.len(),
{
    if items.len() == 0 {
        no_entries()
    } else {
        let m = load_spec(items.drop_last());
        let pk = items.last().0;
        m.insert(key_table(pk), m[key_table(pk)].insert(key_rest(pk), items.last().1))
    }
}

/// The pair is an entry of `s` under its durable key.
pub open spec fn is_stored_entry(s: TableStore, item: (Seq<u8>, Seq<u8>)) -> bool {
    &&& item.0.len() >= 4
    &&& s.table(key_table(item.0)).contains_key(key_rest(item.0))
    &&& s.table(key_table(item.0))[key_rest(item.0)] == item.1
}

/// `items` lists every entry of `s` under its durable key, and nothing else.
pub open spec fn is_snapshot(s: TableStore, items: Seq<(Seq<u8>, Seq<u8>)>) -> bool {
    &&& forall|i: int| 0 <= i < items.len() ==> is_stored_entry(s, #[trigger] items[i])
    &&& forall|t: u32, k: Seq<u8>|
        #[trigger] s.table(t).contains_key(k) ==> exists|i: int|
            0 <= i < items.len() && #[trigger] items[i].0 == persisted_key(t, k)
}

/// A durable key splits back into its table identifier and entry key.
pub proof fn lemma_persisted_key_split(t: u32, k: Seq<u8>)
    ensures
        key_table(persisted_key(t, k)) == t,
        key_rest(persisted_key(t, k)) == k,
        persisted_key(t, k).len() >= 4,
{
    lemma_u32_le_round_trip(t);
    assert(persisted_key(t, k).subrange(0, 4) =~= u32_le(t));
    assert(key_rest(persisted_key(t, k)) =~= k);
}

/// What loading a list of stored entries gives: exactly the listed keys, each
/// with its value in `s`.
pub proof fn lemma_load_stored_entries(s: TableStore, items: Seq<(Seq<u8>, Seq<u8>)>)
    requires
        forall|i: int| 0 <= i < items.len() ==> is_stored_entry(s, #[trigger] items[i]),
    ensures
        forall|t: u32| #[trigger] load_spec(items).contains_key(t),
        forall|t: u32, k: Seq<u8>|
            #[trigger] load_spec(items)[t].contains_key(k) <==> exists|i: int|
                0 <= i < items.len() && key_table(items[i].0) == t && key_rest(items[i].0) == k,
        forall|t: u32, k: Seq<u8>|
            #[trigger] load_spec(items)[t].contains_key(k) ==> load_spec(items)[t][k] == s.table(
                t,
            )[k],
    decreases items.len(),
{
    if items.len() > 0 {
        let prev = items.drop_last();
        assert forall|i: int| 0 <= i < prev.len() implies is_stored_entry(s, #[trigger] prev[i]) by {
            assert(prev[i] == items[i]);
        }
        lemma_load_stored_entries(s, prev);
        let last = items.last();
        assert(is_stored_entry(s, items[items.len() - 1]));
        let m = load_spec(items);
        let pm = load_spec(prev);
        let t0 = key_table(last.0);
        let k0 = key_rest(last.0);
        assert(m == pm.insert(t0, pm[t0].insert(k0, last.1)));
        assert forall|t: u32| #[trigger] m.contains_key(t) by {
            assert(pm.contains_key(t));
        }
        assert forall|t: u32, k: Seq<u8>| #[trigger] m[t].contains_key(k) implies m[t][k]
            == s.table(t)[k] by {
            if t == t0 && k == k0 {
            } else if t == t0 {
                assert(m[t] == pm[t0].insert(k0, last.1));
                assert(pm[t].contains_key(k));
            } else {
                assert(m[t] == pm[t]);
            }
        }
        assert forall|t: u32, k: Seq<u8>| #[trigger] m[t].contains_key(k) == exists|i: int|
            0 <= i < items.len() && key_table(items[i].0) == t && key_rest(items[i].0) == k by {
            if load_spec(prev)[t].contains_key(k) {
                let i = choose|i: int|
                    0 <= i < prev.len() && key_table(prev[i].0) == t && key_rest(prev[i].0) == k;
                assert(items[i] == prev[i]);
            }
            if exists|i: int|
                0 <= i < items.len() && key_table(items[i].0) == t && key_rest(items[i].0) == k {
                let i = choose|i: int|
                    0 <= i < items.len() && key_table(items[i].0) == t && key_rest(items[i].0) == k;
                if i < prev.len() {
                    assert(items[i] == prev[i]);
                }
            }
        }
    } else {
        assert(load_spec(items) == no_entries());
    }
}

/// Restoring a snapshot of a store into an empty store gives back every
/// table's entries exactly.
pub proof fn lemma_persistence_round_trip(s: TableStore, items: Seq<(Seq<u8>, Seq<u8>)>)
    requires
        s.wf(),
        is_snapshot(s, items),
    ensures
        forall|i: int| 0 <= i < items.len() ==> 4 <= #[trigger] items[i].0.len() <= u32::MAX + 4,
        load_spec(items) == s@,
{
    assert forall|i: int| 0 <= i < items.len() implies 4 <= #[trigger] items[i].0.len() <= u32::MAX
        + 4 by {
        let pk = items[i].0;
        assert(is_stored_entry(s, items[i]));
        s.lemma_keys_of(key_table(pk));
        assert(s.keys_of(key_table(pk)).to_set().contains(key_rest(pk)));
        let j = choose|j: int|
            0 <= j < s.keys_of(key_table(pk)).len() && s.keys_of(key_table(pk))[j] == key_rest(pk);
        assert(s.keys_of(key_table(pk))[j].len() <= u32::MAX);
    }
    lemma_load_stored_entries(s, items);
    let m = load_spec(items);
    assert forall|t: u32| #[trigger] m[t] == s@[t] by {
        assert forall|k: Seq<u8>| #[trigger] m[t].contains_key(k) <==> s.table(t).contains_key(k) by {
            if s.table(t).contains_key(k) {
                let i = choose|i: int| 0 <= i < items.len() && #[trigger] items[i].0 == persisted_key(t, k);
                lemma_persisted_key_split(t, k);
            }
            if m[t].contains_key(k) {
                let i = choose|i: int|
                    0 <= i < items.len() && key_table(items[i].0) == t && key_rest(items[i].0) == k;
                assert(is_stored_entry(s, items[i]));
            }
        }
        assert(m[t] =~= s.table(t));
    }
    assert(m =~= s@);
}

impl TableStore {
    /// Replaces every table with those that `items` describe, each pair a
    /// durable key and its value; a later pair overwrites an earlier one with
    /// the same key. Fails, changing nothing, if a durable key is shorter than
    /// four bytes.
    pub fn restore(&mut self, items: &Vec<(Vec<u8>, Vec<u8>)>) -> (r: Result<(), PersistError>)
        requires
            old(self).wf(),
            forall|i: int| 0 <= i < items@.len() ==> #[trigger] items@[i].0@.len() <= u32::MAX + 4,
        ensures
            final(self).wf(),
            match r {
                Ok(()) => (forall|i: int| 0 <= i < items@.len() ==> #[trigger] items@[i].0@.len()
                    >= 4) && final(self)@ == load_spec(pair_views(items@)),
                Err(e) => e == PersistError::CorruptKey && (exists|i: int|
                    0 <= i < items@.len() && #[trigger] items@[i].0@.len() < 4) && final(self)@
                    == old(self)@,
            },
    {
        let mut i: usize = 0;
        while i < items.len()
            invariant
                0 <= i <= items@.len(),
                forall|j: int| 0 <= j < i ==> #[trigger] items@[j].0@.len() >= 4,
                self.wf(),
                self@ == old(self)@,
            decreases items@.len() - i,
        {
            if items[i].0.len() < 4 {
                assert(items@[i as int].0@.len() < 4);
                return Err(PersistError::CorruptKey);
            }
            i = i + 1;
        }
        let ghost views = pair_views(items@);
        *self = TableStore::new();
        assert(self@ =~= no_entries());
        assert(views.take(0) =~= Seq::<(Seq<u8>, Seq<u8>)>::empty());
        let mut i: usize = 0;
        while i < items.len()
            invariant
                0 <= i <= items@.len(),
                self.wf(),
                views == pair_views(items@),
                forall|j: int| 0 <= j < items@.len() ==> #[trigger] items@[j].0@.len() >= 4,
                forall|j: int| 0 <= j < items@.len() ==> #[trigger] items@[j].0@.len() <= u32::MAX + 4,
                self@ == load_spec(views.take(i as int)),
            decreases items@.len() - i,
        {
            let pk = &items[i].0;
            let t = read_u32_le(pk.as_slice(), 0);
            let mut key: Vec<u8> = Vec::new();
            extend_from_range(&mut key, pk.as_slice(), 4, pk.len());
            let ghost before = self@;
            self.set(t, key.as_slice(), items[i].1.as_slice());
            let ghost pre = views.take(i as int);
            assert(views.take(i + 1).drop_last() =~= pre);
            assert(views.take(i + 1).last() == views[i as int]);
            assert(pk@.subrange(0, 4) == views[i as int].0.subrange(0, 4));
            assert(self@ =~= before.insert(t, before[t].insert(key@, items@[i as int].1@)));
            i = i + 1;
        }
        assert(views.take(items@.len() as int) =~= views);
        Ok(())
    }
}

} // verus!
