//! The guest's view of an external table: a handle bound to one table
//! identifier whose reads, writes, length and enumeration become calls on the
//! host, with keys and values encoded on the way out and decoded on the way in.
use vstd::prelude::*;
use crate::codec::{
    decode_spec, deserialize_value, encode_spec, result_view, serialize_value, CodecError, Value,
    ValueView,
};
use crate::keylist::{lemma_key_list_round_trip, parse_key_list, parse_keys, serialize_keys, views};
use crate::store::{Lookup, TableStore};

verus! {

/// The five table calls that the host offers the guest.
pub trait TableHost {
    /// The host is in a state on which its calls are defined. A host that
    /// states nothing of its tables is never in such a state.
    open spec fn host_inv(&self) -> bool {
        false
    }

    /// The entries of table `t`.
    open spec fn view_table(&self, t: u32) -> Map<Seq<u8>, Seq<u8>> {
        Map::empty()
    }

    /// Inserts or overwrites the value under `key` in table `t`.
    fn ext_set(&mut self, t: u32, key: &[u8], value: &[u8])
        requires
            old(self).host_inv(),
            key@.len() <= u32::MAX,
        ensures
            final(self).host_inv(),
            final(self).view_table(t) == old(self).view_table(t).insert(key@, value@),
            forall|u: u32| u != t ==> #[trigger] final(self).view_table(u) == old(self).view_table(u),
    ;

    /// The value under `key` in table `t`.
    fn ext_get(&self, t: u32, key: &[u8]) -> (r: Option<Vec<u8>>)
        requires
            self.host_inv(),
        ensures
            match r {
                Some(v) => self.view_table(t).contains_key(key@) && v@ == self.view_table(t)[key@],
                None => !self.view_table(t).contains_key(key@),
            },
    ;

    /// Removes the entry under `key` in table `t`, if there is one.
    fn ext_delete(&mut self, t: u32, key: &[u8])
        requires
            old(self).host_inv(),
        ensures
            final(self).host_inv(),
            final(self).view_table(t) == old(self).view_table(t).remove(key@),
            forall|u: u32| u != t ==> #[trigger] final(self).view_table(u) == old(self).view_table(u),
    ;

    /// The number of entries in table `t`.
    fn ext_size(&self, t: u32) -> (r: usize)
        requires
            self.host_inv(),
        ensures
            r == self.view_table(t).len(),
    ;

    /// The serialized list of the keys of table `t`, each once; `None` where
    /// the list is too long to hand over.
    fn ext_keys(&self, t: u32) -> (r: Option<Vec<u8>>)
        requires
            self.host_inv(),
        ensures
            match r {
                Some(b) => parse_keys(b@) matches Some(ks) && ks.no_duplicates() && ks.to_set()
                    == self.view_table(t).dom(),
                None => self.view_table(t).len() > 0,
            },
    ;
}

impl TableHost for TableStore {
    open spec fn host_inv(&self) -> bool {
        self.wf()
    }

    open spec fn view_table(&self, t: u32) -> Map<Seq<u8>, Seq<u8>> {
        self.table(t)
    }

    fn ext_set(&mut self, t: u32, key: &[u8], value: &[u8]) {
        self.set(t, key, value);
    }

    fn ext_get(&self, t: u32, key: &[u8]) -> (r: Option<Vec<u8>>) {
        match self.get(t, key) {
            Some(v) => Some(crate::store::copy_bytes(v.as_slice())),
            None => None,
        }
    }

    fn ext_delete(&mut self, t: u32, key: &[u8]) {
        self.delete(t, key);
    }

    fn ext_size(&self, t: u32) -> (r: usize) {
        self.size(t)
    }

    fn ext_keys(&self, t: u32) -> (r: Option<Vec<u8>>) {
        proof {
            self.lemma_keys_of(t);
        }
        match self.key_list(t, usize::MAX) {
            Lookup::Found(b) => {
                proof {
                    lemma_key_list_round_trip(self.keys_of(t));
                }
                Some(b)
            },
            Lookup::NotFound => {
                assert(self.keys_of(t) =~= Seq::<Seq<u8>>::empty());
                assert(parse_keys(Seq::<u8>::empty()) == Some(Seq::<Seq<u8>>::empty()));
                let r: Vec<u8> = Vec::new();
                assert(r@ =~= Seq::<u8>::empty());
                Some(r)
            },
            Lookup::TooSmall => {
                proof {
                    if self.keys_of(t).len() == 0 {
                        assert(self.keys_of(t) =~= Seq::<Seq<u8>>::empty());
                        assert(serialize_keys(self.keys_of(t)).len() == 0);
                    }
                }
                None
            },
        }
    }
}

/// What reading `key` from a table with entries `m` gives.
pub open spec fn index_spec(m: Map<Seq<u8>, Seq<u8>>, key: ValueView) -> Result<
    ValueView,
    CodecError,
> {
    if !key.is_supported() {
        Err(CodecError::UnsupportedType)
    } else if m.contains_key(encode_spec(key)) {
        decode_spec(m[encode_spec(key)])
    } else {
        Ok(ValueView::Nil)
    }
}

/// The entries of a table after writing `value` under `key`, or `None` where
/// the write is refused.
pub open spec fn new_index_spec(m: Map<Seq<u8>, Seq<u8>>, key: ValueView, value: ValueView) -> Option<
    Map<Seq<u8>, Seq<u8>>,
> {
    if !key.is_supported() || !value.is_supported() {
        None
    } else if value is Nil {
        Some(m.remove(encode_spec(key)))
    } else {
        Some(m.insert(encode_spec(key), encode_spec(value)))
    }
}

/// The value's encoding fits the four-byte length of a wire key.
pub open spec fn fits_key(v: ValueView) -> bool {
    v.fits_wire() && encode_spec(v).len() <= u32::MAX
}

/// Why a table could not be enumerated.
#[derive(Clone, Copy, Debug, PartialEq, Eq, Structural)]
pub enum ProxyError {
    /// A stored key or value does not decode.
    Codec(CodecError),
    /// The key list is too long for the host to hand over.
    KeysTooLarge,
}

/// Decoding fails only on a malformed encoding.
proof fn lemma_decode_error(b: Seq<u8>)
    ensures
        decode_spec(b) is Err ==> decode_spec(b) == Err::<ValueView, CodecError>(
            CodecError::InvalidEncoding,
        ),
{
}

/// A guest-side handle on one external table.
pub struct TableProxy {
    table_id: u32,
}

impl TableProxy {
    /// The table this handle is bound to, for its whole life.
    pub closed spec fn id(&self) -> u32 {
        self.table_id
    }

    /// A handle bound to table `table_id`.
    pub fn new(table_id: u32) -> (r: TableProxy)
        ensures
            r.id() == table_id,
    {
        TableProxy { table_id }
    }

    /// The table identifier this handle is bound to.
    pub fn table_id(&self) -> (r: u32)
        ensures
            r == self.id(),
    {
        self.table_id
    }

    /// Reads `key`: `Nil` where the table holds no such key.
    pub fn index<H: TableHost>(&self, host: &H, key: &Value) -> (r: Result<Value, CodecError>)
        requires
            host.host_inv(),
            key@.fits_wire(),
        ensures
            result_view(r) == index_spec(host.view_table(self.id()), key@),
    {
        let k = serialize_value(key)?;
        match host.ext_get(self.table_id, k.as_slice()) {
            None => Ok(Value::Nil),
            Some(bytes) => deserialize_value(bytes.as_slice()),
        }
    }

    /// Writes `value` under `key`; writing `Nil` removes the key. Only this
    /// handle's table changes, and nothing changes where the write is refused.
    pub fn new_index<H: TableHost>(&self, host: &mut H, key: &Value, value: &Value) -> (r: Result<
        (),
        CodecError,
    >)
        requires
            old(host).host_inv(),
            fits_key(key@),
            value@.fits_wire(),
        ensures
            final(host).host_inv(),
            match new_index_spec(old(host).view_table(self.id()), key@, value@) {
                Some(m) => r is Ok && final(host).view_table(self.id()) == m,
                None => r == Err::<(), CodecError>(CodecError::UnsupportedType) && final(host).view_table(self.id()) == old(host).view_table(self.id()),
            },
            forall|u: u32|
                u != self.id() ==> #[trigger] final(host).view_table(u) == old(host).view_table(u),
    {
        let k = serialize_value(key)?;
        if let Value::Nil = value {
            host.ext_delete(self.table_id, k.as_slice());
            return Ok(());
        }
        let v = serialize_value(value)?;
        host.ext_set(self.table_id, k.as_slice(), v.as_slice());
        Ok(())
    }

    /// The number of entries of the table.
    pub fn len<H: TableHost>(&self, host: &H) -> (r: usize)
        requires
            host.host_inv(),
        ensures
            r == host.view_table(self.id()).len(),
    {
        host.ext_size(self.table_id)
    }

    /// Every key of the table with its value, both decoded, in the order the
    /// host lists the keys.
    pub fn pairs<H: TableHost>(&self, host: &H) -> (r: Result<Vec<(Value, Value)>, ProxyError>)
        requires
            host.host_inv(),
        ensures
            ({
                let m = host.view_table(self.id());
                match r {
                    Ok(ps) => exists|ks: Seq<Seq<u8>>|
                        #![trigger ks.to_set()]
                        ks.no_duplicates() && ks.to_set() == m.dom() && ks.len() == ps@.len()
                            && forall|i: int|
                            0 <= i < ks.len() ==> decode_spec(#[trigger] ks[i]) == Ok::<
                                ValueView,
                                CodecError,
                            >(ps@[i].0@) && decode_spec(m[ks[i]]) == Ok::<ValueView, CodecError>(
                                ps@[i].1@,
                            ),
                    Err(ProxyError::KeysTooLarge) => m.len() > 0,
                    Err(ProxyError::Codec(e)) => e == CodecError::InvalidEncoding && exists|k: Seq<u8>|
                        #[trigger] m.contains_key(k) && (decode_spec(k) is Err || decode_spec(
                            m[k],
                        ) is Err),
                }
            }),
    {
        let list = match host.ext_keys(self.table_id) {
            Some(list) => list,
            None => {
                return Err(ProxyError::KeysTooLarge);
            },
        };
        let ghost m = host.view_table(self.table_id);
        let ghost ks = parse_keys(list@)->0;
        let keys = match parse_key_list(list.as_slice()) {
            Some(keys) => keys,
            None => {
                return Ok(Vec::new());
            },
        };
        assert(views(keys@) == ks);
        let mut out: Vec<(Value, Value)> = Vec::new();
        let mut i: usize = 0;
        while i < keys.len()
            invariant
                host.host_inv(),
                m == host.view_table(self.table_id),
                views(keys@) == ks,
                ks.no_duplicates(),
                ks.to_set() == m.dom(),
                0 <= i <= keys@.len(),
                out@.len() == i,
                forall|j: int|
                    0 <= j < i ==> decode_spec(#[trigger] ks[j]) == Ok::<ValueView, CodecError>(
                        out@[j].0@,
                    ) && decode_spec(m[ks[j]]) == Ok::<ValueView, CodecError>(out@[j].1@),
            decreases keys@.len() - i,
        {
            let kb = &keys[i];
            assert(ks[i as int] == kb@);
            assert(ks.to_set().contains(kb@));
            let key = match deserialize_value(kb.as_slice()) {
                Ok(v) => v,
                Err(e) => {
                    proof {
                        lemma_decode_error(kb@);
                        assert(self.id() == self.table_id);
                        assert(host.view_table(self.id()).contains_key(kb@));
                    }
                    return Err(ProxyError::Codec(e));
                },
            };
            let vb = match host.ext_get(self.table_id, kb.as_slice()) {
                Some(vb) => vb,
                None => {
                    return Ok(Vec::new());
                },
            };
            let value = match deserialize_value(vb.as_slice()) {
                Ok(v) => v,
                Err(e) => {
                    proof {
                        lemma_decode_error(vb@);
                        assert(self.id() == self.table_id);
                        assert(host.view_table(self.id()).contains_key(kb@));
                    }
                    return Err(ProxyError::Codec(e));
                },
            };
            out.push((key, value));
            i = i + 1;
        }
        assert(ks.len() == out@.len());
        Ok(out)
    }
}

/// Hands out table identifiers: 1, 2, 3, and so on, never 0 and never one twice.
pub struct TableIdAllocator {
    next: u64,
}

impl TableIdAllocator {
    /// The identifier the next allocation hands out, while one is left.
    pub closed spec fn next_id(&self) -> nat {
        self.next as nat
    }

    pub closed spec fn wf(&self) -> bool {
        1 <= self.next <= u32::MAX + 1
    }

    /// An allocator whose first identifier is 1.
    pub fn new() -> (r: TableIdAllocator)
        ensures
            r.wf(),
            r.next_id() == 1,
    {
        TableIdAllocator { next: 1 }
    }

    /// The next identifier, or `None` once all of them have been handed out.
    pub fn allocate(&mut self) -> (r: Option<u32>)
        requires
            old(self).wf(),
        ensures
            final(self).wf(),
            old(self).next_id() <= u32::MAX ==> r == Some(old(self).next_id() as u32) && final(self).next_id() == old(self).next_id() + 1,
            old(self).next_id() > u32::MAX ==> r is None && final(self).next_id() == old(self).next_id(),
    {
        if self.next > u32::MAX as u64 {
            None
        } else {
            let id = self.next as u32;
            self.next = self.next + 1;
            Some(id)
        }
    }
}

} // verus!
