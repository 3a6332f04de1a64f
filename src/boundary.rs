//! The host side of the numbered calls: each reads its key and value out of the
//! guest's linear memory, works on the table store, and writes results back
//! into a region that the guest names. Offsets and lengths come from the guest
//! and are checked by one helper before any byte is read or written.
use vstd::prelude::*;
use crate::codec::extend_from_range;
use crate::keylist::serialize_keys;
use crate::store::{Lookup, TableStore};

verus! {

/// Capacity of the guest's shared I/O buffer, in bytes.
pub const IO_BUFFER_SIZE: usize = 65536;

/// The wire code of a lookup that found nothing.
pub const CODE_NOT_FOUND: i32 = -1;

/// The wire code of a lookup whose result does not fit the caller's region.
pub const CODE_TOO_SMALL: i32 = -2;

/// The capacity of the shared I/O buffer.
pub fn get_buffer_size() -> (r: usize)
    ensures
        r == IO_BUFFER_SIZE,
{
    IO_BUFFER_SIZE
}

/// A guest-supplied offset or length reaches outside the guest's memory.
/// The call must not go on.
#[derive(Clone, Copy, Debug, PartialEq, Eq, Structural)]
pub struct BoundaryViolation;

/// What a call that writes back into guest memory did.
#[derive(Clone, Copy, Debug, PartialEq, Eq, Structural)]
pub enum Transfer {
    /// This many bytes were written at the start of the region.
    Written(i32),
    /// No such table or key; nothing was written.
    NotFound,
    /// The result is longer than the region; nothing was written.
    TooSmall,
}

impl Transfer {
    /// The integer that the call returns to the guest: the byte count, or a
    /// negative code.
    pub fn wire_code(&self) -> (r: i32)
        ensures
            match *self {
                Transfer::Written(n) => r == n,
                Transfer::NotFound => r == CODE_NOT_FOUND,
                Transfer::TooSmall => r == CODE_TOO_SMALL,
            },
    {
        match *self {
            Transfer::Written(n) => n,
            Transfer::NotFound => CODE_NOT_FOUND,
            Transfer::TooSmall => CODE_TOO_SMALL,
        }
    }

    /// The outcome that a wire code stands for; any other negative code reads
    /// as not found.
    pub fn from_wire_code(code: i32) -> (r: Transfer)
        ensures
            code >= 0 ==> r == Transfer::Written(code),
            code == CODE_TOO_SMALL ==> r == Transfer::TooSmall,
            code < 0 && code != CODE_TOO_SMALL ==> r == Transfer::NotFound,
    {
        if code >= 0 {
            Transfer::Written(code)
        } else if code == CODE_TOO_SMALL {
            Transfer::TooSmall
        } else {
            Transfer::NotFound
        }
    }
}

/// `[off, off + len)` lies inside a memory of `mem_len` bytes.
pub open spec fn in_bounds(mem_len: nat, off: i32, len: i32) -> bool {
    0 <= off && 0 <= len && off + len <= mem_len
}

/// The bytes of `mem` in `[off, off + len)`.
pub open spec fn region(mem: Seq<u8>, off: i32, len: i32) -> Seq<u8> {
    mem.subrange(off as int, off + len)
}

/// `mem` with `src` written from `at` on.
pub open spec fn overwrite(mem: Seq<u8>, at: int, src: Seq<u8>) -> Seq<u8> {
    mem.subrange(0, at) + src + mem.subrange(at + src.len(), mem.len() as int)
}

/// The one check that every guest-supplied range goes through.
pub fn check_range(mem_len: usize, off: i32, len: i32) -> (r: Result<(), BoundaryViolation>)
    ensures
        r is Ok <==> in_bounds(mem_len as nat, off, len),
{
    if off < 0 || len < 0 {
        return Err(BoundaryViolation);
    }
    if (off as usize) <= mem_len && (len as usize) <= mem_len - (off as usize) {
        Ok(())
    } else {
        Err(BoundaryViolation)
    }
}

/// A copy of the bytes of `mem` in a checked range.
fn read_region(mem: &[u8], off: i32, len: i32) -> (r: Vec<u8>)
    requires
        in_bounds(mem@.len(), off, len),
    ensures
        r@ == region(mem@, off, len),
{
    let mut r: Vec<u8> = Vec::new();
    extend_from_range(&mut r, mem, off as usize, off as usize + len as usize);
    r
}

/// Writes `src` into `mem` from `at` on.
fn write_region(mem: &mut [u8], at: usize, src: &[u8])
    requires
        at + src@.len() <= old(mem)@.len(),
        at + src@.len() <= usize::MAX,
    ensures
        final(mem)@ == overwrite(old(mem)@, at as int, src@),
{
    let mut i: usize = 0;
    while i < src.len()
        invariant
            at + src@.len() <= mem@.len(),
            at + src@.len() <= usize::MAX,
            mem@.len() == old(mem)@.len(),
            0 <= i <= src@.len(),
            forall|j: int| 0 <= j < at ==> mem@[j] == old(mem)@[j],
            forall|j: int| at + src@.len() <= j < mem@.len() ==> mem@[j] == old(mem)@[j],
            forall|j: int| at <= j < at + i ==> mem@[j] == src@[j - at],
        decreases src@.len() - i,
    {
        mem[at + i] = src[i];
        i = i + 1;
    }
    assert(mem@ =~= overwrite(old(mem)@, at as int, src@));
}

/// `table_set`: stores the value in `val_ptr..val_ptr + val_len` under the key in
/// `key_ptr..key_ptr + key_len` of table `table_id`, creating the table.
pub fn host_table_set(
    store: &mut TableStore,
    mem: &[u8],
    table_id: u32,
    key_ptr: i32,
    key_len: i32,
    val_ptr: i32,
    val_len: i32,
) -> (r: Result<(), BoundaryViolation>)
    requires
        old(store).wf(),
    ensures
        final(store).wf(),
        r is Ok <==> in_bounds(mem@.len(), key_ptr, key_len) && in_bounds(
            mem@.len(),
            val_ptr,
            val_len,
        ),
        r is Ok ==> final(store).has_table(table_id) && final(store)@ == old(store)@.insert(
            table_id,
            old(store)@[table_id].insert(
                region(mem@, key_ptr, key_len),
                region(mem@, val_ptr, val_len),
            ),
        ),
        r is Err ==> final(store)@ == old(store)@,
{
    check_range(mem.len(), key_ptr, key_len)?;
    check_range(mem.len(), val_ptr, val_len)?;
    let key = read_region(mem, key_ptr, key_len);
    let value = read_region(mem, val_ptr, val_len);
    let ghost before = store@;
    store.set(table_id, key.as_slice(), value.as_slice());
    assert(store@ =~= before.insert(table_id, before[table_id].insert(key@, value@)));
    Ok(())
}

/// `table_get`: writes the value under the key in `key_ptr..key_ptr + key_len`
/// of table `table_id` to `out_ptr`, where it fits in `max_len` bytes.
pub fn host_table_get(
    store: &TableStore,
    mem: &mut [u8],
    table_id: u32,
    key_ptr: i32,
    key_len: i32,
    out_ptr: i32,
    max_len: i32,
) -> (r: Result<Transfer, BoundaryViolation>)
    requires
        store.wf(),
    ensures
        r is Ok <==> in_bounds(old(mem)@.len(), key_ptr, key_len) && in_bounds(
            old(mem)@.len(),
            out_ptr,
            max_len,
        ),
        ({
            let m = store.table(table_id);
            let k = region(old(mem)@, key_ptr, key_len);
            match r {
                Ok(Transfer::Written(n)) => m.contains_key(k) && n == m[k].len() && n <= max_len
                    && final(mem)@ == overwrite(old(mem)@, out_ptr as int, m[k]),
                Ok(Transfer::NotFound) => !m.contains_key(k) && final(mem)@ == old(mem)@,
                Ok(Transfer::TooSmall) => m.contains_key(k) && m[k].len() > max_len && final(mem)@ == old(mem)@,
                Err(_) => final(mem)@ == old(mem)@,
            }
        }),
{
    check_range(mem.len(), key_ptr, key_len)?;
    check_range(mem.len(), out_ptr, max_len)?;
    let key = read_region(mem, key_ptr, key_len);
    match store.get(table_id, key.as_slice()) {
        None => Ok(Transfer::NotFound),
        Some(value) => {
            if value.len() > max_len as usize {
                Ok(Transfer::TooSmall)
            } else {
                write_region(mem, out_ptr as usize, value.as_slice());
                Ok(Transfer::Written(value.len() as i32))
            }
        },
    }
}

/// `table_delete`: removes the key in `key_ptr..key_ptr + key_len` from table
/// `table_id`; an absent table or key is no error.
pub fn host_table_delete(
    store: &mut TableStore,
    mem: &[u8],
    table_id: u32,
    key_ptr: i32,
    key_len: i32,
) -> (r: Result<(), BoundaryViolation>)
    requires
        old(store).wf(),
    ensures
        final(store).wf(),
        r is Ok <==> in_bounds(mem@.len(), key_ptr, key_len),
        r is Ok ==> final(store)@ == old(store)@.insert(
            table_id,
            old(store)@[table_id].remove(region(mem@, key_ptr, key_len)),
        ),
        r is Err ==> final(store)@ == old(store)@,
        forall|u: u32| #[trigger] final(store).has_table(u) == old(store).has_table(u),
{
    check_range(mem.len(), key_ptr, key_len)?;
    let key = read_region(mem, key_ptr, key_len);
    let ghost before = store@;
    store.delete(table_id, key.as_slice());
    assert(store@ =~= before.insert(table_id, before[table_id].remove(key@)));
    Ok(())
}

/// `table_size`: the number of entries of table `table_id`, at most `i32::MAX`.
pub fn host_table_size(store: &TableStore, table_id: u32) -> (r: i32)
    requires
        store.wf(),
    ensures
        r == if store@[table_id].len() <= i32::MAX {
            store@[table_id].len() as int
        } else {
            i32::MAX as int
        },
{
    let n = store.size(table_id);
    if n <= i32::MAX as usize {
        n as i32
    } else {
        i32::MAX
    }
}

/// `table_keys`: writes the serialized key list of table `table_id` to
/// `out_ptr`, where it fits in `max_len` bytes.
pub fn host_table_keys(
    store: &TableStore,
    mem: &mut [u8],
    table_id: u32,
    out_ptr: i32,
    max_len: i32,
) -> (r: Result<Transfer, BoundaryViolation>)
    requires
        store.wf(),
    ensures
        r is Ok <==> in_bounds(old(mem)@.len(), out_ptr, max_len),
        ({
            let list = serialize_keys(store.keys_of(table_id));
            match r {
                Ok(Transfer::Written(n)) => store.has_table(table_id) && n == list.len() && final(mem)@ == overwrite(old(mem)@, out_ptr as int, list),
                Ok(Transfer::NotFound) => !store.has_table(table_id) && final(mem)@ == old(mem)@,
                Ok(Transfer::TooSmall) => store.has_table(table_id) && list.len() > max_len
                    && final(mem)@ == old(mem)@,
                Err(_) => final(mem)@ == old(mem)@,
            }
        }),
{
    check_range(mem.len(), out_ptr, max_len)?;
    match store.key_list(table_id, max_len as usize) {
        Lookup::NotFound => Ok(Transfer::NotFound),
        Lookup::TooSmall => Ok(Transfer::TooSmall),
        Lookup::Found(list) => {
            write_region(mem, out_ptr as usize, list.as_slice());
            Ok(Transfer::Written(list.len() as i32))
        },
    }
}

} // verus!
