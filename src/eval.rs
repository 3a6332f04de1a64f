//! The reply of an evaluation as it crosses the boundary. On success the
//! buffer holds the captured output's four-byte little-endian length, the
//! output, then the encoded return value, and the call returns the byte count.
//! On failure it holds the error message, and the call returns minus the
//! message length, minus one.
use vstd::prelude::*;
use crate::codec::{
    decode_spec, deserialize_value, encode_spec, extend_from_range, le_u32, lemma_codec_round_trip,
    lemma_u32_le_round_trip, push_u32_le, read_u32_le, serialize_value, u32_le, CodecError, Value,
    ValueView,
};

verus! {

/// The bytes of a successful reply.
pub open spec fn success_spec(output: Seq<u8>, value: ValueView) -> Seq<u8> {
    u32_le(output.len() as u32) + output + encode_spec(value)
}

/// The call's result code for a reply of `len` bytes.
pub open spec fn code_spec(len: int, failed: bool) -> int {
    if failed {
        -len - 1
    } else {
        len
    }
}

/// A successful evaluation as the host reads it.
#[derive(Debug)]
pub struct EvalReply {
    pub output: Vec<u8>,
    pub value: Value,
}

/// Why an evaluation gave no value.
#[derive(Debug)]
pub enum EvalFailure {
    /// The script failed, with this message.
    Script(Vec<u8>),
    /// The result code or the buffer does not follow the reply layout.
    Malformed,
}

/// The buffer of a successful reply; fails where the value cannot be encoded.
pub fn success_reply(output: &[u8], value: &Value) -> (r: Result<Vec<u8>, CodecError>)
    requires
        output@.len() <= u32::MAX,
        value@.fits_wire(),
    ensures
        match r {
            Ok(b) => value@.is_supported() && b@ == success_spec(output@, value@),
            Err(e) => !value@.is_supported() && e == CodecError::UnsupportedType,
        },
{
    let v = serialize_value(value)?;
    let mut b: Vec<u8> = Vec::new();
    push_u32_le(&mut b, output.len() as u32);
    extend_from_range(&mut b, output, 0, output.len());
    assert(output@.subrange(0, output@.len() as int) =~= output@);
    extend_from_range(&mut b, v.as_slice(), 0, v.len());
    assert(v@.subrange(0, v@.len() as int) =~= v@);
    assert(b@ =~= success_spec(output@, value@));
    Ok(b)
}

/// The result code for a reply of `len` bytes.
pub fn result_code(len: usize, failed: bool) -> (r: i32)
    requires
        len < i32::MAX,
    ensures
        r == code_spec(len as int, failed),
{
    if failed {
        -(len as i32) - 1
    } else {
        len as i32
    }
}

/// Reads a reply from its result code and the buffer it was written to.
pub fn read_reply(code: i32, buf: &[u8]) -> (r: Result<EvalReply, EvalFailure>)
    ensures
        code < 0 ==> match r {
            Err(EvalFailure::Script(m)) => -code - 1 <= buf@.len() && m@ == buf@.subrange(
                0,
                -code - 1,
            ),
            Err(EvalFailure::Malformed) => -code - 1 > buf@.len(),
            Ok(_) => false,
        },
        code >= 0 ==> match r {
            Ok(reply) => {
                let b = buf@.subrange(0, code as int);
                let n = le_u32(b.subrange(0, 4)) as int;
                &&& code <= buf@.len()
                &&& 4 <= code
                &&& n <= code - 4
                &&& reply.output@ == b.subrange(4, 4 + n)
                &&& decode_spec(b.subrange(4 + n, code as int)) == Ok::<ValueView, CodecError>(
                    reply.value@,
                )
            },
            Err(EvalFailure::Malformed) => code > buf@.len() || code < 4 || le_u32(
                buf@.subrange(0, 4),
            ) > code - 4 || decode_spec(
                buf@.subrange(4 + le_u32(buf@.subrange(0, 4)), code as int),
            ) is Err,
            Err(EvalFailure::Script(_)) => false,
        },
{
    if code < 0 {
        let len = (-(code as i64) - 1) as usize;
        if len > buf.len() {
            return Err(EvalFailure::Malformed);
        }
        let mut m: Vec<u8> = Vec::new();
        extend_from_range(&mut m, buf, 0, len);
        return Err(EvalFailure::Script(m));
    }
    let n = code as usize;
    if n > buf.len() || n < 4 {
        return Err(EvalFailure::Malformed);
    }
    let out_len = read_u32_le(buf, 0) as usize;
    if out_len > n - 4 {
        return Err(EvalFailure::Malformed);
    }
    let ghost b = buf@.subrange(0, code as int);
    assert(b.subrange(0, 4) =~= buf@.subrange(0, 4));
    let mut output: Vec<u8> = Vec::new();
    extend_from_range(&mut output, buf, 4, 4 + out_len);
    assert(b.subrange(4, 4 + out_len) =~= output@);
    let mut rest: Vec<u8> = Vec::new();
    extend_from_range(&mut rest, buf, 4 + out_len, n);
    assert(b.subrange(4 + out_len, code as int) =~= rest@);
    match deserialize_value(rest.as_slice()) {
        Ok(value) => Ok(EvalReply { output, value }),
        Err(_) => Err(EvalFailure::Malformed),
    }
}

/// Reading back a successful reply gives the output and the value that went in.
pub proof fn lemma_reply_round_trip(output: Seq<u8>, value: ValueView)
    requires
        output.len() <= u32::MAX,
        value.is_supported(),
        value.fits_wire(),
    ensures
        ({
            let b = success_spec(output, value);
            let n = le_u32(b.subrange(0, 4)) as int;
            &&& n == output.len()
            &&& b.subrange(4, 4 + n) == output
            &&& decode_spec(b.subrange(4 + n, b.len() as int)) == Ok::<ValueView, CodecError>(value)
        }),
{
    let b = success_spec(output, value);
    lemma_u32_le_round_trip(output.len() as u32);
    assert(b.subrange(0, 4) =~= u32_le(output.len() as u32));
    assert(b.subrange(4, 4 + output.len() as int) =~= output);
    assert(b.subrange(4 + output.len() as int, b.len() as int) =~= encode_spec(value));
    lemma_codec_round_trip(value);
}

/// What the library reports about the guest's memory use.
pub struct MemoryStats {
    pub io_buffer_size: usize,
    pub lua_memory_used: usize,
    pub wasm_pages: usize,
}

/// The statistics for a runtime that uses `lua_memory_used` bytes.
pub fn memory_stats(lua_memory_used: usize) -> (r: MemoryStats)
    ensures
        r.io_buffer_size == crate::boundary::IO_BUFFER_SIZE,
        r.lua_memory_used == lua_memory_used,
        r.wasm_pages == 0,
{
    MemoryStats { io_buffer_size: crate::boundary::IO_BUFFER_SIZE, lua_memory_used, wasm_pages: 0 }
}

} // verus!
