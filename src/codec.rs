//! The tagged binary encoding of script values that crosses the boundary.
use vstd::prelude::*;

verus! {

/// Tag byte of each encoded kind.
pub const TAG_NIL: u8 = 0;

pub const TAG_BOOLEAN: u8 = 1;

pub const TAG_INTEGER: u8 = 2;

pub const TAG_FLOAT: u8 = 3;

pub const TAG_STRING: u8 = 4;

/// Why a value could not be encoded or decoded.
#[derive(Clone, Copy, Debug, PartialEq, Eq, Structural)]
pub enum CodecError {
    /// The leading tag is unknown, or the payload is cut short.
    InvalidEncoding,
    /// The value is of a kind that never crosses the boundary.
    UnsupportedType,
}

/// A script value as the bridge sees it.
///
/// A float is held as its IEEE-754 bit pattern. `Other` stands for every kind
/// that is not a scalar or a string (a table, a function, userdata).
#[derive(Clone, Debug, PartialEq, Eq)]
pub enum Value {
    Nil,
    Boolean(bool),
    Integer(i64),
    Float(u64),
    String(Vec<u8>),
    Other,
}

/// The mathematical model of a `Value`.
pub enum ValueView {
    Nil,
    Boolean(bool),
    Integer(i64),
    Float(u64),
    String(Seq<u8>),
    Other,
}

impl View for Value {
    type V = ValueView;

    open spec fn view(&self) -> ValueView {
        match self {
            Value::Nil => ValueView::Nil,
            Value::Boolean(b) => ValueView::Boolean(*b),
            Value::Integer(i) => ValueView::Integer(*i),
            Value::Float(f) => ValueView::Float(*f),
            Value::String(s) => ValueView::String(s@),
            Value::Other => ValueView::Other,
        }
    }
}

impl ValueView {
    /// One of the five kinds that the encoding covers.
    pub open spec fn is_supported(self) -> bool {
        !(self is Other)
    }

    /// A string's length fits the four-byte length prefix.
    pub open spec fn fits_wire(self) -> bool {
        match self {
            ValueView::String(s) => s.len() <= u32::MAX,
            _ => true,
        }
    }
}

/// Eight little-endian bytes of `x`.
pub open spec fn u64_le(x: u64) -> Seq<u8> {
    seq![
        x as u8,
        (x >> 8u64) as u8,
        (x >> 16u64) as u8,
        (x >> 24u64) as u8,
        (x >> 32u64) as u8,
        (x >> 40u64) as u8,
        (x >> 48u64) as u8,
        (x >> 56u64) as u8,
    ]
}

/// Four little-endian bytes of `x`.
pub open spec fn u32_le(x: u32) -> Seq<u8> {
    seq![x as u8, (x >> 8u32) as u8, (x >> 16u32) as u8, (x >> 24u32) as u8]
}

/// The integer whose little-endian bytes are `b[0..8]`.
pub open spec fn le_u64(b: Seq<u8>) -> u64 {
    (b[0] as u64) | ((b[1] as u64) << 8u64) | ((b[2] as u64) << 16u64) | ((b[3] as u64)
        << 24u64) | ((b[4] as u64) << 32u64) | ((b[5] as u64) << 40u64) | ((b[6] as u64)
        << 48u64) | ((b[7] as u64) << 56u64)
}

/// The integer whose little-endian bytes are `b[0..4]`.
pub open spec fn le_u32(b: Seq<u8>) -> u32 {
    (b[0] as u32) | ((b[1] as u32) << 8u32) | ((b[2] as u32) << 16u32) | ((b[3] as u32)
        << 24u32)
}

/// The encoding of a supported value: a tag byte, then its payload.
pub open spec fn encode_spec(v: ValueView) -> Seq<u8> {
    match v {
        ValueView::Nil => seq![TAG_NIL],
        ValueView::Boolean(b) => seq![TAG_BOOLEAN, if b { 1u8 } else { 0u8 }],
        ValueView::Integer(i) => seq![TAG_INTEGER] + u64_le(i as u64),
        ValueView::Float(f) => seq![TAG_FLOAT] + u64_le(f),
        ValueView::String(s) => seq![TAG_STRING] + u32_le(s.len() as u32) + s,
        ValueView::Other => Seq::empty(),
    }
}

/// The value that a byte sequence decodes to. Bytes after the value are ignored.
pub open spec fn decode_spec(b: Seq<u8>) -> Result<ValueView, CodecError> {
    if b.len() == 0 {
        Ok(ValueView::Nil)
    } else if b[0] == TAG_NIL {
        Ok(ValueView::Nil)
    } else if b[0] == TAG_BOOLEAN {
        if b.len() >= 2 {
            Ok(ValueView::Boolean(b[1] != 0))
        } else {
            Err(CodecError::InvalidEncoding)
        }
    } else if b[0] == TAG_INTEGER {
        if b.len() >= 9 {
            Ok(ValueView::Integer(le_u64(b.subrange(1, 9)) as i64))
        } else {
            Err(CodecError::InvalidEncoding)
        }
    } else if b[0] == TAG_FLOAT {
        if b.len() >= 9 {
            Ok(ValueView::Float(le_u64(b.subrange(1, 9))))
        } else {
            Err(CodecError::InvalidEncoding)
        }
    } else if b[0] == TAG_STRING {
        if b.len() >= 5 && b.len() - 5 >= le_u32(b.subrange(1, 5)) {
            Ok(ValueView::String(b.subrange(5, 5 + le_u32(b.subrange(1, 5)))))
        } else {
            Err(CodecError::InvalidEncoding)
        }
    } else {
        Err(CodecError::InvalidEncoding)
    }
}

/// The model of a decoding result.
pub open spec fn result_view(r: Result<Value, CodecError>) -> Result<ValueView, CodecError> {
    match r {
        Ok(v) => Ok(v@),
        Err(e) => Err(e),
    }
}

pub proof fn lemma_u64_le_round_trip(x: u64)
    ensures
        le_u64(u64_le(x)) == x,
{
    assert(((x as u8) as u64) | ((((x >> 8u64) as u8) as u64) << 8u64) | ((((x >> 16u64) as u8)
        as u64) << 16u64) | ((((x >> 24u64) as u8) as u64) << 24u64) | ((((x >> 32u64) as u8)
        as u64) << 32u64) | ((((x >> 40u64) as u8) as u64) << 40u64) | ((((x >> 48u64) as u8)
        as u64) << 48u64) | ((((x >> 56u64) as u8) as u64) << 56u64) == x) by (bit_vector);
}

pub proof fn lemma_u32_le_round_trip(x: u32)
    ensures
        le_u32(u32_le(x)) == x,
{
    assert(((x as u8) as u32) | ((((x >> 8u32) as u8) as u32) << 8u32) | ((((x >> 16u32) as u8)
        as u32) << 16u32) | ((((x >> 24u32) as u8) as u32) << 24u32) == x) by (bit_vector);
}

pub proof fn lemma_i64_bits_round_trip(i: i64)
    ensures
        ((i as u64) as i64) == i,
{
    assert(((i as u64) as i64) == i) by (bit_vector);
}

/// Decoding the encoding of any supported value gives that value back.
pub proof fn lemma_codec_round_trip(v: ValueView)
    requires
        v.is_supported(),
        v.fits_wire(),
    ensures
        decode_spec(encode_spec(v)) == Ok::<ValueView, CodecError>(v),
{
    let b = encode_spec(v);
    match v {
        ValueView::Nil => {},
        ValueView::Boolean(x) => {},
        ValueView::Integer(i) => {
            lemma_u64_le_round_trip(i as u64);
            lemma_i64_bits_round_trip(i);
            assert(b.subrange(1, 9) =~= u64_le(i as u64));
        },
        ValueView::Float(f) => {
            lemma_u64_le_round_trip(f);
            assert(b.subrange(1, 9) =~= u64_le(f));
        },
        ValueView::String(s) => {
            let n = s.len() as u32;
            lemma_u32_le_round_trip(n);
            assert(b.subrange(1, 5) =~= u32_le(n));
            assert(b.subrange(5, 5 + s.len() as int) =~= s);
        },
        ValueView::Other => {},
    }
}

/// Appends the eight little-endian bytes of `x`.
pub fn push_u64_le(out: &mut Vec<u8>, x: u64)
    ensures
        final(out)@ == old(out)@ + u64_le(x),
{
    out.push(x as u8);
    out.push((x >> 8u64) as u8);
    out.push((x >> 16u64) as u8);
    out.push((x >> 24u64) as u8);
    out.push((x >> 32u64) as u8);
    out.push((x >> 40u64) as u8);
    out.push((x >> 48u64) as u8);
    out.push((x >> 56u64) as u8);
    assert(final(out)@ =~= old(out)@ + u64_le(x));
}

/// Appends the four little-endian bytes of `x`.
pub fn push_u32_le(out: &mut Vec<u8>, x: u32)
    ensures
        final(out)@ == old(out)@ + u32_le(x),
{
    out.push(x as u8);
    out.push((x >> 8u32) as u8);
    out.push((x >> 16u32) as u8);
    out.push((x >> 24u32) as u8);
    assert(final(out)@ =~= old(out)@ + u32_le(x));
}

/// Reads the integer stored little-endian in `b[at..at + 8]`.
pub fn read_u64_le(b: &[u8], at: usize) -> (r: u64)
    requires
        at + 8 <= b@.len(),
    ensures
        r == le_u64(b@.subrange(at as int, at + 8)),
{
    let s = Ghost(b@.subrange(at as int, at + 8));
    assert(s@[0] == b@[at as int] && s@[7] == b@[at + 7]);
    (b[at] as u64) | ((b[at + 1] as u64) << 8u64) | ((b[at + 2] as u64) << 16u64) | ((b[at
        + 3] as u64) << 24u64) | ((b[at + 4] as u64) << 32u64) | ((b[at + 5] as u64) << 40u64)
        | ((b[at + 6] as u64) << 48u64) | ((b[at + 7] as u64) << 56u64)
}

/// Reads the integer stored little-endian in `b[at..at + 4]`.
pub fn read_u32_le(b: &[u8], at: usize) -> (r: u32)
    requires
        at + 4 <= b@.len(),
    ensures
        r == le_u32(b@.subrange(at as int, at + 4)),
{
    (b[at] as u32) | ((b[at + 1] as u32) << 8u32) | ((b[at + 2] as u32) << 16u32) | ((b[at
        + 3] as u32) << 24u32)
}

/// Appends `src[from..to]` to `out`.
pub fn extend_from_range(out: &mut Vec<u8>, src: &[u8], from: usize, to: usize)
    requires
        from <= to <= src@.len(),
    ensures
        final(out)@ == old(out)@ + src@.subrange(from as int, to as int),
{
    let mut i = from;
    while i < to
        invariant
            from <= i <= to <= src@.len(),
            out@ == old(out)@ + src@.subrange(from as int, i as int),
        decreases to - i,
    {
        out.push(src[i]);
        assert(src@.subrange(from as int, i + 1) =~= src@.subrange(from as int, i as int).push(
            src@[i as int],
        ));
        i = i + 1;
    }
}

/// Encodes a value: its tag byte, then its payload.
pub fn serialize_value(v: &Value) -> (r: Result<Vec<u8>, CodecError>)
    requires
        v@.fits_wire(),
    ensures
        match r {
            Ok(b) => v@.is_supported() && b@ == encode_spec(v@),
            Err(e) => !v@.is_supported() && e == CodecError::UnsupportedType,
        },
{
    let mut bytes: Vec<u8> = Vec::new();
    match v {
        Value::Nil => {
            bytes.push(TAG_NIL);
        },
        Value::Boolean(b) => {
            bytes.push(TAG_BOOLEAN);
            bytes.push(if *b { 1u8 } else { 0u8 });
        },
        Value::Integer(i) => {
            bytes.push(TAG_INTEGER);
            push_u64_le(&mut bytes, *i as u64);
        },
        Value::Float(f) => {
            bytes.push(TAG_FLOAT);
            push_u64_le(&mut bytes, *f);
        },
        Value::String(s) => {
            bytes.push(TAG_STRING);
            push_u32_le(&mut bytes, s.len() as u32);
            extend_from_range(&mut bytes, s.as_slice(), 0, s.len());
            assert(s@.subrange(0, s@.len() as int) =~= s@);
        },
        Value::Other => {
            return Err(CodecError::UnsupportedType);
        },
    }
    assert(bytes@ =~= encode_spec(v@));
    Ok(bytes)
}

/// Decodes the value at the start of `bytes`. Empty input decodes to `Nil`.
pub fn deserialize_value(bytes: &[u8]) -> (r: Result<Value, CodecError>)
    ensures
        result_view(r) == decode_spec(bytes@),
{
    if bytes.len() == 0 {
        return Ok(Value::Nil);
    }
    let tag = bytes[0];
    if tag == TAG_NIL {
        Ok(Value::Nil)
    } else if tag == TAG_BOOLEAN {
        if bytes.len() >= 2 {
            Ok(Value::Boolean(bytes[1] != 0))
        } else {
            Err(CodecError::InvalidEncoding)
        }
    } else if tag == TAG_INTEGER {
        if bytes.len() >= 9 {
            Ok(Value::Integer(read_u64_le(bytes, 1) as i64))
        } else {
            Err(CodecError::InvalidEncoding)
        }
    } else if tag == TAG_FLOAT {
        if bytes.len() >= 9 {
            Ok(Value::Float(read_u64_le(bytes, 1)))
        } else {
            Err(CodecError::InvalidEncoding)
        }
    } else if tag == TAG_STRING {
        if bytes.len() < 5 {
            return Err(CodecError::InvalidEncoding);
        }
        let n = read_u32_le(bytes, 1) as usize;
        if bytes.len() - 5 < n {
            return Err(CodecError::InvalidEncoding);
        }
        let mut s: Vec<u8> = Vec::new();
        extend_from_range(&mut s, bytes, 5, 5 + n);
        assert(s@ =~= bytes@.subrange(5, 5 + n));
        Ok(Value::String(s))
    } else {
        Err(CodecError::InvalidEncoding)
    }
}

} // verus!
