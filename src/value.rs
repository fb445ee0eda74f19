//! Field values: the closed set of representations, and how each is read
//! from and written to the wire.
use crate::bytes::{
    be_bytes, be_value, copy_range, lemma_be_bytes_len, lemma_be_round_trip, lemma_radix_values,
    push_all, push_be, radix, read_be,
};
use crate::error::IpfixError;
use crate::field::DataRecordType;
use vstd::prelude::*;
use vstd::utf8::{decode_utf8, encode_utf8, encode_utf8_decode_utf8, encode_utf8_valid_utf8, valid_utf8};

verus! {

/// The declared field length that marks a variable-length field.
pub const VARIABLE_LENGTH: u16 = 0xFFFF;

/// The largest value of a 5-byte unsigned integer.
pub const U40_MAX: u64 = 0xFF_FFFF_FFFF;

/// One field's value. Floats are held as their IEEE 754 bit patterns and
/// addresses as the integers their bytes spell.
#[derive(Debug, Clone, PartialEq)]
pub enum DataRecordValue {
    U8(u8),
    U16(u16),
    U32(u32),
    U40(u64),
    U64(u64),
    I8(i8),
    I16(i16),
    I32(i32),
    I64(i64),
    F32(u32),
    F64(u64),
    Bool(bool),
    MacAddress([u8; 6]),
    Bytes(Vec<u8>),
    String(String),
    DateTimeSeconds(u32),
    DateTimeMilliseconds(u64),
    DateTimeMicroseconds(u64),
    DateTimeNanoseconds(u64),
    Ipv4Addr(u32),
    Ipv6Addr(u128),
}

/// Bytes and strings, whose length may be carried inline.
pub open spec fn is_variable(ty: DataRecordType) -> bool {
    ty == DataRecordType::Bytes || ty == DataRecordType::String
}

/// The (type, length) pairs that have a wire representation.
pub open spec fn supported(ty: DataRecordType, length: u16) -> bool {
    match ty {
        DataRecordType::UnsignedInt => length == 1 || length == 2 || length == 4 || length == 5
            || length == 8,
        DataRecordType::SignedInt => length == 1 || length == 2 || length == 4 || length == 8,
        DataRecordType::Float => length == 4 || length == 8,
        DataRecordType::Bool => length == 1,
        DataRecordType::MacAddress => length == 6,
        DataRecordType::Bytes => true,
        DataRecordType::String => true,
        DataRecordType::DateTimeSeconds => length == 4,
        DataRecordType::DateTimeMilliseconds => length == 8,
        DataRecordType::DateTimeMicroseconds => length == 8,
        DataRecordType::DateTimeNanoseconds => length == 8,
        DataRecordType::Ipv4Addr => length == 4,
        DataRecordType::Ipv6Addr => length == 16,
    }
}

/// Where the content of a field that starts at `pos` lies: after its inline
/// length prefix, if it has one. `None` when the input ends too soon.
pub open spec fn payload_span(ty: DataRecordType, length: u16, buf: Seq<u8>, pos: nat) -> Option<
    (nat, nat),
> {
    if !is_variable(ty) || length != VARIABLE_LENGTH {
        if pos + length <= buf.len() {
            Some((pos, (pos + length) as nat))
        } else {
            None
        }
    } else if pos + 1 > buf.len() {
        None
    } else if buf[pos as int] < 255 {
        if pos + 1 + buf[pos as int] <= buf.len() {
            Some((pos + 1, (pos + 1 + buf[pos as int]) as nat))
        } else {
            None
        }
    } else if pos + 3 > buf.len() {
        None
    } else {
        let n = be_value(buf.subrange(pos + 1 as int, pos + 3 as int));
        if pos + 3 + n <= buf.len() {
            Some((pos + 3, pos + 3 + n))
        } else {
            None
        }
    }
}

/// `v` is what the content bytes `p` of a field of this type and length hold.
pub open spec fn value_of_bytes(ty: DataRecordType, length: u16, p: Seq<u8>, v: DataRecordValue) -> bool {
    let n = be_value(p);
    match ty {
        DataRecordType::UnsignedInt => if length == 1 {
            v == DataRecordValue::U8(n as u8)
        } else if length == 2 {
            v == DataRecordValue::U16(n as u16)
        } else if length == 4 {
            v == DataRecordValue::U32(n as u32)
        } else if length == 5 {
            v == DataRecordValue::U40(n as u64)
        } else {
            v == DataRecordValue::U64(n as u64)
        },
        DataRecordType::SignedInt => if length == 1 {
            v == DataRecordValue::I8((n as u8) as i8)
        } else if length == 2 {
            v == DataRecordValue::I16((n as u16) as i16)
        } else if length == 4 {
            v == DataRecordValue::I32((n as u32) as i32)
        } else {
            v == DataRecordValue::I64((n as u64) as i64)
        },
        DataRecordType::Float => if length == 4 {
            v == DataRecordValue::F32(n as u32)
        } else {
            v == DataRecordValue::F64(n as u64)
        },
        DataRecordType::Bool => v == DataRecordValue::Bool(p[0] == 1),
        DataRecordType::MacAddress => v matches DataRecordValue::MacAddress(m) && m@ == p,
        DataRecordType::Bytes => v matches DataRecordValue::Bytes(d) && d@ == p,
        DataRecordType::String => v matches DataRecordValue::String(s) && s@ == decode_utf8(p),
        DataRecordType::DateTimeSeconds => v == DataRecordValue::DateTimeSeconds(n as u32),
        DataRecordType::DateTimeMilliseconds => v == DataRecordValue::DateTimeMilliseconds(n as u64),
        DataRecordType::DateTimeMicroseconds => v == DataRecordValue::DateTimeMicroseconds(n as u64),
        DataRecordType::DateTimeNanoseconds => v == DataRecordValue::DateTimeNanoseconds(n as u64),
        DataRecordType::Ipv4Addr => v == DataRecordValue::Ipv4Addr(n as u32),
        DataRecordType::Ipv6Addr => v == DataRecordValue::Ipv6Addr(n as u128),
    }
}

/// A field of this type and length can be read at `pos`.
pub open spec fn decodable(ty: DataRecordType, length: u16, buf: Seq<u8>, pos: nat) -> bool {
    &&& supported(ty, length)
    &&& payload_span(ty, length, buf, pos) is Some
    &&& ty == DataRecordType::String ==> valid_utf8(payload(ty, length, buf, pos))
}

/// The content bytes of the field at `pos`, once `payload_span` has found them.
pub open spec fn payload(ty: DataRecordType, length: u16, buf: Seq<u8>, pos: nat) -> Seq<u8> {
    let span = payload_span(ty, length, buf, pos)->Some_0;
    buf.subrange(span.0 as int, span.1 as int)
}

/// Reading a field of this type and length at `pos` gives `v` and ends at `end`.
#[verifier::opaque]
pub open spec fn decoded(
    ty: DataRecordType,
    length: u16,
    buf: Seq<u8>,
    pos: nat,
    v: DataRecordValue,
    end: nat,
) -> bool {
    &&& decodable(ty, length, buf, pos)
    &&& end == (payload_span(ty, length, buf, pos)->Some_0).1
    &&& value_of_bytes(ty, length, payload(ty, length, buf, pos), v)
}

/// The error that reading a field that is not decodable at `pos` reports.
pub open spec fn read_error(ty: DataRecordType, length: u16, buf: Seq<u8>, pos: nat) -> IpfixError {
    if !supported(ty, length) {
        IpfixError::InvalidFieldSpecLength { ty, length }
    } else if payload_span(ty, length, buf, pos) is None {
        IpfixError::Truncated
    } else {
        IpfixError::InvalidUtf8
    }
}

/// The inline length prefix of variable-length content of `n` bytes: one
/// byte below 255, else 255 and two bytes of length.
pub open spec fn length_prefix(n: nat) -> Seq<u8> {
    if n < 255 {
        seq![n as u8]
    } else {
        seq![255u8] + be_bytes(n, 2)
    }
}

/// The bytes of variable-length content `d` in a field of declared `length`;
/// `None` when the length cannot be written.
pub open spec fn variable_bytes(d: Seq<u8>, length: u16) -> Option<Seq<u8>> {
    if length != VARIABLE_LENGTH {
        Some(d)
    } else if d.len() > 0xFFFF {
        None
    } else {
        Some(length_prefix(d.len()) + d)
    }
}

/// The bytes that encode `v` in a field of declared `length`; `None` when
/// `v` cannot be written.
pub open spec fn value_bytes(v: DataRecordValue, length: u16) -> Option<Seq<u8>> {
    match v {
        DataRecordValue::U8(x) => Some(be_bytes(x as nat, 1)),
        DataRecordValue::U16(x) => Some(be_bytes(x as nat, 2)),
        DataRecordValue::U32(x) => Some(be_bytes(x as nat, 4)),
        DataRecordValue::U40(x) => if x <= U40_MAX {
            Some(be_bytes(x as nat, 5))
        } else {
            None
        },
        DataRecordValue::U64(x) => Some(be_bytes(x as nat, 8)),
        DataRecordValue::I8(x) => Some(be_bytes((x as u8) as nat, 1)),
        DataRecordValue::I16(x) => Some(be_bytes((x as u16) as nat, 2)),
        DataRecordValue::I32(x) => Some(be_bytes((x as u32) as nat, 4)),
        DataRecordValue::I64(x) => Some(be_bytes((x as u64) as nat, 8)),
        DataRecordValue::F32(x) => Some(be_bytes(x as nat, 4)),
        DataRecordValue::F64(x) => Some(be_bytes(x as nat, 8)),
        DataRecordValue::Bool(b) => Some(
            if b {
                seq![1u8]
            } else {
                seq![2u8]
            },
        ),
        DataRecordValue::MacAddress(m) => Some(m@),
        DataRecordValue::Bytes(d) => variable_bytes(d@, length),
        DataRecordValue::String(s) => variable_bytes(encode_utf8(s@), length),
        DataRecordValue::DateTimeSeconds(x) => Some(be_bytes(x as nat, 4)),
        DataRecordValue::DateTimeMilliseconds(x) => Some(be_bytes(x as nat, 8)),
        DataRecordValue::DateTimeMicroseconds(x) => Some(be_bytes(x as nat, 8)),
        DataRecordValue::DateTimeNanoseconds(x) => Some(be_bytes(x as nat, 8)),
        DataRecordValue::Ipv4Addr(x) => Some(be_bytes(x as nat, 4)),
        DataRecordValue::Ipv6Addr(x) => Some(be_bytes(x as nat, 16)),
    }
}

/// Two values are the same: equal numbers, or equal byte and character
/// sequences.
pub open spec fn same_value(a: DataRecordValue, b: DataRecordValue) -> bool {
    match (a, b) {
        (DataRecordValue::MacAddress(x), DataRecordValue::MacAddress(y)) => x@ == y@,
        (DataRecordValue::Bytes(x), DataRecordValue::Bytes(y)) => x@ == y@,
        (DataRecordValue::String(x), DataRecordValue::String(y)) => x@ == y@,
        _ => a == b,
    }
}

/// Whether `ty` and `length` have a wire representation.
pub fn is_supported(ty: DataRecordType, length: u16) -> (r: bool)
    ensures
        r == supported(ty, length),
{
    match ty {
        DataRecordType::UnsignedInt => length == 1 || length == 2 || length == 4 || length == 5
            || length == 8,
        DataRecordType::SignedInt => length == 1 || length == 2 || length == 4 || length == 8,
        DataRecordType::Float => length == 4 || length == 8,
        DataRecordType::Bool => length == 1,
        DataRecordType::MacAddress => length == 6,
        DataRecordType::Bytes => true,
        DataRecordType::String => true,
        DataRecordType::DateTimeSeconds => length == 4,
        DataRecordType::DateTimeMilliseconds => length == 8,
        DataRecordType::DateTimeMicroseconds => length == 8,
        DataRecordType::DateTimeNanoseconds => length == 8,
        DataRecordType::Ipv4Addr => length == 4,
        DataRecordType::Ipv6Addr => length == 16,
    }
}

/// Relies on `String::from_utf8`: it succeeds exactly on valid UTF-8, and
/// the string it returns holds the characters that the bytes encode.
#[verifier::external_body]
fn string_from_utf8(b: Vec<u8>) -> (r: Option<String>)
    ensures
        r is Some <==> valid_utf8(b@),
        r matches Some(s) ==> s@ == decode_utf8(b@),
{
    String::from_utf8(b).ok()
}

/// Where the content of a variable-length field at `pos` lies.
fn variable_span(length: u16, buf: &[u8], pos: usize) -> (r: Option<(usize, usize)>)
    requires
        pos <= buf.len(),
    ensures
        r matches Some((s, e)) ==> payload_span(DataRecordType::Bytes, length, buf@, pos as nat)
            == Some((s as nat, e as nat)) && e <= buf.len(),
        r is None ==> payload_span(DataRecordType::Bytes, length, buf@, pos as nat) is None,
{
    if length != VARIABLE_LENGTH {
        if length as usize > buf.len() - pos {
            return None;
        }
        return Some((pos, pos + length as usize));
    }
    if pos >= buf.len() {
        return None;
    }
    let first = buf[pos];
    if first < 255 {
        if first as usize > buf.len() - (pos + 1) {
            return None;
        }
        return Some((pos + 1, pos + 1 + first as usize));
    }
    if buf.len() - pos < 3 {
        return None;
    }
    let n = read_be(buf, pos + 1, 2) as usize;
    proof {
        lemma_radix_values();
        crate::bytes::lemma_be_value_bound(buf@.subrange(pos + 1 as int, pos + 3 as int));
    }
    if n > buf.len() - (pos + 3) {
        return None;
    }
    Some((pos + 3, pos + 3 + n))
}

/// Reads one field of type `ty` and declared `length` at `pos`; on success
/// gives the value and the position just after it.
pub fn read_value(ty: DataRecordType, length: u16, buf: &[u8], pos: usize) -> (r: Result<
    (DataRecordValue, usize),
    IpfixError,
>)
    requires
        pos <= buf.len(),
    ensures
        r is Ok <==> decodable(ty, length, buf@, pos as nat),
        r matches Ok((v, end)) ==> decoded(ty, length, buf@, pos as nat, v, end as nat),
        r matches Ok((v, end)) ==> end == (payload_span(ty, length, buf@, pos as nat)->Some_0).1
            && pos <= end <= buf.len(),
        r matches Err(e) ==> e == read_error(ty, length, buf@, pos as nat),
{
    reveal(decoded);
    if !is_supported(ty, length) {
        return Err(IpfixError::InvalidFieldSpecLength { ty, length });
    }
    match ty {
        DataRecordType::Bytes | DataRecordType::String => {
            let (s, e) = match variable_span(length, buf, pos) {
                Some(span) => span,
                None => {
                    return Err(IpfixError::Truncated);
                },
            };
            let data = copy_range(buf, s, e);
            if ty == DataRecordType::Bytes {
                Ok((DataRecordValue::Bytes(data), e))
            } else {
                match string_from_utf8(data) {
                    Some(text) => Ok((DataRecordValue::String(text), e)),
                    None => Err(IpfixError::InvalidUtf8),
                }
            }
        },
        _ => {
            let w = length as usize;
            if w > buf.len() - pos {
                return Err(IpfixError::Truncated);
            }
            let x = read_be(buf, pos, w);
            proof {
                crate::bytes::lemma_be_value_bound(buf@.subrange(pos as int, pos + w));
                lemma_radix_values();
            }
            let v = match ty {
                DataRecordType::UnsignedInt => if length == 1 {
                    DataRecordValue::U8(x as u8)
                } else if length == 2 {
                    DataRecordValue::U16(x as u16)
                } else if length == 4 {
                    DataRecordValue::U32(x as u32)
                } else if length == 5 {
                    DataRecordValue::U40(x as u64)
                } else {
                    DataRecordValue::U64(x as u64)
                },
                DataRecordType::SignedInt => if length == 1 {
                    DataRecordValue::I8((x as u8) as i8)
                } else if length == 2 {
                    DataRecordValue::I16((x as u16) as i16)
                } else if length == 4 {
                    DataRecordValue::I32((x as u32) as i32)
                } else {
                    DataRecordValue::I64((x as u64) as i64)
                },
                DataRecordType::Float => if length == 4 {
                    DataRecordValue::F32(x as u32)
                } else {
                    DataRecordValue::F64(x as u64)
                },
                DataRecordType::Bool => DataRecordValue::Bool(buf[pos] == 1),
                DataRecordType::MacAddress => {
                    let m: [u8; 6] = [
                        buf[pos],
                        buf[pos + 1],
                        buf[pos + 2],
                        buf[pos + 3],
                        buf[pos + 4],
                        buf[pos + 5],
                    ];
                    assert(m@ =~= buf@.subrange(pos as int, pos + w));
                    DataRecordValue::MacAddress(m)
                },
                DataRecordType::DateTimeSeconds => DataRecordValue::DateTimeSeconds(x as u32),
                DataRecordType::DateTimeMilliseconds => DataRecordValue::DateTimeMilliseconds(
                    x as u64,
                ),
                DataRecordType::DateTimeMicroseconds => DataRecordValue::DateTimeMicroseconds(
                    x as u64,
                ),
                DataRecordType::DateTimeNanoseconds => DataRecordValue::DateTimeNanoseconds(
                    x as u64,
                ),
                DataRecordType::Ipv4Addr => DataRecordValue::Ipv4Addr(x as u32),
                _ => DataRecordValue::Ipv6Addr(x),
            };
            Ok((v, pos + w))
        },
    }
}

/// Writes variable-length content, with its inline length prefix when the
/// declared length is the variable-length marker.
fn write_variable(data: &[u8], length: u16, out: &mut Vec<u8>) -> (r: Result<(), IpfixError>)
    ensures
        match variable_bytes(data@, length) {
            Some(b) => r is Ok && final(out)@ == old(out)@ + b,
            None => r == Err::<(), IpfixError>(IpfixError::ValueOverflow) && final(out)@ == old(
                out,
            )@,
        },
{
    if length == VARIABLE_LENGTH {
        let n = data.len();
        if n < 255 {
            out.push(n as u8);
        } else if n <= 0xFFFF {
            out.push(255u8);
            push_be(out, n as u128, 2);
        } else {
            return Err(IpfixError::ValueOverflow);
        }
    }
    let ghost mid = out@;
    push_all(out, data);
    proof {
        if length == VARIABLE_LENGTH {
            let p = length_prefix(data@.len());
            assert(mid =~= old(out)@ + p);
            assert(out@ =~= old(out)@ + (p + data@));
        } else {
            assert(out@ =~= old(out)@ + data@);
        }
    }
    Ok(())
}

/// Writes `v` as a field of declared `length`. Fails, writing nothing, on a
/// 5-byte integer above 40 bits and on inline-length content over 65535 bytes.
pub fn write_value(v: &DataRecordValue, length: u16, out: &mut Vec<u8>) -> (r: Result<
    (),
    IpfixError,
>)
    ensures
        match value_bytes(*v, length) {
            Some(b) => r is Ok && final(out)@ == old(out)@ + b,
            None => r == Err::<(), IpfixError>(IpfixError::ValueOverflow) && final(out)@ == old(
                out,
            )@,
        },
{
    match v {
        DataRecordValue::U8(x) => push_be(out, *x as u128, 1),
        DataRecordValue::U16(x) => push_be(out, *x as u128, 2),
        DataRecordValue::U32(x) => push_be(out, *x as u128, 4),
        DataRecordValue::U40(x) => {
            if *x > U40_MAX {
                return Err(IpfixError::ValueOverflow);
            }
            push_be(out, *x as u128, 5)
        },
        DataRecordValue::U64(x) => push_be(out, *x as u128, 8),
        DataRecordValue::I8(x) => push_be(out, (*x as u8) as u128, 1),
        DataRecordValue::I16(x) => push_be(out, (*x as u16) as u128, 2),
        DataRecordValue::I32(x) => push_be(out, (*x as u32) as u128, 4),
        DataRecordValue::I64(x) => push_be(out, (*x as u64) as u128, 8),
        DataRecordValue::F32(x) => push_be(out, *x as u128, 4),
        DataRecordValue::F64(x) => push_be(out, *x as u128, 8),
        DataRecordValue::Bool(b) => {
            out.push(if *b { 1u8 } else { 2u8 });
            assert(out@ =~= old(out)@ + value_bytes(*v, length)->Some_0);
        },
        DataRecordValue::MacAddress(m) => push_all(out, m.as_slice()),
        DataRecordValue::Bytes(d) => {
            return write_variable(d.as_slice(), length, out);
        },
        DataRecordValue::String(text) => {
            return write_variable(text.as_str().as_bytes(), length, out);
        },
        DataRecordValue::DateTimeSeconds(x) => push_be(out, *x as u128, 4),
        DataRecordValue::DateTimeMilliseconds(x) => push_be(out, *x as u128, 8),
        DataRecordValue::DateTimeMicroseconds(x) => push_be(out, *x as u128, 8),
        DataRecordValue::DateTimeNanoseconds(x) => push_be(out, *x as u128, 8),
        DataRecordValue::Ipv4Addr(x) => push_be(out, *x as u128, 4),
        DataRecordValue::Ipv6Addr(x) => push_be(out, *x, 16),
    }
    Ok(())
}

/// `v` is of the variant that a field of type `ty` and declared `length`
/// reads, and fixed-length content is exactly `length` bytes long.
pub open spec fn value_fits(v: DataRecordValue, ty: DataRecordType, length: u16) -> bool {
    match v {
        DataRecordValue::U8(_) => ty == DataRecordType::UnsignedInt && length == 1,
        DataRecordValue::U16(_) => ty == DataRecordType::UnsignedInt && length == 2,
        DataRecordValue::U32(_) => ty == DataRecordType::UnsignedInt && length == 4,
        DataRecordValue::U40(_) => ty == DataRecordType::UnsignedInt && length == 5,
        DataRecordValue::U64(_) => ty == DataRecordType::UnsignedInt && length == 8,
        DataRecordValue::I8(_) => ty == DataRecordType::SignedInt && length == 1,
        DataRecordValue::I16(_) => ty == DataRecordType::SignedInt && length == 2,
        DataRecordValue::I32(_) => ty == DataRecordType::SignedInt && length == 4,
        DataRecordValue::I64(_) => ty == DataRecordType::SignedInt && length == 8,
        DataRecordValue::F32(_) => ty == DataRecordType::Float && length == 4,
        DataRecordValue::F64(_) => ty == DataRecordType::Float && length == 8,
        DataRecordValue::Bool(_) => ty == DataRecordType::Bool && length == 1,
        DataRecordValue::MacAddress(_) => ty == DataRecordType::MacAddress && length == 6,
        DataRecordValue::Bytes(d) => ty == DataRecordType::Bytes && (length == VARIABLE_LENGTH
            || d@.len() == length),
        DataRecordValue::String(t) => ty == DataRecordType::String && (length == VARIABLE_LENGTH
            || encode_utf8(t@).len() == length),
        DataRecordValue::DateTimeSeconds(_) => ty == DataRecordType::DateTimeSeconds && length
            == 4,
        DataRecordValue::DateTimeMilliseconds(_) => ty == DataRecordType::DateTimeMilliseconds
            && length == 8,
        DataRecordValue::DateTimeMicroseconds(_) => ty == DataRecordType::DateTimeMicroseconds
            && length == 8,
        DataRecordValue::DateTimeNanoseconds(_) => ty == DataRecordType::DateTimeNanoseconds
            && length == 8,
        DataRecordValue::Ipv4Addr(_) => ty == DataRecordType::Ipv4Addr && length == 4,
        DataRecordValue::Ipv6Addr(_) => ty == DataRecordType::Ipv6Addr && length == 16,
    }
}

proof fn lemma_middle(before: Seq<u8>, b: Seq<u8>, after: Seq<u8>)
    ensures
        (before + b + after).subrange(before.len() as int, (before.len() + b.len()) as int) == b,
{
    assert((before + b + after).subrange(before.len() as int, (before.len() + b.len()) as int) =~= b);
}

/// Variable-length content written with its prefix reads back whole.
proof fn lemma_variable_round_trip(
    d: Seq<u8>,
    ty: DataRecordType,
    length: u16,
    before: Seq<u8>,
    after: Seq<u8>,
)
    requires
        is_variable(ty),
        length == VARIABLE_LENGTH || d.len() == length,
        variable_bytes(d, length) is Some,
    ensures
        ({
            let b = variable_bytes(d, length)->Some_0;
            let buf = before + b + after;
            &&& payload_span(ty, length, buf, before.len()) == Some(
                ((before.len() + b.len() - d.len()) as nat, before.len() + b.len()),
            )
            &&& b.len() >= d.len()
            &&& payload(ty, length, buf, before.len()) == d
        }),
{
    let b = variable_bytes(d, length)->Some_0;
    let buf = before + b + after;
    let pos = before.len();
    lemma_middle(before, b, after);
    if length == VARIABLE_LENGTH {
        let p = length_prefix(d.len());
        assert(buf.subrange(pos as int, (pos + b.len()) as int) == b);
        if d.len() < 255 {
            assert(b[0] == buf[pos as int]);
            assert(b.subrange(1, b.len() as int) =~= d);
        } else {
            lemma_be_bytes_len(d.len(), 2);
            lemma_be_round_trip(d.len(), 2);
            lemma_radix_values();
            assert(b[0] == buf[pos as int]);
            assert(buf.subrange(pos + 1 as int, pos + 3 as int) =~= be_bytes(d.len(), 2));
            assert(b.subrange(3, b.len() as int) =~= d);
        }
        assert(buf.subrange((pos + b.len() - d.len()) as int, (pos + b.len()) as int) =~= b.subrange(
            b.len() - d.len(),
            b.len() as int,
        ));
    }
}

/// Fixed-width integers written big-endian read back as themselves.
proof fn lemma_fixed_round_trip(x: nat, w: nat, before: Seq<u8>, after: Seq<u8>)
    requires
        x < radix(w),
    ensures
        ({
            let buf = before + be_bytes(x, w) + after;
            &&& be_bytes(x, w).len() == w
            &&& be_value(buf.subrange(before.len() as int, (before.len() + w) as int)) == x
        }),
{
    lemma_be_bytes_len(x, w);
    lemma_be_round_trip(x, w);
    vstd::arithmetic::div_mod::lemma_small_mod(x, radix(w));
    lemma_middle(before, be_bytes(x, w), after);
}

/// A value written into a field whose type and declared length fit it
/// reads back as the same value and ends just after what was written,
/// whatever bytes surround it.
pub proof fn lemma_value_round_trip(
    v: DataRecordValue,
    ty: DataRecordType,
    length: u16,
    before: Seq<u8>,
    after: Seq<u8>,
)
    requires
        value_fits(v, ty, length),
        value_bytes(v, length) is Some,
    ensures
        ({
            let b = value_bytes(v, length)->Some_0;
            let buf = before + b + after;
            &&& decodable(ty, length, buf, before.len())
            &&& (payload_span(ty, length, buf, before.len())->Some_0).1 == before.len() + b.len()
            &&& forall|w: DataRecordValue, end: nat|
                decoded(ty, length, buf, before.len(), w, end) ==> same_value(w, v) && end
                    == before.len() + b.len()
        }),
{
    reveal(decoded);
    let b = value_bytes(v, length)->Some_0;
    let buf = before + b + after;
    let pos = before.len();
    lemma_radix_values();
    match v {
        DataRecordValue::Bytes(d) => {
            lemma_variable_round_trip(d@, ty, length, before, after);
        },
        DataRecordValue::String(t) => {
            encode_utf8_valid_utf8(t@);
            encode_utf8_decode_utf8(t@);
            lemma_variable_round_trip(encode_utf8(t@), ty, length, before, after);
        },
        DataRecordValue::Bool(x) => {
            lemma_middle(before, b, after);
            assert(buf.subrange(pos as int, pos + 1 as int) == b);
            assert(buf.subrange(pos as int, pos + 1 as int)[0] == b[0]);
        },
        DataRecordValue::MacAddress(m) => {
            lemma_middle(before, b, after);
        },
        DataRecordValue::U8(x) => lemma_fixed_round_trip(x as nat, 1, before, after),
        DataRecordValue::U16(x) => lemma_fixed_round_trip(x as nat, 2, before, after),
        DataRecordValue::U32(x) => lemma_fixed_round_trip(x as nat, 4, before, after),
        DataRecordValue::U40(x) => lemma_fixed_round_trip(x as nat, 5, before, after),
        DataRecordValue::U64(x) => lemma_fixed_round_trip(x as nat, 8, before, after),
        DataRecordValue::I8(x) => {
            lemma_fixed_round_trip((x as u8) as nat, 1, before, after);
            assert((x as u8) as i8 == x) by (bit_vector);
        },
        DataRecordValue::I16(x) => {
            lemma_fixed_round_trip((x as u16) as nat, 2, before, after);
            assert((x as u16) as i16 == x) by (bit_vector);
        },
        DataRecordValue::I32(x) => {
            lemma_fixed_round_trip((x as u32) as nat, 4, before, after);
            assert((x as u32) as i32 == x) by (bit_vector);
        },
        DataRecordValue::I64(x) => {
            lemma_fixed_round_trip((x as u64) as nat, 8, before, after);
            assert((x as u64) as i64 == x) by (bit_vector);
        },
        DataRecordValue::F32(x) => lemma_fixed_round_trip(x as nat, 4, before, after),
        DataRecordValue::F64(x) => lemma_fixed_round_trip(x as nat, 8, before, after),
        DataRecordValue::DateTimeSeconds(x) => lemma_fixed_round_trip(x as nat, 4, before, after),
        DataRecordValue::DateTimeMilliseconds(x) => lemma_fixed_round_trip(
            x as nat,
            8,
            before,
            after,
        ),
        DataRecordValue::DateTimeMicroseconds(x) => lemma_fixed_round_trip(
            x as nat,
            8,
            before,
            after,
        ),
        DataRecordValue::DateTimeNanoseconds(x) => lemma_fixed_round_trip(
            x as nat,
            8,
            before,
            after,
        ),
        DataRecordValue::Ipv4Addr(x) => lemma_fixed_round_trip(x as nat, 4, before, after),
        DataRecordValue::Ipv6Addr(x) => lemma_fixed_round_trip(x as nat, 16, before, after),
    }
}

} // verus!
