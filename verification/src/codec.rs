//! The primitive value codec: the byte shapes of single encoded values, and
//! the trusted wrappers around the external typed binary codec that writes
//! and reads them.
//!
//! The wire shapes are those of `bincode`'s standard configuration:
//! `u8`/`i8` are one raw byte; wider unsigned integers are a prefix-free
//! variable-width form (one byte up to 250, otherwise a marker byte 251,
//! 252 or 253 followed by the value's little-endian bytes at the smallest
//! sufficient width); signed integers map through the zig-zag folding first;
//! a string is its UTF-8 byte length as a variable-width integer followed by
//! the UTF-8 bytes themselves.
use vstd::prelude::*;
use vstd::bytes::{spec_u16_to_le_bytes, spec_u32_to_le_bytes, spec_u64_to_le_bytes};
use vstd::utf8::encode_utf8;

use crate::Value;

verus! {

/// `p` is an initial segment of `s`.
pub open spec fn prefix_of(p: Seq<u8>, s: Seq<u8>) -> bool {
    p.len() <= s.len() && s.subrange(0, p.len() as int) == p
}

/// A prefix made of two parts splits: the first part leads the sequence,
/// and the second part leads what remains after it.
pub proof fn lemma_prefix_split(a: Seq<u8>, b: Seq<u8>, s: Seq<u8>)
    requires
        prefix_of(a + b, s),
    ensures
        prefix_of(a, s),
        prefix_of(b, s.skip(a.len() as int)),
{
    assert(s.subrange(0, a.len() as int) =~= (a + b).subrange(0, a.len() as int));
    assert((a + b).subrange(0, a.len() as int) =~= a);
    assert(s.skip(a.len() as int).subrange(0, b.len() as int) =~= s.subrange(
        a.len() as int,
        (a.len() + b.len()) as int,
    ));
    assert(s.subrange(a.len() as int, (a.len() + b.len()) as int) =~= (a + b).subrange(
        a.len() as int,
        (a + b).len() as int,
    ));
    assert((a + b).subrange(a.len() as int, (a + b).len() as int) =~= b);
}

/// Zig-zag folding of a signed 16-bit value onto the unsigned range.
pub open spec fn zigzag16(v: i16) -> u16 {
    (if v >= 0 {
        2 * (v as int)
    } else {
        -2 * (v as int) - 1
    }) as u16
}

/// Zig-zag folding of a signed 32-bit value onto the unsigned range.
pub open spec fn zigzag32(v: i32) -> u32 {
    (if v >= 0 {
        2 * (v as int)
    } else {
        -2 * (v as int) - 1
    }) as u32
}

/// Zig-zag folding of a signed 64-bit value onto the unsigned range.
pub open spec fn zigzag64(v: i64) -> u64 {
    (if v >= 0 {
        2 * (v as int)
    } else {
        -2 * (v as int) - 1
    }) as u64
}

/// Variable-width encoding of a `u16`.
pub open spec fn vu16(v: u16) -> Seq<u8> {
    if v <= 250 {
        seq![v as u8]
    } else {
        seq![251u8] + spec_u16_to_le_bytes(v)
    }
}

/// Variable-width encoding of a `u32`.
pub open spec fn vu32(v: u32) -> Seq<u8> {
    if v <= 250 {
        seq![v as u8]
    } else if v <= u16::MAX {
        seq![251u8] + spec_u16_to_le_bytes(v as u16)
    } else {
        seq![252u8] + spec_u32_to_le_bytes(v)
    }
}

/// Variable-width encoding of a `u64`.
pub open spec fn vu64(v: u64) -> Seq<u8> {
    if v <= 250 {
        seq![v as u8]
    } else if v <= u16::MAX {
        seq![251u8] + spec_u16_to_le_bytes(v as u16)
    } else if v <= u32::MAX {
        seq![252u8] + spec_u32_to_le_bytes(v as u32)
    } else {
        seq![253u8] + spec_u64_to_le_bytes(v)
    }
}

/// Encoding of an `i16`: zig-zag, then variable width.
pub open spec fn vi16(v: i16) -> Seq<u8> {
    vu16(zigzag16(v))
}

/// Encoding of an `i32`: zig-zag, then variable width.
pub open spec fn vi32(v: i32) -> Seq<u8> {
    vu32(zigzag32(v))
}

/// Encoding of an `i64`: zig-zag, then variable width.
pub open spec fn vi64(v: i64) -> Seq<u8> {
    vu64(zigzag64(v))
}

/// Encoding of a string: its UTF-8 byte length as a variable-width integer,
/// then the UTF-8 bytes.
pub open spec fn str_enc(s: Seq<char>) -> Seq<u8> {
    vu64(encode_utf8(s).len() as u64) + encode_utf8(s)
}

/// The encoding of one value, whatever its type.
pub open spec fn enc_val(v: crate::Val) -> Seq<u8> {
    match v {
        crate::Val::U8(x) => seq![x],
        crate::Val::I8(x) => seq![x as u8],
        crate::Val::U16(x) => vu16(x),
        crate::Val::I16(x) => vi16(x),
        crate::Val::U32(x) => vu32(x),
        crate::Val::I32(x) => vi32(x),
        crate::Val::U64(x) => vu64(x),
        crate::Val::I64(x) => vi64(x),
        crate::Val::Str(s) => str_enc(s),
    }
}

/// Encodes one value by dispatching on its type.
pub fn enc_value(v: &Value) -> (r: Vec<u8>)
    ensures
        r@ == enc_val(v@),
{
    match v {
        Value::U8(x) => enc_u8(*x),
        Value::I8(x) => enc_i8(*x),
        Value::U16(x) => enc_u16(*x),
        Value::I16(x) => enc_i16(*x),
        Value::U32(x) => enc_u32(*x),
        Value::I32(x) => enc_i32(*x),
        Value::U64(x) => enc_u64(*x),
        Value::I64(x) => enc_i64(*x),
        Value::Str(s) => enc_str(s.as_str()),
    }
}

/// Relies on `bincode::encode_to_vec` with the standard configuration: a
/// `u8` is written as its own single byte, and writing into a vector cannot
/// fail.
#[verifier::external_body]
pub(crate) fn enc_u8(v: u8) -> (r: Vec<u8>)
    ensures
        r@ == seq![v],
{
    bincode::encode_to_vec(v, bincode::config::standard()).unwrap()
}

/// Relies on `bincode::encode_to_vec` with the standard configuration: an
/// `i8` is written as its two's-complement byte, and writing into a vector
/// cannot fail.
#[verifier::external_body]
pub(crate) fn enc_i8(v: i8) -> (r: Vec<u8>)
    ensures
        r@ == seq![v as u8],
{
    bincode::encode_to_vec(v, bincode::config::standard()).unwrap()
}

/// Relies on `bincode::encode_to_vec` with the standard configuration: a
/// `u16` is written in the variable-width form, and writing into a vector
/// cannot fail.
#[verifier::external_body]
pub(crate) fn enc_u16(v: u16) -> (r: Vec<u8>)
    ensures
        r@ == vu16(v),
{
    bincode::encode_to_vec(v, bincode::config::standard()).unwrap()
}

/// Relies on `bincode::encode_to_vec` with the standard configuration: a
/// `u32` is written in the variable-width form, and writing into a vector
/// cannot fail.
#[verifier::external_body]
pub(crate) fn enc_u32(v: u32) -> (r: Vec<u8>)
    ensures
        r@ == vu32(v),
{
    bincode::encode_to_vec(v, bincode::config::standard()).unwrap()
}

/// Relies on `bincode::encode_to_vec` with the standard configuration: a
/// `u64` is written in the variable-width form, and writing into a vector
/// cannot fail.
#[verifier::external_body]
pub(crate) fn enc_u64(v: u64) -> (r: Vec<u8>)
    ensures
        r@ == vu64(v),
{
    bincode::encode_to_vec(v, bincode::config::standard()).unwrap()
}

/// Relies on `bincode::encode_to_vec` with the standard configuration: an
/// `i16` is zig-zag folded and written in the variable-width form, and
/// writing into a vector cannot fail.
#[verifier::external_body]
pub(crate) fn enc_i16(v: i16) -> (r: Vec<u8>)
    ensures
        r@ == vi16(v),
{
    bincode::encode_to_vec(v, bincode::config::standard()).unwrap()
}

/// Relies on `bincode::encode_to_vec` with the standard configuration: an
/// `i32` is zig-zag folded and written in the variable-width form, and
/// writing into a vector cannot fail.
#[verifier::external_body]
pub(crate) fn enc_i32(v: i32) -> (r: Vec<u8>)
    ensures
        r@ == vi32(v),
{
    bincode::encode_to_vec(v, bincode::config::standard()).unwrap()
}

/// Relies on `bincode::encode_to_vec` with the standard configuration: an
/// `i64` is zig-zag folded and written in the variable-width form, and
/// writing into a vector cannot fail.
#[verifier::external_body]
pub(crate) fn enc_i64(v: i64) -> (r: Vec<u8>)
    ensures
        r@ == vi64(v),
{
    bincode::encode_to_vec(v, bincode::config::standard()).unwrap()
}

/// Relies on `bincode::encode_to_vec` with the standard configuration: a
/// string is written as its UTF-8 byte length in the variable-width form
/// followed by its UTF-8 bytes, and writing into a vector cannot fail.
#[verifier::external_body]
pub(crate) fn enc_str(v: &str) -> (r: Vec<u8>)
    ensures
        r@ == str_enc(v@),
{
    bincode::encode_to_vec(v, bincode::config::standard()).unwrap()
}

/// Relies on `bincode::decode_from_slice` with the standard configuration:
/// a `u8` read succeeds exactly on a non-empty slice and returns its first
/// byte, consuming one byte.
#[verifier::external_body]
pub(crate) fn dec_u8(buf: &[u8]) -> (r: Option<(u8, usize)>)
    ensures
        r == (if buf@.len() >= 1 {
            Some((buf@[0], 1usize))
        } else {
            None::<(u8, usize)>
        }),
{
    bincode::decode_from_slice::<u8, _>(buf, bincode::config::standard()).ok()
}

/// Relies on `bincode::decode_from_slice` with the standard configuration:
/// an `i8` read succeeds exactly on a non-empty slice and returns its first
/// byte as a two's-complement value, consuming one byte.
#[verifier::external_body]
pub(crate) fn dec_i8(buf: &[u8]) -> (r: Option<(i8, usize)>)
    ensures
        r == (if buf@.len() >= 1 {
            Some((buf@[0] as i8, 1usize))
        } else {
            None::<(i8, usize)>
        }),
{
    bincode::decode_from_slice::<i8, _>(buf, bincode::config::standard()).ok()
}

/// Relies on `bincode::decode_from_slice` with the standard configuration:
/// the variable-width form is prefix-free, so a slice that starts with the
/// encoding of some `u16` is read back as exactly that value, consuming
/// exactly its encoding; any successful read consumes at least one byte and
/// no more than the slice holds.
#[verifier::external_body]
pub(crate) fn dec_u16(buf: &[u8]) -> (r: Option<(u16, usize)>)
    ensures
        r matches Some(p) ==> 1 <= p.1 <= buf@.len(),
        forall|v: u16| prefix_of(#[trigger] vu16(v), buf@) ==> r == Some((v, vu16(v).len() as usize)),
{
    bincode::decode_from_slice::<u16, _>(buf, bincode::config::standard()).ok()
}

/// Relies on `bincode::decode_from_slice` with the standard configuration:
/// the variable-width form is prefix-free, so a slice that starts with the
/// encoding of some `u32` is read back as exactly that value, consuming
/// exactly its encoding; any successful read consumes at least one byte and
/// no more than the slice holds.
#[verifier::external_body]
pub(crate) fn dec_u32(buf: &[u8]) -> (r: Option<(u32, usize)>)
    ensures
        r matches Some(p) ==> 1 <= p.1 <= buf@.len(),
        forall|v: u32| prefix_of(#[trigger] vu32(v), buf@) ==> r == Some((v, vu32(v).len() as usize)),
{
    bincode::decode_from_slice::<u32, _>(buf, bincode::config::standard()).ok()
}

/// Relies on `bincode::decode_from_slice` with the standard configuration:
/// the variable-width form is prefix-free, so a slice that starts with the
/// encoding of some `u64` is read back as exactly that value, consuming
/// exactly its encoding; any successful read consumes at least one byte and
/// no more than the slice holds.
#[verifier::external_body]
pub(crate) fn dec_u64(buf: &[u8]) -> (r: Option<(u64, usize)>)
    ensures
        r matches Some(p) ==> 1 <= p.1 <= buf@.len(),
        forall|v: u64| prefix_of(#[trigger] vu64(v), buf@) ==> r == Some((v, vu64(v).len() as usize)),
{
    bincode::decode_from_slice::<u64, _>(buf, bincode::config::standard()).ok()
}

/// Relies on `bincode::decode_from_slice` with the standard configuration:
/// a slice that starts with the zig-zag variable-width encoding of some
/// `i16` is read back as exactly that value, consuming exactly its
/// encoding; any successful read consumes at least one byte and no more
/// than the slice holds.
#[verifier::external_body]
pub(crate) fn dec_i16(buf: &[u8]) -> (r: Option<(i16, usize)>)
    ensures
        r matches Some(p) ==> 1 <= p.1 <= buf@.len(),
        forall|v: i16| prefix_of(#[trigger] vi16(v), buf@) ==> r == Some((v, vi16(v).len() as usize)),
{
    bincode::decode_from_slice::<i16, _>(buf, bincode::config::standard()).ok()
}

/// Relies on `bincode::decode_from_slice` with the standard configuration:
/// a slice that starts with the zig-zag variable-width encoding of some
/// `i32` is read back as exactly that value, consuming exactly its
/// encoding; any successful read consumes at least one byte and no more
/// than the slice holds.
#[verifier::external_body]
pub(crate) fn dec_i32(buf: &[u8]) -> (r: Option<(i32, usize)>)
    ensures
        r matches Some(p) ==> 1 <= p.1 <= buf@.len(),
        forall|v: i32| prefix_of(#[trigger] vi32(v), buf@) ==> r == Some((v, vi32(v).len() as usize)),
{
    bincode::decode_from_slice::<i32, _>(buf, bincode::config::standard()).ok()
}

/// Relies on `bincode::decode_from_slice` with the standard configuration:
/// a slice that starts with the zig-zag variable-width encoding of some
/// `i64` is read back as exactly that value, consuming exactly its
/// encoding; any successful read consumes at least one byte and no more
/// than the slice holds.
#[verifier::external_body]
pub(crate) fn dec_i64(buf: &[u8]) -> (r: Option<(i64, usize)>)
    ensures
        r matches Some(p) ==> 1 <= p.1 <= buf@.len(),
        forall|v: i64| prefix_of(#[trigger] vi64(v), buf@) ==> r == Some((v, vi64(v).len() as usize)),
{
    bincode::decode_from_slice::<i64, _>(buf, bincode::config::standard()).ok()
}

/// Relies on `bincode::decode_from_slice` with the standard configuration:
/// the length prefix makes string encodings prefix-free, so a slice that
/// starts with the encoding of some character sequence is read back as a
/// string with exactly those characters, consuming exactly that encoding;
/// any successful read consumes at least one byte and no more than the
/// slice holds. The decode allocates the prefixed length up front, so the
/// caller rules out length prefixes that exceed the slice itself.
#[verifier::external_body]
pub(crate) fn dec_str(buf: &[u8]) -> (r: Option<(String, usize)>)
    requires
        forall|l: u64| prefix_of(#[trigger] vu64(l), buf@) ==> l <= buf@.len(),
    ensures
        r matches Some(p) ==> 1 <= p.1 <= buf@.len(),
        forall|s: Seq<char>|
            prefix_of(#[trigger] str_enc(s), buf@) ==> r is Some && r.unwrap().0@ == s
                && r.unwrap().1 == str_enc(s).len(),
{
    bincode::decode_from_slice::<String, _>(buf, bincode::config::standard()).ok()
}

} // verus!
