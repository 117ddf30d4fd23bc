//! A self-describing binary file format for a single typed column of values,
//! with optional run-length compression, bounded-size data pages, and a
//! footer-based trailer protocol that locates page metadata from the end of
//! the stream.
//!
//! Byte layout, in stream order: a fixed 9-byte magic literal; a 2-byte
//! header (type tag, run-length flag); zero or more data pages holding the
//! encoded records back-to-back; the footer (tag, flag, page descriptions);
//! and an 8-byte little-endian trailer giving the footer's byte length.
//!
//! The primitive value codec (variable-width integers and length-prefixed
//! strings) is an external collaborator; everything layered above it --
//! run-length encoding, paging, the footer protocol, and per-page value
//! accounting on decode -- is specified and verified here.
use vstd::prelude::*;

pub mod codec;
pub mod rle;
pub mod encode;
pub mod decode;

verus! {

/// Tag identifying the concrete type of the values stored in a column.
///
/// Exactly one tag is compatible with each supported value shape, so a
/// reader that checks its requested tag against the persisted one can never
/// silently reinterpret values of another type.
#[derive(Clone, Copy, Debug, PartialEq, Eq, Structural)]
pub enum DataType {
    U8,
    I8,
    U16,
    I16,
    U32,
    I32,
    U64,
    I64,
    Str,
}

/// One value of a column: a closed union over the supported primitive types.
#[derive(Debug)]
pub enum Value {
    U8(u8),
    I8(i8),
    U16(u16),
    I16(i16),
    U32(u32),
    I32(i32),
    U64(u64),
    I64(i64),
    Str(String),
}

/// The mathematical content of a `Value`: the same union, with a string
/// abstracted to its character sequence.
pub ghost enum Val {
    U8(u8),
    I8(i8),
    U16(u16),
    I16(i16),
    U32(u32),
    I32(i32),
    U64(u64),
    I64(i64),
    Str(Seq<char>),
}

impl View for Value {
    type V = Val;

    open spec fn view(&self) -> Val {
        match self {
            Value::U8(x) => Val::U8(*x),
            Value::I8(x) => Val::I8(*x),
            Value::U16(x) => Val::U16(*x),
            Value::I16(x) => Val::I16(*x),
            Value::U32(x) => Val::U32(*x),
            Value::I32(x) => Val::I32(*x),
            Value::U64(x) => Val::U64(*x),
            Value::I64(x) => Val::I64(*x),
            Value::Str(s) => Val::Str(s@),
        }
    }
}

/// The unique tag compatible with a value.
pub open spec fn val_type(v: Val) -> DataType {
    match v {
        Val::U8(_) => DataType::U8,
        Val::I8(_) => DataType::I8,
        Val::U16(_) => DataType::U16,
        Val::I16(_) => DataType::I16,
        Val::U32(_) => DataType::U32,
        Val::I32(_) => DataType::I32,
        Val::U64(_) => DataType::U64,
        Val::I64(_) => DataType::I64,
        Val::Str(_) => DataType::Str,
    }
}

/// The views of a sequence of values.
pub open spec fn vals(s: Seq<Value>) -> Seq<Val> {
    s.map_values(|v: Value| v@)
}

impl DataType {
    /// The registry lookup: the unique tag whose supported set contains the
    /// given value's type.
    pub fn from_type(v: &Value) -> (r: Option<DataType>)
        ensures
            r == Some(val_type(v@)),
    {
        match v {
            Value::U8(_) => Some(DataType::U8),
            Value::I8(_) => Some(DataType::I8),
            Value::U16(_) => Some(DataType::U16),
            Value::I16(_) => Some(DataType::I16),
            Value::U32(_) => Some(DataType::U32),
            Value::I32(_) => Some(DataType::I32),
            Value::U64(_) => Some(DataType::U64),
            Value::I64(_) => Some(DataType::I64),
            Value::Str(_) => Some(DataType::Str),
        }
    }

    /// The reverse test: whether this tag's supported set contains the given
    /// value's type.
    pub fn is_supported(&self, v: &Value) -> (r: bool)
        ensures
            r == (val_type(v@) == *self),
    {
        match (self, v) {
            (DataType::U8, Value::U8(_)) => true,
            (DataType::I8, Value::I8(_)) => true,
            (DataType::U16, Value::U16(_)) => true,
            (DataType::I16, Value::I16(_)) => true,
            (DataType::U32, Value::U32(_)) => true,
            (DataType::I32, Value::I32(_)) => true,
            (DataType::U64, Value::U64(_)) => true,
            (DataType::I64, Value::I64(_)) => true,
            (DataType::Str, Value::Str(_)) => true,
            _ => false,
        }
    }
}

/// The tags' supported sets are pairwise disjoint: a value's type never
/// belongs to two different tags, so the registry assigns each supported
/// type exactly one tag.
pub proof fn lemma_unique_tag(t1: DataType, t2: DataType, v: Val)
    requires
        val_type(v) == t1,
        val_type(v) == t2,
    ensures
        t1 == t2,
{
}

impl Clone for Value {
    fn clone(&self) -> (r: Self)
        ensures
            r == *self,
    {
        match self {
            Value::U8(x) => Value::U8(*x),
            Value::I8(x) => Value::I8(*x),
            Value::U16(x) => Value::U16(*x),
            Value::I16(x) => Value::I16(*x),
            Value::U32(x) => Value::U32(*x),
            Value::I32(x) => Value::I32(*x),
            Value::U64(x) => Value::U64(*x),
            Value::I64(x) => Value::I64(*x),
            Value::Str(s) => Value::Str(s.clone()),
        }
    }
}

impl PartialEq for Value {
    fn eq(&self, other: &Value) -> (r: bool) {
        match (self, other) {
            (Value::U8(a), Value::U8(b)) => *a == *b,
            (Value::I8(a), Value::I8(b)) => *a == *b,
            (Value::U16(a), Value::U16(b)) => *a == *b,
            (Value::I16(a), Value::I16(b)) => *a == *b,
            (Value::U32(a), Value::U32(b)) => *a == *b,
            (Value::I32(a), Value::I32(b)) => *a == *b,
            (Value::U64(a), Value::U64(b)) => *a == *b,
            (Value::I64(a), Value::I64(b)) => *a == *b,
            (Value::Str(a), Value::Str(b)) => *a == *b,
            _ => false,
        }
    }
}

impl vstd::std_specs::cmp::PartialEqSpecImpl for Value {
    open spec fn obeys_eq_spec() -> bool {
        true
    }

    open spec fn eq_spec(&self, other: &Value) -> bool {
        self@ == other@
    }
}

/// Fixed-size record written once, directly after the magic bytes.
#[derive(Clone, Copy, Debug, PartialEq, Eq, Structural)]
pub struct Header {
    pub data_type: DataType,
    pub use_rle: bool,
}

/// Description of one data page: where it starts in the stream, how many
/// logical values it represents after run expansion, and how many encoded
/// records it physically holds.
///
/// `encoded_values_count <= values_count` always, with equality exactly when
/// no run in the page is longer than one.
#[derive(Clone, Copy, Debug, PartialEq, Eq, Structural)]
pub struct PageInfo {
    pub file_offset: i64,
    pub values_count: usize,
    pub encoded_values_count: usize,
}

/// Metadata block written after all data pages and located through the
/// 8-byte trailer. It repeats the type tag and the run-length flag so that
/// a reader needs nothing but the footer to interpret the pages.
#[derive(Clone, Debug)]
pub struct Footer {
    pub data_type: DataType,
    pub use_rle: bool,
    pub pages: Vec<PageInfo>,
}

impl PartialEq for Footer {
    fn eq(&self, other: &Footer) -> (r: bool) {
        if self.data_type != other.data_type || self.use_rle != other.use_rle {
            return false;
        }
        if self.pages.len() != other.pages.len() {
            return false;
        }
        let mut i: usize = 0;
        while i < self.pages.len()
            invariant
                0 <= i <= self.pages@.len(),
                self.pages@.len() == other.pages@.len(),
                forall|j: int| 0 <= j < i ==> self.pages@[j] == other.pages@[j],
            decreases self.pages@.len() - i,
        {
            if self.pages[i] != other.pages[i] {
                return false;
            }
            i += 1;
        }
        proof {
            assert(self.pages@ =~= other.pages@);
        }
        true
    }
}

impl vstd::std_specs::cmp::PartialEqSpecImpl for Footer {
    open spec fn obeys_eq_spec() -> bool {
        true
    }

    open spec fn eq_spec(&self, other: &Footer) -> bool {
        self.data_type == other.data_type && self.use_rle == other.use_rle
            && self.pages@ == other.pages@
    }
}

/// Everything that can go wrong while encoding or decoding a column.
#[derive(Clone, Copy, Debug, PartialEq, Eq, Structural)]
pub enum ColumnError {
    /// The stream does not begin with the fixed magic literal: it is not a
    /// column in this format.
    BadMagic,
    /// The stream is too short to hold the fixed-size parts of the format.
    Truncated,
    /// The requested value type does not match the persisted tag, or a value
    /// handed to the encoder does not match the declared column tag.
    UnsupportedDataType { expected: DataType, actual: DataType },
    /// A decoded run is longer than the remaining logical budget of its
    /// page: the stream is corrupt.
    NotEnoughValuesInReader { expected_total: usize, actual_total: usize },
    /// The primitive codec could not read a well-formed record or footer
    /// field at the current position.
    DecodeFailed,
    /// The encoded data region would grow past the largest representable
    /// page offset.
    TooLarge,
}

/// Number of bytes in the magic literal.
pub const MAGIC_BYTES_LEN: usize = 9;

/// The fixed magic literal `wmedrano0` that every stream starts with.
pub open spec fn magic_seq() -> Seq<u8> {
    seq![119u8, 109u8, 101u8, 100u8, 114u8, 97u8, 110u8, 111u8, 48u8]
}

/// Appends the magic literal to a byte buffer.
pub fn push_magic(out: &mut Vec<u8>)
    ensures
        final(out)@ == old(out)@ + magic_seq(),
{
    out.push(119u8);
    out.push(109u8);
    out.push(101u8);
    out.push(100u8);
    out.push(114u8);
    out.push(97u8);
    out.push(110u8);
    out.push(111u8);
    out.push(48u8);
    proof {
        assert(out@ =~= old(out)@ + magic_seq());
    }
}

/// The byte persisted for a tag.
pub open spec fn spec_tag_code(t: DataType) -> u8 {
    match t {
        DataType::U8 => 0u8,
        DataType::I8 => 1u8,
        DataType::U16 => 2u8,
        DataType::I16 => 3u8,
        DataType::U32 => 4u8,
        DataType::I32 => 5u8,
        DataType::U64 => 6u8,
        DataType::I64 => 7u8,
        DataType::Str => 8u8,
    }
}

/// The tag a persisted byte stands for, if any.
pub open spec fn spec_tag_of_code(c: u8) -> Option<DataType> {
    if c == 0 {
        Some(DataType::U8)
    } else if c == 1 {
        Some(DataType::I8)
    } else if c == 2 {
        Some(DataType::U16)
    } else if c == 3 {
        Some(DataType::I16)
    } else if c == 4 {
        Some(DataType::U32)
    } else if c == 5 {
        Some(DataType::I32)
    } else if c == 6 {
        Some(DataType::U64)
    } else if c == 7 {
        Some(DataType::I64)
    } else if c == 8 {
        Some(DataType::Str)
    } else {
        None
    }
}

/// Writes a tag as its persisted byte.
pub fn tag_code(t: DataType) -> (r: u8)
    ensures
        r == spec_tag_code(t),
{
    match t {
        DataType::U8 => 0u8,
        DataType::I8 => 1u8,
        DataType::U16 => 2u8,
        DataType::I16 => 3u8,
        DataType::U32 => 4u8,
        DataType::I32 => 5u8,
        DataType::U64 => 6u8,
        DataType::I64 => 7u8,
        DataType::Str => 8u8,
    }
}

/// Reads a tag back from its persisted byte.
pub fn tag_of_code(c: u8) -> (r: Option<DataType>)
    ensures
        r == spec_tag_of_code(c),
        forall|t: DataType| c == spec_tag_code(t) ==> r == Some(t),
{
    if c == 0 {
        Some(DataType::U8)
    } else if c == 1 {
        Some(DataType::I8)
    } else if c == 2 {
        Some(DataType::U16)
    } else if c == 3 {
        Some(DataType::I16)
    } else if c == 4 {
        Some(DataType::U32)
    } else if c == 5 {
        Some(DataType::I32)
    } else if c == 6 {
        Some(DataType::U64)
    } else if c == 7 {
        Some(DataType::I64)
    } else if c == 8 {
        Some(DataType::Str)
    } else {
        None
    }
}

} // verus!
