//! Streaming cursor over the raw GGUF byte stream.
//!
//! Only what the parser needs: little-endian scalar reads, length-prefixed
//! strings, and the ability to skip (or stringify) unknown KV values.
//!
//! What each operation does is stated on [`CursorView`]: an operation takes the
//! state before it to the state after it, together with a value or an error.

use crate::error;
use crate::error::{ErrorView, HostSizeField, ParseLimitKind, ParserError};
use crate::gguf::le;
use crate::gguf::limits;
use crate::gguf::limits::{u64_to_usize, ParseLimits};
use crate::text;
use vstd::prelude::*;
use vstd::slice::slice_subrange;

verus! {

/// GGUF value type: 8-bit unsigned integer.
pub const GGUF_VALUE_TYPE_UINT8: u32 = 0;

/// GGUF value type: 8-bit signed integer.
pub const GGUF_VALUE_TYPE_INT8: u32 = 1;

/// GGUF value type: 16-bit unsigned integer.
pub const GGUF_VALUE_TYPE_UINT16: u32 = 2;

/// GGUF value type: 16-bit signed integer.
pub const GGUF_VALUE_TYPE_INT16: u32 = 3;

/// GGUF value type: 32-bit unsigned integer.
pub const GGUF_VALUE_TYPE_UINT32: u32 = 4;

/// GGUF value type: 32-bit signed integer.
pub const GGUF_VALUE_TYPE_INT32: u32 = 5;

/// GGUF value type: 32-bit IEEE 754 float.
pub const GGUF_VALUE_TYPE_FLOAT32: u32 = 6;

/// GGUF value type: boolean (1 byte, 0 or 1).
pub const GGUF_VALUE_TYPE_BOOL: u32 = 7;

/// GGUF value type: length-prefixed UTF-8 string.
pub const GGUF_VALUE_TYPE_STRING: u32 = 8;

/// GGUF value type: length-prefixed array of nested values.
pub const GGUF_VALUE_TYPE_ARRAY: u32 = 9;

/// GGUF value type: 64-bit unsigned integer.
pub const GGUF_VALUE_TYPE_UINT64: u32 = 10;

/// GGUF value type: 64-bit signed integer.
pub const GGUF_VALUE_TYPE_INT64: u32 = 11;

/// GGUF value type: 64-bit IEEE 754 float.
pub const GGUF_VALUE_TYPE_FLOAT64: u32 = 12;

/// The value type is one of the signed integers.
pub open spec fn signed_type(value_type: u32) -> bool {
    value_type == GGUF_VALUE_TYPE_INT8 || value_type == GGUF_VALUE_TYPE_INT16 || value_type
        == GGUF_VALUE_TYPE_INT32 || value_type == GGUF_VALUE_TYPE_INT64
}

/// The value type is one of the unsigned integers or a boolean.
pub open spec fn unsigned_type(value_type: u32) -> bool {
    value_type == GGUF_VALUE_TYPE_UINT8 || value_type == GGUF_VALUE_TYPE_UINT16 || value_type
        == GGUF_VALUE_TYPE_UINT32 || value_type == GGUF_VALUE_TYPE_UINT64 || value_type
        == GGUF_VALUE_TYPE_BOOL
}

/// Bytes of one value of a fixed-size type.
pub open spec fn scalar_size(value_type: u32) -> Option<u64> {
    if value_type == GGUF_VALUE_TYPE_UINT8 || value_type == GGUF_VALUE_TYPE_INT8 || value_type
        == GGUF_VALUE_TYPE_BOOL {
        Some(1)
    } else if value_type == GGUF_VALUE_TYPE_UINT16 || value_type == GGUF_VALUE_TYPE_INT16 {
        Some(2)
    } else if value_type == GGUF_VALUE_TYPE_UINT32 || value_type == GGUF_VALUE_TYPE_INT32
        || value_type == GGUF_VALUE_TYPE_FLOAT32 {
        Some(4)
    } else if value_type == GGUF_VALUE_TYPE_UINT64 || value_type == GGUF_VALUE_TYPE_INT64
        || value_type == GGUF_VALUE_TYPE_FLOAT64 {
        Some(8)
    } else {
        None
    }
}

/// The number that an `n`-byte two's complement word denotes, given its unsigned value.
pub open spec fn signed_value(value: nat, bytes: int) -> int {
    let (half, full): (int, int) = if bytes == 1 {
        (0x80, 0x100)
    } else if bytes == 2 {
        (0x8000, 0x1_0000)
    } else if bytes == 4 {
        (0x8000_0000, 0x1_0000_0000)
    } else {
        (0x8000_0000_0000_0000, 0x1_0000_0000_0000_0000)
    };
    if value < half {
        value as int
    } else {
        value - full
    }
}

/// The unsigned 64-bit word with the same bits as a signed one.
pub open spec fn word_bits(value: int) -> u64 {
    if value < 0 {
        (value + 0x1_0000_0000_0000_0000) as u64
    } else {
        value as u64
    }
}

/// Whether `value_type` is a signed integer type.
pub fn is_signed_layout_type(value_type: u32) -> (r: bool)
    ensures
        r == signed_type(value_type),
{
    value_type == GGUF_VALUE_TYPE_INT8 || value_type == GGUF_VALUE_TYPE_INT16 || value_type
        == GGUF_VALUE_TYPE_INT32 || value_type == GGUF_VALUE_TYPE_INT64
}

/// Whether `value_type` is an unsigned integer type or a boolean.
pub fn is_unsigned_layout_type(value_type: u32) -> (r: bool)
    ensures
        r == unsigned_type(value_type),
{
    value_type == GGUF_VALUE_TYPE_UINT8 || value_type == GGUF_VALUE_TYPE_UINT16 || value_type
        == GGUF_VALUE_TYPE_UINT32 || value_type == GGUF_VALUE_TYPE_UINT64 || value_type
        == GGUF_VALUE_TYPE_BOOL
}

/// A signed layout value as an unsigned one: an error exactly when it is negative.
pub open spec fn nonneg_value(path: Seq<char>, v: i64) -> Result<u64, ErrorView> {
    if v < 0 {
        Err(
            ErrorView::InvalidLayout {
                path,
                reason: "signed layout value "@ + text::decimal_int(v as int)
                    + " is negative; expected non-negative"@,
            },
        )
    } else {
        Ok(v as u64)
    }
}

/// Reject a negative layout value.
pub fn nonneg_signed(path: &str, v: i64) -> (r: Result<u64, ParserError>)
    ensures
        limits::outcome(r) == nonneg_value(path@, v),
{
    if v < 0 {
        Err(
            crate::error::invalid_layout(
                path,
                text::concat3(
                    "signed layout value ",
                    text::decimal_string_signed(v).as_str(),
                    " is negative; expected non-negative",
                ),
            ),
        )
    } else {
        Ok(v as u64)
    }
}

/// Bytes of one value of a fixed-size type.
pub fn fixed_scalar_size(value_type: u32) -> (r: Option<u64>)
    ensures
        r == scalar_size(value_type),
{
    if value_type == GGUF_VALUE_TYPE_UINT8 || value_type == GGUF_VALUE_TYPE_INT8 || value_type
        == GGUF_VALUE_TYPE_BOOL {
        Some(1)
    } else if value_type == GGUF_VALUE_TYPE_UINT16 || value_type == GGUF_VALUE_TYPE_INT16 {
        Some(2)
    } else if value_type == GGUF_VALUE_TYPE_UINT32 || value_type == GGUF_VALUE_TYPE_INT32
        || value_type == GGUF_VALUE_TYPE_FLOAT32 {
        Some(4)
    } else if value_type == GGUF_VALUE_TYPE_UINT64 || value_type == GGUF_VALUE_TYPE_INT64
        || value_type == GGUF_VALUE_TYPE_FLOAT64 {
        Some(8)
    } else {
        None
    }
}

/// State of a cursor.
#[verifier::ext_equal]
pub struct CursorView {
    /// The bytes being read.
    pub bytes: Seq<u8>,
    /// Position of the next byte.
    pub offset: int,
    /// Path named in errors.
    pub path: Seq<char>,
    /// Budgets in force.
    pub limits: ParseLimits,
    /// Array elements charged so far.
    pub work: u64,
    /// Start of the metadata section, inside it.
    pub origin: Option<int>,
}

/// A scalar value: text, or the bits of a floating point number.
#[derive(Debug, Clone, PartialEq, Eq)]
pub enum ScalarValue {
    /// An integer, a boolean or a string.
    Text(String),
    /// A 32-bit floating point number.
    Float32(u32),
    /// A 64-bit floating point number.
    Float64(u64),
}

/// What a [`ScalarValue`] says.
#[verifier::ext_equal]
pub enum ScalarView {
    Text(Seq<char>),
    Float32(u32),
    Float64(u64),
}

impl View for ScalarValue {
    type V = ScalarView;

    open spec fn view(&self) -> ScalarView {
        match self {
            ScalarValue::Text(s) => ScalarView::Text(s@),
            ScalarValue::Float32(bits) => ScalarView::Float32(*bits),
            ScalarValue::Float64(bits) => ScalarView::Float64(*bits),
        }
    }
}

impl CursorView {
    /// The position and the section start lie inside the bytes, which fit in memory.
    pub open spec fn well_formed(self) -> bool {
        &&& 0 <= self.offset <= self.bytes.len() <= usize::MAX
        &&& match self.origin {
            Some(o) => 0 <= o <= self.offset,
            None => true,
        }
    }

    /// Bytes not yet read.
    pub open spec fn remaining(self) -> int {
        self.bytes.len() - self.offset
    }

    /// The cursor advanced by `n` bytes.
    pub open spec fn advance(self, n: int) -> CursorView {
        CursorView { offset: self.offset + n, ..self }
    }

    /// The error for an unsupported format, with this cursor's path.
    pub open spec fn unsupported(self, reason: Seq<char>) -> ErrorView {
        ErrorView::UnsupportedFormat { path: self.path, reason }
    }

    /// Whether `extra` more bytes stay within the metadata budget.
    pub open spec fn metadata_room(self, extra: int) -> Result<(), ErrorView> {
        match self.origin {
            None => Ok(()),
            Some(o) => {
                let projected = self.offset - o + extra;
                if projected > u64::MAX {
                    Err(
                        ErrorView::LimitExceeded {
                            path: self.path,
                            limit: ParseLimitKind::MetadataBytes,
                            declared: u64::MAX,
                            budget: self.limits.max_metadata_bytes,
                        },
                    )
                } else {
                    limits::check_limit(
                        self.limits,
                        self.path,
                        ParseLimitKind::MetadataBytes,
                        projected as u64,
                    )
                }
            },
        }
    }

    /// Charge `items` array elements to the work budget.
    pub open spec fn charge_work(self, items: u64) -> (CursorView, Result<(), ErrorView>) {
        if self.work + items > u64::MAX {
            (
                self,
                Err(
                    ErrorView::LimitExceeded {
                        path: self.path,
                        limit: ParseLimitKind::ArrayWorkItems,
                        declared: u64::MAX,
                        budget: self.limits.max_array_work_items,
                    },
                ),
            )
        } else {
            let declared = (self.work + items) as u64;
            match limits::check_limit(
                self.limits,
                self.path,
                ParseLimitKind::ArrayWorkItems,
                declared,
            ) {
                Err(e) => (self, Err(e)),
                Ok(_) => (CursorView { work: declared, ..self }, Ok(())),
            }
        }
    }

    /// Admit an array of `len` elements: the work budget, then the metadata budget for
    /// elements of a fixed size, then the bytes that are left (one per element at least).
    pub open spec fn admit_array(self, element_type: u32, len: u64) -> (
        CursorView,
        Result<(), ErrorView>,
    ) {
        match self.charge_work(len) {
            (s, Err(e)) => (s, Err(e)),
            (s, Ok(_)) => {
                let too_long = s.unsupported(
                    "GGUF array length exceeds remaining metadata bytes"@,
                );
                match scalar_size(element_type) {
                    Some(size) => {
                        let need: int = if len * size > u64::MAX {
                            u64::MAX as int
                        } else {
                            len * size
                        };
                        match s.metadata_room(need) {
                            Err(e) => (s, Err(e)),
                            Ok(_) => if need > s.remaining() {
                                (s, Err(too_long))
                            } else {
                                (s, Ok(()))
                            },
                        }
                    },
                    None => if len > s.remaining() {
                        (s, Err(too_long))
                    } else {
                        (s, Ok(()))
                    },
                }
            },
        }
    }

    /// Take the next `n` bytes.
    pub open spec fn take(self, n: int) -> (CursorView, Result<Seq<u8>, ErrorView>) {
        match self.metadata_room(n) {
            Err(e) => (self, Err(e)),
            Ok(_) => if self.offset + n > usize::MAX {
                (self, Err(self.unsupported("cursor overflow"@)))
            } else if self.offset + n > self.bytes.len() {
                (self, Err(self.unsupported("unexpected EOF while parsing GGUF"@)))
            } else {
                (self.advance(n), Ok(self.bytes.subrange(self.offset, self.offset + n)))
            },
        }
    }

    /// Read an `n`-byte unsigned number.
    pub open spec fn read_word(self, n: int) -> (CursorView, Result<nat, ErrorView>) {
        match self.take(n) {
            (s, Err(e)) => (s, Err(e)),
            (s, Ok(b)) => (s, Ok(le::le_value(b))),
        }
    }

    /// Read a length-prefixed UTF-8 string.
    pub open spec fn read_text(self) -> (CursorView, Result<Seq<char>, ErrorView>) {
        match self.read_word(8) {
            (s, Err(e)) => (s, Err(e)),
            (s, Ok(n)) => {
                let len = n as u64;
                match limits::check_limit(s.limits, s.path, ParseLimitKind::StringBytes, len) {
                    Err(e) => (s, Err(e)),
                    Ok(_) => match s.metadata_room(len as int) {
                        Err(e) => (s, Err(e)),
                        Ok(_) => match limits::host_usize(len, HostSizeField::StringLen, s.path) {
                            Err(e) => (s, Err(e)),
                            Ok(len) => match s.take(len as int) {
                                (t, Err(e)) => (t, Err(e)),
                                (t, Ok(b)) => if vstd::utf8::valid_utf8(b) {
                                    (t, Ok(vstd::utf8::decode_utf8(b)))
                                } else {
                                    (
                                        t,
                                        Err(
                                            t.unsupported(
                                                "invalid UTF-8 in GGUF string: "@
                                                    + text::utf8_error_text(b),
                                            ),
                                        ),
                                    )
                                },
                            },
                        },
                    },
                }
            },
        }
    }

    /// Read a signed integer of the given type.
    pub open spec fn read_signed(self, value_type: u32) -> (CursorView, Result<i64, ErrorView>) {
        let size = match scalar_size(value_type) {
            Some(n) => n as int,
            None => 0,
        };
        match self.read_word(size) {
            (s, Err(e)) => (s, Err(e)),
            (s, Ok(n)) => (s, Ok(signed_value(n, size) as i64)),
        }
    }

    /// Read an unsigned integer or boolean of the given type.
    pub open spec fn read_unsigned(self, value_type: u32) -> (CursorView, Result<u64, ErrorView>) {
        if !unsigned_type(value_type) {
            (
                self,
                Err(
                    self.unsupported(
                        "expected unsigned numeric GGUF value, got type "@ + text::decimal(
                            value_type as nat,
                        ),
                    ),
                ),
            )
        } else {
            let size = match scalar_size(value_type) {
                Some(n) => n as int,
                None => 0,
            };
            match self.read_word(size) {
                (s, Err(e)) => (s, Err(e)),
                (s, Ok(n)) => (s, Ok(n as u64)),
            }
        }
    }

    /// Read an integer or boolean as a 64-bit word; signed values keep their bits.
    pub open spec fn read_numeric(self, value_type: u32) -> (CursorView, Result<u64, ErrorView>) {
        if signed_type(value_type) {
            match self.read_signed(value_type) {
                (s, Err(e)) => (s, Err(e)),
                (s, Ok(v)) => (s, Ok(word_bits(v as int))),
            }
        } else if unsigned_type(value_type) {
            self.read_unsigned(value_type)
        } else {
            (
                self,
                Err(
                    self.unsupported(
                        "expected numeric GGUF value, got type "@ + text::decimal(
                            value_type as nat,
                        ),
                    ),
                ),
            )
        }
    }

    /// Read a scalar value: integers and booleans as numerals, strings as they are, floating
    /// point numbers as their bits.
    pub open spec fn read_scalar(self, value_type: u32) -> (
        CursorView,
        Result<ScalarView, ErrorView>,
    ) {
        if signed_type(value_type) || unsigned_type(value_type) {
            match self.read_numeric(value_type) {
                (s, Err(e)) => (s, Err(e)),
                (s, Ok(n)) => (s, Ok(ScalarView::Text(text::decimal(n as nat)))),
            }
        } else if value_type == GGUF_VALUE_TYPE_FLOAT32 {
            match self.read_word(4) {
                (s, Err(e)) => (s, Err(e)),
                (s, Ok(n)) => (s, Ok(ScalarView::Float32(n as u32))),
            }
        } else if value_type == GGUF_VALUE_TYPE_FLOAT64 {
            match self.read_word(8) {
                (s, Err(e)) => (s, Err(e)),
                (s, Ok(n)) => (s, Ok(ScalarView::Float64(n as u64))),
            }
        } else if value_type == GGUF_VALUE_TYPE_STRING {
            match self.read_text() {
                (s, Err(e)) => (s, Err(e)),
                (s, Ok(t)) => (s, Ok(ScalarView::Text(t))),
            }
        } else {
            (
                self,
                Err(
                    self.unsupported(
                        "unexpected scalar GGUF value type "@ + text::decimal(value_type as nat),
                    ),
                ),
            )
        }
    }

    /// Read a layout value: an integer or boolean that is not negative and fits the host.
    pub open spec fn read_layout_size(self, value_type: u32) -> (
        CursorView,
        Result<usize, ErrorView>,
    ) {
        if signed_type(value_type) {
            match self.read_signed(value_type) {
                (s, Err(e)) => (s, Err(e)),
                (s, Ok(v)) => match nonneg_value(s.path, v) {
                    Err(e) => (s, Err(e)),
                    Ok(n) => (s, limits::host_usize(n, HostSizeField::Alignment, s.path)),
                },
            }
        } else if unsigned_type(value_type) {
            match self.read_unsigned(value_type) {
                (s, Err(e)) => (s, Err(e)),
                (s, Ok(n)) => (s, limits::host_usize(n, HostSizeField::Alignment, s.path)),
            }
        } else {
            (
                self,
                Err(
                    self.unsupported(
                        "expected integer GGUF value for layout field, got type "@ + text::decimal(
                            value_type as nat,
                        ),
                    ),
                ),
            )
        }
    }

    /// Skip one value that is not an array.
    pub open spec fn skip_scalar(self, value_type: u32) -> (CursorView, Result<(), ErrorView>) {
        match scalar_size(value_type) {
            Some(n) => match self.take(n as int) {
                (s, Err(e)) => (s, Err(e)),
                (s, Ok(_)) => (s, Ok(())),
            },
            None => if value_type == GGUF_VALUE_TYPE_STRING {
                match self.read_text() {
                    (s, Err(e)) => (s, Err(e)),
                    (s, Ok(_)) => (s, Ok(())),
                }
            } else {
                (
                    self,
                    Err(
                        self.unsupported(
                            "unsupported GGUF value type "@ + text::decimal(value_type as nat),
                        ),
                    ),
                )
            },
        }
    }

    /// Skip `count` values that are not arrays, one after the other.
    pub open spec fn skip_scalars(self, value_type: u32, count: nat) -> (
        CursorView,
        Result<(), ErrorView>,
    )
        decreases count,
    {
        if count == 0 {
            (self, Ok(()))
        } else {
            match self.skip_scalar(value_type) {
                (s, Err(e)) => (s, Err(e)),
                (s, Ok(_)) => s.skip_scalars(value_type, (count - 1) as nat),
            }
        }
    }

    /// Read the element type and the length of an array, and admit the array.
    pub open spec fn read_array_header(self) -> (CursorView, Result<(u32, u64), ErrorView>) {
        match self.read_word(4) {
            (s, Err(e)) => (s, Err(e)),
            (s, Ok(element_type)) => match s.read_word(8) {
                (t, Err(e)) => (t, Err(e)),
                (t, Ok(len)) => match t.admit_array(element_type as u32, len as u64) {
                    (u, Err(e)) => (u, Err(e)),
                    (u, Ok(_)) => (u, Ok((element_type as u32, len as u64))),
                },
            },
        }
    }

    /// Skip `count` array elements, one after the other, nested arrays included.
    ///
    /// Skipping an element never moves the cursor back; the definition tests for it so
    /// that it is well-founded on its own.
    pub open spec fn skip_elements(self, value_type: u32, count: u64) -> (
        CursorView,
        Result<(), ErrorView>,
    )
        decreases self.remaining(), count,
    {
        if value_type != GGUF_VALUE_TYPE_ARRAY {
            match limits::host_usize(count, HostSizeField::ArrayLen, self.path) {
                Err(e) => (self, Err(e)),
                Ok(_) => self.skip_scalars(value_type, count as nat),
            }
        } else if count == 0 {
            (self, Ok(()))
        } else {
            match self.read_array_header() {
                (s, Err(e)) => (s, Err(e)),
                (s, Ok((element_type, len))) => if !(0 <= s.remaining() < self.remaining()) {
                    (s, Ok(()))
                } else {
                    match s.skip_elements(element_type, len) {
                        (t, Err(e)) => (t, Err(e)),
                        (t, Ok(_)) => if !(0 <= t.remaining() < self.remaining()) {
                            (t, Ok(()))
                        } else {
                            t.skip_elements(value_type, (count - 1) as u64)
                        },
                    }
                },
            }
        }
    }

    /// Skip an array: its header, then its elements.
    pub open spec fn skip_array(self) -> (CursorView, Result<(), ErrorView>) {
        match self.read_array_header() {
            (s, Err(e)) => (s, Err(e)),
            (s, Ok((element_type, len))) => s.skip_elements(element_type, len),
        }
    }

    /// Skip one value of any type.
    pub open spec fn skip(self, value_type: u32) -> (CursorView, Result<(), ErrorView>) {
        if value_type == GGUF_VALUE_TYPE_ARRAY {
            self.skip_array()
        } else {
            self.skip_scalar(value_type)
        }
    }

    /// The array elements charged and the metadata bytes read are within their budgets.
    pub open spec fn within_budget(self) -> bool {
        &&& self.work <= self.limits.max_array_work_items
        &&& match self.origin {
            Some(o) => self.offset - o <= self.limits.max_metadata_bytes,
            None => true,
        }
    }

    /// `later` is this cursor after some reading: same bytes, path, limits and section,
    /// further along, with no less work charged, and within budget if it was before.
    pub open spec fn leads_to(self, later: CursorView) -> bool {
        &&& self.within_budget() ==> later.within_budget()
        &&& later.bytes == self.bytes
        &&& later.path == self.path
        &&& later.limits == self.limits
        &&& later.origin == self.origin
        &&& self.offset <= later.offset
        &&& self.work <= later.work
        &&& later.well_formed()
    }
}

/// What a reading of text gave, with the error replaced by what it says.
pub open spec fn text_outcome(r: Result<String, ParserError>) -> Result<Seq<char>, ErrorView> {
    match r {
        Ok(s) => Ok(s@),
        Err(e) => Err(e@),
    }
}

/// What a reading of an unsigned word gave.
pub open spec fn word_outcome(r: Result<u64, ParserError>) -> Result<nat, ErrorView> {
    match r {
        Ok(n) => Ok(n as nat),
        Err(e) => Err(e@),
    }
}

/// Cursor over the bytes of a GGUF file.
pub struct GgufCursor<'a> {
    bytes: &'a [u8],
    offset: usize,
    path: &'a str,
    limits: ParseLimits,
    array_work_used: u64,
    metadata_origin: Option<usize>,
}

impl<'a> View for GgufCursor<'a> {
    type V = CursorView;

    closed spec fn view(&self) -> CursorView {
        CursorView {
            bytes: self.bytes@,
            offset: self.offset as int,
            path: self.path@,
            limits: self.limits,
            work: self.array_work_used,
            origin: match self.metadata_origin {
                Some(o) => Some(o as int),
                None => None,
            },
        }
    }
}

impl<'a> GgufCursor<'a> {
    /// A cursor at the start of `bytes` with the default budgets.
    pub fn new(bytes: &'a [u8], path: &'a str) -> (r: GgufCursor<'a>)
        ensures
            r@ == (CursorView {
                bytes: bytes@,
                offset: 0,
                path: path@,
                limits: limits::default_limits(),
                work: 0,
                origin: None,
            }),
            r@.well_formed(),
    {
        GgufCursor::with_limits(bytes, path, ParseLimits::default())
    }

    /// A cursor at the start of `bytes` with the given budgets.
    pub fn with_limits(bytes: &'a [u8], path: &'a str, limits: ParseLimits) -> (r: GgufCursor<'a>)
        ensures
            r@ == (CursorView {
                bytes: bytes@,
                offset: 0,
                path: path@,
                limits,
                work: 0,
                origin: None,
            }),
            r@.well_formed(),
    {
        assert(bytes.len() == bytes@.len());
        GgufCursor { bytes, offset: 0, path, limits, array_work_used: 0, metadata_origin: None }
    }

    /// Position of the next byte.
    pub fn offset(&self) -> (r: usize)
        ensures
            r == self@.offset,
    {
        self.offset
    }

    /// The budgets in force.
    pub fn limits(&self) -> (r: ParseLimits)
        ensures
            r == self@.limits,
    {
        self.limits
    }

    /// Start charging bytes to the metadata budget.
    pub fn begin_metadata_section(&mut self)
        requires
            old(self)@.well_formed(),
        ensures
            final(self)@ == (CursorView { origin: Some(old(self)@.offset), ..old(self)@ }),
            final(self)@.well_formed(),
    {
        self.metadata_origin = Some(self.offset);
    }

    /// Stop charging bytes to the metadata budget.
    pub fn end_metadata_section(&mut self)
        requires
            old(self)@.well_formed(),
        ensures
            final(self)@ == (CursorView { origin: None, ..old(self)@ }),
            final(self)@.well_formed(),
    {
        self.metadata_origin = None;
    }

    fn unsupported(&self, reason: String) -> (r: ParserError)
        ensures
            r@ == self@.unsupported(reason@),
    {
        crate::error::unsupported(self.path, reason)
    }

    fn remaining_bytes(&self) -> (r: u64)
        requires
            self@.well_formed(),
        ensures
            r == self@.remaining(),
    {
        (self.bytes.len() - self.offset) as u64
    }

    fn ensure_metadata_room(&self, extra: u64) -> (r: Result<(), ParserError>)
        requires
            self@.well_formed(),
        ensures
            limits::outcome(r) == self@.metadata_room(extra as int),
    {
        match self.metadata_origin {
            None => Ok(()),
            Some(origin) => {
                let used: u64 = (self.offset - origin) as u64;
                match used.checked_add(extra) {
                    None => Err(
                        ParserError::limit_exceeded(
                            self.path,
                            ParseLimitKind::MetadataBytes,
                            u64::MAX,
                            self.limits.max_metadata_bytes,
                        ),
                    ),
                    Some(projected) => self.limits.reject(
                        self.path,
                        ParseLimitKind::MetadataBytes,
                        projected,
                    ),
                }
            },
        }
    }

    fn consume_array_work(&mut self, items: u64) -> (r: Result<(), ParserError>)
        requires
            old(self)@.well_formed(),
        ensures
            (final(self)@, limits::outcome(r)) == old(self)@.charge_work(items),
            final(self)@.well_formed(),
    {
        match self.array_work_used.checked_add(items) {
            None => Err(
                ParserError::limit_exceeded(
                    self.path,
                    ParseLimitKind::ArrayWorkItems,
                    u64::MAX,
                    self.limits.max_array_work_items,
                ),
            ),
            Some(declared) => match self.limits.reject(
                self.path,
                ParseLimitKind::ArrayWorkItems,
                declared,
            ) {
                Err(e) => Err(e),
                Ok(_) => {
                    self.array_work_used = declared;
                    Ok(())
                },
            },
        }
    }

    fn prepare_array_elements(&mut self, element_type: u32, len: u64) -> (r: Result<
        (),
        ParserError,
    >)
        requires
            old(self)@.well_formed(),
        ensures
            (final(self)@, limits::outcome(r)) == old(self)@.admit_array(element_type, len),
            final(self)@.well_formed(),
    {
        match self.consume_array_work(len) {
            Err(e) => {
                return Err(e);
            },
            Ok(_) => {},
        }
        match fixed_scalar_size(element_type) {
            Some(size) => {
                let need: u64 = match len.checked_mul(size) {
                    Some(n) => n,
                    None => u64::MAX,
                };
                match self.ensure_metadata_room(need) {
                    Err(e) => {
                        return Err(e);
                    },
                    Ok(_) => {},
                }
                if need > self.remaining_bytes() {
                    return Err(
                        self.unsupported(
                            "GGUF array length exceeds remaining metadata bytes".to_owned(),
                        ),
                    );
                }
            },
            None => {
                if len > self.remaining_bytes() {
                    return Err(
                        self.unsupported(
                            "GGUF array length exceeds remaining metadata bytes".to_owned(),
                        ),
                    );
                }
            },
        }
        Ok(())
    }

    /// Take the next `len` bytes.
    pub fn read_exact(&mut self, len: usize) -> (r: Result<&'a [u8], ParserError>)
        requires
            old(self)@.well_formed(),
        ensures
            final(self)@ == old(self)@.take(len as int).0,
            match r {
                Ok(b) => old(self)@.take(len as int).1 == Ok::<Seq<u8>, ErrorView>(b@),
                Err(e) => old(self)@.take(len as int).1 == Err::<Seq<u8>, ErrorView>(e@),
            },
            final(self)@.well_formed(),
    {
        match self.ensure_metadata_room(len as u64) {
            Err(e) => {
                return Err(e);
            },
            Ok(_) => {},
        }
        match self.offset.checked_add(len) {
            None => Err(self.unsupported("cursor overflow".to_owned())),
            Some(end) => {
                if end > self.bytes.len() {
                    return Err(self.unsupported("unexpected EOF while parsing GGUF".to_owned()));
                }
                let slice = slice_subrange(self.bytes, self.offset, end);
                self.offset = end;
                Ok(slice)
            },
        }
    }

    /// Read one byte.
    pub fn read_u8(&mut self) -> (r: Result<u8, ParserError>)
        requires
            old(self)@.well_formed(),
        ensures
            final(self)@ == old(self)@.read_word(1).0,
            match r {
                Ok(n) => old(self)@.read_word(1).1 == Ok::<nat, ErrorView>(n as nat),
                Err(e) => old(self)@.read_word(1).1 == Err::<nat, ErrorView>(e@),
            },
            final(self)@.well_formed(),
    {
        match self.read_exact(1) {
            Err(e) => Err(e),
            Ok(bytes) => {
                proof {
                    le::lemma_le_value_bound(bytes@);
                }
                Ok(bytes[0])
            },
        }
    }

    /// Read a 16-bit little-endian number.
    pub fn read_u16(&mut self) -> (r: Result<u16, ParserError>)
        requires
            old(self)@.well_formed(),
        ensures
            final(self)@ == old(self)@.read_word(2).0,
            match r {
                Ok(n) => old(self)@.read_word(2).1 == Ok::<nat, ErrorView>(n as nat),
                Err(e) => old(self)@.read_word(2).1 == Err::<nat, ErrorView>(e@),
            },
            final(self)@.well_formed(),
    {
        match self.read_exact(2) {
            Err(e) => Err(e),
            Ok(bytes) => Ok(le::le_u16(bytes)),
        }
    }

    /// Read a 32-bit little-endian number.
    pub fn read_u32(&mut self) -> (r: Result<u32, ParserError>)
        requires
            old(self)@.well_formed(),
        ensures
            final(self)@ == old(self)@.read_word(4).0,
            match r {
                Ok(n) => old(self)@.read_word(4).1 == Ok::<nat, ErrorView>(n as nat),
                Err(e) => old(self)@.read_word(4).1 == Err::<nat, ErrorView>(e@),
            },
            final(self)@.well_formed(),
    {
        match self.read_exact(4) {
            Err(e) => Err(e),
            Ok(bytes) => Ok(le::le_u32(bytes)),
        }
    }

    /// Read a 64-bit little-endian number.
    pub fn read_u64(&mut self) -> (r: Result<u64, ParserError>)
        requires
            old(self)@.well_formed(),
        ensures
            (final(self)@, word_outcome(r)) == old(self)@.read_word(8),
            final(self)@.well_formed(),
    {
        match self.read_exact(8) {
            Err(e) => Err(e),
            Ok(bytes) => Ok(le::le_u64(bytes)),
        }
    }

    /// Read a length-prefixed UTF-8 string.
    pub fn read_string(&mut self) -> (r: Result<String, ParserError>)
        requires
            old(self)@.well_formed(),
        ensures
            (final(self)@, text_outcome(r)) == old(self)@.read_text(),
            final(self)@.well_formed(),
    {
        let len: u64 = match self.read_u64() {
            Err(e) => {
                return Err(e);
            },
            Ok(n) => n,
        };
        match self.limits.reject(self.path, ParseLimitKind::StringBytes, len) {
            Err(e) => {
                return Err(e);
            },
            Ok(_) => {},
        }
        match self.ensure_metadata_room(len) {
            Err(e) => {
                return Err(e);
            },
            Ok(_) => {},
        }
        let len: usize = match u64_to_usize(len, HostSizeField::StringLen, self.path) {
            Err(e) => {
                return Err(e);
            },
            Ok(n) => n,
        };
        let bytes = match self.read_exact(len) {
            Err(e) => {
                return Err(e);
            },
            Ok(b) => b,
        };
        match text::utf8_string(bytes) {
            Ok(s) => Ok(s),
            Err(e) => Err(
                self.unsupported(text::concat2("invalid UTF-8 in GGUF string: ", e.as_str())),
            ),
        }
    }

    /// Read an unsigned numeric GGUF value and coerce it to `u64`.
    fn read_unsigned_as_u64(&mut self, value_type: u32) -> (r: Result<u64, ParserError>)
        requires
            old(self)@.well_formed(),
        ensures
            (final(self)@, limits::outcome(r)) == old(self)@.read_unsigned(value_type),
            final(self)@.well_formed(),
    {
        if value_type == GGUF_VALUE_TYPE_UINT8 || value_type == GGUF_VALUE_TYPE_BOOL {
            match self.read_u8() {
                Err(e) => Err(e),
                Ok(n) => Ok(n as u64),
            }
        } else if value_type == GGUF_VALUE_TYPE_UINT16 {
            match self.read_u16() {
                Err(e) => Err(e),
                Ok(n) => Ok(n as u64),
            }
        } else if value_type == GGUF_VALUE_TYPE_UINT32 {
            match self.read_u32() {
                Err(e) => Err(e),
                Ok(n) => Ok(n as u64),
            }
        } else if value_type == GGUF_VALUE_TYPE_UINT64 {
            self.read_u64()
        } else {
            Err(
                self.unsupported(
                    text::concat2(
                        "expected unsigned numeric GGUF value, got type ",
                        text::decimal_string(value_type as u64).as_str(),
                    ),
                ),
            )
        }
    }

    /// Read a signed GGUF value.
    fn read_signed_as_i64(&mut self, value_type: u32) -> (r: Result<i64, ParserError>)
        requires
            old(self)@.well_formed(),
            signed_type(value_type),
        ensures
            (final(self)@, limits::outcome(r)) == old(self)@.read_signed(value_type),
            final(self)@.well_formed(),
    {
        if value_type == GGUF_VALUE_TYPE_INT8 {
            match self.read_u8() {
                Err(e) => Err(e),
                Ok(n) => Ok(
                    if n < 0x80 {
                        n as i64
                    } else {
                        n as i64 - 0x100
                    },
                ),
            }
        } else if value_type == GGUF_VALUE_TYPE_INT16 {
            match self.read_u16() {
                Err(e) => Err(e),
                Ok(n) => Ok(
                    if n < 0x8000 {
                        n as i64
                    } else {
                        n as i64 - 0x1_0000
                    },
                ),
            }
        } else if value_type == GGUF_VALUE_TYPE_INT32 {
            match self.read_u32() {
                Err(e) => Err(e),
                Ok(n) => Ok(
                    if n < 0x8000_0000 {
                        n as i64
                    } else {
                        n as i64 - 0x1_0000_0000
                    },
                ),
            }
        } else {
            match self.read_u64() {
                Err(e) => Err(e),
                Ok(n) => Ok(
                    if n < 0x8000_0000_0000_0000 {
                        n as i64
                    } else {
                        (n as i128 - 0x1_0000_0000_0000_0000) as i64
                    },
                ),
            }
        }
    }

    /// Read a signed GGUF value and return its bit-preserving `u64`
    /// representation. Negative values are not rejected here so that vendor
    /// metadata can store signed quantities without loss.
    fn read_signed_as_u64(&mut self, value_type: u32) -> (r: Result<u64, ParserError>)
        requires
            old(self)@.well_formed(),
            signed_type(value_type),
        ensures
            (final(self)@, limits::outcome(r)) == old(self)@.read_numeric(value_type),
            final(self)@.well_formed(),
    {
        match self.read_signed_as_i64(value_type) {
            Err(e) => Err(e),
            Ok(v) => Ok(
                if v < 0 {
                    (v as i128 + 0x1_0000_0000_0000_0000) as u64
                } else {
                    v as u64
                },
            ),
        }
    }

    /// Read a numeric-typed GGUF value and coerce it to `u64`.
    pub fn read_numeric_as_u64(&mut self, value_type: u32) -> (r: Result<u64, ParserError>)
        requires
            old(self)@.well_formed(),
        ensures
            (final(self)@, limits::outcome(r)) == old(self)@.read_numeric(value_type),
            final(self)@.well_formed(),
    {
        if is_signed_layout_type(value_type) {
            self.read_signed_as_u64(value_type)
        } else if is_unsigned_layout_type(value_type) {
            self.read_unsigned_as_u64(value_type)
        } else {
            Err(
                self.unsupported(
                    text::concat2(
                        "expected numeric GGUF value, got type ",
                        text::decimal_string(value_type as u64).as_str(),
                    ),
                ),
            )
        }
    }

    /// Read a scalar GGUF value for display.
    ///
    /// A floating point number is handed out as its bits, for the caller to render.
    pub fn read_scalar(&mut self, value_type: u32) -> (r: Result<ScalarValue, ParserError>)
        requires
            old(self)@.well_formed(),
        ensures
            (final(self)@, error::viewed(r)) == old(self)@.read_scalar(value_type),
            final(self)@.well_formed(),
    {
        if is_signed_layout_type(value_type) || is_unsigned_layout_type(value_type) {
            match self.read_numeric_as_u64(value_type) {
                Err(e) => Err(e),
                Ok(n) => Ok(ScalarValue::Text(text::decimal_string(n))),
            }
        } else if value_type == GGUF_VALUE_TYPE_FLOAT32 {
            match self.read_u32() {
                Err(e) => Err(e),
                Ok(bits) => Ok(ScalarValue::Float32(bits)),
            }
        } else if value_type == GGUF_VALUE_TYPE_FLOAT64 {
            match self.read_u64() {
                Err(e) => Err(e),
                Ok(bits) => Ok(ScalarValue::Float64(bits)),
            }
        } else if value_type == GGUF_VALUE_TYPE_STRING {
            match self.read_string() {
                Err(e) => Err(e),
                Ok(s) => Ok(ScalarValue::Text(s)),
            }
        } else {
            Err(
                self.unsupported(
                    text::concat2(
                        "unexpected scalar GGUF value type ",
                        text::decimal_string(value_type as u64).as_str(),
                    ),
                ),
            )
        }
    }

    /// Read a non-negative layout value (e.g. `general.alignment`).
    ///
    /// Rejects signed negatives so they do not wrap into huge alignments.
    /// Other signed KV pairs should use [`Self::read_numeric_as_u64`] instead.
    pub fn read_nonneg_layout_usize(&mut self, value_type: u32) -> (r: Result<usize, ParserError>)
        requires
            old(self)@.well_formed(),
        ensures
            (final(self)@, limits::outcome(r)) == old(self)@.read_layout_size(value_type),
            final(self)@.well_formed(),
    {
        let v: u64 = if is_signed_layout_type(value_type) {
            match self.read_signed_as_i64(value_type) {
                Err(e) => {
                    return Err(e);
                },
                Ok(s) => match nonneg_signed(self.path, s) {
                    Err(e) => {
                        return Err(e);
                    },
                    Ok(v) => v,
                },
            }
        } else if is_unsigned_layout_type(value_type) {
            match self.read_unsigned_as_u64(value_type) {
                Err(e) => {
                    return Err(e);
                },
                Ok(v) => v,
            }
        } else {
            return Err(
                self.unsupported(
                    text::concat2(
                        "expected integer GGUF value for layout field, got type ",
                        text::decimal_string(value_type as u64).as_str(),
                    ),
                ),
            );
        };
        u64_to_usize(v, HostSizeField::Alignment, self.path)
    }

    /// Skip an arbitrary GGUF value without materialising it.
    pub fn skip_value(&mut self, value_type: u32) -> (r: Result<(), ParserError>)
        requires
            old(self)@.well_formed(),
        ensures
            (final(self)@, limits::outcome(r)) == old(self)@.skip(value_type),
            final(self)@.well_formed(),
    {
        if value_type == GGUF_VALUE_TYPE_ARRAY {
            self.skip_array_value()
        } else {
            self.skip_scalar_value(value_type)
        }
    }

    fn skip_scalar_value(&mut self, value_type: u32) -> (r: Result<(), ParserError>)
        requires
            old(self)@.well_formed(),
        ensures
            (final(self)@, limits::outcome(r)) == old(self)@.skip_scalar(value_type),
            final(self)@.well_formed(),
    {
        match fixed_scalar_size(value_type) {
            Some(size) => match self.read_exact(size as usize) {
                Err(e) => Err(e),
                Ok(_) => Ok(()),
            },
            None => {
                if value_type == GGUF_VALUE_TYPE_STRING {
                    match self.read_string() {
                        Err(e) => Err(e),
                        Ok(_) => Ok(()),
                    }
                } else {
                    Err(
                        self.unsupported(
                            text::concat2(
                                "unsupported GGUF value type ",
                                text::decimal_string(value_type as u64).as_str(),
                            ),
                        ),
                    )
                }
            },
        }
    }

    fn skip_scalar_values(&mut self, value_type: u32, count: usize) -> (r: Result<(), ParserError>)
        requires
            old(self)@.well_formed(),
        ensures
            (final(self)@, limits::outcome(r)) == old(self)@.skip_scalars(
                value_type,
                count as nat,
            ),
            final(self)@.well_formed(),
    {
        let mut left: usize = count;
        while left > 0
            invariant
                self@.well_formed(),
                old(self)@.skip_scalars(value_type, count as nat) == self@.skip_scalars(
                    value_type,
                    left as nat,
                ),
            decreases left,
        {
            match self.skip_scalar_value(value_type) {
                Err(e) => {
                    return Err(e);
                },
                Ok(_) => {},
            }
            left -= 1;
        }
        Ok(())
    }

    fn read_array_start(&mut self) -> (r: Result<(u32, u64), ParserError>)
        requires
            old(self)@.well_formed(),
        ensures
            (final(self)@, limits::outcome(r)) == old(self)@.read_array_header(),
            final(self)@.well_formed(),
    {
        let element_type: u32 = match self.read_u32() {
            Err(e) => {
                return Err(e);
            },
            Ok(n) => n,
        };
        let len: u64 = match self.read_u64() {
            Err(e) => {
                return Err(e);
            },
            Ok(n) => n,
        };
        match self.prepare_array_elements(element_type, len) {
            Err(e) => Err(e),
            Ok(_) => Ok((element_type, len)),
        }
    }

    /// Skip a GGUF array value using an explicit stack instead of recursion,
    /// so deep-but-valid metadata arrays are not rejected by an arbitrary
    /// depth limit. Total work is bounded by [`ParseLimits::max_array_work_items`]
    /// and, when parsing KV metadata, [`ParseLimits::max_metadata_bytes`].
    fn skip_array_value(&mut self) -> (r: Result<(), ParserError>)
        requires
            old(self)@.well_formed(),
        ensures
            (final(self)@, limits::outcome(r)) == old(self)@.skip_array(),
            final(self)@.well_formed(),
    {
        let (nested, len): (u32, u64) = match self.read_array_start() {
            Err(e) => {
                return Err(e);
            },
            Ok(h) => h,
        };
        // Stack of (element_type, elements_remaining) pairs. Depth is bounded
        // only by nesting of arrays, not by a hard-coded recursion limit.
        let mut stack: Vec<(u32, u64)> = Vec::new();
        stack.push((nested, len));
        proof {
            lemma_skip_stack_push(self@, Seq::empty(), nested, len);
            assert(stack@ =~= Seq::empty().push((nested, len)));
            let (s, r) = self@.skip_elements(nested, len);
            assert(skip_stack(s, Seq::empty()) == (s, Ok::<(), ErrorView>(())));
            assert(r is Ok ==> r->Ok_0 == ());
        }
        while stack.len() > 0
            invariant
                self@.well_formed(),
                old(self)@.skip_array() == skip_stack(self@, stack@),
            decreases self@.remaining(), stack@.len(),
        {
            let ghost before = self@;
            let ghost whole = stack@;
            let (ty, count): (u32, u64) = match stack.pop() {
                Some(top) => top,
                None => {
                    return Ok(());
                },
            };
            let ghost rest = stack@;
            assert(whole =~= rest.push((ty, count)));
            proof {
                lemma_skip_stack_push(before, rest, ty, count);
            }
            if ty == GGUF_VALUE_TYPE_ARRAY {
                if count > 0 {
                    let (sub_ty, sub_len): (u32, u64) = match self.read_array_start() {
                        Err(e) => {
                            return Err(e);
                        },
                        Ok(h) => h,
                    };
                    proof {
                        lemma_array_header_progress(before);
                        lemma_skip_stack_nested(before, rest, count);
                    }
                    if count > 1 {
                        stack.push((ty, (count - 1) as u64));
                    }
                    stack.push((sub_ty, sub_len));
                }
            } else {
                let n: usize = match u64_to_usize(count, HostSizeField::ArrayLen, self.path) {
                    Err(e) => {
                        return Err(e);
                    },
                    Ok(n) => n,
                };
                match self.skip_scalar_values(ty, n) {
                    Err(e) => {
                        return Err(e);
                    },
                    Ok(_) => {},
                }
                proof {
                    lemma_skip_scalars_progress(before, ty, n as nat);
                }
            }
        }
        Ok(())
    }
}

/// Skip the pending groups of array elements, last group first.
spec fn skip_stack(cursor: CursorView, stack: Seq<(u32, u64)>) -> (
    CursorView,
    Result<(), ErrorView>,
)
    decreases stack.len(),
{
    if stack.len() == 0 {
        (cursor, Ok(()))
    } else {
        match cursor.skip_elements(stack.last().0, stack.last().1) {
            (s, Err(e)) => (s, Err(e)),
            (s, Ok(_)) => skip_stack(s, stack.drop_last()),
        }
    }
}

/// The group pushed last is skipped first.
proof fn lemma_skip_stack_push(
    cursor: CursorView,
    rest: Seq<(u32, u64)>,
    value_type: u32,
    count: u64,
)
    ensures
        skip_stack(cursor, rest.push((value_type, count))) == match cursor.skip_elements(
            value_type,
            count,
        ) {
            (s, Err(e)) => (s, Err(e)),
            (s, Ok(_)) => skip_stack(s, rest),
        },
{
    let stack = rest.push((value_type, count));
    assert(stack.drop_last() =~= rest);
    assert(stack.last() == (value_type, count));
    assert(skip_stack(cursor, Seq::empty()) == (cursor, Ok::<(), ErrorView>(())));
}

/// Once a nested array's header is read, its elements come before the arrays that
/// follow it in its group.
proof fn lemma_skip_stack_nested(cursor: CursorView, rest: Seq<(u32, u64)>, count: u64)
    requires
        cursor.well_formed(),
        count > 0,
        cursor.read_array_header().1 is Ok,
    ensures
        ({
            let (s, header) = cursor.read_array_header();
            let group = if count > 1 {
                rest.push((GGUF_VALUE_TYPE_ARRAY, (count - 1) as u64))
            } else {
                rest
            };
            skip_stack(cursor, rest.push((GGUF_VALUE_TYPE_ARRAY, count))) == skip_stack(
                s,
                group.push((header->Ok_0.0, header->Ok_0.1)),
            )
        }),
{
    let (s, header) = cursor.read_array_header();
    let (element_type, len) = header->Ok_0;
    lemma_array_header_progress(cursor);
    lemma_skip_elements_progress(s, element_type, len);
    lemma_skip_stack_push(cursor, rest, GGUF_VALUE_TYPE_ARRAY, count);
    let (t, skipped) = s.skip_elements(element_type, len);
    if count > 1 {
        let group = rest.push((GGUF_VALUE_TYPE_ARRAY, (count - 1) as u64));
        lemma_skip_stack_push(s, group, element_type, len);
        lemma_skip_stack_push(t, rest, GGUF_VALUE_TYPE_ARRAY, (count - 1) as u64);
    } else {
        lemma_skip_stack_push(s, rest, element_type, len);
        assert(t.skip_elements(GGUF_VALUE_TYPE_ARRAY, 0) == (t, Ok::<(), ErrorView>(())));
    }
}

proof fn lemma_skip_scalars_progress(cursor: CursorView, value_type: u32, count: nat)
    requires
        cursor.well_formed(),
    ensures
        cursor.leads_to(cursor.skip_scalars(value_type, count).0),
    decreases count,
{
    if count > 0 {
        match cursor.skip_scalar(value_type) {
            (s, Err(_)) => {},
            (s, Ok(_)) => {
                lemma_skip_scalars_progress(s, value_type, (count - 1) as nat);
            },
        }
    }
}

proof fn lemma_array_header_progress(cursor: CursorView)
    requires
        cursor.well_formed(),
    ensures
        cursor.leads_to(cursor.read_array_header().0),
        cursor.read_array_header().1 is Ok ==> cursor.read_array_header().0.offset == cursor.offset
            + 12,
{
}

proof fn lemma_skip_elements_progress(cursor: CursorView, value_type: u32, count: u64)
    requires
        cursor.well_formed(),
    ensures
        cursor.leads_to(cursor.skip_elements(value_type, count).0),
    decreases cursor.remaining(), count,
{
    if value_type != GGUF_VALUE_TYPE_ARRAY {
        lemma_skip_scalars_progress(cursor, value_type, count as nat);
    } else if count > 0 {
        lemma_array_header_progress(cursor);
        match cursor.read_array_header() {
            (s, Err(_)) => {},
            (s, Ok((element_type, len))) => {
                lemma_skip_elements_progress(s, element_type, len);
                match s.skip_elements(element_type, len) {
                    (t, Err(_)) => {},
                    (t, Ok(_)) => {
                        lemma_skip_elements_progress(t, value_type, (count - 1) as u64);
                    },
                }
            },
        }
    }
}

/// Skipping any value keeps the cursor inside the bytes and within its budgets and never
/// moves it back, whether or not it succeeds.
pub proof fn law_skip_moves_forward(cursor: CursorView, value_type: u32)
    requires
        cursor.well_formed(),
    ensures
        cursor.leads_to(cursor.skip(value_type).0),
{
    if value_type == GGUF_VALUE_TYPE_ARRAY {
        lemma_array_header_progress(cursor);
        match cursor.read_array_header() {
            (s, Err(_)) => {},
            (s, Ok((element_type, len))) => {
                lemma_skip_elements_progress(s, element_type, len);
            },
        }
    } else {
        lemma_skip_scalars_progress(cursor, value_type, 1);
        reveal_with_fuel(CursorView::skip_scalars, 2);
    }
}

/// No budget of `a` is greater than that of `b`.
pub open spec fn no_stricter(b: ParseLimits, a: ParseLimits) -> bool {
    forall|kind: ParseLimitKind| #[trigger]
        limits::limit_budget(a, kind) <= limits::limit_budget(b, kind)
}

impl CursorView {
    /// The same cursor under other budgets.
    pub open spec fn under(self, limits: ParseLimits) -> CursorView {
        CursorView { limits, ..self }
    }
}

/// What can be taken, read as text or admitted under some budgets can be so under wider
/// ones, with the same result.
pub proof fn lemma_reads_under_wider_limits(c: CursorView, wide: ParseLimits, n: int)
    requires
        no_stricter(wide, c.limits),
    ensures
        c.take(n).1 is Ok ==> c.under(wide).take(n) == (c.take(n).0.under(wide), c.take(n).1),
        c.take(n).0.limits == c.limits,
{
    assert(limits::limit_budget(c.limits, ParseLimitKind::MetadataBytes) <= limits::limit_budget(
        wide,
        ParseLimitKind::MetadataBytes,
    ));
}

/// Reading text under wider budgets.
pub proof fn lemma_text_under_wider_limits(c: CursorView, wide: ParseLimits)
    requires
        no_stricter(wide, c.limits),
    ensures
        c.read_text().1 is Ok ==> c.under(wide).read_text() == (
            c.read_text().0.under(wide),
            c.read_text().1,
        ),
        c.read_text().0.limits == c.limits,
{
    lemma_reads_under_wider_limits(c, wide, 8);
    assert(limits::limit_budget(c.limits, ParseLimitKind::MetadataBytes) <= limits::limit_budget(
        wide,
        ParseLimitKind::MetadataBytes,
    ));
    assert(limits::limit_budget(c.limits, ParseLimitKind::StringBytes) <= limits::limit_budget(
        wide,
        ParseLimitKind::StringBytes,
    ));
    match c.read_word(8) {
        (s, Ok(n)) => {
            lemma_reads_under_wider_limits(s, wide, n as u64 as int);
            if n as u64 <= usize::MAX {
                lemma_reads_under_wider_limits(s, wide, n as u64 as usize as int);
            }
        },
        (s, Err(_)) => {},
    }
}

proof fn lemma_scalar_under_wider_limits(c: CursorView, wide: ParseLimits, value_type: u32)
    requires
        no_stricter(wide, c.limits),
    ensures
        c.skip_scalar(value_type).1 is Ok ==> c.under(wide).skip_scalar(value_type) == (
            c.skip_scalar(value_type).0.under(wide),
            c.skip_scalar(value_type).1,
        ),
        c.skip_scalar(value_type).0.limits == c.limits,
{
    lemma_text_under_wider_limits(c, wide);
    match scalar_size(value_type) {
        Some(n) => {
            lemma_reads_under_wider_limits(c, wide, n as int);
        },
        None => {},
    }
}

proof fn lemma_scalars_under_wider_limits(
    c: CursorView,
    wide: ParseLimits,
    value_type: u32,
    count: nat,
)
    requires
        no_stricter(wide, c.limits),
    ensures
        c.skip_scalars(value_type, count).1 is Ok ==> c.under(wide).skip_scalars(value_type, count)
            == (c.skip_scalars(value_type, count).0.under(wide), Ok::<(), ErrorView>(())),
        c.skip_scalars(value_type, count).0.limits == c.limits,
    decreases count,
{
    if count > 0 {
        lemma_scalar_under_wider_limits(c, wide, value_type);
        match c.skip_scalar(value_type) {
            (s, Ok(_)) => {
                lemma_scalars_under_wider_limits(s, wide, value_type, (count - 1) as nat);
            },
            (s, Err(_)) => {},
        }
    }
}

proof fn lemma_header_under_wider_limits(c: CursorView, wide: ParseLimits)
    requires
        no_stricter(wide, c.limits),
    ensures
        c.read_array_header().1 is Ok ==> c.under(wide).read_array_header() == (
            c.read_array_header().0.under(wide),
            c.read_array_header().1,
        ),
        c.read_array_header().0.limits == c.limits,
{
    lemma_reads_under_wider_limits(c, wide, 4);
    assert(limits::limit_budget(c.limits, ParseLimitKind::MetadataBytes) <= limits::limit_budget(
        wide,
        ParseLimitKind::MetadataBytes,
    ));
    assert(limits::limit_budget(c.limits, ParseLimitKind::ArrayWorkItems) <= limits::limit_budget(
        wide,
        ParseLimitKind::ArrayWorkItems,
    ));
    match c.read_word(4) {
        (s, Ok(_)) => {
            lemma_reads_under_wider_limits(s, wide, 8);
        },
        (s, Err(_)) => {},
    }
}

proof fn lemma_elements_under_wider_limits(
    c: CursorView,
    wide: ParseLimits,
    value_type: u32,
    count: u64,
)
    requires
        no_stricter(wide, c.limits),
    ensures
        c.skip_elements(value_type, count).1 is Ok ==> c.under(wide).skip_elements(
            value_type,
            count,
        ) == (c.skip_elements(value_type, count).0.under(wide), Ok::<(), ErrorView>(())),
        c.skip_elements(value_type, count).0.limits == c.limits,
    decreases c.remaining(), count,
{
    if value_type != GGUF_VALUE_TYPE_ARRAY {
        lemma_scalars_under_wider_limits(c, wide, value_type, count as nat);
    } else if count > 0 {
        lemma_header_under_wider_limits(c, wide);
        match c.read_array_header() {
            (s, Err(_)) => {},
            (s, Ok((element_type, len))) => {
                if 0 <= s.remaining() < c.remaining() {
                    lemma_elements_under_wider_limits(s, wide, element_type, len);
                    match s.skip_elements(element_type, len) {
                        (t, Err(_)) => {},
                        (t, Ok(_)) => {
                            if 0 <= t.remaining() < c.remaining() {
                                lemma_elements_under_wider_limits(
                                    t,
                                    wide,
                                    value_type,
                                    (count - 1) as u64,
                                );
                            }
                        },
                    }
                }
            },
        }
    }
}

/// A value that can be skipped under some budgets can be skipped under wider ones, to the
/// same position.
pub proof fn law_skip_under_wider_limits(c: CursorView, wide: ParseLimits, value_type: u32)
    requires
        no_stricter(wide, c.limits),
    ensures
        c.skip(value_type).1 is Ok ==> c.under(wide).skip(value_type) == (
            c.skip(value_type).0.under(wide),
            Ok::<(), ErrorView>(()),
        ),
        c.skip(value_type).0.limits == c.limits,
{
    if value_type == GGUF_VALUE_TYPE_ARRAY {
        lemma_header_under_wider_limits(c, wide);
        match c.read_array_header() {
            (s, Err(_)) => {},
            (s, Ok((element_type, len))) => {
                lemma_elements_under_wider_limits(s, wide, element_type, len);
            },
        }
    } else {
        lemma_scalar_under_wider_limits(c, wide, value_type);
    }
}

} // verus!
