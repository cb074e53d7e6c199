//! Flattening: turning values into bytes and back.
//!
//! Every value that can be stored in a `Message` implements `Flattenable`.
//! Integers are written little-endian, `bool` as one byte, and a `String` as
//! its UTF-8 bytes followed by a NUL byte.
use vstd::bytes::*;
use vstd::prelude::*;
use vstd::utf8::*;

use crate::errors::{ErrorKind, HaikuError};
use crate::types::{
    B_BOOL_TYPE, B_INT16_TYPE, B_INT32_TYPE, B_INT64_TYPE, B_INT8_TYPE, B_STRING_TYPE, B_UINT16_TYPE,
    B_UINT32_TYPE, B_UINT64_TYPE, B_UINT8_TYPE,
};

verus! {

/// An interface for types whose values can be stored as a byte stream.
pub trait Flattenable<T>: Sized {
    /// The type code that identifies flattened data of this type.
    spec fn spec_type_code() -> u32;

    /// Whether every flattened value of this type has the same size.
    spec fn spec_fixed_size() -> bool;

    /// The size of every flattened value, for a type of fixed size.
    spec fn spec_item_size() -> nat;

    /// The bytes that `flatten` produces for this value.
    spec fn flat(&self) -> Seq<u8>;

    /// Whether `unflatten` accepts these bytes.
    spec fn decodable(bytes: Seq<u8>) -> bool;

    /// Whether `v` is a value that `unflatten` may return for these bytes.
    spec fn decodes_to(bytes: Seq<u8>, v: T) -> bool;

    /// The type code that identifies flattened data of this type.
    fn type_code() -> (r: u32)
        ensures
            r == Self::spec_type_code(),
    ;

    /// Whether flattened values of this type always have the same size.
    fn is_fixed_size() -> (r: bool)
        ensures
            r == Self::spec_fixed_size(),
    ;

    /// The size of a flattened value, for a type of fixed size; 0 for a
    /// type of variable size.
    fn item_size() -> (r: usize)
        ensures
            r == Self::spec_item_size(),
    ;

    /// The number of bytes that `flatten` produces.
    fn flattened_size(&self) -> (r: usize)
        requires
            self.flat().len() <= usize::MAX,
        ensures
            r == self.flat().len(),
    ;

    /// The flattened bytes of this value.
    fn flatten(&self) -> (r: Vec<u8>)
        ensures
            r@ == self.flat(),
    ;

    /// Rebuild a value from flattened bytes.
    fn unflatten(buffer: &[u8]) -> (r: Result<T, HaikuError>)
        ensures
            r is Ok <==> Self::decodable(buffer@),
            r matches Ok(v) ==> Self::decodes_to(buffer@, v),
            r matches Err(e) ==> e.spec_kind() == ErrorKind::InvalidData,
    ;
}

fn invalid_data() -> (r: HaikuError)
    ensures
        r.spec_kind() == ErrorKind::InvalidData,
{
    HaikuError::from_kind(ErrorKind::InvalidData)
}

impl Flattenable<bool> for bool {
    open spec fn spec_item_size() -> nat {
        1
    }

    open spec fn spec_type_code() -> u32 {
        B_BOOL_TYPE
    }

    open spec fn spec_fixed_size() -> bool {
        true
    }

    open spec fn flat(&self) -> Seq<u8> {
        if *self {
            seq![1u8]
        } else {
            seq![0u8]
        }
    }

    open spec fn decodable(bytes: Seq<u8>) -> bool {
        bytes.len() == 1
    }

    open spec fn decodes_to(bytes: Seq<u8>, v: bool) -> bool {
        bytes.len() == 1 && v == (bytes[0] != 0)
    }

    fn type_code() -> (r: u32) {
        B_BOOL_TYPE
    }

    fn is_fixed_size() -> (r: bool) {
        true
    }

    fn item_size() -> (r: usize) {
        1
    }

    fn flattened_size(&self) -> (r: usize) {
        1
    }

    fn flatten(&self) -> (r: Vec<u8>) {
        if *self {
            vec![1u8]
        } else {
            vec![0u8]
        }
    }

    fn unflatten(buffer: &[u8]) -> (r: Result<bool, HaikuError>) {
        if buffer.len() != 1 {
            Err(invalid_data())
        } else {
            Ok(buffer[0] != 0)
        }
    }
}

impl Flattenable<u8> for u8 {
    open spec fn spec_item_size() -> nat {
        1
    }

    open spec fn spec_type_code() -> u32 {
        B_UINT8_TYPE
    }

    open spec fn spec_fixed_size() -> bool {
        true
    }

    open spec fn flat(&self) -> Seq<u8> {
        seq![*self]
    }

    open spec fn decodable(bytes: Seq<u8>) -> bool {
        bytes.len() == 1
    }

    open spec fn decodes_to(bytes: Seq<u8>, v: u8) -> bool {
        bytes == seq![v]
    }

    fn type_code() -> (r: u32) {
        B_UINT8_TYPE
    }

    fn is_fixed_size() -> (r: bool) {
        true
    }

    fn item_size() -> (r: usize) {
        1
    }

    fn flattened_size(&self) -> (r: usize) {
        1
    }

    fn flatten(&self) -> (r: Vec<u8>) {
        vec![*self]
    }

    fn unflatten(buffer: &[u8]) -> (r: Result<u8, HaikuError>) {
        if buffer.len() != 1 {
            Err(invalid_data())
        } else {
            assert(buffer@ == seq![buffer@[0]]);
            Ok(buffer[0])
        }
    }
}

impl Flattenable<i8> for i8 {
    open spec fn spec_item_size() -> nat {
        1
    }

    open spec fn spec_type_code() -> u32 {
        B_INT8_TYPE
    }

    open spec fn spec_fixed_size() -> bool {
        true
    }

    open spec fn flat(&self) -> Seq<u8> {
        seq![*self as u8]
    }

    open spec fn decodable(bytes: Seq<u8>) -> bool {
        bytes.len() == 1
    }

    open spec fn decodes_to(bytes: Seq<u8>, v: i8) -> bool {
        bytes == seq![v as u8]
    }

    fn type_code() -> (r: u32) {
        B_INT8_TYPE
    }

    fn is_fixed_size() -> (r: bool) {
        true
    }

    fn item_size() -> (r: usize) {
        1
    }

    fn flattened_size(&self) -> (r: usize) {
        1
    }

    fn flatten(&self) -> (r: Vec<u8>) {
        vec![*self as u8]
    }

    fn unflatten(buffer: &[u8]) -> (r: Result<i8, HaikuError>) {
        if buffer.len() != 1 {
            Err(invalid_data())
        } else {
            let b = buffer[0];
            let v = b as i8;
            assert(v as u8 == b) by (bit_vector)
                requires
                    v == b as i8,
            ;
            assert(buffer@ == seq![v as u8]);
            Ok(v)
        }
    }
}

impl Flattenable<u16> for u16 {
    open spec fn spec_item_size() -> nat {
        2
    }

    open spec fn spec_type_code() -> u32 {
        B_UINT16_TYPE
    }

    open spec fn spec_fixed_size() -> bool {
        true
    }

    open spec fn flat(&self) -> Seq<u8> {
        spec_u16_to_le_bytes(*self)
    }

    open spec fn decodable(bytes: Seq<u8>) -> bool {
        bytes.len() == 2
    }

    open spec fn decodes_to(bytes: Seq<u8>, v: u16) -> bool {
        bytes == spec_u16_to_le_bytes(v)
    }

    fn type_code() -> (r: u32) {
        B_UINT16_TYPE
    }

    fn is_fixed_size() -> (r: bool) {
        true
    }

    fn item_size() -> (r: usize) {
        proof {
            lemma_auto_spec_u16_to_from_le_bytes();
        }
        2
    }

    fn flattened_size(&self) -> (r: usize) {
        proof {
            lemma_auto_spec_u16_to_from_le_bytes();
        }
        2
    }

    fn flatten(&self) -> (r: Vec<u8>) {
        u16_to_le_bytes(*self)
    }

    fn unflatten(buffer: &[u8]) -> (r: Result<u16, HaikuError>) {
        if buffer.len() != 2 {
            Err(invalid_data())
        } else {
            proof {
                lemma_auto_spec_u16_to_from_le_bytes();
            }
            Ok(u16_from_le_bytes(buffer))
        }
    }
}

impl Flattenable<i16> for i16 {
    open spec fn spec_item_size() -> nat {
        2
    }

    open spec fn spec_type_code() -> u32 {
        B_INT16_TYPE
    }

    open spec fn spec_fixed_size() -> bool {
        true
    }

    open spec fn flat(&self) -> Seq<u8> {
        spec_u16_to_le_bytes(*self as u16)
    }

    open spec fn decodable(bytes: Seq<u8>) -> bool {
        bytes.len() == 2
    }

    open spec fn decodes_to(bytes: Seq<u8>, v: i16) -> bool {
        bytes == spec_u16_to_le_bytes(v as u16)
    }

    fn type_code() -> (r: u32) {
        B_INT16_TYPE
    }

    fn is_fixed_size() -> (r: bool) {
        true
    }

    fn item_size() -> (r: usize) {
        proof {
            lemma_auto_spec_u16_to_from_le_bytes();
        }
        2
    }

    fn flattened_size(&self) -> (r: usize) {
        proof {
            lemma_auto_spec_u16_to_from_le_bytes();
        }
        2
    }

    fn flatten(&self) -> (r: Vec<u8>) {
        u16_to_le_bytes(*self as u16)
    }

    fn unflatten(buffer: &[u8]) -> (r: Result<i16, HaikuError>) {
        if buffer.len() != 2 {
            Err(invalid_data())
        } else {
            proof {
                lemma_auto_spec_u16_to_from_le_bytes();
            }
            let u = u16_from_le_bytes(buffer);
            let v = u as i16;
            assert(v as u16 == u) by (bit_vector)
                requires
                    v == u as i16,
            ;
            Ok(v)
        }
    }
}

impl Flattenable<u32> for u32 {
    open spec fn spec_item_size() -> nat {
        4
    }

    open spec fn spec_type_code() -> u32 {
        B_UINT32_TYPE
    }

    open spec fn spec_fixed_size() -> bool {
        true
    }

    open spec fn flat(&self) -> Seq<u8> {
        spec_u32_to_le_bytes(*self)
    }

    open spec fn decodable(bytes: Seq<u8>) -> bool {
        bytes.len() == 4
    }

    open spec fn decodes_to(bytes: Seq<u8>, v: u32) -> bool {
        bytes == spec_u32_to_le_bytes(v)
    }

    fn type_code() -> (r: u32) {
        B_UINT32_TYPE
    }

    fn is_fixed_size() -> (r: bool) {
        true
    }

    fn item_size() -> (r: usize) {
        proof {
            lemma_auto_spec_u32_to_from_le_bytes();
        }
        4
    }

    fn flattened_size(&self) -> (r: usize) {
        proof {
            lemma_auto_spec_u32_to_from_le_bytes();
        }
        4
    }

    fn flatten(&self) -> (r: Vec<u8>) {
        u32_to_le_bytes(*self)
    }

    fn unflatten(buffer: &[u8]) -> (r: Result<u32, HaikuError>) {
        if buffer.len() != 4 {
            Err(invalid_data())
        } else {
            proof {
                lemma_auto_spec_u32_to_from_le_bytes();
            }
            Ok(u32_from_le_bytes(buffer))
        }
    }
}

impl Flattenable<i32> for i32 {
    open spec fn spec_item_size() -> nat {
        4
    }

    open spec fn spec_type_code() -> u32 {
        B_INT32_TYPE
    }

    open spec fn spec_fixed_size() -> bool {
        true
    }

    open spec fn flat(&self) -> Seq<u8> {
        spec_u32_to_le_bytes(*self as u32)
    }

    open spec fn decodable(bytes: Seq<u8>) -> bool {
        bytes.len() == 4
    }

    open spec fn decodes_to(bytes: Seq<u8>, v: i32) -> bool {
        bytes == spec_u32_to_le_bytes(v as u32)
    }

    fn type_code() -> (r: u32) {
        B_INT32_TYPE
    }

    fn is_fixed_size() -> (r: bool) {
        true
    }

    fn item_size() -> (r: usize) {
        proof {
            lemma_auto_spec_u32_to_from_le_bytes();
        }
        4
    }

    fn flattened_size(&self) -> (r: usize) {
        proof {
            lemma_auto_spec_u32_to_from_le_bytes();
        }
        4
    }

    fn flatten(&self) -> (r: Vec<u8>) {
        u32_to_le_bytes(*self as u32)
    }

    fn unflatten(buffer: &[u8]) -> (r: Result<i32, HaikuError>) {
        if buffer.len() != 4 {
            Err(invalid_data())
        } else {
            proof {
                lemma_auto_spec_u32_to_from_le_bytes();
            }
            let u = u32_from_le_bytes(buffer);
            let v = u as i32;
            assert(v as u32 == u) by (bit_vector)
                requires
                    v == u as i32,
            ;
            Ok(v)
        }
    }
}

impl Flattenable<u64> for u64 {
    open spec fn spec_item_size() -> nat {
        8
    }

    open spec fn spec_type_code() -> u32 {
        B_UINT64_TYPE
    }

    open spec fn spec_fixed_size() -> bool {
        true
    }

    open spec fn flat(&self) -> Seq<u8> {
        spec_u64_to_le_bytes(*self)
    }

    open spec fn decodable(bytes: Seq<u8>) -> bool {
        bytes.len() == 8
    }

    open spec fn decodes_to(bytes: Seq<u8>, v: u64) -> bool {
        bytes == spec_u64_to_le_bytes(v)
    }

    fn type_code() -> (r: u32) {
        B_UINT64_TYPE
    }

    fn is_fixed_size() -> (r: bool) {
        true
    }

    fn item_size() -> (r: usize) {
        proof {
            lemma_auto_spec_u64_to_from_le_bytes();
        }
        8
    }

    fn flattened_size(&self) -> (r: usize) {
        proof {
            lemma_auto_spec_u64_to_from_le_bytes();
        }
        8
    }

    fn flatten(&self) -> (r: Vec<u8>) {
        u64_to_le_bytes(*self)
    }

    fn unflatten(buffer: &[u8]) -> (r: Result<u64, HaikuError>) {
        if buffer.len() != 8 {
            Err(invalid_data())
        } else {
            proof {
                lemma_auto_spec_u64_to_from_le_bytes();
            }
            Ok(u64_from_le_bytes(buffer))
        }
    }
}

impl Flattenable<i64> for i64 {
    open spec fn spec_item_size() -> nat {
        8
    }

    open spec fn spec_type_code() -> u32 {
        B_INT64_TYPE
    }

    open spec fn spec_fixed_size() -> bool {
        true
    }

    open spec fn flat(&self) -> Seq<u8> {
        spec_u64_to_le_bytes(*self as u64)
    }

    open spec fn decodable(bytes: Seq<u8>) -> bool {
        bytes.len() == 8
    }

    open spec fn decodes_to(bytes: Seq<u8>, v: i64) -> bool {
        bytes == spec_u64_to_le_bytes(v as u64)
    }

    fn type_code() -> (r: u32) {
        B_INT64_TYPE
    }

    fn is_fixed_size() -> (r: bool) {
        true
    }

    fn item_size() -> (r: usize) {
        proof {
            lemma_auto_spec_u64_to_from_le_bytes();
        }
        8
    }

    fn flattened_size(&self) -> (r: usize) {
        proof {
            lemma_auto_spec_u64_to_from_le_bytes();
        }
        8
    }

    fn flatten(&self) -> (r: Vec<u8>) {
        u64_to_le_bytes(*self as u64)
    }

    fn unflatten(buffer: &[u8]) -> (r: Result<i64, HaikuError>) {
        if buffer.len() != 8 {
            Err(invalid_data())
        } else {
            proof {
                lemma_auto_spec_u64_to_from_le_bytes();
            }
            let u = u64_from_le_bytes(buffer);
            let v = u as i64;
            assert(v as u64 == u) by (bit_vector)
                requires
                    v == u as i64,
            ;
            Ok(v)
        }
    }
}

/// Whether `bytes` holds no NUL byte.
pub open spec fn nul_free(bytes: Seq<u8>) -> bool {
    forall|i: int| 0 <= i < bytes.len() ==> bytes[i] != 0
}

/// The bytes of a flattened string: its UTF-8 encoding, then a NUL byte.
pub open spec fn c_string_bytes(text: Seq<char>) -> Seq<u8> {
    encode_utf8(text).push(0)
}

/// Relies on `std::str::from_utf8`: it accepts exactly the byte strings that
/// are well-formed UTF-8, and the text it returns is made of those bytes.
#[verifier::external_body]
pub(crate) fn text_from_utf8(bytes: &[u8]) -> (r: Option<String>)
    ensures
        r is Some <==> valid_utf8(bytes@),
        r matches Some(s) ==> encode_utf8(s@) == bytes@,
{
    std::str::from_utf8(bytes).ok().map(String::from)
}

/// Append `src` to the end of `dst`.
pub fn append_bytes(dst: &mut Vec<u8>, src: &[u8])
    ensures
        final(dst)@ == old(dst)@ + src@,
{
    let mut i: usize = 0;
    while i < src.len()
        invariant
            i <= src@.len(),
            dst@ == old(dst)@ + src@.subrange(0, i as int),
        decreases src@.len() - i,
    {
        dst.push(src[i]);
        i = i + 1;
        assert(src@.subrange(0, i as int) == src@.subrange(0, i - 1) + seq![src@[i - 1]]);
    }
    assert(src@.subrange(0, src@.len() as int) == src@);
}

impl Flattenable<String> for String {
    open spec fn spec_item_size() -> nat {
        0
    }

    open spec fn spec_type_code() -> u32 {
        B_STRING_TYPE
    }

    open spec fn spec_fixed_size() -> bool {
        false
    }

    open spec fn flat(&self) -> Seq<u8> {
        c_string_bytes(self@)
    }

    open spec fn decodable(bytes: Seq<u8>) -> bool {
        &&& bytes.len() > 0
        &&& bytes.last() == 0
        &&& nul_free(bytes.drop_last())
        &&& valid_utf8(bytes.drop_last())
    }

    open spec fn decodes_to(bytes: Seq<u8>, v: String) -> bool {
        bytes == c_string_bytes(v@)
    }

    fn type_code() -> (r: u32) {
        B_STRING_TYPE
    }

    fn is_fixed_size() -> (r: bool) {
        false
    }

    fn item_size() -> (r: usize) {
        0
    }

    fn flattened_size(&self) -> (r: usize) {
        self.as_str().as_bytes().len() + 1
    }

    fn flatten(&self) -> (r: Vec<u8>) {
        let mut v: Vec<u8> = Vec::new();
        append_bytes(&mut v, self.as_str().as_bytes());
        v.push(0);
        v
    }

    fn unflatten(buffer: &[u8]) -> (r: Result<String, HaikuError>) {
        let n = buffer.len();
        if n == 0 || buffer[n - 1] != 0 {
            return Err(HaikuError::new(ErrorKind::InvalidData, "data is not terminated by a nul byte"));
        }
        let mut i: usize = 0;
        while i < n - 1
            invariant
                n == buffer@.len(),
                n > 0,
                i <= n - 1,
                forall|j: int| 0 <= j < i ==> buffer@[j] != 0,
            decreases n - 1 - i,
        {
            if buffer[i] == 0 {
                assert(buffer@.drop_last()[i as int] == 0);
                return Err(HaikuError::new(ErrorKind::InvalidData, "data contains an interior nul byte"));
            }
            i = i + 1;
        }
        let body = vstd::slice::slice_subrange(buffer, 0, n - 1);
        assert(body@ == buffer@.drop_last());
        match text_from_utf8(body) {
            Some(s) => {
                assert(buffer@ == buffer@.drop_last().push(0));
                Ok(s)
            },
            None => Err(HaikuError::new(ErrorKind::InvalidData, "invalid UTF-8 characters")),
        }
    }
}

} // verus!
