//! What every stored record has in common: a wire form and a reader.

use vstd::prelude::*;
use crate::bytes::{be_u32, put_u32, u32_at};

verus! {

/// Why a buffer holds no record.
#[derive(Clone, Copy, Debug, PartialEq, Eq, Structural)]
pub enum CodecError {
    /// The buffer ends before the record does.
    Incomplete,
    /// A code point is a surrogate or lies above U+10FFFF.
    InvalidCharacter,
}

/// A record with a fixed, big-endian wire form.
///
/// The wire form is laid out field by field in declaration order, without
/// padding. `parse` reads the record from the front of a buffer; a record
/// with a trailing collection takes the buffer to its end, any other leaves
/// what follows it alone.
pub trait DekuRW: Sized + View {
    /// The bytes that a value is stored as.
    spec fn wire(value: Self::V) -> Seq<u8>;

    /// The value at the front of a buffer, or why there is none.
    spec fn parse(bytes: Seq<u8>) -> Result<Self::V, CodecError>;

    /// The values that the wire form can hold. Every executable value is one.
    spec fn fits(value: Self::V) -> bool;

    /// Reading the wire form of a value gives the value again.
    proof fn lemma_round_trip(value: Self::V)
        requires
            Self::fits(value),
        ensures
            Self::parse(Self::wire(value)) == Ok::<Self::V, CodecError>(value),
    ;

    /// Writes the value in its wire form.
    fn to_bytes(&self) -> (out: Vec<u8>)
        ensures
            out@ == Self::wire(self@),
            Self::fits(self@),
    ;

    /// Reads a value from the front of `bytes`.
    fn read(bytes: &[u8]) -> (r: Result<Self, CodecError>)
        ensures
            match r {
                Ok(value) => Self::parse(bytes@) == Ok::<Self::V, CodecError>(value@),
                Err(e) => Self::parse(bytes@) == Err::<Self::V, CodecError>(e),
            },
    ;
}

/// Some values as plain values.
pub open spec fn views_of<T: View>(values: Seq<T>) -> Seq<T::V> {
    Seq::new(values.len(), |i: int| values[i]@)
}

/// Whether `n` is a Unicode scalar value.
pub open spec fn is_scalar(n: u32) -> bool {
    n <= 0xD7FF || (0xE000 <= n && n <= 0x10FFFF)
}

/// The character with code point `n`, where there is one.
pub open spec fn char_of(n: u32) -> Result<char, CodecError> {
    if is_scalar(n) {
        Ok(n as char)
    } else {
        Err(CodecError::InvalidCharacter)
    }
}

/// The wire form of a character: its code point in four bytes.
pub open spec fn char_wire(c: char) -> Seq<u8> {
    be_u32(c as u32)
}

/// The character whose code point stands at `at`, where it is one.
pub open spec fn char_at(bytes: Seq<u8>, at: int) -> Result<char, CodecError> {
    char_of(u32_at(bytes, at))
}

/// `char::from_u32`: the character with the given code point, and `None`
/// exactly for the surrogates and for what lies above U+10FFFF.
#[verifier::external_body]
fn scalar_from(n: u32) -> (r: Option<char>)
    ensures
        match r {
            Some(c) => is_scalar(n) && c as u32 == n,
            None => !is_scalar(n),
        },
{
    char::from_u32(n)
}

/// Maps a code point to its character.
pub fn char_map(n: u32) -> (r: Result<char, CodecError>)
    ensures
        r == char_of(n),
{
    match scalar_from(n) {
        Some(c) => {
            proof {
                lemma_char_round_trip(c);
            }
            Ok(c)
        },
        None => Err(CodecError::InvalidCharacter),
    }
}

/// Appends the code point of `char` to `output`.
pub fn char_write(output: &mut Vec<u8>, char: &char)
    ensures
        final(output)@ == old(output)@ + char_wire(*char),
{
    put_u32(output, *char as u32);
}

/// Whether `byte` ends a null-terminated string.
pub fn is_null(byte: &u8) -> (r: bool)
    ensures
        r == (*byte == 0),
{
    *byte == 0
}

/// A character's code point spells the character again.
pub proof fn lemma_char_round_trip(c: char)
    ensures
        char_of(c as u32) == Ok::<char, CodecError>(c),
{
}

} // verus!
