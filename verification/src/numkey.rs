//! Keys of fixed width: the machine integers, each written as its
//! little-endian bytes.

use vstd::prelude::*;
use crate::codec::{
    decode_le, encode_le, le_bytes, lemma_le_bytes_injective, lemma_le_bytes_len,
    lemma_le_bytes_of_value, lemma_le_value_bound, lemma_pow256_widths, pow256, twos_complement,
};
use crate::error::Error;

verus! {

/// A key with a fixed-width byte form.
///
/// The byte form of a key is as wide as the type says, and no two keys of
/// one type share it.
pub trait NumKey: Clone + Copy + PartialEq + Eq + PartialOrd + Ord + core::fmt::Debug {
    /// The number of bytes in the byte form of every key of this type.
    spec fn width() -> nat;

    /// The byte form of the key.
    spec fn spec_to_bytes(&self) -> Seq<u8>;

    /// Byte forms have the type's width and tell keys apart.
    proof fn lemma_byte_form(a: Self, b: Self)
        ensures
            a.spec_to_bytes().len() == Self::width(),
            a.spec_to_bytes() == b.spec_to_bytes() ==> a == b,
    ;

    /// key => bytes
    fn to_bytes(&self) -> (r: Vec<u8>)
        ensures
            r@ == self.spec_to_bytes(),
    ;

    /// bytes => key
    fn from_bytes(b: &[u8]) -> (r: Result<Self, Error>)
        ensures
            r is Ok == (b@.len() == Self::width()),
            r matches Ok(k) ==> k.spec_to_bytes() == b@,
            r matches Err(e) ==> e == Error::Decode,
    ;
}

impl NumKey for i8 {
    open spec fn width() -> nat {
        1
    }

    open spec fn spec_to_bytes(&self) -> Seq<u8> {
        le_bytes(twos_complement(*self as int, 1), 1)
    }

    proof fn lemma_byte_form(a: Self, b: Self) {
        lemma_pow256_widths();
        lemma_le_bytes_len(twos_complement(a as int, 1), 1);
        if a.spec_to_bytes() == b.spec_to_bytes() {
            lemma_le_bytes_injective(twos_complement(a as int, 1), twos_complement(b as int, 1), 1);
        }
    }

    fn to_bytes(&self) -> (r: Vec<u8>) {
        proof {
            lemma_pow256_widths();
        }
        let u: u128 = if *self >= 0 {
            *self as u128
        } else {
            (*self as i128 + 0x100) as u128
        };
        encode_le(u, 1)
    }

    fn from_bytes(b: &[u8]) -> (r: Result<Self, Error>) {
        if b.len() != 1 {
            return Err(Error::Decode);
        }
        let v: u128 = decode_le(b);
        proof {
            lemma_pow256_widths();
            lemma_le_value_bound(b@);
            lemma_le_bytes_of_value(b@);
        }
        if v < 0x80 {
            Ok(v as i8)
        } else {
            Ok((v as i128 - 0x100) as i8)
        }
    }
}

impl NumKey for i16 {
    open spec fn width() -> nat {
        2
    }

    open spec fn spec_to_bytes(&self) -> Seq<u8> {
        le_bytes(twos_complement(*self as int, 2), 2)
    }

    proof fn lemma_byte_form(a: Self, b: Self) {
        lemma_pow256_widths();
        lemma_le_bytes_len(twos_complement(a as int, 2), 2);
        if a.spec_to_bytes() == b.spec_to_bytes() {
            lemma_le_bytes_injective(twos_complement(a as int, 2), twos_complement(b as int, 2), 2);
        }
    }

    fn to_bytes(&self) -> (r: Vec<u8>) {
        proof {
            lemma_pow256_widths();
        }
        let u: u128 = if *self >= 0 {
            *self as u128
        } else {
            (*self as i128 + 0x1_0000) as u128
        };
        encode_le(u, 2)
    }

    fn from_bytes(b: &[u8]) -> (r: Result<Self, Error>) {
        if b.len() != 2 {
            return Err(Error::Decode);
        }
        let v: u128 = decode_le(b);
        proof {
            lemma_pow256_widths();
            lemma_le_value_bound(b@);
            lemma_le_bytes_of_value(b@);
        }
        if v < 0x8000 {
            Ok(v as i16)
        } else {
            Ok((v as i128 - 0x1_0000) as i16)
        }
    }
}

impl NumKey for i32 {
    open spec fn width() -> nat {
        4
    }

    open spec fn spec_to_bytes(&self) -> Seq<u8> {
        le_bytes(twos_complement(*self as int, 4), 4)
    }

    proof fn lemma_byte_form(a: Self, b: Self) {
        lemma_pow256_widths();
        lemma_le_bytes_len(twos_complement(a as int, 4), 4);
        if a.spec_to_bytes() == b.spec_to_bytes() {
            lemma_le_bytes_injective(twos_complement(a as int, 4), twos_complement(b as int, 4), 4);
        }
    }

    fn to_bytes(&self) -> (r: Vec<u8>) {
        proof {
            lemma_pow256_widths();
        }
        let u: u128 = if *self >= 0 {
            *self as u128
        } else {
            (*self as i128 + 0x1_0000_0000) as u128
        };
        encode_le(u, 4)
    }

    fn from_bytes(b: &[u8]) -> (r: Result<Self, Error>) {
        if b.len() != 4 {
            return Err(Error::Decode);
        }
        let v: u128 = decode_le(b);
        proof {
            lemma_pow256_widths();
            lemma_le_value_bound(b@);
            lemma_le_bytes_of_value(b@);
        }
        if v < 0x8000_0000 {
            Ok(v as i32)
        } else {
            Ok((v as i128 - 0x1_0000_0000) as i32)
        }
    }
}

impl NumKey for i64 {
    open spec fn width() -> nat {
        8
    }

    open spec fn spec_to_bytes(&self) -> Seq<u8> {
        le_bytes(twos_complement(*self as int, 8), 8)
    }

    proof fn lemma_byte_form(a: Self, b: Self) {
        lemma_pow256_widths();
        lemma_le_bytes_len(twos_complement(a as int, 8), 8);
        if a.spec_to_bytes() == b.spec_to_bytes() {
            lemma_le_bytes_injective(twos_complement(a as int, 8), twos_complement(b as int, 8), 8);
        }
    }

    fn to_bytes(&self) -> (r: Vec<u8>) {
        proof {
            lemma_pow256_widths();
        }
        let u: u128 = if *self >= 0 {
            *self as u128
        } else {
            (*self as i128 + 0x1_0000_0000_0000_0000) as u128
        };
        encode_le(u, 8)
    }

    fn from_bytes(b: &[u8]) -> (r: Result<Self, Error>) {
        if b.len() != 8 {
            return Err(Error::Decode);
        }
        let v: u128 = decode_le(b);
        proof {
            lemma_pow256_widths();
            lemma_le_value_bound(b@);
            lemma_le_bytes_of_value(b@);
        }
        if v < 0x8000_0000_0000_0000 {
            Ok(v as i64)
        } else {
            Ok((v as i128 - 0x1_0000_0000_0000_0000) as i64)
        }
    }
}

impl NumKey for i128 {
    open spec fn width() -> nat {
        16
    }

    open spec fn spec_to_bytes(&self) -> Seq<u8> {
        le_bytes(twos_complement(*self as int, 16), 16)
    }

    proof fn lemma_byte_form(a: Self, b: Self) {
        lemma_pow256_widths();
        lemma_le_bytes_len(twos_complement(a as int, 16), 16);
        if a.spec_to_bytes() == b.spec_to_bytes() {
            lemma_le_bytes_injective(twos_complement(a as int, 16), twos_complement(b as int, 16), 16);
        }
    }

    fn to_bytes(&self) -> (r: Vec<u8>) {
        proof {
            lemma_pow256_widths();
        }
        let u: u128 = if *self >= 0 {
            *self as u128
        } else {
            (*self - i128::MIN) as u128 + 0x8000_0000_0000_0000_0000_0000_0000_0000
        };
        encode_le(u, 16)
    }

    fn from_bytes(b: &[u8]) -> (r: Result<Self, Error>) {
        if b.len() != 16 {
            return Err(Error::Decode);
        }
        let v: u128 = decode_le(b);
        proof {
            lemma_pow256_widths();
            lemma_le_value_bound(b@);
            lemma_le_bytes_of_value(b@);
        }
        if v < 0x8000_0000_0000_0000_0000_0000_0000_0000 {
            Ok(v as i128)
        } else {
            Ok((v - 0x8000_0000_0000_0000_0000_0000_0000_0000) as i128 + i128::MIN)
        }
    }
}

impl NumKey for u8 {
    open spec fn width() -> nat {
        1
    }

    open spec fn spec_to_bytes(&self) -> Seq<u8> {
        le_bytes(*self as nat, 1)
    }

    proof fn lemma_byte_form(a: Self, b: Self) {
        lemma_pow256_widths();
        lemma_le_bytes_len(a as nat, 1);
        if a.spec_to_bytes() == b.spec_to_bytes() {
            lemma_le_bytes_injective(a as nat, b as nat, 1);
        }
    }

    fn to_bytes(&self) -> (r: Vec<u8>) {
        encode_le(*self as u128, 1)
    }

    fn from_bytes(b: &[u8]) -> (r: Result<Self, Error>) {
        if b.len() != 1 {
            return Err(Error::Decode);
        }
        let v: u128 = decode_le(b);
        proof {
            lemma_pow256_widths();
            lemma_le_value_bound(b@);
            lemma_le_bytes_of_value(b@);
        }
        Ok(v as u8)
    }
}

impl NumKey for u16 {
    open spec fn width() -> nat {
        2
    }

    open spec fn spec_to_bytes(&self) -> Seq<u8> {
        le_bytes(*self as nat, 2)
    }

    proof fn lemma_byte_form(a: Self, b: Self) {
        lemma_pow256_widths();
        lemma_le_bytes_len(a as nat, 2);
        if a.spec_to_bytes() == b.spec_to_bytes() {
            lemma_le_bytes_injective(a as nat, b as nat, 2);
        }
    }

    fn to_bytes(&self) -> (r: Vec<u8>) {
        encode_le(*self as u128, 2)
    }

    fn from_bytes(b: &[u8]) -> (r: Result<Self, Error>) {
        if b.len() != 2 {
            return Err(Error::Decode);
        }
        let v: u128 = decode_le(b);
        proof {
            lemma_pow256_widths();
            lemma_le_value_bound(b@);
            lemma_le_bytes_of_value(b@);
        }
        Ok(v as u16)
    }
}

impl NumKey for u32 {
    open spec fn width() -> nat {
        4
    }

    open spec fn spec_to_bytes(&self) -> Seq<u8> {
        le_bytes(*self as nat, 4)
    }

    proof fn lemma_byte_form(a: Self, b: Self) {
        lemma_pow256_widths();
        lemma_le_bytes_len(a as nat, 4);
        if a.spec_to_bytes() == b.spec_to_bytes() {
            lemma_le_bytes_injective(a as nat, b as nat, 4);
        }
    }

    fn to_bytes(&self) -> (r: Vec<u8>) {
        encode_le(*self as u128, 4)
    }

    fn from_bytes(b: &[u8]) -> (r: Result<Self, Error>) {
        if b.len() != 4 {
            return Err(Error::Decode);
        }
        let v: u128 = decode_le(b);
        proof {
            lemma_pow256_widths();
            lemma_le_value_bound(b@);
            lemma_le_bytes_of_value(b@);
        }
        Ok(v as u32)
    }
}

impl NumKey for u64 {
    open spec fn width() -> nat {
        8
    }

    open spec fn spec_to_bytes(&self) -> Seq<u8> {
        le_bytes(*self as nat, 8)
    }

    proof fn lemma_byte_form(a: Self, b: Self) {
        lemma_pow256_widths();
        lemma_le_bytes_len(a as nat, 8);
        if a.spec_to_bytes() == b.spec_to_bytes() {
            lemma_le_bytes_injective(a as nat, b as nat, 8);
        }
    }

    fn to_bytes(&self) -> (r: Vec<u8>) {
        encode_le(*self as u128, 8)
    }

    fn from_bytes(b: &[u8]) -> (r: Result<Self, Error>) {
        if b.len() != 8 {
            return Err(Error::Decode);
        }
        let v: u128 = decode_le(b);
        proof {
            lemma_pow256_widths();
            lemma_le_value_bound(b@);
            lemma_le_bytes_of_value(b@);
        }
        Ok(v as u64)
    }
}

impl NumKey for u128 {
    open spec fn width() -> nat {
        16
    }

    open spec fn spec_to_bytes(&self) -> Seq<u8> {
        le_bytes(*self as nat, 16)
    }

    proof fn lemma_byte_form(a: Self, b: Self) {
        lemma_pow256_widths();
        lemma_le_bytes_len(a as nat, 16);
        if a.spec_to_bytes() == b.spec_to_bytes() {
            lemma_le_bytes_injective(a as nat, b as nat, 16);
        }
    }

    fn to_bytes(&self) -> (r: Vec<u8>) {
        encode_le(*self as u128, 16)
    }

    fn from_bytes(b: &[u8]) -> (r: Result<Self, Error>) {
        if b.len() != 16 {
            return Err(Error::Decode);
        }
        let v: u128 = decode_le(b);
        proof {
            lemma_pow256_widths();
            lemma_le_value_bound(b@);
            lemma_le_bytes_of_value(b@);
        }
        Ok(v as u128)
    }
}

/// The number of bytes in a machine word.
pub open spec fn word_width() -> nat {
    (usize::BITS / 8) as nat
}

/// A machine word is four or eight bytes wide, and its values are those
/// that so many bytes can spell.
pub proof fn lemma_word_width()
    ensures
        word_width() == 4 || word_width() == 8,
        usize::MAX + 1 == pow256(word_width()),
        isize::MAX + 1 == pow256(word_width()) / 2,
        isize::MIN == -(pow256(word_width()) / 2),
{
    lemma_pow256_widths();
}

/// Computes `word_width`.
pub fn word_bytes() -> (w: usize)
    ensures
        w == word_width(),
{
    (usize::BITS / 8) as usize
}

impl NumKey for usize {
    open spec fn width() -> nat {
        word_width()
    }

    open spec fn spec_to_bytes(&self) -> Seq<u8> {
        le_bytes(*self as nat, word_width())
    }

    proof fn lemma_byte_form(a: Self, b: Self) {
        lemma_word_width();
        lemma_le_bytes_len(a as nat, word_width());
        if a.spec_to_bytes() == b.spec_to_bytes() {
            lemma_le_bytes_injective(a as nat, b as nat, word_width());
        }
    }

    fn to_bytes(&self) -> (r: Vec<u8>) {
        encode_le(*self as u128, word_bytes())
    }

    fn from_bytes(b: &[u8]) -> (r: Result<Self, Error>) {
        proof {
            lemma_word_width();
        }
        if b.len() != word_bytes() {
            return Err(Error::Decode);
        }
        let v: u128 = decode_le(b);
        proof {
            lemma_le_value_bound(b@);
            lemma_le_bytes_of_value(b@);
        }
        Ok(v as usize)
    }
}

impl NumKey for isize {
    open spec fn width() -> nat {
        word_width()
    }

    open spec fn spec_to_bytes(&self) -> Seq<u8> {
        le_bytes(twos_complement(*self as int, word_width()), word_width())
    }

    proof fn lemma_byte_form(a: Self, b: Self) {
        lemma_word_width();
        lemma_le_bytes_len(twos_complement(a as int, word_width()), word_width());
        if a.spec_to_bytes() == b.spec_to_bytes() {
            lemma_le_bytes_injective(
                twos_complement(a as int, word_width()),
                twos_complement(b as int, word_width()),
                word_width(),
            );
        }
    }

    fn to_bytes(&self) -> (r: Vec<u8>) {
        proof {
            lemma_word_width();
        }
        let u: u128 = if *self >= 0 {
            *self as u128
        } else {
            (*self as i128 + (usize::MAX as i128) + 1) as u128
        };
        encode_le(u, word_bytes())
    }

    fn from_bytes(b: &[u8]) -> (r: Result<Self, Error>) {
        proof {
            lemma_word_width();
        }
        if b.len() != word_bytes() {
            return Err(Error::Decode);
        }
        let v: u128 = decode_le(b);
        proof {
            lemma_le_value_bound(b@);
            lemma_le_bytes_of_value(b@);
        }
        if v <= isize::MAX as u128 {
            Ok(v as isize)
        } else {
            Ok((v as i128 - (usize::MAX as i128) - 1) as isize)
        }
    }
}

} // verus!
