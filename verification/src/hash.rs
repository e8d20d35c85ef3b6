//! The fast key digest and the hashing capability of keys.

use vstd::prelude::*;
use vstd::utf8::encode_utf8;

verus! {

/// The digest of every input shorter than four bytes. It is a reserved value,
/// not an error code: callers cannot tell it from a genuine digest of 80.
pub const SHORT_INPUT_DIGEST: u32 = 80;

/// The 16-bit word made of two bytes in little-endian order.
pub open spec fn word_le(lo: u8, hi: u8) -> u32 {
    (lo as u32) | ((hi as u32) << 8)
}

/// The digest of a byte string: the first two bytes, as a little-endian word,
/// in the upper half and the last two bytes, likewise, in the lower half.
/// Inputs shorter than four bytes all map to [`SHORT_INPUT_DIGEST`].
pub open spec fn digest(bytes: Seq<u8>) -> u32 {
    if bytes.len() < 4 {
        SHORT_INPUT_DIGEST
    } else {
        (word_le(bytes[0], bytes[1]) << 16) | word_le(
            bytes[bytes.len() - 2],
            bytes[bytes.len() - 1],
        )
    }
}

/// The digest of a 64-bit word: its upper half XOR its lower half.
pub open spec fn fold64(x: u64) -> u32 {
    ((x >> 32) as u32) ^ (x as u32)
}

/// Computes the digest of `data`.
pub fn look_up_identifier(data: &[u8]) -> (result: u32)
    ensures
        result == digest(data@),
{
    let len: usize = data.len();
    if len < 4 {
        SHORT_INPUT_DIGEST
    } else {
        let lo: u32 = (data[0] as u32) | ((data[1] as u32) << 8);
        let hi: u32 = (data[len - 2] as u32) | ((data[len - 1] as u32) << 8);
        (lo << 16) | hi
    }
}

/// Folds a 64-bit word into its digest.
fn fold_word(x: u64) -> (h: u32)
    ensures
        h == fold64(x),
{
    #[verifier::truncate]
    let hi: u32 = (x >> 32) as u32;
    #[verifier::truncate]
    let lo: u32 = x as u32;
    hi ^ lo
}

/// Cloning a key gives the same key.
pub open spec fn clone_is_exact<K: Clone>() -> bool {
    forall|a: K, b: K| #[trigger] cloned(a, b) ==> a == b
}

/// Keys that can be placed in a hash table: each key has one 32-bit digest.
pub trait AssemblyHash {
    /// The digest of the key.
    spec fn hash_spec(&self) -> u32;

    /// Computes the digest of the key.
    fn assembly_hash(&self) -> (h: u32)
        ensures
            h == self.hash_spec(),
    ;
}

/// Text is digested over its UTF-8 bytes.
impl AssemblyHash for String {
    open spec fn hash_spec(&self) -> u32 {
        digest(encode_utf8(self@))
    }

    fn assembly_hash(&self) -> (h: u32) {
        look_up_identifier(self.as_str().as_bytes())
    }
}

/// Text is digested over its UTF-8 bytes.
impl AssemblyHash for &str {
    open spec fn hash_spec(&self) -> u32 {
        digest(encode_utf8(self@))
    }

    fn assembly_hash(&self) -> (h: u32) {
        look_up_identifier(self.as_bytes())
    }
}

/// A 32-bit integer is its own digest.
impl AssemblyHash for u32 {
    open spec fn hash_spec(&self) -> u32 {
        *self
    }

    fn assembly_hash(&self) -> (h: u32) {
        *self
    }
}

/// A 64-bit integer is folded: upper half XOR lower half.
impl AssemblyHash for u64 {
    open spec fn hash_spec(&self) -> u32 {
        fold64(*self)
    }

    fn assembly_hash(&self) -> (h: u32) {
        fold_word(*self)
    }
}

/// A pointer-sized integer is folded like a 64-bit one; where it has 32
/// bits, that is the integer itself.
impl AssemblyHash for usize {
    open spec fn hash_spec(&self) -> u32 {
        fold64(*self as u64)
    }

    fn assembly_hash(&self) -> (h: u32) {
        fold_word(*self as u64)
    }
}

/// The digest of a signed 32-bit integer is its bit pattern.
impl AssemblyHash for i32 {
    open spec fn hash_spec(&self) -> u32 {
        *self as u32
    }

    fn assembly_hash(&self) -> (h: u32) {
        #[verifier::truncate]
        let h: u32 = *self as u32;
        h
    }
}

/// The bit pattern of a signed 64-bit integer is folded.
impl AssemblyHash for i64 {
    open spec fn hash_spec(&self) -> u32 {
        fold64(*self as u64)
    }

    fn assembly_hash(&self) -> (h: u32) {
        #[verifier::truncate]
        let x: u64 = *self as u64;
        fold_word(x)
    }
}

/// The bit pattern of a signed pointer-sized integer is folded like that of
/// an unsigned one.
impl AssemblyHash for isize {
    open spec fn hash_spec(&self) -> u32 {
        fold64((*self as usize) as u64)
    }

    fn assembly_hash(&self) -> (h: u32) {
        #[verifier::truncate]
        let x: usize = *self as usize;
        fold_word(x as u64)
    }
}

/// A narrower integer is extended with zeros.
impl AssemblyHash for u16 {
    open spec fn hash_spec(&self) -> u32 {
        *self as u32
    }

    fn assembly_hash(&self) -> (h: u32) {
        *self as u32
    }
}

/// A narrower integer is extended with zeros.
impl AssemblyHash for u8 {
    open spec fn hash_spec(&self) -> u32 {
        *self as u32
    }

    fn assembly_hash(&self) -> (h: u32) {
        *self as u32
    }
}

/// The bit pattern of a narrower signed integer is extended with zeros.
impl AssemblyHash for i16 {
    open spec fn hash_spec(&self) -> u32 {
        (*self as u16) as u32
    }

    fn assembly_hash(&self) -> (h: u32) {
        #[verifier::truncate]
        let bits: u16 = *self as u16;
        bits as u32
    }
}

/// The bit pattern of a narrower signed integer is extended with zeros.
impl AssemblyHash for i8 {
    open spec fn hash_spec(&self) -> u32 {
        (*self as u8) as u32
    }

    fn assembly_hash(&self) -> (h: u32) {
        #[verifier::truncate]
        let bits: u8 = *self as u8;
        bits as u32
    }
}

} // verus!
