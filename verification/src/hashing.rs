//! Content keys for blob addressing.
//!
//! A patch blob is addressed by a 64-bit key of its bytes, and each tracked
//! file namespaces its blobs under a key of its path, so that unrelated files
//! producing identical delta bytes never share a blob.  Both keys are computed
//! with the standard library's `DefaultHasher`, fed exactly the way the
//! standard `Hash` impls feed it: a byte buffer is hashed as its length
//! (eight little-endian bytes) followed by its bytes, and a path string as its
//! UTF-8 bytes followed by a `0xff` terminator.

use std::collections::hash_map::DefaultHasher;
use std::hash::Hasher;
use vstd::prelude::*;
use vstd::std_specs::hash::DefaultHasherAdditionalSpecFns;
use vstd::string::StringSliceAdditionalSpecFns;

verus! {

/// The eight bytes of `n`, least significant first.
pub open spec fn le_bytes_u64(n: u64) -> Seq<u8> {
    seq![
        (n & 0xff) as u8,
        ((n >> 8) & 0xff) as u8,
        ((n >> 16) & 0xff) as u8,
        ((n >> 24) & 0xff) as u8,
        ((n >> 32) & 0xff) as u8,
        ((n >> 40) & 0xff) as u8,
        ((n >> 48) & 0xff) as u8,
        ((n >> 56) & 0xff) as u8,
    ]
}

/// The 64-bit content key of a byte buffer: the hasher state after writing
/// the buffer's length prefix and then the buffer itself.
pub open spec fn bytes_key(data: Seq<u8>) -> u64 {
    DefaultHasher::spec_finish(seq![le_bytes_u64(data.len() as u64), data])
}

/// The 64-bit key of a path string: the hasher state after writing the
/// string's UTF-8 bytes and then a single `0xff` terminator byte.
pub open spec fn str_key(bytes: Seq<u8>) -> u64 {
    DefaultHasher::spec_finish(seq![bytes, seq![0xffu8]])
}

/// The content key of a byte buffer, used to address patch blobs.
pub fn hash(data: &[u8]) -> (r: u64)
    ensures
        r == bytes_key(data@),
{
    let mut hasher = DefaultHasher::new();
    let len: u64 = data.len() as u64;
    let mut prefix: Vec<u8> = Vec::new();
    assert((len & 0xff) < 256 && ((len >> 8) & 0xff) < 256 && ((len >> 16) & 0xff) < 256
        && ((len >> 24) & 0xff) < 256 && ((len >> 32) & 0xff) < 256 && ((len >> 40) & 0xff) < 256
        && ((len >> 48) & 0xff) < 256 && ((len >> 56) & 0xff) < 256) by (bit_vector);
    prefix.push((len & 0xff) as u8);
    prefix.push(((len >> 8) & 0xff) as u8);
    prefix.push(((len >> 16) & 0xff) as u8);
    prefix.push(((len >> 24) & 0xff) as u8);
    prefix.push(((len >> 32) & 0xff) as u8);
    prefix.push(((len >> 40) & 0xff) as u8);
    prefix.push(((len >> 48) & 0xff) as u8);
    prefix.push(((len >> 56) & 0xff) as u8);
    assert(prefix@ =~= le_bytes_u64(len));
    hasher.write(prefix.as_slice());
    hasher.write(data);
    assert(hasher@ =~= seq![le_bytes_u64(data@.len() as u64), data@]);
    hasher.finish()
}

/// The key of a path given as its characters: the key of its UTF-8 bytes.
pub open spec fn path_key_of(path: Seq<char>) -> u64 {
    str_key(vstd::utf8::encode_utf8(path))
}

/// The key of a path string, used to namespace a tracked file's blobs.
pub fn path_key(path: &str) -> (r: u64)
    ensures
        r == str_key(path.spec_bytes()),
        r == path_key_of(path@),
{
    let mut hasher = DefaultHasher::new();
    hasher.write(path.as_bytes());
    let mut term: Vec<u8> = Vec::new();
    term.push(0xff);
    hasher.write(term.as_slice());
    assert(hasher@ =~= seq![path.spec_bytes(), seq![0xffu8]]);
    hasher.finish()
}

} // verus!
