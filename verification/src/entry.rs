//! The two kinds of stored record and what they share: the trait that turns
//! a value into bytes and back, and the reading of a text out of a buffer.

use vstd::prelude::*;
use crate::errs::VaultError;
use crate::text::{text_from_bytes, text_of};

pub mod index_entry;
pub mod vault_entry;

verus! {

/// Width in bytes of the key field of an index record.
pub const DOMAIN_SIZE: usize = 32;

/// A value with a binary form.
pub trait BinarySerialization: Sized {
    /// The bytes that the value is stored as.
    spec fn encoding(&self) -> Seq<u8>;

    /// Whether `data` holds a complete value.
    spec fn decodable(data: Seq<u8>) -> bool;

    /// Whether `value` is what `data` holds.
    spec fn decoded(data: Seq<u8>, value: &Self) -> bool;

    /// Writes the value out.
    fn serialize(&self) -> (out: Vec<u8>)
        ensures
            out@ == self.encoding(),
    ;

    /// Reads a value back, or reports that `data` is malformed.
    fn deserialize(data: &[u8]) -> (r: Result<Self, VaultError>)
        ensures
            match r {
                Ok(value) => Self::decodable(data@) && Self::decoded(data@, &value),
                Err(e) => !Self::decodable(data@) && e == VaultError::Deserialization,
            },
    ;
}

/// `n` zero bytes.
pub open spec fn zeros(n: nat) -> Seq<u8> {
    Seq::new(n, |i: int| 0u8)
}

/// A byte sequence without its trailing zero bytes.
pub open spec fn strip_zeros(bytes: Seq<u8>) -> Seq<u8>
    decreases bytes.len(),
{
    if bytes.len() > 0 && bytes.last() == 0 {
        strip_zeros(bytes.drop_last())
    } else {
        bytes
    }
}

/// Stripping removes exactly the padding from bytes that do not end in zero.
pub proof fn lemma_strip_zeros_of_padded(bytes: Seq<u8>, n: nat)
    requires
        bytes.len() == 0 || bytes.last() != 0,
    ensures
        strip_zeros(bytes + zeros(n)) == bytes,
    decreases n,
{
    if n == 0 {
        assert(bytes + zeros(0) =~= bytes);
    } else {
        let padded = bytes + zeros(n);
        assert(padded.last() == 0);
        assert(padded.drop_last() =~= bytes + zeros((n - 1) as nat));
        lemma_strip_zeros_of_padded(bytes, (n - 1) as nat);
    }
}

/// Bytes are their stripped form followed by the zeros that were stripped.
pub proof fn lemma_strip_zeros_then_pad(bytes: Seq<u8>)
    ensures
        strip_zeros(bytes).len() <= bytes.len(),
        strip_zeros(bytes) + zeros((bytes.len() - strip_zeros(bytes).len()) as nat) == bytes,
    decreases bytes.len(),
{
    if bytes.len() > 0 && bytes.last() == 0 {
        let front = bytes.drop_last();
        lemma_strip_zeros_then_pad(front);
        let kept = strip_zeros(front);
        assert(kept + zeros((bytes.len() - kept.len()) as nat) =~= (kept + zeros(
            (front.len() - kept.len()) as nat,
        )).push(0u8));
        assert(front.push(0u8) =~= bytes);
    } else {
        assert(bytes + zeros(0) =~= bytes);
    }
}

/// The text held in `data[start..end]` once its trailing zero bytes are
/// gone.
pub open spec fn padded_text(data: Seq<u8>, start: int, end: int) -> Seq<char> {
    text_of(strip_zeros(data.subrange(start, end)))
}

/// Reads the zero-padded text in `data[start..end]`.
///
/// Fails when the range does not lie within `data`.
pub fn deserialize_string(start: usize, end: usize, data: &[u8]) -> (r: Result<
    String,
    VaultError,
>)
    ensures
        match r {
            Ok(s) => start <= end <= data@.len() && s@ == padded_text(
                data@,
                start as int,
                end as int,
            ),
            Err(e) => !(start <= end <= data@.len()) && e == VaultError::Deserialization,
        },
{
    if start > end || end > data.len() {
        return Err(VaultError::Deserialization);
    }
    let ghost field = data@.subrange(start as int, end as int);
    let mut stop: usize = end;
    proof {
        assert(data@.subrange(start as int, stop as int) =~= field);
    }
    while stop > start && data[stop - 1] == 0
        invariant
            start <= stop <= end <= data@.len(),
            field == data@.subrange(start as int, end as int),
            strip_zeros(field) == strip_zeros(data@.subrange(start as int, stop as int)),
        decreases stop,
    {
        proof {
            let cur = data@.subrange(start as int, stop as int);
            assert(cur.last() == 0);
            assert(cur.drop_last() =~= data@.subrange(start as int, stop - 1));
        }
        stop = stop - 1;
    }
    let kept = vstd::slice::slice_subrange(data, start, stop);
    Ok(text_from_bytes(kept))
}

} // verus!
