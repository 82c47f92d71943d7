//! A verified codec for the RefPack compressed block format: a short header
//! followed by a stream of LZ77-style commands that mix literal bytes with
//! back-references into the output produced so far.
use vstd::prelude::*;

pub mod command;
pub mod decode;
pub mod encode;
pub mod header;

use crate::decode::{decode_block, decompress_actual};
use crate::encode::{compress_actual, encodes};

verus! {

/// Why a compressed block could not be decoded.
#[derive(Debug, Clone, Copy, PartialEq, Eq, Structural)]
pub enum FormatError {
    /// The two leading bytes do not carry the format's signature.
    BadMagic,
    /// The input ends inside a length field, a command or its literal bytes.
    Truncated,
    /// A back-reference reaches before the start of the output.
    BadReference,
    /// The command stream ends without a `Stop` command.
    MissingStop,
    /// The decoded size differs from the size that the header declares.
    LengthMismatch,
}

/// Squares a 32-bit value into 64 bits.
pub fn square(x: u32) -> (r: u64)
    ensures
        r == x * x,
{
    assert(x * x <= 0xffff_ffffu64 * 0xffff_ffffu64) by (nonlinear_arith)
        requires
            x <= 0xffff_ffffu32,
    ;
    (x as u64) * (x as u64)
}

/// A buffer handed back to a caller: the bytes of a call that succeeded, or
/// nothing for one that failed. It owns its bytes, and gives them up once.
pub struct OutVec {
    data: Option<Vec<u8>>,
}

impl View for OutVec {
    type V = Option<Seq<u8>>;

    closed spec fn view(&self) -> Option<Seq<u8>> {
        match self.data {
            Some(v) => Some(v@),
            None => None,
        }
    }
}

impl OutVec {
    /// A buffer that holds `v`.
    pub fn new(v: Vec<u8>) -> (r: OutVec)
        ensures
            r@ == Some(v@),
    {
        OutVec { data: Some(v) }
    }

    /// The buffer of a failed call.
    pub fn null() -> (r: OutVec)
        ensures
            r@ is None,
    {
        OutVec { data: None }
    }

    /// Whether this is the buffer of a failed call.
    pub fn is_null(&self) -> (r: bool)
        ensures
            r == self@ is None,
    {
        self.data.is_none()
    }

    /// How many bytes the buffer holds; 0 for a failed call.
    pub fn len(&self) -> (r: usize)
        ensures
            r == match self@ {
                Some(s) => s.len(),
                None => 0,
            },
    {
        match &self.data {
            Some(v) => v.len(),
            None => 0,
        }
    }

    /// Gives up the bytes.
    pub fn into_vec(self) -> (r: Option<Vec<u8>>)
        ensures
            r matches Some(v) ==> self@ == Some(v@),
            r is None <==> self@ is None,
    {
        self.data
    }
}

/// Decodes a block; the buffer is null where the block is not valid.
pub fn decompress(input: &[u8]) -> (r: OutVec)
    ensures
        match decode_block(input@) {
            Ok(out) => r@ == Some(out),
            Err(_) => r@ is None,
        },
{
    match decompress_actual(input) {
        Ok(v) => OutVec::new(v),
        Err(_) => OutVec::null(),
    }
}

/// Encodes bytes as a block that decodes back to them; the buffer is null
/// where their size does not fit the format.
pub fn compress(input: &[u8]) -> (r: OutVec)
    ensures
        r@ is Some <==> input@.len() <= 0xffff_ffff,
        r@ matches Some(b) ==> encodes(b, input@) && decode_block(b) == Ok::<Seq<u8>, FormatError>(
            input@,
        ),
{
    match compress_actual(input) {
        Some(v) => OutVec::new(v),
        None => OutVec::null(),
    }
}

} // verus!
