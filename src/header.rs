//! The block header: a two-byte signature carrying three flag bits, then one or
//! two big-endian length fields of three or four bytes each.
use vstd::prelude::*;

use crate::FormatError;

verus! {

/// Flag: the length fields are four bytes wide instead of three.
pub const FLAG_LEN32: u8 = 4;

/// Flag: reserved; kept as read but given no meaning.
pub const FLAG_UNUSED: u8 = 2;

/// Flag: a compressed-length field precedes the decompressed-length field.
pub const FLAG_HASCLEN: u8 = 1;

/// The second byte of every block.
pub const MAGIC: u8 = 0xfb;

/// The parsed header of a block. `flags` holds the three flag bits above.
#[derive(Debug, Clone, Copy, PartialEq, Eq, Structural)]
pub struct RefpackHeader {
    pub flags: u8,
    pub decompressed_len: usize,
    pub compressed_len: usize,
}

/// The width in bytes of each length field under the given flags.
pub open spec fn field_width(flags: u8) -> nat {
    if flags & FLAG_LEN32 != 0 { 4 } else { 3 }
}

/// The total size of a header with the given flags.
pub open spec fn header_len(flags: u8) -> nat {
    if flags & FLAG_HASCLEN != 0 { 2 + 2 * field_width(flags) } else { 2 + field_width(flags) }
}

/// One more than the largest value that a field of `w` bytes holds.
pub open spec fn field_limit(w: nat) -> nat {
    if w == 4 { 0x1_0000_0000 } else { 0x100_0000 }
}

/// The big-endian unsigned value of the `n` bytes of `s` from `start` on.
pub open spec fn be_value(s: Seq<u8>, start: int, n: nat) -> nat
    decreases n,
{
    if n == 0 {
        0
    } else {
        (be_value(s, start, (n - 1) as nat) * 256 + s[start + n - 1]) as nat
    }
}

/// The `w` bytes that write `v` big-endian (its low `w` bytes).
pub open spec fn be_bytes(v: nat, w: nat) -> Seq<u8>
    decreases w,
{
    if w == 0 {
        Seq::empty()
    } else {
        be_bytes(v / 256, (w - 1) as nat).push((v % 256) as u8)
    }
}

/// The flag bits that the first signature byte carries: bit 7 gives `FLAG_LEN32`,
/// bit 6 gives `FLAG_UNUSED`, bit 0 gives `FLAG_HASCLEN`.
pub open spec fn flags_of(b0: u8) -> u8 {
    ((b0 >> 5u8) & 0x06u8) | (b0 & 1u8)
}

/// The first signature byte that carries the given flag bits.
pub open spec fn signature_of(flags: u8) -> u8 {
    (flags & 1u8) | ((flags & 0x06u8) << 5u8) | 0x10u8
}

/// Whether two bytes are a valid signature.
pub open spec fn is_signature(b0: u8, b1: u8) -> bool {
    b1 == MAGIC && b0 & 0x3eu8 == 0x10u8
}

/// What reading a header from the front of `b` gives: the header and its size,
/// or why it cannot be read.
pub open spec fn parse_header(b: Seq<u8>) -> Result<(RefpackHeader, nat), FormatError> {
    if b.len() < 2 || !is_signature(b[0], b[1]) {
        Err(FormatError::BadMagic)
    } else {
        let flags = flags_of(b[0]);
        let w = field_width(flags);
        let n = header_len(flags);
        if b.len() < n {
            Err(FormatError::Truncated)
        } else {
            let clen = if flags & FLAG_HASCLEN != 0 { be_value(b, 2, w) } else { 0 };
            let dlen = be_value(b, n - w, w);
            Ok((RefpackHeader { flags, decompressed_len: dlen as usize, compressed_len: clen as usize }, n))
        }
    }
}

impl RefpackHeader {
    /// The header can be written: known flags only, each length fits its field,
    /// and no compressed length without its flag.
    pub open spec fn wf(self) -> bool {
        &&& self.flags < 8
        &&& self.decompressed_len < field_limit(field_width(self.flags))
        &&& self.compressed_len < field_limit(field_width(self.flags))
        &&& (self.flags & FLAG_HASCLEN == 0 ==> self.compressed_len == 0)
    }

    /// The bytes that write this header.
    pub open spec fn bytes(self) -> Seq<u8> {
        let w = field_width(self.flags);
        let clen = if self.flags & FLAG_HASCLEN != 0 {
            be_bytes(self.compressed_len as nat, w)
        } else {
            Seq::empty()
        };
        seq![signature_of(self.flags), MAGIC] + clen + be_bytes(self.decompressed_len as nat, w)
    }

    /// Reads a header from the front of `input`, returning it with the bytes
    /// that follow it.
    pub fn from_bytes(input: &[u8]) -> (r: Result<(RefpackHeader, &[u8]), FormatError>)
        ensures
            match parse_header(input@) {
                Ok((h, n)) => r matches Ok((h2, rest)) && h2 == h && rest@ == input@.subrange(
                    n as int,
                    input@.len() as int,
                ),
                Err(e) => r == Err::<(RefpackHeader, &[u8]), FormatError>(e),
            },
    {
        if input.len() < 2 || input[1] != MAGIC || input[0] & 0x3e != 0x10 {
            return Err(FormatError::BadMagic);
        }
        let flags = ((input[0] >> 5) & 0x06) | (input[0] & 1);
        let w: usize = if flags & FLAG_LEN32 != 0 { 4 } else { 3 };
        let n: usize = if flags & FLAG_HASCLEN != 0 { 2 + w + w } else { 2 + w };
        assert(flags == flags_of(input@[0]));
        assert(n == header_len(flags));
        if input.len() < n {
            return Err(FormatError::Truncated);
        }
        let compressed_len = if flags & FLAG_HASCLEN != 0 { read_field(input, 2, w) } else { 0 };
        let decompressed_len = read_field(input, n - w, w);
        let header = RefpackHeader { flags, decompressed_len, compressed_len };
        Ok((header, vstd::slice::slice_subrange(input, n, input.len())))
    }

    /// Appends the bytes of this header to `dest`.
    pub fn write_to_vec(&self, dest: &mut Vec<u8>)
        requires
            self.wf(),
        ensures
            final(dest)@ == old(dest)@ + self.bytes(),
    {
        let w: usize = if self.flags & FLAG_LEN32 != 0 { 4 } else { 3 };
        let ghost start = dest@;
        dest.push(signature_of_exec(self.flags));
        dest.push(MAGIC);
        let ghost after_sig = dest@;
        if self.flags & FLAG_HASCLEN != 0 {
            push_field(dest, self.compressed_len as u32, w);
        }
        let ghost after_clen = dest@;
        push_field(dest, self.decompressed_len as u32, w);
        proof {
            let clen = if self.flags & FLAG_HASCLEN != 0 {
                be_bytes(self.compressed_len as nat, w as nat)
            } else {
                Seq::empty()
            };
            assert(after_sig == start + seq![signature_of(self.flags), MAGIC]);
            assert(after_clen == after_sig + clen);
            assert(dest@ =~= start + self.bytes());
        }
    }
}

fn signature_of_exec(flags: u8) -> (r: u8)
    ensures
        r == signature_of(flags),
{
    (flags & 1) | ((flags & 0x06) << 5) | 0x10
}

pub(crate) proof fn lemma_be_value_3(s: Seq<u8>, p: int)
    ensures
        be_value(s, p, 3) == s[p] * 0x1_0000 + s[p + 1] * 0x100 + s[p + 2],
{
    reveal_with_fuel(be_value, 4);
}

pub(crate) proof fn lemma_be_value_4(s: Seq<u8>, p: int)
    ensures
        be_value(s, p, 4) == s[p] * 0x100_0000 + s[p + 1] * 0x1_0000 + s[p + 2] * 0x100 + s[p + 3],
{
    reveal_with_fuel(be_value, 5);
}

/// Reads a big-endian field of `w` bytes at `p`.
fn read_field(input: &[u8], p: usize, w: usize) -> (r: usize)
    requires
        w == 3 || w == 4,
        p + w <= input@.len(),
    ensures
        r == be_value(input@, p as int, w as nat),
{
    proof {
        lemma_be_value_3(input@, p as int);
        lemma_be_value_4(input@, p as int);
    }
    let mut v: u32 = 0;
    if w == 4 {
        v = input[p] as u32 * 0x100_0000;
        v = v + input[p + 1] as u32 * 0x1_0000 + input[p + 2] as u32 * 0x100 + input[p + 3] as u32;
    } else {
        v = input[p] as u32 * 0x1_0000 + input[p + 1] as u32 * 0x100 + input[p + 2] as u32;
    }
    v as usize
}

/// What `be_bytes` gives for three and four bytes.
pub proof fn lemma_be_bytes(v: nat)
    ensures
        be_bytes(v, 3) == seq![(v / 0x1_0000 % 256) as u8, (v / 0x100 % 256) as u8, (v % 256) as u8],
        be_bytes(v, 4) == seq![
            (v / 0x100_0000 % 256) as u8,
            (v / 0x1_0000 % 256) as u8,
            (v / 0x100 % 256) as u8,
            (v % 256) as u8,
        ],
{
    reveal_with_fuel(be_bytes, 5);
    vstd::arithmetic::div_mod::lemma_div_denominator(v as int, 256, 256);
    vstd::arithmetic::div_mod::lemma_div_denominator(v as int, 0x1_0000, 256);
    assert(be_bytes(v, 3) =~= seq![(v / 0x1_0000 % 256) as u8, (v / 0x100 % 256) as u8, (v % 256) as u8]);
    assert(be_bytes(v, 4) =~= seq![
        (v / 0x100_0000 % 256) as u8,
        (v / 0x1_0000 % 256) as u8,
        (v / 0x100 % 256) as u8,
        (v % 256) as u8,
    ]);
}

/// Appends `v` as a big-endian field of `w` bytes.
fn push_field(dest: &mut Vec<u8>, v: u32, w: usize)
    requires
        w == 3 || w == 4,
    ensures
        final(dest)@ == old(dest)@ + be_bytes(v as nat, w as nat),
{
    proof {
        lemma_be_bytes(v as nat);
    }
    let ghost start = dest@;
    if w == 4 {
        dest.push((v / 0x100_0000 % 256) as u8);
    }
    dest.push((v / 0x1_0000 % 256) as u8);
    dest.push((v / 0x100 % 256) as u8);
    dest.push((v % 256) as u8);
    assert(dest@ =~= start + be_bytes(v as nat, w as nat));
}

} // verus!

verus! {

proof fn lemma_field_3(v: u32)
    requires
        v < 0x100_0000,
    ensures
        (v / 0x1_0000 % 256) as u8 * 0x1_0000 + (v / 0x100 % 256) as u8 * 0x100 + (v % 256) as u8 == v,
{
    assert((v / 0x1_0000 % 256) as u8 * 0x1_0000 + (v / 0x100 % 256) as u8 * 0x100 + (v % 256) as u8
        == v) by (bit_vector)
        requires
            v < 0x100_0000,
    ;
}

proof fn lemma_field_4(v: u32)
    ensures
        (v / 0x100_0000 % 256) as u8 * 0x100_0000 + (v / 0x1_0000 % 256) as u8 * 0x1_0000 + (v / 0x100
            % 256) as u8 * 0x100 + (v % 256) as u8 == v,
{
    assert((v / 0x100_0000 % 256) as u8 * 0x100_0000 + (v / 0x1_0000 % 256) as u8 * 0x1_0000 + (v
        / 0x100 % 256) as u8 * 0x100 + (v % 256) as u8 == v) by (bit_vector);
}

/// A field written by `be_bytes` reads back as its value.
proof fn lemma_field_round_trip(s: Seq<u8>, p: int, v: nat, w: nat)
    requires
        w == 3 || w == 4,
        v < field_limit(w),
        0 <= p,
        p + w <= s.len(),
        s.subrange(p, p + w) == be_bytes(v, w),
    ensures
        be_value(s, p, w) == v,
{
    lemma_be_bytes(v);
    lemma_be_value_3(s, p);
    lemma_be_value_4(s, p);
    let sub = s.subrange(p, p + w);
    assert(s[p] == sub[0] && s[p + 1] == sub[1] && s[p + 2] == sub[2]);
    if w == 4 {
        assert(s[p + 3] == sub[3]);
        lemma_field_4(v as u32);
    } else {
        lemma_field_3(v as u32);
    }
}

/// A well-formed header reads back as itself, whatever follows its bytes.
pub proof fn lemma_header_round_trip(h: RefpackHeader, rest: Seq<u8>)
    requires
        h.wf(),
    ensures
        h.bytes().len() == header_len(h.flags),
        parse_header(h.bytes() + rest) == Ok::<(RefpackHeader, nat), FormatError>(
            (h, header_len(h.flags)),
        ),
{
    let f = h.flags;
    let w = field_width(f);
    lemma_be_bytes(h.compressed_len as nat);
    lemma_be_bytes(h.decompressed_len as nat);
    let b = h.bytes() + rest;
    assert(is_signature(signature_of(f), MAGIC) && flags_of(signature_of(f)) == f) by (bit_vector)
        requires
            f < 8,
    ;
    let n = header_len(f);
    assert(h.bytes().len() == n);
    assert(b[0] == signature_of(f) && b[1] == MAGIC);
    assert(b.subrange(n - w, n as int) == be_bytes(h.decompressed_len as nat, w));
    lemma_field_round_trip(b, n - w, h.decompressed_len as nat, w);
    if f & FLAG_HASCLEN != 0 {
        assert(b.subrange(2, (2 + w) as int) == be_bytes(h.compressed_len as nat, w));
        lemma_field_round_trip(b, 2, h.compressed_len as nat, w);
    }
}

} // verus!
