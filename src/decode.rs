//! Decoding: a header, then commands until `Stop`, each appending its literal
//! bytes and then its back-reference to the output.
use vstd::prelude::*;

use crate::command::{parse_command, Command};
use crate::header::{parse_header, RefpackHeader};
use crate::FormatError;

verus! {

/// `out` followed by `n` more bytes, each a copy of the byte `dist` places
/// before it. Where `dist < n` the copy reads bytes that it has itself appended.
pub open spec fn copy_back(out: Seq<u8>, dist: nat, n: nat) -> Seq<u8>
    decreases n,
{
    if n == 0 {
        out
    } else {
        copy_back(out.push(out[out.len() - dist]), dist, (n - 1) as nat)
    }
}

/// What running the command stream `s` on the output `out` gives: the output
/// at its `Stop` command together with the bytes after that command, or why the
/// stream is not valid.
#[verifier::opaque]
pub open spec fn decode_stream(s: Seq<u8>, out: Seq<u8>) -> Result<(Seq<u8>, Seq<u8>), FormatError>
    decreases s.len(),
{
    match parse_command(s) {
        None => if s.len() == 0 {
            Err(FormatError::MissingStop)
        } else {
            Err(FormatError::Truncated)
        },
        Some(c) => {
            let end = c.size() + c.lit();
            if s.len() < end {
                Err(FormatError::Truncated)
            } else {
                let with_lits = out + s.subrange(c.size() as int, end as int);
                if c.ref_dist() > with_lits.len() {
                    Err(FormatError::BadReference)
                } else {
                    let next = copy_back(with_lits, c.ref_dist(), c.ref_len());
                    let rest = s.subrange(end as int, s.len() as int);
                    if c is Stop {
                        Ok((next, rest))
                    } else {
                        decode_stream(rest, next)
                    }
                }
            }
        },
    }
}

/// What decoding the block `b` gives.
pub open spec fn decode_block(b: Seq<u8>) -> Result<Seq<u8>, FormatError> {
    match parse_header(b) {
        Err(e) => Err(e),
        Ok((h, n)) => match decode_stream(b.subrange(n as int, b.len() as int), Seq::empty()) {
            Err(e) => Err(e),
            Ok((out, _)) => if out.len() == h.decompressed_len {
                Ok(out)
            } else {
                Err(FormatError::LengthMismatch)
            },
        },
    }
}

/// Running a well-formed command written before its literals and the stream
/// `t`: a back-reference that reaches before the output fails, a `Stop` ends
/// there, and any other command continues with `t` on the output that it leaves.
pub proof fn lemma_command_step(c: Command, lits: Seq<u8>, t: Seq<u8>, out: Seq<u8>)
    requires
        c.wf(),
        lits.len() == c.lit(),
    ensures
        decode_stream(c.bytes() + lits + t, out) == if c.ref_dist() > out.len() + lits.len() {
            Err(FormatError::BadReference)
        } else if c is Stop {
            Ok::<(Seq<u8>, Seq<u8>), FormatError>((out + lits, t))
        } else {
            decode_stream(t, copy_back(out + lits, c.ref_dist(), c.ref_len()))
        },
{
    reveal(decode_stream);
    let s = c.bytes() + lits + t;
    crate::command::lemma_parse_bytes(c, lits + t);
    assert(s == c.bytes() + (lits + t));
    let end = c.size() + c.lit();
    assert(s.subrange(c.size() as int, end as int) == lits);
    assert(s.subrange(end as int, s.len() as int) == t);
}

/// A back-reference that reaches before the start of the output is refused.
pub proof fn lemma_bad_reference(c: Command, lits: Seq<u8>, t: Seq<u8>, out: Seq<u8>)
    requires
        c.wf(),
        lits.len() == c.lit(),
        c.ref_dist() > out.len() + lits.len(),
    ensures
        decode_stream(c.bytes() + lits + t, out) == Err::<(Seq<u8>, Seq<u8>), FormatError>(
            FormatError::BadReference,
        ),
{
    lemma_command_step(c, lits, t, out);
}

/// The bytes of a list of commands, each followed by its literals.
pub open spec fn stream_of(cs: Seq<(Command, Seq<u8>)>) -> Seq<u8>
    decreases cs.len(),
{
    if cs.len() == 0 {
        Seq::empty()
    } else {
        cs[0].0.bytes() + cs[0].1 + stream_of(cs.drop_first())
    }
}

/// Every back-reference of the list, run on `out`, stays within the output.
pub open spec fn references_in_range(cs: Seq<(Command, Seq<u8>)>, out: Seq<u8>) -> bool
    decreases cs.len(),
{
    if cs.len() == 0 {
        true
    } else {
        let (c, lits) = cs[0];
        &&& c.ref_dist() <= out.len() + lits.len()
        &&& references_in_range(cs.drop_first(), copy_back(out + lits, c.ref_dist(), c.ref_len()))
    }
}

/// A stream of well-formed commands none of which is `Stop` fails: with
/// `MissingStop` where every back-reference stays in range, else with
/// `BadReference`.
pub proof fn lemma_missing_stop(cs: Seq<(Command, Seq<u8>)>, out: Seq<u8>)
    requires
        forall|i: int|
            0 <= i < cs.len() ==> (#[trigger] cs[i]).0.wf() && !(cs[i].0 is Stop) && cs[i].1.len()
                == cs[i].0.lit(),
    ensures
        decode_stream(stream_of(cs), out) == if references_in_range(cs, out) {
            Err::<(Seq<u8>, Seq<u8>), FormatError>(FormatError::MissingStop)
        } else {
            Err(FormatError::BadReference)
        },
    decreases cs.len(),
{
    if cs.len() == 0 {
        reveal(decode_stream);
    } else {
        let (c, lits) = cs[0];
        assert(cs[0].0.wf());
        let rest = cs.drop_first();
        assert forall|i: int| 0 <= i < rest.len() implies (#[trigger] rest[i]).0.wf() && !(
        rest[i].0 is Stop) && rest[i].1.len() == rest[i].0.lit() by {
            assert(rest[i] == cs[i + 1]);
        }
        lemma_command_step(c, lits, stream_of(rest), out);
        assert(stream_of(cs) == c.bytes() + lits + stream_of(rest));
        lemma_missing_stop(rest, copy_back(out + lits, c.ref_dist(), c.ref_len()));
    }
}

/// Copying back appends `n` bytes, keeps what was there, and each new byte
/// equals the byte `dist` places before it; where `dist` is less than `n`
/// the copy repeats the bytes that it has itself appended.
pub proof fn lemma_copy_back(out: Seq<u8>, dist: nat, n: nat)
    requires
        1 <= dist <= out.len(),
    ensures
        copy_back(out, dist, n).len() == out.len() + n,
        copy_back(out, dist, n).subrange(0, out.len() as int) == out,
        forall|i: int|
            out.len() <= i < out.len() + n ==> #[trigger] copy_back(out, dist, n)[i] == copy_back(
                out,
                dist,
                n,
            )[i - dist],
    decreases n,
{
    if n > 0 {
        let next = out.push(out[out.len() - dist]);
        lemma_copy_back(next, dist, (n - 1) as nat);
        let r = copy_back(out, dist, n);
        assert(r == copy_back(next, dist, (n - 1) as nat));
        assert(r.subrange(0, next.len() as int) == next);
        assert(r[out.len() as int] == next[out.len() as int]);
        assert(r[out.len() - dist] == next[out.len() - dist]);
        assert(r.subrange(0, out.len() as int) == next.subrange(0, out.len() as int));
        assert(next.subrange(0, out.len() as int) == out);
    } else {
        assert(out.subrange(0, out.len() as int) == out);
    }
}

/// A back-reference one byte back repeats the last byte of the output.
pub proof fn lemma_copy_back_one(out: Seq<u8>, n: nat)
    requires
        out.len() >= 1,
    ensures
        copy_back(out, 1, n) == out + Seq::new(n, |i: int| out[out.len() - 1]),
    decreases n,
{
    let x = out[out.len() - 1];
    if n > 0 {
        let next = out.push(x);
        lemma_copy_back_one(next, (n - 1) as nat);
        assert(next + Seq::new((n - 1) as nat, |i: int| next[next.len() - 1]) == out + Seq::new(
            n,
            |i: int| out[out.len() - 1],
        ));
    } else {
        assert(out + Seq::new(0, |i: int| x) == out);
    }
}

/// A stream that ends with its `Stop` command fails on every shorter prefix,
/// with `Truncated` or, where the cut falls between commands, `MissingStop`.
pub proof fn lemma_stream_prefix(s: Seq<u8>, out: Seq<u8>, k: int)
    requires
        decode_stream(s, out) matches Ok((_, rest)) && rest.len() == 0,
        0 <= k < s.len(),
    ensures
        decode_stream(s.subrange(0, k), out) == Err::<(Seq<u8>, Seq<u8>), FormatError>(
            FormatError::Truncated,
        ) || decode_stream(s.subrange(0, k), out) == Err::<(Seq<u8>, Seq<u8>), FormatError>(
            FormatError::MissingStop,
        ),
    decreases s.len(),
{
    reveal(decode_stream);
    let p = s.subrange(0, k);
    if k > 0 {
        let c = parse_command(s).unwrap();
        let end = c.size() + c.lit();
        if k >= end {
            assert(parse_command(p) == Some(c));
            assert(p.subrange(c.size() as int, end as int) == s.subrange(c.size() as int, end as int));
            let with_lits = out + s.subrange(c.size() as int, end as int);
            let next = copy_back(with_lits, c.ref_dist(), c.ref_len());
            let s2 = s.subrange(end as int, s.len() as int);
            assert(p.subrange(end as int, k) == s2.subrange(0, k - end));
            lemma_stream_prefix(s2, next, k - end);
        }
    }
}

/// A block that ends with its `Stop` command fails to decode on every shorter
/// prefix: `BadMagic` below two bytes, else `Truncated` or `MissingStop`.
pub proof fn lemma_block_prefix(b: Seq<u8>, k: int)
    requires
        parse_header(b) matches Ok((h, n)) && decode_stream(b.subrange(n as int, b.len() as int), Seq::empty()) matches Ok((_, rest)) && rest.len() == 0,
        0 <= k < b.len(),
    ensures
        decode_block(b.subrange(0, k)) is Err,
        k < 2 ==> decode_block(b.subrange(0, k)) == Err::<Seq<u8>, FormatError>(FormatError::BadMagic),
        k >= 2 ==> decode_block(b.subrange(0, k)) == Err::<Seq<u8>, FormatError>(FormatError::Truncated)
            || decode_block(b.subrange(0, k)) == Err::<Seq<u8>, FormatError>(FormatError::MissingStop),
{
    let (h, n) = parse_header(b).unwrap();
    let p = b.subrange(0, k);
    if k >= n {
        let w = crate::header::field_width(h.flags);
        crate::header::lemma_be_value_3(b, 2);
        crate::header::lemma_be_value_4(b, 2);
        crate::header::lemma_be_value_3(p, 2);
        crate::header::lemma_be_value_4(p, 2);
        crate::header::lemma_be_value_3(b, n - w);
        crate::header::lemma_be_value_4(b, n - w);
        crate::header::lemma_be_value_3(p, n - w);
        crate::header::lemma_be_value_4(p, n - w);
        assert(parse_header(p) == parse_header(b));
        let s = b.subrange(n as int, b.len() as int);
        assert(p.subrange(n as int, k) == s.subrange(0, k - n));
        lemma_stream_prefix(s, Seq::empty(), k - n);
    }
}

/// Two leading bytes that are not a valid signature are refused, whatever follows.
pub proof fn lemma_bad_magic(b: Seq<u8>)
    requires
        b.len() < 2 || !crate::header::is_signature(b[0], b[1]),
    ensures
        decode_block(b) == Err::<Seq<u8>, FormatError>(FormatError::BadMagic),
{
}

/// Appends the bytes of `s` from `start` to `end` to `out`.
pub(crate) fn push_literals(out: &mut Vec<u8>, s: &[u8], start: usize, end: usize)
    requires
        start <= end <= s@.len(),
    ensures
        final(out)@ == old(out)@ + s@.subrange(start as int, end as int),
{
    let ghost out0 = out@;
    let mut j: usize = start;
    while j < end
        invariant
            start <= j <= end <= s@.len(),
            out@ == out0 + s@.subrange(start as int, j as int),
        decreases end - j,
    {
        out.push(s[j]);
        assert(s@.subrange(start as int, j + 1) == s@.subrange(start as int, j as int).push(
            s@[j as int],
        ));
        j = j + 1;
    }
}

/// Appends `n` bytes to `out`, one at a time, each a copy of the byte `dist`
/// places before it.
fn push_reference(out: &mut Vec<u8>, dist: u32, n: u32)
    requires
        dist <= old(out)@.len(),
        n > 0 ==> dist >= 1,
    ensures
        final(out)@ == copy_back(old(out)@, dist as nat, n as nat),
{
    let ghost out0 = out@;
    let mut k: u32 = 0;
    while k < n
        invariant
            0 <= k <= n,
            n > 0 ==> dist >= 1,
            dist <= out0.len(),
            out@.len() == out0.len() + k,
            copy_back(out@, dist as nat, (n - k) as nat) == copy_back(out0, dist as nat, n as nat),
        decreases n - k,
    {
        let b = out[out.len() - dist as usize];
        out.push(b);
        k = k + 1;
    }
}

/// Runs the command at `pos` of the stream `s` on `out`. On success returns
/// the position after it and whether it was `Stop`.
fn run_command(s: &[u8], pos: usize, out: &mut Vec<u8>) -> (r: Result<(usize, bool), FormatError>)
    requires
        pos < s@.len(),
    ensures
        match r {
            Ok((next, stop)) => pos < next <= s@.len() && if stop {
                decode_stream(s@.subrange(pos as int, s@.len() as int), old(out)@) == Ok::<
                    (Seq<u8>, Seq<u8>),
                    FormatError,
                >((final(out)@, s@.subrange(next as int, s@.len() as int)))
            } else {
                decode_stream(s@.subrange(pos as int, s@.len() as int), old(out)@) == decode_stream(
                    s@.subrange(next as int, s@.len() as int),
                    final(out)@,
                )
            },
            Err(e) => decode_stream(s@.subrange(pos as int, s@.len() as int), old(out)@) == Err::<
                (Seq<u8>, Seq<u8>),
                FormatError,
            >(e),
        },
{
    let ghost rest = s@.subrange(pos as int, s@.len() as int);
    proof {
        crate::command::lemma_parse_wf(rest);
        reveal(decode_stream);
    }
    let c = match Command::read(s, pos) {
        Some(c) => c,
        None => return Err(FormatError::Truncated),
    };
    let size = c.byte_len();
    let lit = c.literal_len() as usize;
    if s.len() - pos < size + lit {
        return Err(FormatError::Truncated);
    }
    let start = pos + size;
    let end = start + lit;
    push_literals(out, s, start, end);
    assert(s@.subrange(start as int, end as int) == rest.subrange(
        c.size() as int,
        (c.size() + c.lit()) as int,
    ));
    let (rlen, rdist) = c.reference();
    if rdist as usize > out.len() {
        return Err(FormatError::BadReference);
    }
    push_reference(out, rdist, rlen);
    assert(s@.subrange(end as int, s@.len() as int) == rest.subrange(
        (c.size() + c.lit()) as int,
        rest.len() as int,
    ));
    Ok((end, c.is_stop()))
}

/// Decodes a compressed block into the bytes that it stands for.
pub fn decompress_actual(input: &[u8]) -> (r: Result<Vec<u8>, FormatError>)
    ensures
        match decode_block(input@) {
            Ok(out) => r matches Ok(v) && v@ == out,
            Err(e) => r matches Err(e2) && e2 == e,
        },
{
    let (header, s) = match RefpackHeader::from_bytes(input) {
        Ok(v) => v,
        Err(e) => return Err(e),
    };
    let ghost hlen: nat = match parse_header(input@) {
        Ok((_, n)) => n,
        Err(_) => 0,
    };
    let mut out: Vec<u8> = Vec::new();
    let mut pos: usize = 0;
    assert(s@.subrange(0, s@.len() as int) == s@);
    while pos < s.len()
        invariant
            pos <= s@.len(),
            parse_header(input@) == Ok::<(RefpackHeader, nat), FormatError>((header, hlen)),
            s@ == input@.subrange(hlen as int, input@.len() as int),
            decode_stream(s@.subrange(pos as int, s@.len() as int), out@) == decode_stream(
                s@,
                Seq::empty(),
            ),
        decreases s@.len() - pos,
    {
        let (next, stop) = match run_command(s, pos, &mut out) {
            Ok(v) => v,
            Err(e) => return Err(e),
        };
        pos = next;
        if stop {
            if out.len() != header.decompressed_len {
                return Err(FormatError::LengthMismatch);
            }
            return Ok(out);
        }
    }
    assert(s@.subrange(pos as int, s@.len() as int).len() == 0);
    proof {
        reveal(decode_stream);
    }
    Err(FormatError::MissingStop)
}

} // verus!
