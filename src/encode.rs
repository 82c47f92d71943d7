//! Encoding: a greedy longest-match parse over hash chains of three-byte
//! prefixes, written as a command stream behind a header.
use vstd::prelude::*;

use crate::command::Command;
use crate::decode::{copy_back, decode_block, decode_stream, lemma_command_step, push_literals};
use crate::header::{
    header_len, lemma_header_round_trip, parse_header, RefpackHeader, FLAG_HASCLEN, FLAG_LEN32,
};
use crate::FormatError;

verus! {

/// How far back a back-reference may reach.
pub const WINDOW: usize = 131072;

/// The longest back-reference.
pub const MAX_MATCH: usize = 1028;

/// The number of hash chain heads.
pub const HASH_SIZE: usize = 65536;

/// How many candidates of a chain the search looks at.
pub const MAX_CHAIN: usize = 32;

/// The longest literal run of one command.
pub const MAX_LITERAL_RUN: usize = 112;

/// Some command shape carries a back-reference of `len` bytes from `dist` back.
pub open spec fn encodable(len: nat, dist: nat) -> bool {
    &&& 3 <= len <= 1028
    &&& 1 <= dist <= 131072
    &&& ((len <= 10 && dist <= 1024) || (4 <= len <= 67 && dist <= 16384) || 5 <= len)
}

/// The `len` bytes of `data` at `p` equal those `dist` bytes before each of them.
pub open spec fn is_match(data: Seq<u8>, p: int, dist: int, len: int) -> bool {
    &&& 1 <= dist <= p
    &&& p + len <= data.len()
    &&& forall|k: int| 0 <= k < len ==> #[trigger] data[p + k] == data[p + k - dist]
}

/// Every stream that starts with `st` runs as the rest of it would from the
/// output `out`.
pub open spec fn stream_decodes(st: Seq<u8>, out: Seq<u8>) -> bool {
    forall|t: Seq<u8>| #[trigger] decode_stream(st + t, Seq::empty()) == decode_stream(t, out)
}

/// `b` is a block that decodes to `data` and ends with its `Stop` command, and
/// whose compressed length, where given, is its size.
pub open spec fn encodes(b: Seq<u8>, data: Seq<u8>) -> bool {
    match parse_header(b) {
        Ok((h, n)) => {
            &&& decode_stream(b.subrange(n as int, b.len() as int), Seq::empty()) == Ok::<
                (Seq<u8>, Seq<u8>),
                FormatError,
            >((data, Seq::empty()))
            &&& h.decompressed_len == data.len()
            &&& h.flags & FLAG_HASCLEN != 0 ==> h.compressed_len == b.len()
        },
        Err(_) => false,
    }
}

/// A block that encodes `data` decodes to it, and every shorter prefix of it
/// fails to decode.
pub proof fn lemma_encodes_decodes(b: Seq<u8>, data: Seq<u8>, k: int)
    requires
        encodes(b, data),
        0 <= k < b.len(),
    ensures
        decode_block(b) == Ok::<Seq<u8>, FormatError>(data),
        decode_block(b.subrange(0, k)) is Err,
{
    crate::decode::lemma_block_prefix(b, k);
}

/// Copying a match of `data` onto the bytes before it gives the bytes of the match.
pub proof fn lemma_copy_match(data: Seq<u8>, p: int, dist: int, len: int)
    requires
        is_match(data, p, dist, len),
        0 <= len,
    ensures
        copy_back(data.subrange(0, p), dist as nat, len as nat) == data.subrange(0, p + len),
    decreases len,
{
    if len > 0 {
        assert(data[p + 0] == data[p + 0 - dist]);
        assert(data.subrange(0, p).push(data.subrange(0, p)[p - dist]) == data.subrange(0, p + 1));
        assert forall|k: int| 0 <= k < len - 1 implies #[trigger] data[p + 1 + k] == data[p + 1 + k
            - dist] by {
            assert(data[p + (k + 1)] == data[p + (k + 1) - dist]);
        }
        lemma_copy_match(data, p + 1, dist, len - 1);
    }
}

/// Appending a command that is not `Stop`, with its literals, keeps a stream
/// prefix in step with the output that the command leaves.
proof fn lemma_extend(st: Seq<u8>, out: Seq<u8>, c: Command, lits: Seq<u8>)
    requires
        stream_decodes(st, out),
        c.wf(),
        !(c is Stop),
        lits.len() == c.lit(),
        c.ref_dist() <= out.len() + lits.len(),
    ensures
        stream_decodes(st + c.bytes() + lits, copy_back(out + lits, c.ref_dist(), c.ref_len())),
{
    assert forall|t: Seq<u8>| #[trigger]
        decode_stream(st + c.bytes() + lits + t, Seq::empty()) == decode_stream(
            t,
            copy_back(out + lits, c.ref_dist(), c.ref_len()),
        ) by {
        assert(st + c.bytes() + lits + t == st + (c.bytes() + lits + t));
        assert(decode_stream(st + (c.bytes() + lits + t), Seq::empty()) == decode_stream(
            c.bytes() + lits + t,
            out,
        ));
        lemma_command_step(c, lits, t, out);
    }
}

/// Appending `Stop` with its literals ends a stream prefix on the output.
proof fn lemma_finish(st: Seq<u8>, out: Seq<u8>, c: Command, lits: Seq<u8>)
    requires
        stream_decodes(st, out),
        c.wf(),
        c is Stop,
        lits.len() == c.lit(),
    ensures
        decode_stream(st + c.bytes() + lits, Seq::empty()) == Ok::<(Seq<u8>, Seq<u8>), FormatError>(
            (out + lits, Seq::empty()),
        ),
{
    let t = Seq::<u8>::empty();
    assert(st + c.bytes() + lits == st + (c.bytes() + lits + t));
    assert(decode_stream(st + (c.bytes() + lits + t), Seq::empty()) == decode_stream(
        c.bytes() + lits + t,
        out,
    ));
    lemma_command_step(c, lits, t, out);
}

/// Writes `c` and its literals, taken from `input` at `from`.
fn emit(stream: &mut Vec<u8>, c: Command, input: &[u8], from: usize)
    requires
        c.wf(),
        from + c.lit() <= input@.len(),
    ensures
        final(stream)@ == old(stream)@ + c.bytes() + input@.subrange(
            from as int,
            from + c.lit(),
        ),
{
    c.write_to_vec(stream);
    let lit = c.literal_len() as usize;
    let n = input.len();
    push_literals(stream, input, from, from + lit);
}

/// Writes the pending literals from `start` to `end` as literal runs until at
/// most three are left, returning where the pending literals then start.
fn flush_literals(stream: &mut Vec<u8>, input: &[u8], start: usize, end: usize) -> (r: usize)
    requires
        start <= end <= input@.len(),
        stream_decodes(old(stream)@, input@.subrange(0, start as int)),
    ensures
        start <= r <= end,
        end - r <= 3,
        stream_decodes(final(stream)@, input@.subrange(0, r as int)),
{
    let mut ls = start;
    while end - ls >= 4
        invariant
            start <= ls <= end <= input@.len(),
            stream_decodes(stream@, input@.subrange(0, ls as int)),
        decreases end - ls,
    {
        let avail = (end - ls) / 4 * 4;
        let k = if avail > MAX_LITERAL_RUN { MAX_LITERAL_RUN } else { avail };
        let c = Command::LiteralRun { literal_len: k as u32 };
        let ghost st = stream@;
        emit(stream, c, input, ls);
        proof {
            let lits = input@.subrange(ls as int, ls + k);
            lemma_extend(st, input@.subrange(0, ls as int), c, lits);
            assert(copy_back(input@.subrange(0, ls as int) + lits, 0, 0) == input@.subrange(
                0,
                ls + k,
            ));
        }
        ls = ls + k;
    }
    ls
}

/// Whether some command shape carries a back-reference of `len` bytes from `dist` back.
fn shape_fits(len: usize, dist: usize) -> (r: bool)
    ensures
        r == encodable(len as nat, dist as nat),
{
    3 <= len && len <= MAX_MATCH && 1 <= dist && dist <= WINDOW && ((len <= 10 && dist <= 1024) || (4
        <= len && len <= 67 && dist <= 16384) || 5 <= len)
}

/// The smallest command that carries `lit` literals and a back-reference of
/// `len` bytes from `dist` back.
fn match_command(lit: usize, len: usize, dist: usize) -> (r: Command)
    requires
        lit <= 3,
        encodable(len as nat, dist as nat),
    ensures
        r.wf(),
        !(r is Stop),
        r.lit() == lit,
        r.ref_len() == len,
        r.ref_dist() == dist,
{
    let (p, l, d) = (lit as u32, len as u32, dist as u32);
    if len <= 10 && dist <= 1024 {
        Command::ShortCopy { literal_len: p, ref_len: l, ref_dist: d }
    } else if len <= 67 && dist <= 16384 {
        Command::MediumCopy { literal_len: p, ref_len: l, ref_dist: d }
    } else {
        Command::LongCopy { literal_len: p, ref_len: l, ref_dist: d }
    }
}

/// The chain that the three bytes at `p` hash to.
fn hash_at(input: &[u8], p: usize) -> (r: usize)
    requires
        p + 3 <= input@.len(),
    ensures
        r < HASH_SIZE,
{
    let v = (input[p] as u64) * 0x1_0000 + (input[p + 1] as u64) * 0x100 + input[p + 2] as u64;
    (((v * 2654435761) >> 16) % (HASH_SIZE as u64)) as usize
}

/// Puts position `p` at the head of its chain.
fn insert(head: &mut Vec<usize>, prev: &mut Vec<usize>, input: &[u8], p: usize)
    requires
        old(head)@.len() == HASH_SIZE,
        old(prev)@.len() == input@.len(),
        p < input@.len(),
    ensures
        final(head)@.len() == HASH_SIZE,
        final(prev)@.len() == input@.len(),
{
    if input.len() - p >= 3 {
        let h = hash_at(input, p);
        prev.set(p, head[h]);
        head.set(h, p);
    }
}

/// The longest match for the bytes at `pos` among the candidates of its chain
/// that some command shape carries, as its length and distance; the nearest of
/// equally long ones. A length of 0 means none.
fn find_match(input: &[u8], pos: usize, head: &Vec<usize>, prev: &Vec<usize>) -> (r: (usize, usize))
    requires
        pos + 3 <= input@.len(),
        head@.len() == HASH_SIZE,
    ensures
        r.0 == 0 || (encodable(r.0 as nat, r.1 as nat) && is_match(
            input@,
            pos as int,
            r.1 as int,
            r.0 as int,
        )),
{
    let n = input.len();
    let rest = n - pos;
    let max_len = if rest < MAX_MATCH { rest } else { MAX_MATCH };
    let mut best_len: usize = 0;
    let mut best_dist: usize = 0;
    let mut cand = head[hash_at(input, pos)];
    let mut steps: usize = 0;
    while steps < MAX_CHAIN && cand < pos && pos - cand <= WINDOW && best_len < max_len
        invariant
            n == input@.len(),
            pos + max_len <= input@.len(),
            best_len == 0 || (encodable(best_len as nat, best_dist as nat) && is_match(
                input@,
                pos as int,
                best_dist as int,
                best_len as int,
            )),
        decreases MAX_CHAIN - steps,
    {
        let dist = pos - cand;
        let mut len: usize = 0;
        while len < max_len
            invariant
                n == input@.len(),
                cand < pos,
                dist == pos - cand,
                len <= max_len,
                pos + max_len <= input@.len(),
                forall|k: int| 0 <= k < len ==> #[trigger] input@[pos + k] == input@[pos + k - dist],
            decreases max_len - len,
        {
            if input[cand + len] != input[pos + len] {
                break;
            }
            len = len + 1;
        }
        if len > best_len && shape_fits(len, dist) {
            best_len = len;
            best_dist = dist;
        }
        steps = steps + 1;
        cand = if cand < prev.len() { prev[cand] } else { pos };
    }
    (best_len, best_dist)
}

/// The flags of an encoded block that stands for `n` bytes and holds a command
/// stream of `sl` bytes: three-byte fields where both lengths fit them, else
/// four-byte ones, and the compressed length wherever it fits its field.
pub open spec fn block_flags(n: nat, sl: nat) -> u8 {
    if n <= 0xff_ffff && sl + 8 <= 0xff_ffff {
        FLAG_HASCLEN
    } else if sl + 10 <= 0xffff_ffff {
        FLAG_LEN32 | FLAG_HASCLEN
    } else {
        FLAG_LEN32
    }
}

/// The header for a block of `n` decoded bytes and a command stream of `sl`
/// bytes: three-byte fields where both lengths fit them, and the compressed
/// length wherever it fits its field.
fn header_for(n: usize, sl: usize) -> (h: RefpackHeader)
    requires
        n <= 0xffff_ffff,
    ensures
        h.wf(),
        h.decompressed_len == n,
        h.flags & FLAG_HASCLEN != 0 ==> h.compressed_len == header_len(h.flags) + sl,
        h.flags == block_flags(n as nat, sl as nat),
{
    assert(1u8 & FLAG_LEN32 == 0 && 1u8 & FLAG_HASCLEN != 0 && 5u8 & FLAG_LEN32 != 0 && 5u8
        & FLAG_HASCLEN != 0 && 4u8 & FLAG_LEN32 != 0 && 4u8 & FLAG_HASCLEN == 0 && FLAG_LEN32
        | FLAG_HASCLEN == 5u8) by (bit_vector);
    if n <= 0xff_ffff && sl <= 0xff_ffff - 8 {
        RefpackHeader { flags: 1, decompressed_len: n, compressed_len: sl + 8 }
    } else if sl <= 0xffff_ffff - 10 {
        RefpackHeader { flags: 5, decompressed_len: n, compressed_len: sl + 10 }
    } else {
        RefpackHeader { flags: 4, decompressed_len: n, compressed_len: 0 }
    }
}

/// Encodes `input` as a compressed block that decodes back to it; `None` where
/// its size does not fit a four-byte length field.
pub fn compress_actual(input: &[u8]) -> (r: Option<Vec<u8>>)
    ensures
        r is Some <==> input@.len() <= 0xffff_ffff,
        r matches Some(v) ==> encodes(v@, input@) && decode_block(v@) == Ok::<Seq<u8>, FormatError>(
            input@,
        ),
        r matches Some(v) ==> parse_header(v@) matches Ok((h, hl)) && h.flags == block_flags(
            input@.len(),
            (v@.len() - hl) as nat,
        ),
{
    let n = input.len();
    if n as u64 > 0xffff_ffff {
        return None;
    }
    let mut head: Vec<usize> = Vec::new();
    let mut i: usize = 0;
    while i < HASH_SIZE
        invariant
            head@.len() == i,
            i <= HASH_SIZE,
        decreases HASH_SIZE - i,
    {
        head.push(n);
        i = i + 1;
    }
    let mut prev: Vec<usize> = Vec::new();
    i = 0;
    while i < n
        invariant
            n == input@.len(),
            prev@.len() == i,
            i <= n,
        decreases n - i,
    {
        prev.push(n);
        i = i + 1;
    }
    let mut stream: Vec<u8> = Vec::new();
    let mut pos: usize = 0;
    let mut lit_start: usize = 0;
    assert forall|t: Seq<u8>| #[trigger]
        decode_stream(stream@ + t, Seq::empty()) == decode_stream(t, input@.subrange(0, 0)) by {
        assert(stream@ + t == t);
        assert(input@.subrange(0, 0) == Seq::<u8>::empty());
    }
    while pos < n
        invariant
            n == input@.len(),
            n <= 0xffff_ffff,
            lit_start <= pos <= n,
            head@.len() == HASH_SIZE,
            prev@.len() == n,
            stream_decodes(stream@, input@.subrange(0, lit_start as int)),
        decreases n - pos,
    {
        let (len, dist) = if n - pos >= 3 {
            find_match(input, pos, &head, &prev)
        } else {
            (0, 0)
        };
        if len == 0 {
            insert(&mut head, &mut prev, input, pos);
            pos = pos + 1;
        } else {
            lit_start = flush_literals(&mut stream, input, lit_start, pos);
            let c = match_command(pos - lit_start, len, dist);
            let ghost st = stream@;
            emit(&mut stream, c, input, lit_start);
            proof {
                let lits = input@.subrange(lit_start as int, pos as int);
                lemma_extend(st, input@.subrange(0, lit_start as int), c, lits);
                assert(input@.subrange(0, lit_start as int) + lits == input@.subrange(0, pos as int));
                lemma_copy_match(input@, pos as int, dist as int, len as int);
            }
            let end = pos + len;
            while pos < end
                invariant
                    n == input@.len(),
                    pos <= end <= n,
                    head@.len() == HASH_SIZE,
                    prev@.len() == n,
                decreases end - pos,
            {
                insert(&mut head, &mut prev, input, pos);
                pos = pos + 1;
            }
            lit_start = pos;
        }
    }
    lit_start = flush_literals(&mut stream, input, lit_start, n);
    let c = Command::Stop { literal_len: (n - lit_start) as u32 };
    let ghost st = stream@;
    emit(&mut stream, c, input, lit_start);
    proof {
        let lits = input@.subrange(lit_start as int, n as int);
        lemma_finish(st, input@.subrange(0, lit_start as int), c, lits);
        assert(input@.subrange(0, lit_start as int) + lits == input@);
    }
    let header = header_for(n, stream.len());
    let mut out: Vec<u8> = Vec::new();
    header.write_to_vec(&mut out);
    let ghost body = stream@;
    out.append(&mut stream);
    proof {
        lemma_header_round_trip(header, body);
        assert(out@ == header.bytes() + body);
        assert(out@.subrange(header_len(header.flags) as int, out@.len() as int) == body);
    }
    Some(out)
}

} // verus!
