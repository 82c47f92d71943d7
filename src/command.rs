//! The five command shapes of the stream, how each is read from its leading
//! bytes, and how each is written.
use vstd::prelude::*;

verus! {

/// One command of the stream. Every shape but `LiteralRun` and `Stop` copies
/// `literal_len` bytes from the stream and then `ref_len` bytes from `ref_dist`
/// bytes back in the output.
#[derive(Debug, Clone, Copy, PartialEq, Eq, Structural)]
pub enum Command {
    /// Two bytes: up to 3 literals, a copy of 3 to 10 bytes from up to 1024 back.
    ShortCopy { literal_len: u32, ref_len: u32, ref_dist: u32 },
    /// Three bytes: up to 3 literals, a copy of 4 to 67 bytes from up to 16384 back.
    MediumCopy { literal_len: u32, ref_len: u32, ref_dist: u32 },
    /// Four bytes: up to 3 literals, a copy of 5 to 1028 bytes from up to 131072 back.
    LongCopy { literal_len: u32, ref_len: u32, ref_dist: u32 },
    /// One byte: 4 to 112 literals, a multiple of 4.
    LiteralRun { literal_len: u32 },
    /// One byte: up to 3 literals, then the end of the stream.
    Stop { literal_len: u32 },
}

/// What the leading bytes of `s` read as: `None` where `s` is shorter than the
/// shape that its first byte selects (or empty).
pub open spec fn parse_command(s: Seq<u8>) -> Option<Command> {
    if s.len() == 0 {
        None
    } else {
        let b0 = s[0] as u32;
        if b0 < 0x80 {
            if s.len() < 2 {
                None
            } else {
                Some(
                    Command::ShortCopy {
                        literal_len: b0 % 4,
                        ref_len: (b0 / 4 % 8 + 3) as u32,
                        ref_dist: (b0 / 32 % 4 * 256 + s[1] + 1) as u32,
                    },
                )
            }
        } else if b0 < 0xc0 {
            if s.len() < 3 {
                None
            } else {
                Some(
                    Command::MediumCopy {
                        literal_len: s[1] as u32 / 64,
                        ref_len: (b0 % 64 + 4) as u32,
                        ref_dist: (s[1] as u32 % 64 * 256 + s[2] + 1) as u32,
                    },
                )
            }
        } else if b0 < 0xe0 {
            if s.len() < 4 {
                None
            } else {
                Some(
                    Command::LongCopy {
                        literal_len: b0 % 4,
                        ref_len: (b0 / 4 % 4 * 256 + s[3] + 5) as u32,
                        ref_dist: (b0 / 16 % 2 * 65536 + s[1] * 256 + s[2] + 1) as u32,
                    },
                )
            }
        } else if b0 < 0xfc {
            Some(Command::LiteralRun { literal_len: ((b0 % 32 + 1) * 4) as u32 })
        } else {
            Some(Command::Stop { literal_len: b0 % 4 })
        }
    }
}

impl Command {
    /// How many literal bytes follow the command's own bytes.
    pub open spec fn lit(self) -> nat {
        match self {
            Command::ShortCopy { literal_len, .. } => literal_len as nat,
            Command::MediumCopy { literal_len, .. } => literal_len as nat,
            Command::LongCopy { literal_len, .. } => literal_len as nat,
            Command::LiteralRun { literal_len } => literal_len as nat,
            Command::Stop { literal_len } => literal_len as nat,
        }
    }

    /// How many bytes the back-reference copies (0 for none).
    pub open spec fn ref_len(self) -> nat {
        match self {
            Command::ShortCopy { ref_len, .. } => ref_len as nat,
            Command::MediumCopy { ref_len, .. } => ref_len as nat,
            Command::LongCopy { ref_len, .. } => ref_len as nat,
            _ => 0,
        }
    }

    /// How far back the back-reference starts (0 for none).
    pub open spec fn ref_dist(self) -> nat {
        match self {
            Command::ShortCopy { ref_dist, .. } => ref_dist as nat,
            Command::MediumCopy { ref_dist, .. } => ref_dist as nat,
            Command::LongCopy { ref_dist, .. } => ref_dist as nat,
            _ => 0,
        }
    }

    /// How many bytes the command itself takes, literals not counted.
    pub open spec fn size(self) -> nat {
        match self {
            Command::ShortCopy { .. } => 2,
            Command::MediumCopy { .. } => 3,
            Command::LongCopy { .. } => 4,
            _ => 1,
        }
    }

    /// The fields lie in the ranges of the command's shape.
    pub open spec fn wf(self) -> bool {
        match self {
            Command::ShortCopy { literal_len, ref_len, ref_dist } => literal_len <= 3 && 3 <= ref_len
                <= 10 && 1 <= ref_dist <= 1024,
            Command::MediumCopy { literal_len, ref_len, ref_dist } => literal_len <= 3 && 4 <= ref_len
                <= 67 && 1 <= ref_dist <= 16384,
            Command::LongCopy { literal_len, ref_len, ref_dist } => literal_len <= 3 && 5 <= ref_len
                <= 1028 && 1 <= ref_dist <= 131072,
            Command::LiteralRun { literal_len } => 4 <= literal_len <= 112 && literal_len % 4 == 0,
            Command::Stop { literal_len } => literal_len <= 3,
        }
    }

    /// The bytes that write the command (its literals not included).
    pub open spec fn bytes(self) -> Seq<u8> {
        match self {
            Command::ShortCopy { literal_len, ref_len, ref_dist } => {
                let d = ref_dist - 1;
                seq![(d / 256 * 32 + (ref_len - 3) * 4 + literal_len) as u8, (d % 256) as u8]
            },
            Command::MediumCopy { literal_len, ref_len, ref_dist } => {
                let d = ref_dist - 1;
                seq![
                    (0x80 + ref_len - 4) as u8,
                    (literal_len * 64 + d / 256) as u8,
                    (d % 256) as u8,
                ]
            },
            Command::LongCopy { literal_len, ref_len, ref_dist } => {
                let d = ref_dist - 1;
                let l = ref_len - 5;
                seq![
                    (0xc0 + d / 65536 * 16 + l / 256 * 4 + literal_len) as u8,
                    (d / 256 % 256) as u8,
                    (d % 256) as u8,
                    (l % 256) as u8,
                ]
            },
            Command::LiteralRun { literal_len } => seq![(0xe0 + literal_len / 4 - 1) as u8],
            Command::Stop { literal_len } => seq![(0xfc + literal_len) as u8],
        }
    }

    /// Appends the bytes of this command to `dest`.
    pub fn write_to_vec(&self, dest: &mut Vec<u8>)
        requires
            self.wf(),
        ensures
            final(dest)@ == old(dest)@ + self.bytes(),
    {
        let ghost start = dest@;
        match *self {
            Command::ShortCopy { literal_len, ref_len, ref_dist } => {
                let d = ref_dist - 1;
                dest.push((d / 256 * 32 + (ref_len - 3) * 4 + literal_len) as u8);
                dest.push((d % 256) as u8);
            },
            Command::MediumCopy { literal_len, ref_len, ref_dist } => {
                let d = ref_dist - 1;
                dest.push((0x80 + ref_len - 4) as u8);
                dest.push((literal_len * 64 + d / 256) as u8);
                dest.push((d % 256) as u8);
            },
            Command::LongCopy { literal_len, ref_len, ref_dist } => {
                let d = ref_dist - 1;
                let l = ref_len - 5;
                dest.push((0xc0 + d / 65536 * 16 + l / 256 * 4 + literal_len) as u8);
                dest.push((d / 256 % 256) as u8);
                dest.push((d % 256) as u8);
                dest.push((l % 256) as u8);
            },
            Command::LiteralRun { literal_len } => {
                dest.push((0xe0 + literal_len / 4 - 1) as u8);
            },
            Command::Stop { literal_len } => {
                dest.push((0xfc + literal_len) as u8);
            },
        }
        assert(dest@ =~= start + self.bytes());
    }

    /// How many literal bytes follow the command's own bytes.
    pub fn literal_len(&self) -> (r: u32)
        ensures
            r == self.lit(),
    {
        match *self {
            Command::ShortCopy { literal_len, .. } => literal_len,
            Command::MediumCopy { literal_len, .. } => literal_len,
            Command::LongCopy { literal_len, .. } => literal_len,
            Command::LiteralRun { literal_len } => literal_len,
            Command::Stop { literal_len } => literal_len,
        }
    }

    /// The length and distance of the back-reference, both 0 where there is none.
    pub fn reference(&self) -> (r: (u32, u32))
        ensures
            r.0 == self.ref_len(),
            r.1 == self.ref_dist(),
    {
        match *self {
            Command::ShortCopy { ref_len, ref_dist, .. } => (ref_len, ref_dist),
            Command::MediumCopy { ref_len, ref_dist, .. } => (ref_len, ref_dist),
            Command::LongCopy { ref_len, ref_dist, .. } => (ref_len, ref_dist),
            _ => (0, 0),
        }
    }

    /// How many bytes the command itself takes, literals not counted.
    pub fn byte_len(&self) -> (r: usize)
        ensures
            r == self.size(),
    {
        match *self {
            Command::ShortCopy { .. } => 2,
            Command::MediumCopy { .. } => 3,
            Command::LongCopy { .. } => 4,
            _ => 1,
        }
    }

    /// Whether this is the terminal command.
    pub fn is_stop(&self) -> (r: bool)
        ensures
            r == (*self is Stop),
    {
        matches!(*self, Command::Stop { .. })
    }

    /// Reads the command at `pos` in `input`.
    pub fn read(input: &[u8], pos: usize) -> (r: Option<Command>)
        requires
            pos <= input@.len(),
        ensures
            r == parse_command(input@.subrange(pos as int, input@.len() as int)),
    {
        let ghost s = input@.subrange(pos as int, input@.len() as int);
        if pos >= input.len() {
            return None;
        }
        let b0 = input[pos] as u32;
        if b0 < 0x80 {
            if input.len() - pos < 2 {
                None
            } else {
                Some(
                    Command::ShortCopy {
                        literal_len: b0 % 4,
                        ref_len: b0 / 4 % 8 + 3,
                        ref_dist: b0 / 32 % 4 * 256 + input[pos + 1] as u32 + 1,
                    },
                )
            }
        } else if b0 < 0xc0 {
            if input.len() - pos < 3 {
                None
            } else {
                let b1 = input[pos + 1] as u32;
                Some(
                    Command::MediumCopy {
                        literal_len: b1 / 64,
                        ref_len: b0 % 64 + 4,
                        ref_dist: b1 % 64 * 256 + input[pos + 2] as u32 + 1,
                    },
                )
            }
        } else if b0 < 0xe0 {
            if input.len() - pos < 4 {
                None
            } else {
                Some(
                    Command::LongCopy {
                        literal_len: b0 % 4,
                        ref_len: b0 / 4 % 4 * 256 + input[pos + 3] as u32 + 5,
                        ref_dist: b0 / 16 % 2 * 65536 + input[pos + 1] as u32 * 256
                            + input[pos + 2] as u32 + 1,
                    },
                )
            }
        } else if b0 < 0xfc {
            Some(Command::LiteralRun { literal_len: (b0 % 32 + 1) * 4 })
        } else {
            Some(Command::Stop { literal_len: b0 % 4 })
        }
    }
}

proof fn lemma_short_fields(d: u32, l: u32, p: u32)
    requires
        d < 1024,
        l < 8,
        p < 4,
    ensures
        ({
            let b = d / 256 * 32 + l * 4 + p;
            &&& b < 0x80
            &&& b % 4 == p
            &&& b / 4 % 8 == l
            &&& b / 32 % 4 * 256 + d % 256 == d
        }),
{
    assert(d / 256 < 4) by (bit_vector)
        requires
            d < 1024,
    ;
    let b = (d / 256 * 32 + l * 4 + p) as u32;
    assert(b < 0x80 && b % 4 == p && b / 4 % 8 == l && b / 32 % 4 * 256 + d % 256 == d)
        by (bit_vector)
        requires
            d < 1024,
            l < 8,
            p < 4,
            b == (d / 256 * 32 + l * 4 + p) as u32,
    ;
}

proof fn lemma_medium_fields(d: u32, p: u32)
    requires
        d < 16384,
        p < 4,
    ensures
        ({
            let b = p * 64 + d / 256;
            &&& b < 256
            &&& b / 64 == p
            &&& b % 64 * 256 + d % 256 == d
        }),
{
    let b = (p * 64 + d / 256) as u32;
    assert(b < 256 && b / 64 == p && b % 64 * 256 + d % 256 == d) by (bit_vector)
        requires
            d < 16384,
            p < 4,
            b == (p * 64 + d / 256) as u32,
    ;
}

proof fn lemma_long_fields(d: u32, l: u32, p: u32)
    requires
        d < 131072,
        l < 1024,
        p < 4,
    ensures
        ({
            let b = 0xc0 + d / 65536 * 16 + l / 256 * 4 + p;
            &&& 0xc0 <= b < 0xe0
            &&& b % 4 == p
            &&& b / 4 % 4 * 256 + l % 256 == l
            &&& b / 16 % 2 * 65536 + d / 256 % 256 * 256 + d % 256 == d
        }),
{
    let b = (0xc0 + d / 65536 * 16 + l / 256 * 4 + p) as u32;
    assert(0xc0 <= b < 0xe0 && b % 4 == p && b / 4 % 4 * 256 + l % 256 == l && b / 16 % 2 * 65536
        + d / 256 % 256 * 256 + d % 256 == d) by (bit_vector)
        requires
            d < 131072,
            l < 1024,
            p < 4,
            b == (0xc0 + d / 65536 * 16 + l / 256 * 4 + p) as u32,
    ;
}

/// Whatever the bytes, a command read from them lies in its shape's ranges.
pub proof fn lemma_parse_wf(s: Seq<u8>)
    ensures
        parse_command(s) matches Some(c) ==> c.wf(),
{
}

/// A well-formed command reads back as itself, whatever follows its bytes.
pub proof fn lemma_parse_bytes(c: Command, rest: Seq<u8>)
    requires
        c.wf(),
    ensures
        parse_command(c.bytes() + rest) == Some(c),
        c.bytes().len() == c.size(),
{
    let s = c.bytes() + rest;
    match c {
        Command::ShortCopy { literal_len, ref_len, ref_dist } => {
            lemma_short_fields((ref_dist - 1) as u32, (ref_len - 3) as u32, literal_len);
        },
        Command::MediumCopy { literal_len, ref_len, ref_dist } => {
            lemma_medium_fields((ref_dist - 1) as u32, literal_len);
        },
        Command::LongCopy { literal_len, ref_len, ref_dist } => {
            lemma_long_fields((ref_dist - 1) as u32, (ref_len - 5) as u32, literal_len);
        },
        Command::LiteralRun { literal_len } => {
            assert(((0xe0 + literal_len / 4 - 1) as u8) as u32 % 32 + 1 == literal_len / 4);
        },
        Command::Stop { literal_len } => {},
    }
}

} // verus!
