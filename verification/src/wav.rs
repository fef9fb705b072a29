//! A minimal WAV reader: 16-bit integer PCM and 32-bit float, any number of
//! channels, mixed down to one.
use vstd::prelude::*;
use crate::arith::{adds, counts, divides, mix_down, mono, Arithmetic, Operations};
use crate::notes::{decimal, push_decimal};
use crate::single::{law_sample_fits, one, Single};

verus! {

/// Why a file was not read.
#[derive(Clone, Copy, Debug, PartialEq, Eq, Structural)]
pub enum WavError {
    /// It does not start as a RIFF/WAVE file does, or is too short for one.
    NotWave,
    /// Its samples are coded in a way that is not supported.
    Unsupported { tag: u16, bits: u16 },
    /// It has no format chunk, or one without a sample rate.
    NoFormat,
}

/// What a format chunk says.
#[derive(Clone, Copy, Debug, PartialEq, Eq, Structural)]
pub struct Format {
    pub tag: u16,
    pub channels: u16,
    pub rate: u32,
    pub bits: u16,
}

/// The samples of a data chunk, still interleaved.
pub struct Block {
    pub channels: int,
    pub samples: Seq<Single>,
}

/// What a walk over the chunks of a file comes to.
pub enum Outcome {
    /// The end of the file.
    Done { format: Format, blocks: Seq<Block> },
    /// A data chunk that is not supported.
    Unsupported { tag: u16, bits: u16 },
    /// A format chunk that the end of the file cuts short.
    Truncated,
}

/// The unsigned 16-bit number at `at`, lowest byte first.
pub open spec fn le16(b: Seq<u8>, at: int) -> int {
    b[at] + 0x100 * b[at + 1]
}

/// The unsigned 32-bit number at `at`, lowest byte first.
pub open spec fn le32(b: Seq<u8>, at: int) -> int {
    le16(b, at) + 0x1_0000 * le16(b, at + 2)
}

/// The signed number that a 16-bit pattern stands for.
pub open spec fn signed16(x: int) -> int {
    if x >= 0x8000 {
        x - 0x1_0000
    } else {
        x
    }
}

/// Whether the four bytes at `at` are these.
pub open spec fn is_at(b: Seq<u8>, at: int, c0: u8, c1: u8, c2: u8, c3: u8) -> bool {
    b[at] == c0 && b[at + 1] == c1 && b[at + 2] == c2 && b[at + 3] == c3
}

/// Whether the file starts as a RIFF/WAVE file and can hold a header.
pub open spec fn is_wave(b: Seq<u8>) -> bool {
    &&& b.len() >= 44
    &&& is_at(b, 0, 0x52, 0x49, 0x46, 0x46)
    &&& is_at(b, 8, 0x57, 0x41, 0x56, 0x45)
}

/// Whether the chunk at `pos` is a format chunk.
pub open spec fn is_format(b: Seq<u8>, pos: int) -> bool {
    is_at(b, pos, 0x66, 0x6d, 0x74, 0x20)
}

/// Whether the chunk at `pos` is a data chunk.
pub open spec fn is_data(b: Seq<u8>, pos: int) -> bool {
    is_at(b, pos, 0x64, 0x61, 0x74, 0x61)
}

/// The format chunk whose body starts at `body`.
pub open spec fn format_at(b: Seq<u8>, body: int) -> Format {
    Format {
        tag: le16(b, body) as u16,
        channels: le16(b, body + 2) as u16,
        rate: le32(b, body + 4) as u32,
        bits: le16(b, body + 14) as u16,
    }
}

/// What holds before a format chunk was read.
pub open spec fn no_format() -> Format {
    Format { tag: 0, channels: 1, rate: 0, bits: 0 }
}

/// The number of channels to mix: at least one.
pub open spec fn channels_of(format: Format) -> int {
    if format.channels == 0 {
        1
    } else {
        format.channels as int
    }
}

/// The bytes of a data chunk, as 32-bit floats.
pub open spec fn floats(raw: Seq<u8>) -> Seq<Single> {
    Seq::new(raw.len() / 4, |k: int| Single { bits: le32(raw, 4 * k) as u32 })
}

/// The bytes of a data chunk, as 16-bit integers on the scale from -1 to 1.
pub open spec fn integers(raw: Seq<u8>) -> Seq<Single> {
    Seq::new(raw.len() / 2, |k: int| Single::of_sample(signed16(le16(raw, 2 * k))))
}

/// The samples that the bytes of a data chunk hold, where the format is
/// supported.
pub open spec fn decoded(format: Format, raw: Seq<u8>) -> Option<Seq<Single>> {
    if format.tag == 3 && format.bits == 32 {
        Some(floats(raw))
    } else if format.tag == 1 && format.bits == 16 {
        Some(integers(raw))
    } else {
        None
    }
}

/// Where the chunk after the one at `pos` starts: chunks are padded to an even
/// length.
pub open spec fn next_chunk(b: Seq<u8>, pos: int) -> int {
    pos + 8 + le32(b, pos + 4) + le32(b, pos + 4) % 2
}

/// The body of the chunk at `pos`, as far as the file holds it.
pub open spec fn body_of(b: Seq<u8>, pos: int) -> Seq<u8> {
    let end = pos + 8 + le32(b, pos + 4);
    b.subrange(
        pos + 8,
        if end < b.len() {
            end
        } else {
            b.len() as int
        },
    )
}

/// Walks over the chunks from `pos` on, with the format and the data read so far.
pub open spec fn walk(b: Seq<u8>, pos: int, format: Format, blocks: Seq<Block>) -> Outcome
    decreases
            if pos < b.len() {
                b.len() - pos
            } else {
                0
            },
{
    if pos + 8 > b.len() {
        Outcome::Done { format, blocks }
    } else if is_format(b, pos) {
        if pos + 24 > b.len() {
            Outcome::Truncated
        } else {
            walk(b, next_chunk(b, pos), format_at(b, pos + 8), blocks)
        }
    } else if is_data(b, pos) {
        match decoded(format, body_of(b, pos)) {
            Some(samples) => walk(
                b,
                next_chunk(b, pos),
                format,
                blocks.push(Block { channels: channels_of(format), samples }),
            ),
            None => Outcome::Unsupported { tag: format.tag, bits: format.bits },
        }
    } else {
        walk(b, next_chunk(b, pos), format, blocks)
    }
}

/// What the chunks of a file come to.
pub open spec fn outcome(b: Seq<u8>) -> Outcome {
    walk(b, 12, no_format(), Seq::empty())
}

/// The data of a file, each chunk mixed down, one after the other.
pub open spec fn mixed(ops: Operations, blocks: Seq<Block>) -> Seq<Single>
    decreases blocks.len(),
{
    if blocks.len() == 0 {
        Seq::empty()
    } else {
        mixed(ops, blocks.drop_last()) + mono(ops, blocks.last().samples, blocks.last().channels)
    }
}

fn read16(b: &[u8], at: usize) -> (r: u16)
    requires
        at + 2 <= b.len(),
    ensures
        r == le16(b@, at as int),
{
    b[at] as u16 + 0x100 * (b[at + 1] as u16)
}

fn read32(b: &[u8], at: usize) -> (r: u32)
    requires
        at + 4 <= b.len(),
    ensures
        r == le32(b@, at as int),
{
    read16(b, at) as u32 + 0x1_0000 * (read16(b, at + 2) as u32)
}

fn matches_at(b: &[u8], at: usize, c0: u8, c1: u8, c2: u8, c3: u8) -> (r: bool)
    requires
        at + 4 <= b.len(),
    ensures
        r == is_at(b@, at as int, c0, c1, c2, c3),
{
    b[at] == c0 && b[at + 1] == c1 && b[at + 2] == c2 && b[at + 3] == c3
}

fn read_format(b: &[u8], body: usize) -> (r: Format)
    requires
        body + 16 <= b.len(),
    ensures
        r == format_at(b@, body as int),
{
    Format {
        tag: read16(b, body),
        channels: read16(b, body + 2),
        rate: read32(b, body + 4),
        bits: read16(b, body + 14),
    }
}

fn read_floats(raw: &[u8]) -> (r: Vec<Single>)
    ensures
        r@ == floats(raw@),
{
    let n: usize = raw.len() / 4;
    let mut samples: Vec<Single> = Vec::new();
    let mut k: usize = 0;
    while k < n
        invariant
            n == raw@.len() / 4,
            k <= n,
            raw@.len() <= usize::MAX,
            samples@ == floats(raw@).take(k as int),
        decreases n - k,
    {
        samples.push(Single { bits: read32(raw, 4 * k) });
        k += 1;
        proof {
            assert(samples@ =~= floats(raw@).take(k as int));
        }
    }
    proof {
        assert(samples@ =~= floats(raw@));
    }
    samples
}

fn read_integers(raw: &[u8]) -> (r: Vec<Single>)
    ensures
        r@ == integers(raw@),
{
    let n: usize = raw.len() / 2;
    let mut samples: Vec<Single> = Vec::new();
    let mut k: usize = 0;
    while k < n
        invariant
            n == raw@.len() / 2,
            k <= n,
            raw@.len() <= usize::MAX,
            samples@ == integers(raw@).take(k as int),
        decreases n - k,
    {
        let pattern: u16 = read16(raw, 2 * k);
        let level: i16 = if pattern >= 0x8000 {
            (pattern as i32 - 0x1_0000) as i16
        } else {
            pattern as i16
        };
        samples.push(Single::from_i16(level));
        k += 1;
        proof {
            assert(samples@ =~= integers(raw@).take(k as int));
        }
    }
    proof {
        assert(samples@ =~= integers(raw@));
    }
    samples
}

/// Where the body of a chunk of `size` bytes ends, held to the end of the file,
/// and where the next chunk starts, if that lies in the file.
fn chunk_end(length: usize, body: usize, size: u32) -> (r: (usize, Option<usize>))
    requires
        body <= length,
    ensures
        r.0 == (if body + size < length {
            body + size
        } else {
            length as int
        }),
        match r.1 {
            Some(next) => next == body + size + size % 2 && next <= length,
            None => body + size + size % 2 > length,
        },
{
    let room: usize = length - body;
    let padded: u64 = size as u64 + (size % 2) as u64;
    let end: usize = if size as u64 > room as u64 {
        length
    } else {
        body + size as usize
    };
    if padded > room as u64 {
        (end, None)
    } else {
        (end, Some(body + padded as usize))
    }
}

/// Reads a WAV file: its samples, mixed down to one channel, and its sample
/// rate.
pub fn read_wav<A: Arithmetic>(b: &[u8]) -> (r: Result<(Vec<Single>, u32), WavError>)
    requires
        is_wave(b@) ==> !(outcome(b@) is Truncated),
    ensures
        r == Err::<(Vec<Single>, u32), WavError>(WavError::NotWave) <==> !is_wave(b@),
        is_wave(b@) ==> match outcome(b@) {
            Outcome::Done { format, blocks } => if format.rate == 0 {
                r == Err::<(Vec<Single>, u32), WavError>(WavError::NoFormat)
            } else {
                &&& r is Ok
                &&& r->Ok_0.1 == format.rate
                &&& forall|ops: Operations|
                    #[trigger] adds::<A>(ops) && #[trigger] divides::<A>(ops) &&
                    #[trigger] counts::<A>(ops) ==> r->Ok_0.0@ == mixed(ops, blocks)
            },
            Outcome::Unsupported { tag, bits } => r == Err::<(Vec<Single>, u32), WavError>(
                WavError::Unsupported { tag, bits },
            ),
            Outcome::Truncated => false,
        },
{
    let length: usize = b.len();
    if length < 44 || !matches_at(b, 0, 0x52, 0x49, 0x46, 0x46) || !matches_at(
        b,
        8,
        0x57,
        0x41,
        0x56,
        0x45,
    ) {
        return Err(WavError::NotWave);
    }
    let mut format: Format = Format { tag: 0, channels: 1, rate: 0, bits: 0 };
    let mut samples: Vec<Single> = Vec::new();
    let ghost mut blocks: Seq<Block> = Seq::empty();
    let mut pos: usize = 12;
    let mut more: bool = true;
    while more && length - pos >= 8
        invariant
            length == b@.len(),
            pos <= length,
            is_wave(b@),
            !(outcome(b@) is Truncated),
            more ==> outcome(b@) == walk(b@, pos as int, format, blocks),
            !more ==> outcome(b@) == (Outcome::Done { format, blocks }),
            forall|ops: Operations|
                #[trigger] adds::<A>(ops) && #[trigger] divides::<A>(ops) &&
                #[trigger] counts::<A>(ops) ==> samples@ == mixed(ops, blocks),
        decreases length - pos + (if more {
            1int
        } else {
            0
        }),
    {
        proof {
            reveal_with_fuel(walk, 2);
        }
        let size: u32 = read32(b, pos + 4);
        let body: usize = pos + 8;
        let (end, next) = chunk_end(length, body, size);
        if matches_at(b, pos, 0x66, 0x6d, 0x74, 0x20) {
            format = read_format(b, body);
        } else if matches_at(b, pos, 0x64, 0x61, 0x74, 0x61) {
            let raw: &[u8] = vstd::slice::slice_subrange(b, body, end);
            let channels: usize = if format.channels == 0 {
                1
            } else {
                format.channels as usize
            };
            let interleaved: Vec<Single> = if format.tag == 3 && format.bits == 32 {
                read_floats(raw)
            } else if format.tag == 1 && format.bits == 16 {
                read_integers(raw)
            } else {
                return Err(WavError::Unsupported { tag: format.tag, bits: format.bits });
            };
            let mut fresh: Vec<Single> = mix_down::<A>(&interleaved, channels);
            samples.append(&mut fresh);
            proof {
                let block = Block { channels: channels_of(format), samples: interleaved@ };
                assert(blocks.push(block).drop_last() =~= blocks);
                blocks = blocks.push(block);
            }
        }
        match next {
            Some(start) => {
                pos = start;
            },
            None => {
                more = false;
            },
        }
    }
    if format.rate == 0 {
        return Err(WavError::NoFormat);
    }
    Ok((samples, format.rate))
}

/// Whether [`read_wav`] can read the file to its end: no format chunk that it
/// gets to is cut short.
pub fn is_intact(b: &[u8]) -> (r: bool)
    ensures
        r == (is_wave(b@) ==> !(outcome(b@) is Truncated)),
{
    let length: usize = b.len();
    if length < 44 || !matches_at(b, 0, 0x52, 0x49, 0x46, 0x46) || !matches_at(
        b,
        8,
        0x57,
        0x41,
        0x56,
        0x45,
    ) {
        return true;
    }
    let mut format: Format = Format { tag: 0, channels: 1, rate: 0, bits: 0 };
    let ghost mut blocks: Seq<Block> = Seq::empty();
    let mut pos: usize = 12;
    while length - pos >= 8
        invariant
            length == b@.len(),
            pos <= length,
            is_wave(b@),
            outcome(b@) == walk(b@, pos as int, format, blocks),
        decreases length - pos,
    {
        proof {
            reveal_with_fuel(walk, 2);
        }
        let size: u32 = read32(b, pos + 4);
        let body: usize = pos + 8;
        let (end, next) = chunk_end(length, body, size);
        if matches_at(b, pos, 0x66, 0x6d, 0x74, 0x20) {
            if length - body < 16 {
                return false;
            }
            format = read_format(b, body);
        } else if matches_at(b, pos, 0x64, 0x61, 0x74, 0x61) {
            if !(format.tag == 3 && format.bits == 32 || format.tag == 1 && format.bits == 16) {
                return true;
            }
            proof {
                let samples = decoded(format, body_of(b@, pos as int))->0;
                blocks = blocks.push(Block { channels: channels_of(format), samples });
            }
        }
        match next {
            Some(start) => {
                pos = start;
            },
            None => {
                return true;
            },
        }
    }
    true
}

impl WavError {
    /// What went wrong, in words.
    pub open spec fn text(self) -> Seq<char> {
        match self {
            WavError::NotWave => "not a RIFF/WAVE file"@,
            WavError::Unsupported { tag, bits } => "unsupported wav format tag/bits: ("@
                + decimal(tag as int) + ", "@ + decimal(bits as int) + ")"@,
            WavError::NoFormat => "no fmt chunk"@,
        }
    }

    /// What went wrong, in words.
    pub fn message(&self) -> (r: String)
        ensures
            r@ == self.text(),
    {
        let mut said: String = String::new();
        match *self {
            WavError::NotWave => {
                said.append("not a RIFF/WAVE file");
            },
            WavError::Unsupported { tag, bits } => {
                said.append("unsupported wav format tag/bits: (");
                push_decimal(&mut said, tag as i64);
                said.append(", ");
                push_decimal(&mut said, bits as i64);
                said.append(")");
            },
            WavError::NoFormat => {
                said.append("no fmt chunk");
            },
        }
        proof {
            assert(said@ =~= self.text());
        }
        said
    }
}

/// A file of a 16-byte format chunk and a data chunk that fills the rest gives
/// back the samples that its data bytes code.
pub proof fn law_plain_file(b: Seq<u8>)
    requires
        is_wave(b),
        is_format(b, 12),
        le32(b, 16) == 16,
        is_data(b, 36),
        le32(b, 40) == b.len() - 44,
    ensures
        ({
            let format = format_at(b, 20);
            outcome(b) == match decoded(format, b.skip(44)) {
                Some(samples) => Outcome::Done {
                    format,
                    blocks: seq![Block { channels: channels_of(format), samples }],
                },
                None => Outcome::Unsupported { tag: format.tag, bits: format.bits },
            }
        }),
{
    reveal_with_fuel(walk, 3);
    assert(body_of(b, 36) =~= b.skip(44));
    let empty = Seq::<Block>::empty();
    assert forall|block: Block| #[trigger] empty.push(block) =~= seq![block] by {}
}

/// Chunks other than format and data are skipped, with their padding.
pub proof fn law_chunk_skipped(b: Seq<u8>, pos: int, format: Format, blocks: Seq<Block>)
    requires
        0 <= pos,
        pos + 8 <= b.len(),
        !is_format(b, pos),
        !is_data(b, pos),
    ensures
        walk(b, pos, format, blocks) == walk(b, next_chunk(b, pos), format, blocks),
        next_chunk(b, pos) % 2 == pos % 2,
{
}

/// Data before any format chunk is refused.
pub proof fn law_format_first(b: Seq<u8>, pos: int, blocks: Seq<Block>)
    requires
        0 <= pos,
        pos + 8 <= b.len(),
        is_data(b, pos),
    ensures
        walk(b, pos, no_format(), blocks) == (Outcome::Unsupported { tag: 0, bits: 0 }),
{
}

/// The two bytes of a 16-bit number, signed or not, lowest first.
pub open spec fn code16(x: int) -> Seq<u8> {
    seq![(x % 0x100) as u8, (x / 0x100 % 0x100) as u8]
}

/// The four bytes of a 32-bit number, lowest first.
pub open spec fn code32(x: int) -> Seq<u8> {
    seq![
        (x % 0x100) as u8,
        (x / 0x100 % 0x100) as u8,
        (x / 0x1_0000 % 0x100) as u8,
        (x / 0x100_0000 % 0x100) as u8,
    ]
}

/// The bytes of 16-bit samples, one after the other.
pub open spec fn code_integers(xs: Seq<int>) -> Seq<u8> {
    Seq::new(2 * xs.len(), |i: int| code16(xs[i / 2])[i % 2])
}

/// The bytes of 32-bit floats, one after the other.
pub open spec fn code_floats(xs: Seq<Single>) -> Seq<u8> {
    Seq::new(4 * xs.len(), |i: int| code32(xs[i / 4].bits as int)[i % 4])
}

/// Decoding undoes encoding: the bytes of 16-bit samples, in two's complement and lowest
/// first, are read as each sample over 32768.
pub proof fn law_integers_decode(format: Format, xs: Seq<int>)
    requires
        format.tag == 1,
        format.bits == 16,
        forall|k: int| 0 <= k < xs.len() ==> -0x8000 <= #[trigger] xs[k] < 0x8000,
    ensures
        decoded(format, code_integers(xs)) matches Some(samples) && samples.len() == xs.len() && (
        forall|k: int|
            0 <= k < xs.len() ==> {
                &&& !(#[trigger] samples[k]).nan()
                &&& samples[k].units() * 0x8000 == xs[k] * one()
            }),
{
    let raw = code_integers(xs);
    let samples = integers(raw);
    assert forall|k: int| 0 <= k < xs.len() implies {
        &&& !(#[trigger] samples[k]).nan()
        &&& samples[k].units() * 0x8000 == xs[k] * one()
    } by {
        let x = xs[k];
        assert((2 * k) / 2 == k && (2 * k) % 2 == 0 && (2 * k + 1) / 2 == k && (2 * k + 1) % 2
            == 1);
        assert(raw[2 * k] == code16(x)[0] && raw[2 * k + 1] == code16(x)[1]);
        assert(signed16(le16(raw, 2 * k)) == x);
        law_sample_fits(x);
    }
}

/// Decoding undoes encoding: the bytes of 32-bit floats are read as those floats.
pub proof fn law_floats_decode(format: Format, xs: Seq<Single>)
    requires
        format.tag == 3,
        format.bits == 32,
    ensures
        decoded(format, code_floats(xs)) == Some(xs),
{
    let raw = code_floats(xs);
    assert forall|k: int| 0 <= k < xs.len() implies floats(raw)[k] == xs[k] by {
        let x = xs[k].bits as int;
        assert((4 * k) / 4 == k && (4 * k + 1) / 4 == k && (4 * k + 2) / 4 == k && (4 * k + 3) / 4
            == k);
        assert((4 * k) % 4 == 0 && (4 * k + 1) % 4 == 1 && (4 * k + 2) % 4 == 2 && (4 * k + 3) % 4
            == 3);
        assert(raw[4 * k] == code32(x)[0] && raw[4 * k + 1] == code32(x)[1] && raw[4 * k + 2]
            == code32(x)[2] && raw[4 * k + 3] == code32(x)[3]);
        lemma_code32(raw, 4 * k, x);
    }
    assert(floats(raw) =~= xs);
}

/// Four bytes give back the number that they code.
proof fn lemma_code32(b: Seq<u8>, at: int, x: int)
    requires
        0 <= x < 0x1_0000_0000,
        b[at] == code32(x)[0],
        b[at + 1] == code32(x)[1],
        b[at + 2] == code32(x)[2],
        b[at + 3] == code32(x)[3],
    ensures
        le32(b, at) == x,
{
}

/// A file with one format chunk and one data chunk: what `tag`, `bits`, `channels` and
/// `rate` say stands in the format chunk, beside the bytes per second and per frame, and
/// the data follows.
pub open spec fn written(
    tag: int,
    channels: int,
    rate: int,
    speed: int,
    align: int,
    bits: int,
    data: Seq<u8>,
) -> Seq<u8> {
    seq![0x52u8, 0x49, 0x46, 0x46] + code32(36 + data.len() as int) + seq![
        0x57u8,
        0x41,
        0x56,
        0x45,
    ] + seq![0x66u8, 0x6d, 0x74, 0x20] + code32(16) + code16(tag) + code16(channels) + code32(rate)
        + code32(speed) + code16(align) + code16(bits) + seq![0x64u8, 0x61, 0x74, 0x61] + code32(
        data.len() as int,
    ) + data
}

/// Reading undoes writing: a file gives back the rate, the channels and the data bytes
/// that were written, decoded as its format says. No channels count as one.
pub proof fn law_written_file_reads(
    tag: int,
    channels: int,
    rate: int,
    speed: int,
    align: int,
    bits: int,
    data: Seq<u8>,
)
    requires
        0 <= tag < 0x1_0000,
        0 <= channels < 0x1_0000,
        0 <= rate < 0x1_0000_0000,
        0 <= bits < 0x1_0000,
        data.len() < 0x1_0000_0000,
    ensures
        ({
            let b = written(tag, channels, rate, speed, align, bits, data);
            let format = Format {
                tag: tag as u16,
                channels: channels as u16,
                rate: rate as u32,
                bits: bits as u16,
            };
            &&& is_wave(b)
            &&& outcome(b) == match decoded(format, data) {
                Some(samples) => Outcome::Done {
                    format,
                    blocks: seq![
                        Block {
                            channels: if channels == 0 {
                                1
                            } else {
                                channels
                            },
                            samples,
                        },
                    ],
                },
                None => Outcome::Unsupported { tag: tag as u16, bits: bits as u16 },
            }
        }),
{
    let b = written(tag, channels, rate, speed, align, bits, data);
    assert(b.len() == 44 + data.len());
    lemma_code32(b, 16, 16);
    lemma_code32(b, 24, rate);
    lemma_code32(b, 40, data.len() as int);
    assert(le16(b, 20) == tag);
    assert(le16(b, 22) == channels);
    assert(le16(b, 34) == bits);
    law_plain_file(b);
    assert(b.skip(44) =~= data);
}

/// A chunk is as long as its header says, and is followed, after a byte of padding where
/// that is odd, by the next one. Its body ends with the file where the file ends first.
pub proof fn law_chunk_length(b: Seq<u8>, pos: int, n: int)
    requires
        0 <= pos,
        pos + 8 <= b.len(),
        0 <= n < 0x1_0000_0000,
        b.subrange(pos + 4, pos + 8) == code32(n),
    ensures
        n % 2 == 0 ==> next_chunk(b, pos) == pos + 8 + n,
        n % 2 == 1 ==> next_chunk(b, pos) == pos + 8 + n + 1,
        pos + 8 + n <= b.len() ==> body_of(b, pos) == b.subrange(pos + 8, pos + 8 + n),
        pos + 8 + n > b.len() ==> body_of(b, pos) == b.skip(pos + 8),
{
    let header = b.subrange(pos + 4, pos + 8);
    assert(b[pos + 4] == header[0] && b[pos + 5] == header[1] && b[pos + 6] == header[2] && b[pos
        + 7] == header[3]);
    lemma_code32(b, pos + 4, n);
    if pos + 8 + n > b.len() {
        assert(body_of(b, pos) =~= b.skip(pos + 8));
    }
}

/// A file that is taken for a WAVE file is long enough for its header, starts with the
/// letters RIFF, and has the letters WAVE after the length.
pub proof fn law_wave_letters(b: Seq<u8>)
    ensures
        is_wave(b) <==> {
            &&& b.len() >= 44
            &&& b.take(4) == seq!['R' as u8, 'I' as u8, 'F' as u8, 'F' as u8]
            &&& b.subrange(8, 12) == seq!['W' as u8, 'A' as u8, 'V' as u8, 'E' as u8]
        },
{
    if b.len() >= 44 {
        let riff = b.take(4);
        let wave = b.subrange(8, 12);
        assert(riff[0] == b[0] && riff[1] == b[1] && riff[2] == b[2] && riff[3] == b[3]);
        assert(wave[0] == b[8] && wave[1] == b[9] && wave[2] == b[10] && wave[3] == b[11]);
        if is_wave(b) {
            assert(riff =~= seq!['R' as u8, 'I' as u8, 'F' as u8, 'F' as u8]);
            assert(wave =~= seq!['W' as u8, 'A' as u8, 'V' as u8, 'E' as u8]);
        }
    }
}

/// A chunk is known by its four letters.
pub proof fn law_chunk_letters(b: Seq<u8>, pos: int)
    requires
        0 <= pos,
        pos + 8 <= b.len(),
    ensures
        is_format(b, pos) <==> b.subrange(pos, pos + 4) == seq![
            'f' as u8,
            'm' as u8,
            't' as u8,
            ' ' as u8,
        ],
        is_data(b, pos) <==> b.subrange(pos, pos + 4) == seq![
            'd' as u8,
            'a' as u8,
            't' as u8,
            'a' as u8,
        ],
{
    let name = b.subrange(pos, pos + 4);
    assert(name[0] == b[pos] && name[1] == b[pos + 1] && name[2] == b[pos + 2] && name[3] == b[pos
        + 3]);
    if is_format(b, pos) {
        assert(name =~= seq!['f' as u8, 'm' as u8, 't' as u8, ' ' as u8]);
    }
    if is_data(b, pos) {
        assert(name =~= seq!['d' as u8, 'a' as u8, 't' as u8, 'a' as u8]);
    }
}

/// Which codings are supported: 32-bit floats, tag 3, and 16-bit integers, tag 1.
pub proof fn law_supported(format: Format, raw: Seq<u8>)
    ensures
        decoded(format, raw) is Some <==> {
            ||| format.tag == 3 && format.bits == 32
            ||| format.tag == 1 && format.bits == 16
        },
        format.tag == 3 && decoded(format, raw) is Some ==> decoded(format, raw)->0.len()
            == raw.len() / 4,
        format.tag == 1 && decoded(format, raw) is Some ==> decoded(format, raw)->0.len()
            == raw.len() / 2,
{
}

/// Chunk by chunk: a format chunk holds for the data after it, whatever came before; a
/// data chunk adds its samples behind those before it, or ends the walk where its format
/// is not supported; and what is too short for a chunk at the end is passed over.
pub proof fn law_chunk_by_chunk(b: Seq<u8>, pos: int, format: Format, blocks: Seq<Block>)
    requires
        0 <= pos,
    ensures
        pos + 8 > b.len() ==> walk(b, pos, format, blocks) == (Outcome::Done { format, blocks }),
        pos + 24 <= b.len() && is_format(b, pos) ==> walk(b, pos, format, blocks) == walk(
            b,
            next_chunk(b, pos),
            format_at(b, pos + 8),
            blocks,
        ),
        pos + 8 <= b.len() < pos + 24 && is_format(b, pos) ==> walk(
            b,
            pos,
            format,
            blocks,
        ) is Truncated,
        pos + 8 <= b.len() && is_data(b, pos) ==> {
            let whole = walk(b, pos, format, blocks);
            match decoded(format, body_of(b, pos)) {
                Some(samples) => whole == walk(
                    b,
                    next_chunk(b, pos),
                    format,
                    blocks.push(Block { channels: channels_of(format), samples }),
                ),
                None => whole == (Outcome::Unsupported { tag: format.tag, bits: format.bits }),
            }
        },
{
}

/// The data chunks of a file are heard one after the other.
pub proof fn law_blocks_follow(ops: Operations, first: Seq<Block>, second: Seq<Block>)
    ensures
        mixed(ops, first + second) == mixed(ops, first) + mixed(ops, second),
    decreases second.len(),
{
    if second.len() == 0 {
        assert(first + second =~= first);
        assert(mixed(ops, first) + mixed(ops, second) =~= mixed(ops, first));
    } else {
        assert((first + second).drop_last() =~= first + second.drop_last());
        law_blocks_follow(ops, first, second.drop_last());
        assert(mixed(ops, first + second) =~= mixed(ops, first) + mixed(ops, second));
    }
}

/// A single data chunk is heard mixed down.
pub proof fn law_one_block(ops: Operations, block: Block)
    ensures
        mixed(ops, seq![block]) == mono(ops, block.samples, block.channels),
{
    assert(seq![block].drop_last() =~= Seq::empty());
    assert(mixed(ops, seq![block].drop_last()) =~= Seq::empty());
    assert(mixed(ops, seq![block]) =~= mono(ops, block.samples, block.channels));
}

} // verus!
