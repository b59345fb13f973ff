//! Just enough WAV to read and write 16-bit PCM.
//!
//! Reading walks the RIFF chunk list rather than assuming a 44-byte header, because plenty of
//! real files carry a LIST/INFO chunk before `data` and skipping straight to byte 44 silently
//! reads metadata as audio.

use crate::{bytes, text};
use vstd::prelude::*;
use vstd::slice::slice_subrange;
use vstd::string::*;

verus! {

/// A recording.
pub struct Wav {
    pub rate: u32,
    pub channels: u16,
    /// Interleaved.
    pub samples: Vec<i16>,
}

/// What a recording holds.
#[verifier::ext_equal]
pub struct WavData {
    pub rate: u32,
    pub channels: u16,
    pub samples: Seq<i16>,
}

impl View for Wav {
    type V = WavData;

    open spec fn view(&self) -> WavData {
        WavData { rate: self.rate, channels: self.channels, samples: self.samples@ }
    }
}

impl Wav {
    /// How many sample instants there are, whatever the number of channels.
    pub fn frames(&self) -> (n: usize)
        requires
            self.channels > 0,
        ensures
            n == self.samples@.len() / (self.channels as nat),
    {
        self.samples.len() / self.channels as usize
    }
}

/// Why a file is not taken.
#[derive(Clone, Copy, Debug, PartialEq, Eq, Structural)]
pub enum ReadError {
    /// The file does not start as a RIFF/WAVE file does.
    NotWave,
    NoFmt,
    NoData,
    ShortFmt,
    /// The sample format, which is not PCM.
    Format(u16),
    /// The bits per sample, which are not 16.
    Bits(u16),
    /// The number of channels, which is neither one nor two.
    Channels(u16),
}

impl ReadError {
    /// What the user is told of a file with the name `path`.
    pub open spec fn told(self, path: Seq<char>) -> Seq<char> {
        match self {
            ReadError::NotWave => path + " is not a RIFF/WAVE file"@,
            ReadError::NoFmt => "no fmt chunk"@,
            ReadError::NoData => "no data chunk"@,
            ReadError::ShortFmt => "fmt chunk is too short"@,
            ReadError::Format(n) => "format "@ + text::decimal(n as nat)
                + " is not PCM — convert with `afconvert` or `ffmpeg` first"@,
            ReadError::Bits(n) => text::decimal(n as nat)
                + "-bit samples; this demo handles 16-bit PCM only"@,
            ReadError::Channels(n) => text::decimal(n as nat)
                + " channels; Opus here handles mono or stereo"@,
        }
    }

    /// What the user is told of a file with the name `path`.
    pub fn message(&self, path: &str) -> (m: String)
        ensures
            m@ == self.told(path@),
    {
        let mut m: String = String::new();
        match self {
            ReadError::NotWave => {
                m.append(path);
                m.append(" is not a RIFF/WAVE file");
            },
            ReadError::NoFmt => {
                m.append("no fmt chunk");
            },
            ReadError::NoData => {
                m.append("no data chunk");
            },
            ReadError::ShortFmt => {
                m.append("fmt chunk is too short");
            },
            ReadError::Format(n) => {
                m.append("format ");
                text::put_decimal(&mut m, *n as u64);
                m.append(" is not PCM — convert with `afconvert` or `ffmpeg` first");
            },
            ReadError::Bits(n) => {
                text::put_decimal(&mut m, *n as u64);
                m.append("-bit samples; this demo handles 16-bit PCM only");
            },
            ReadError::Channels(n) => {
                text::put_decimal(&mut m, *n as u64);
                m.append(" channels; Opus here handles mono or stereo");
            },
        }
        assert(m@ =~= self.told(path@));
        m
    }
}

/// One chunk of a RIFF file.
#[verifier::ext_equal]
pub struct Chunk {
    pub id: Seq<u8>,
    pub body: Seq<u8>,
}

/// The size that a chunk states.
pub open spec fn stated_size(b: Seq<u8>) -> nat {
    bytes::le_value(b.subrange(4, 8))
}

/// The bytes that the chunk at the front of `b` takes up. Chunks are word-aligned: an odd
/// size is followed by a pad byte.
pub open spec fn chunk_span(b: Seq<u8>) -> int {
    8int + stated_size(b) + stated_size(b) % 2
}

pub open spec fn at_most(x: int, limit: int) -> int {
    if x < limit {
        x
    } else {
        limit
    }
}

/// The chunk at the front of `b`. A body that runs past the end of the file is cut off there.
pub open spec fn front_chunk(b: Seq<u8>) -> Chunk {
    Chunk {
        id: b.take(4),
        body: b.subrange(8, at_most(8 + stated_size(b) as int, b.len() as int)),
    }
}

/// The chunks of a file, after its twelve bytes of RIFF header.
pub open spec fn chunks(b: Seq<u8>) -> Seq<Chunk>
    decreases b.len(),
{
    if b.len() < 8 {
        Seq::empty()
    } else {
        seq![front_chunk(b)] + chunks(b.skip(at_most(chunk_span(b), b.len() as int)))
    }
}

/// The body of the last chunk of a kind, if there is one.
pub open spec fn last_body(cs: Seq<Chunk>, id: Seq<u8>) -> Option<Seq<u8>>
    decreases cs.len(),
{
    if cs.len() == 0 {
        None
    } else if cs.last().id == id {
        Some(cs.last().body)
    } else {
        last_body(cs.drop_last(), id)
    }
}

/// The samples in a body of PCM data. A single byte left over at the end is dropped.
pub open spec fn pcm(data: Seq<u8>) -> Seq<i16> {
    Seq::new(
        data.len() / 2,
        |i: int| bytes::word_sample(bytes::le_value(data.subrange(2 * i, 2 * i + 2)) as u16),
    )
}

/// What the two chunks that matter say.
pub open spec fn decoded(fmt: Seq<u8>, data: Seq<u8>) -> Result<WavData, ReadError> {
    if fmt.len() < 16 {
        Err(ReadError::ShortFmt)
    } else {
        let format = bytes::le_value(fmt.subrange(0, 2)) as u16;
        let channels = bytes::le_value(fmt.subrange(2, 4)) as u16;
        let rate = bytes::le_value(fmt.subrange(4, 8)) as u32;
        let bits = bytes::le_value(fmt.subrange(14, 16)) as u16;
        if format != 1 && format != 0xFFFE {
            Err(ReadError::Format(format))
        } else if bits != 16 {
            Err(ReadError::Bits(bits))
        } else if channels != 1 && channels != 2 {
            Err(ReadError::Channels(channels))
        } else {
            Ok(WavData { rate, channels, samples: pcm(data) })
        }
    }
}

/// What a file holds, or why it is not taken.
pub open spec fn parsed(b: Seq<u8>) -> Result<WavData, ReadError> {
    if b.len() < 12 || b.take(4) != bytes::ascii("RIFF"@) || b.subrange(8, 12) != bytes::ascii(
        "WAVE"@,
    ) {
        Err(ReadError::NotWave)
    } else {
        let cs = chunks(b.skip(12));
        match last_body(cs, bytes::ascii("fmt "@)) {
            None => Err(ReadError::NoFmt),
            Some(fmt) => match last_body(cs, bytes::ascii("data"@)) {
                None => Err(ReadError::NoData),
                Some(data) => decoded(fmt, data),
            },
        }
    }
}

proof fn lemma_last_body_front(c: Chunk, cs: Seq<Chunk>, id: Seq<u8>)
    ensures
        last_body(seq![c] + cs, id) == (match last_body(cs, id) {
            Some(body) => Some(body),
            None => if c.id == id {
                Some(c.body)
            } else {
                None
            },
        }),
    decreases cs.len(),
{
    let all = seq![c] + cs;
    if cs.len() == 0 {
        assert(all.drop_last() =~= Seq::empty());
        assert(last_body(all.drop_last(), id) is None);
    } else {
        assert(all.last() == cs.last());
        assert(all.drop_last() =~= seq![c] + cs.drop_last());
        lemma_last_body_front(c, cs.drop_last(), id);
    }
}

/// The later of two finds of a chunk.
pub open spec fn later(found: Option<Seq<u8>>, earlier: Option<Seq<u8>>) -> Option<Seq<u8>> {
    match found {
        Some(body) => Some(body),
        None => earlier,
    }
}

/// The bytes that a stretch of the file holds, where one was found.
pub open spec fn stretch(b: Seq<u8>, at: Option<(usize, usize)>) -> Option<Seq<u8>> {
    match at {
        None => None,
        Some((from, to)) => Some(b.subrange(from as int, to as int)),
    }
}

spec fn inside(b: Seq<u8>, at: Option<(usize, usize)>) -> bool {
    at matches Some((from, to)) ==> from <= to <= b.len()
}

/// Where the last `fmt ` and the last `data` chunk have their bodies.
fn find_chunks(b: &[u8]) -> (found: (Option<(usize, usize)>, Option<(usize, usize)>))
    requires
        b@.len() >= 12,
    ensures
        inside(b@, found.0),
        inside(b@, found.1),
        stretch(b@, found.0) == last_body(chunks(b@.skip(12)), bytes::ascii("fmt "@)),
        stretch(b@, found.1) == last_body(chunks(b@.skip(12)), bytes::ascii("data"@)),
{
    let n: usize = b.len();
    let mut fmt: Option<(usize, usize)> = None;
    let mut data: Option<(usize, usize)> = None;
    let mut pos: usize = 12;
    let ghost want_fmt = last_body(chunks(b@.skip(12)), bytes::ascii("fmt "@));
    let ghost want_data = last_body(chunks(b@.skip(12)), bytes::ascii("data"@));
    proof {
        reveal_strlit("fmt ");
        reveal_strlit("data");
        assert("fmt "@[0] != "data"@[0]);
        assert(bytes::ascii("fmt "@)[0] != bytes::ascii("data"@)[0]);
    }
    while n - pos >= 8
        invariant
            n == b@.len(),
            12 <= pos <= n,
            inside(b@, fmt),
            inside(b@, data),
            bytes::ascii("fmt "@).len() == 4,
            bytes::ascii("data"@).len() == 4,
            "fmt ".is_ascii(),
            "data".is_ascii(),
            bytes::ascii("fmt "@) != bytes::ascii("data"@),
            want_fmt == later(
                last_body(chunks(b@.skip(pos as int)), bytes::ascii("fmt "@)),
                stretch(b@, fmt),
            ),
            want_data == later(
                last_body(chunks(b@.skip(pos as int)), bytes::ascii("data"@)),
                stretch(b@, data),
            ),
        decreases n - pos,
    {
        let ghost rest = b@.skip(pos as int);
        let size: usize = bytes::u32le(slice_subrange(b, pos + 4, pos + 8)) as usize;
        let body: usize = pos + 8;
        let end: usize = if size < n - body {
            body + size
        } else {
            n
        };
        let next: usize = if size < n - body {
            end + size % 2
        } else {
            n
        };
        proof {
            let s = b@.subrange(pos + 4, pos + 8);
            assert(s.take(4) =~= s);
            assert(rest.subrange(4, 8) =~= s);
            assert(front_chunk(rest).body =~= b@.subrange(body as int, end as int));
            assert(front_chunk(rest).id =~= b@.subrange(pos as int, pos + 4));
            assert(rest.skip(at_most(chunk_span(rest), rest.len() as int)) =~= b@.skip(
                next as int,
            ));
            lemma_last_body_front(
                front_chunk(rest),
                chunks(b@.skip(next as int)),
                bytes::ascii("fmt "@),
            );
            lemma_last_body_front(
                front_chunk(rest),
                chunks(b@.skip(next as int)),
                bytes::ascii("data"@),
            );
        }
        if bytes::is_at(b, pos, "fmt ") {
            fmt = Some((body, end));
        } else if bytes::is_at(b, pos, "data") {
            data = Some((body, end));
        }
        pos = next;
    }
    (fmt, data)
}

/// The samples in a body of PCM data.
fn read_pcm(data: &[u8]) -> (samples: Vec<i16>)
    ensures
        samples@ == pcm(data@),
{
    let n: usize = data.len() / 2;
    let mut samples: Vec<i16> = Vec::with_capacity(n);
    let mut i: usize = 0;
    while i < n
        invariant
            n == data.len() / 2,
            i <= n,
            samples@ == pcm(data@).take(i as int),
        decreases n - i,
    {
        let pair: &[u8] = slice_subrange(data, 2 * i, 2 * i + 2);
        assert(pair@.take(2) =~= data@.subrange(2 * i as int, 2 * i + 2));
        samples.push(bytes::i16le(pair));
        i = i + 1;
        assert(samples@ =~= pcm(data@).take(i as int));
    }
    assert(samples@ =~= pcm(data@));
    samples
}

/// The recording in a file.
///
/// Format 1 is PCM, 0xFFFE is WAVE_FORMAT_EXTENSIBLE, which is still PCM when the samples
/// have 16 bits and the sub-format says so. Accepting it makes files from most recorders
/// work.
pub fn read(b: &[u8]) -> (r: Result<Wav, ReadError>)
    ensures
        match r {
            Ok(w) => parsed(b@) == Ok::<WavData, ReadError>(w@),
            Err(e) => parsed(b@) == Err::<WavData, ReadError>(e),
        },
{
    proof {
        reveal_strlit("RIFF");
        reveal_strlit("WAVE");
        if b@.len() >= 12 {
            assert(b@.subrange(0, 4) =~= b@.take(4));
        }
    }
    if b.len() < 12 || !bytes::is_at(b, 0, "RIFF") || !bytes::is_at(b, 8, "WAVE") {
        return Err(ReadError::NotWave);
    }
    let (fmt_at, data_at) = find_chunks(b);
    let fmt: &[u8] = match fmt_at {
        None => return Err(ReadError::NoFmt),
        Some((from, to)) => slice_subrange(b, from, to),
    };
    let data: &[u8] = match data_at {
        None => return Err(ReadError::NoData),
        Some((from, to)) => slice_subrange(b, from, to),
    };
    if fmt.len() < 16 {
        return Err(ReadError::ShortFmt);
    }
    let format: u16 = bytes::u16le(slice_subrange(fmt, 0, 2));
    let channels: u16 = bytes::u16le(slice_subrange(fmt, 2, 4));
    let rate: u32 = bytes::u32le(slice_subrange(fmt, 4, 8));
    let bits: u16 = bytes::u16le(slice_subrange(fmt, 14, 16));
    proof {
        assert(fmt@.subrange(0, 2).take(2) =~= fmt@.subrange(0, 2));
        assert(fmt@.subrange(2, 4).take(2) =~= fmt@.subrange(2, 4));
        assert(fmt@.subrange(4, 8).take(4) =~= fmt@.subrange(4, 8));
        assert(fmt@.subrange(14, 16).take(2) =~= fmt@.subrange(14, 16));
    }
    if format != 1 && format != 0xFFFE {
        return Err(ReadError::Format(format));
    }
    if bits != 16 {
        return Err(ReadError::Bits(bits));
    }
    if channels != 1 && channels != 2 {
        return Err(ReadError::Channels(channels));
    }
    let samples: Vec<i16> = read_pcm(data);
    Ok(Wav { rate, channels, samples })
}

/// Samples as they stand in a file.
pub open spec fn pcm_bytes(samples: Seq<i16>) -> Seq<u8>
    decreases samples.len(),
{
    if samples.len() == 0 {
        Seq::empty()
    } else {
        pcm_bytes(samples.drop_last()) + bytes::le(bytes::sample_word(samples.last()) as nat, 2)
    }
}

/// The body of the `fmt ` chunk of a recording: PCM, channels, rate, byte rate, block align,
/// bits per sample.
pub open spec fn fmt_body(w: WavData) -> Seq<u8> {
    bytes::le(1, 2) + bytes::le(w.channels as nat, 2) + bytes::le(w.rate as nat, 4) + bytes::le(
        w.rate as nat * (2 * w.channels as nat),
        4,
    ) + bytes::le(2 * w.channels as nat, 2) + bytes::le(16, 2)
}

/// The file that holds a recording. A length that is too large for its field is stored
/// modulo 2^32.
pub open spec fn file_bytes(w: WavData) -> Seq<u8> {
    bytes::ascii("RIFF"@) + bytes::le(36 + 2 * w.samples.len(), 4) + bytes::ascii("WAVEfmt "@)
        + bytes::le(16, 4) + fmt_body(w) + bytes::ascii("data"@) + bytes::le(
        2 * w.samples.len(),
        4,
    ) + pcm_bytes(w.samples)
}

/// Appends samples.
fn put_pcm(out: &mut Vec<u8>, samples: &[i16])
    ensures
        final(out)@ == old(out)@ + pcm_bytes(samples@),
{
    let n: usize = samples.len();
    let mut i: usize = 0;
    assert(out@ =~= old(out)@ + pcm_bytes(samples@.take(0)));
    while i < n
        invariant
            n == samples@.len(),
            i <= n,
            out@ == old(out)@ + pcm_bytes(samples@.take(i as int)),
        decreases n - i,
    {
        bytes::put_i16(out, samples[i]);
        i = i + 1;
        proof {
            assert(samples@.take(i as int).drop_last() =~= samples@.take(i - 1));
            assert(out@ =~= old(out)@ + pcm_bytes(samples@.take(i as int)));
        }
    }
    assert(samples@.take(n as int) =~= samples@);
}

/// Appends the body of the `fmt ` chunk.
fn put_fmt(out: &mut Vec<u8>, wav: &Wav)
    requires
        wav.rate * (2 * wav.channels) <= u32::MAX,
    ensures
        final(out)@ == old(out)@ + fmt_body(wav@),
{
    let bytes_per_frame: u32 = wav.channels as u32 * 2;
    proof {
        bytes::lemma_le_limits();
        bytes::lemma_le_mod(bytes_per_frame as nat, 2);
        assert(wav.rate as nat * (2 * wav.channels as nat) == wav.rate * bytes_per_frame);
    }
    bytes::put_u16(out, 1); // PCM
    bytes::put_u16(out, wav.channels);
    bytes::put_u32(out, wav.rate);
    bytes::put_u32(out, wav.rate * bytes_per_frame); // byte rate
    bytes::put_u16(out, (bytes_per_frame % 0x1_0000) as u16); // block align
    bytes::put_u16(out, 16); // bits per sample
    assert(out@ =~= old(out)@ + fmt_body(wav@));
}

/// The bytes of a `.wav` file.
pub fn write(wav: &Wav) -> (out: Vec<u8>)
    requires
        2 * wav.samples@.len() <= usize::MAX,
        36 + (2 * wav.samples@.len()) % 0x1_0000_0000 <= u32::MAX,
        wav.rate * (2 * wav.channels) <= u32::MAX,
    ensures
        out@ == file_bytes(wav@),
{
    let data_len: u32 = (wav.samples.len() as u64 * 2 % 0x1_0000_0000) as u32;
    proof {
        reveal_strlit("RIFF");
        reveal_strlit("WAVEfmt ");
        reveal_strlit("data");
        bytes::lemma_le_limits();
        bytes::lemma_le_mod(2 * wav.samples@.len(), 4);
        bytes::lemma_le_mod(36 + 2 * wav.samples@.len(), 4);
        assert((36 + 2 * wav.samples@.len()) % 0x1_0000_0000 == 36 + data_len);
    }
    let mut out: Vec<u8> = Vec::new();
    bytes::put_ascii(&mut out, "RIFF");
    assert(out@ =~= bytes::ascii("RIFF"@));
    bytes::put_u32(&mut out, 36 + data_len);
    bytes::put_ascii(&mut out, "WAVEfmt ");
    bytes::put_u32(&mut out, 16); // fmt chunk size
    put_fmt(&mut out, wav);
    bytes::put_ascii(&mut out, "data");
    bytes::put_u32(&mut out, data_len);
    put_pcm(&mut out, wav.samples.as_slice());
    out
}

/// One sample reads back from its two bytes.
proof fn lemma_sample_round_trip(x: i16)
    ensures
        bytes::le(bytes::sample_word(x) as nat, 2).len() == 2,
        bytes::word_sample(
            bytes::le_value(bytes::le(bytes::sample_word(x) as nat, 2)) as u16,
        ) == x,
{
    let w = bytes::sample_word(x);
    bytes::lemma_le_len(w as nat, 2);
    bytes::lemma_le_limits();
    bytes::law_le_round_trip(w as nat, 2);
    bytes::law_sample_word_round_trip(x, w);
}

/// Two more bytes are one more sample, and leave the earlier ones as they were.
#[verifier::spinoff_prover]
proof fn lemma_pcm_push(front: Seq<u8>, pair: Seq<u8>)
    requires
        front.len() % 2 == 0,
        pair.len() == 2,
    ensures
        pcm(front + pair) == pcm(front).push(
            bytes::word_sample(bytes::le_value(pair) as u16),
        ),
{
    let b = front + pair;
    let n = front.len() / 2;
    assert forall|i: int| 0 <= i < n implies pcm(b)[i] == pcm(front)[i] by {
        assert(b.subrange(2 * i, 2 * i + 2) =~= front.subrange(2 * i, 2 * i + 2));
    }
    assert(b.subrange(2 * n as int, 2 * n as int + 2) =~= pair);
    assert(pcm(b) =~= pcm(front).push(bytes::word_sample(bytes::le_value(pair) as u16)));
}

proof fn lemma_pcm_round_trip(samples: Seq<i16>)
    ensures
        pcm_bytes(samples).len() == 2 * samples.len(),
        pcm(pcm_bytes(samples)) == samples,
    decreases samples.len(),
{
    if samples.len() == 0 {
        assert(pcm(pcm_bytes(samples)) =~= samples);
    } else {
        let init = samples.drop_last();
        lemma_pcm_round_trip(init);
        lemma_sample_round_trip(samples.last());
        lemma_pcm_push(
            pcm_bytes(init),
            bytes::le(bytes::sample_word(samples.last()) as nat, 2),
        );
        assert(init.push(samples.last()) =~= samples);
    }
}

/// A chunk written with its size reads back as itself.
proof fn lemma_chunk_reads_back(id: Seq<u8>, body: Seq<u8>, post: Seq<u8>)
    requires
        id.len() == 4,
        body.len() <= u32::MAX,
        body.len() % 2 == 0,
    ensures
        chunks(id + bytes::le(body.len(), 4) + body + post) == seq![Chunk { id, body }] + chunks(
            post,
        ),
{
    let b = id + bytes::le(body.len(), 4) + body + post;
    bytes::lemma_le_limits();
    bytes::lemma_le_len(body.len(), 4);
    bytes::law_le_round_trip(body.len(), 4);
    assert(b.subrange(4, 8) =~= bytes::le(body.len(), 4));
    assert(front_chunk(b).id =~= id);
    assert(front_chunk(b).body =~= body);
    assert(b.skip(8 + body.len() as int) =~= post);
}

proof fn lemma_fmt_body(w: WavData)
    ensures
        fmt_body(w).len() == 16,
        bytes::le_value(fmt_body(w).subrange(0, 2)) == 1,
        bytes::le_value(fmt_body(w).subrange(2, 4)) == w.channels,
        bytes::le_value(fmt_body(w).subrange(4, 8)) == w.rate,
        bytes::le_value(fmt_body(w).subrange(14, 16)) == 16,
{
    let byte_rate = w.rate as nat * (2 * w.channels as nat);
    bytes::lemma_le_limits();
    bytes::lemma_le_len(1, 2);
    bytes::lemma_le_len(w.channels as nat, 2);
    bytes::lemma_le_len(w.rate as nat, 4);
    bytes::lemma_le_len(byte_rate, 4);
    bytes::lemma_le_len(2 * w.channels as nat, 2);
    bytes::lemma_le_len(16, 2);
    bytes::law_le_round_trip(1, 2);
    bytes::law_le_round_trip(w.channels as nat, 2);
    bytes::law_le_round_trip(w.rate as nat, 4);
    bytes::law_le_round_trip(16, 2);
    let body = fmt_body(w);
    assert(body.subrange(0, 2) =~= bytes::le(1, 2));
    assert(body.subrange(2, 4) =~= bytes::le(w.channels as nat, 2));
    assert(body.subrange(4, 8) =~= bytes::le(w.rate as nat, 4));
    assert(body.subrange(14, 16) =~= bytes::le(16, 2));
}

/// The file of a recording is a RIFF header and two chunks.
proof fn lemma_file_parts(w: WavData)
    ensures
        ({
            let b = file_bytes(w);
            let fmt = bytes::ascii("fmt "@) + bytes::le(16, 4) + fmt_body(w);
            let data = bytes::ascii("data"@) + bytes::le(2 * w.samples.len(), 4) + pcm_bytes(
                w.samples,
            );
            &&& b.len() >= 12
            &&& b.take(4) == bytes::ascii("RIFF"@)
            &&& b.subrange(8, 12) == bytes::ascii("WAVE"@)
            &&& b.skip(12) == fmt + data
        }),
{
    reveal_strlit("RIFF");
    reveal_strlit("WAVE");
    reveal_strlit("WAVEfmt ");
    reveal_strlit("fmt ");
    bytes::lemma_le_len(36 + 2 * w.samples.len(), 4);
    let b = file_bytes(w);
    let fmt = bytes::ascii("fmt "@) + bytes::le(16, 4) + fmt_body(w);
    let data = bytes::ascii("data"@) + bytes::le(2 * w.samples.len(), 4) + pcm_bytes(w.samples);
    assert(bytes::ascii("WAVEfmt "@) =~= bytes::ascii("WAVE"@) + bytes::ascii("fmt "@));
    assert(b.take(4) =~= bytes::ascii("RIFF"@));
    assert(b.subrange(8, 12) =~= bytes::ascii("WAVE"@));
    assert(b.skip(12) =~= fmt + data);
}

/// Two chunks in a row read back as themselves.
proof fn lemma_two_chunks_read_back(c1: Chunk, c2: Chunk)
    requires
        c1.id.len() == 4,
        c2.id.len() == 4,
        c1.body.len() <= u32::MAX,
        c2.body.len() <= u32::MAX,
        c1.body.len() % 2 == 0,
        c2.body.len() % 2 == 0,
    ensures
        chunks(
            (c1.id + bytes::le(c1.body.len(), 4) + c1.body) + (c2.id + bytes::le(c2.body.len(), 4)
                + c2.body),
        ) == seq![c1, c2],
{
    let tail = c2.id + bytes::le(c2.body.len(), 4) + c2.body;
    lemma_chunk_reads_back(c1.id, c1.body, tail);
    lemma_chunk_reads_back(c2.id, c2.body, Seq::empty());
    assert(tail + Seq::<u8>::empty() =~= tail);
    assert(chunks(Seq::empty()) =~= Seq::empty());
    assert(seq![c1] + (seq![c2] + Seq::<Chunk>::empty()) =~= seq![c1, c2]);
}

proof fn lemma_last_of_two(c1: Chunk, c2: Chunk)
    requires
        c1.id != c2.id,
    ensures
        last_body(seq![c1, c2], c1.id) == Some(c1.body),
        last_body(seq![c1, c2], c2.id) == Some(c2.body),
{
    assert(seq![c1, c2].drop_last() =~= seq![c1]);
    assert(last_body(seq![c1], c1.id) == Some(c1.body));
}

/// A recording comes back from its file as it went in. The lengths have to fit their fields,
/// and there have to be one or two channels: a reader refuses any other number.
pub proof fn law_file_reads_back(w: WavData)
    requires
        36 + 2 * w.samples.len() <= u32::MAX,
        w.channels == 1 || w.channels == 2,
    ensures
        parsed(file_bytes(w)) == Ok::<WavData, ReadError>(w),
{
    let c1 = Chunk { id: bytes::ascii("fmt "@), body: fmt_body(w) };
    let c2 = Chunk { id: bytes::ascii("data"@), body: pcm_bytes(w.samples) };
    assert(c1.id.len() == 4 && c2.id.len() == 4 && c1.id[0] != c2.id[0]) by {
        reveal_strlit("fmt ");
        reveal_strlit("data");
    }
    lemma_fmt_body(w);
    lemma_pcm_round_trip(w.samples);
    lemma_file_parts(w);
    lemma_two_chunks_read_back(c1, c2);
    lemma_last_of_two(c1, c2);
    assert(decoded(c1.body, c2.body) == Ok::<WavData, ReadError>(w));
}

/// Bytes that are one whole chunk: header, body and, after an odd size, the pad byte.
pub open spec fn whole_chunk(c: Seq<u8>) -> bool {
    c.len() >= 8 && c.len() == chunk_span(c)
}

/// Bytes that are a run of whole chunks.
pub open spec fn whole_chunks(b: Seq<u8>) -> bool
    decreases b.len(),
{
    b.len() == 0 || (b.len() >= 8 && chunk_span(b) <= b.len() && whole_chunks(b.skip(chunk_span(b))))
}

proof fn lemma_chunks_split(pre: Seq<u8>, post: Seq<u8>)
    requires
        whole_chunks(pre),
    ensures
        chunks(pre + post) == chunks(pre) + chunks(post),
    decreases pre.len(),
{
    let b = pre + post;
    if pre.len() == 0 {
        assert(b =~= post);
        assert(chunks(pre) + chunks(post) =~= chunks(post));
    } else {
        let span = chunk_span(pre);
        assert(b.subrange(4, 8) =~= pre.subrange(4, 8));
        assert(front_chunk(b).id =~= front_chunk(pre).id);
        assert(front_chunk(b).body =~= front_chunk(pre).body);
        assert(b.skip(span) =~= pre.skip(span) + post);
        lemma_chunks_split(pre.skip(span), post);
        assert(chunks(b) =~= chunks(pre) + chunks(post));
    }
}

proof fn lemma_last_body_append(a: Seq<Chunk>, b: Seq<Chunk>, id: Seq<u8>)
    ensures
        last_body(a + b, id) == later(last_body(b, id), last_body(a, id)),
    decreases b.len(),
{
    if b.len() == 0 {
        assert(a + b =~= a);
    } else {
        assert((a + b).last() == b.last());
        assert((a + b).drop_last() =~= a + b.drop_last());
        lemma_last_body_append(a, b.drop_last(), id);
    }
}

/// A chunk that is neither `fmt ` nor `data` changes nothing, wherever in the chunk list it
/// stands: a LIST/INFO chunk before `data` does not reach the samples.
pub proof fn law_other_chunks_are_skipped(
    riff: Seq<u8>,
    pre: Seq<u8>,
    extra: Seq<u8>,
    post: Seq<u8>,
)
    requires
        riff.len() == 12,
        whole_chunks(pre),
        whole_chunk(extra),
        extra.take(4) != bytes::ascii("fmt "@),
        extra.take(4) != bytes::ascii("data"@),
    ensures
        parsed(riff + pre + extra + post) == parsed(riff + pre + post),
{
    let with = riff + pre + extra + post;
    let without = riff + pre + post;
    assert(with.take(4) =~= without.take(4));
    assert(with.subrange(8, 12) =~= without.subrange(8, 12));
    assert(with.skip(12) =~= pre + (extra + post));
    assert(without.skip(12) =~= pre + post);
    lemma_chunks_split(pre, extra + post);
    lemma_chunks_split(pre, post);
    let all = extra + post;
    assert(all.subrange(4, 8) =~= extra.subrange(4, 8));
    assert(front_chunk(all).id =~= extra.take(4));
    assert(all.skip(chunk_span(all)) =~= post);
    assert(chunks(all) == seq![front_chunk(all)] + chunks(post));
    lemma_last_body_front(front_chunk(all), chunks(post), bytes::ascii("fmt "@));
    lemma_last_body_front(front_chunk(all), chunks(post), bytes::ascii("data"@));
    lemma_last_body_append(chunks(pre), chunks(all), bytes::ascii("fmt "@));
    lemma_last_body_append(chunks(pre), chunks(all), bytes::ascii("data"@));
    lemma_last_body_append(chunks(pre), chunks(post), bytes::ascii("fmt "@));
    lemma_last_body_append(chunks(pre), chunks(post), bytes::ascii("data"@));
}

} // verus!
