//! From a recording and what became of it to the files that are written.

use crate::ogg::Stream;
use crate::trip::{frame_len, Trip};
use crate::wav::Wav;
use crate::{bytes, demux, ogg, report, text, trip, wav};
use vstd::prelude::*;
use vstd::string::*;

verus! {

/// The rate that the container counts in, whatever the rate of the recording.
pub const CLOCK: u64 = 48_000;

/// The rates that the codec accepts. Anything else needs resampling, which is not done here.
pub open spec fn opus_rate(rate: u32) -> bool {
    rate == 8_000 || rate == 12_000 || rate == 16_000 || rate == 24_000 || rate == 48_000
}

/// Whether the codec accepts a rate.
pub fn accepts(rate: u32) -> (yes: bool)
    ensures
        yes == opus_rate(rate),
{
    rate == 8_000 || rate == 12_000 || rate == 16_000 || rate == 24_000 || rate == 48_000
}

/// What the user is told of a rate that the codec does not accept.
pub open spec fn rate_refused(rate: u32) -> Seq<char> {
    text::decimal(rate as nat)
        + " Hz is not an Opus sample rate (8000, 12000, 16000, 24000, 48000).\n       Convert first, e.g.\n         afconvert -f WAVE -d LEI16@48000 in.wav out.wav      (macOS)\n         ffmpeg -i in.wav -ar 48000 -c:a pcm_s16le out.wav"@
}

/// What the user is told of a rate that the codec does not accept.
pub fn rate_message(rate: u32) -> (m: String)
    ensures
        m@ == rate_refused(rate),
{
    let mut m: String = String::new();
    text::put_decimal(&mut m, rate as u64);
    m.append(
        " Hz is not an Opus sample rate (8000, 12000, 16000, 24000, 48000).\n       Convert first, e.g.\n         afconvert -f WAVE -d LEI16@48000 in.wav out.wav      (macOS)\n         ffmpeg -i in.wav -ar 48000 -c:a pcm_s16le out.wav",
    );
    assert(m@ =~= rate_refused(rate));
    m
}

/// A number of samples at `rate`, counted at 48 kHz.
pub open spec fn ticks(n: nat, rate: u32) -> nat {
    n * CLOCK as nat / (rate as nat)
}

/// A number of samples at `rate`, counted at 48 kHz.
pub fn to_48k(n: u64, rate: u32) -> (t: u64)
    requires
        rate > 0,
        n * CLOCK <= u64::MAX,
    ensures
        t == ticks(n as nat, rate),
{
    n * CLOCK / rate as u64
}

/// Everything that the container needs beyond the packets. The timestamps are in 48 kHz units
/// regardless of the input rate, which is the one part of the format that is easy to get wrong
/// at 8 or 24 kHz and produces a file that plays at the wrong speed.
pub open spec fn stream_of(source: wav::WavData, lookahead: nat) -> Stream {
    let rate = source.rate;
    let frames = source.samples.len() / (source.channels as nat);
    Stream {
        channels: (source.channels % 256) as u8,
        pre_skip: (ticks(lookahead, rate) % 0x1_0000) as u16,
        input_rate: rate,
        samples_per_packet: ticks(trip::frame_size(rate), rate) as u64,
        final_granule: (ticks(frames, rate) + ticks(lookahead, rate)) as u64,
    }
}

/// Whether the numbers of a stream fit their fields on the way.
pub open spec fn countable(source: wav::WavData, lookahead: nat) -> bool {
    let frames = source.samples.len() / (source.channels as nat);
    &&& source.rate > 0
    &&& source.channels > 0
    &&& lookahead * CLOCK <= u64::MAX
    &&& frames * CLOCK <= u64::MAX
    &&& ticks(frames, source.rate) + ticks(lookahead, source.rate) <= u64::MAX
}

/// Whether the numbers of a stream fit their fields on the way.
pub fn can_count(source: &Wav, lookahead: usize) -> (yes: bool)
    ensures
        yes == countable(source@, lookahead as nat),
{
    if source.rate == 0 || source.channels == 0 {
        return false;
    }
    let clock: u128 = CLOCK as u128;
    let frames: u128 = source.frames() as u128 * clock;
    let delay: u128 = lookahead as u128 * clock;
    let rate: u128 = source.rate as u128;
    frames <= u64::MAX as u128 && delay <= u64::MAX as u128 && frames / rate + delay / rate
        <= u64::MAX as u128
}

/// Everything that the container needs beyond the packets.
pub fn stream_for(source: &Wav, lookahead: usize) -> (s: Stream)
    requires
        countable(source@, lookahead as nat),
    ensures
        s == stream_of(source@, lookahead as nat),
{
    let rate: u32 = source.rate;
    let skip: u64 = to_48k(lookahead as u64, rate);
    let frame: u64 = frame_len(rate) as u64;
    Stream {
        channels: (source.channels % 256) as u8,
        pre_skip: (skip % 0x1_0000) as u16,
        input_rate: rate,
        samples_per_packet: to_48k(frame, rate),
        final_granule: to_48k(source.frames() as u64, rate) + skip,
    }
}

/// The lowest of some bitrates; 64 if there are none.
pub open spec fn lowest_of(bitrates: Seq<i32>) -> i32
    decreases bitrates.len(),
{
    if bitrates.len() == 0 {
        64
    } else if bitrates.len() == 1 || bitrates.last() < lowest_of(bitrates.drop_last()) {
        bitrates.last()
    } else {
        lowest_of(bitrates.drop_last())
    }
}

/// The lowest of some bitrates; 64 if there are none.
pub fn lowest(bitrates: &Vec<i32>) -> (low: i32)
    ensures
        low == lowest_of(bitrates@),
{
    let n: usize = bitrates.len();
    let mut low: i32 = 64;
    let mut i: usize = 0;
    assert(bitrates@.take(0) =~= Seq::empty());
    while i < n
        invariant
            n == bitrates@.len(),
            i <= n,
            low == lowest_of(bitrates@.take(i as int)),
        decreases n - i,
    {
        assert(bitrates@.take(i + 1).drop_last() =~= bitrates@.take(i as int));
        if i == 0 || bitrates[i] < low {
            low = bitrates[i];
        }
        i = i + 1;
    }
    assert(bitrates@.take(n as int) =~= bitrates@);
    low
}

/// The lowest bitrate is one of those given, and none is lower.
pub proof fn law_lowest(bitrates: Seq<i32>)
    requires
        bitrates.len() > 0,
    ensures
        bitrates.contains(lowest_of(bitrates)),
        forall|i: int| 0 <= i < bitrates.len() ==> lowest_of(bitrates) <= #[trigger] bitrates[i],
    decreases bitrates.len(),
{
    let before = bitrates.drop_last();
    let low = lowest_of(bitrates);
    if before.len() > 0 {
        law_lowest(before);
        let k = choose|k: int| 0 <= k < before.len() && before[k] == lowest_of(before);
        assert(bitrates[k] == lowest_of(before));
        assert forall|i: int| 0 <= i < bitrates.len() implies low <= #[trigger] bitrates[i] by {
            if i < before.len() {
                assert(before[i] == bitrates[i]);
            }
        }
    }
    assert(bitrates[bitrates.len() - 1] == bitrates.last());
}

/// A name with a bitrate in it.
pub open spec fn rated(stem: Seq<char>, kbps: i32, end: Seq<char>) -> Seq<char> {
    stem + "-"@ + text::signed(kbps as int) + end
}

fn rated_name(stem: &str, kbps: i32, end: &str) -> (name: String)
    ensures
        name@ == rated(stem@, kbps, end@),
{
    let mut name: String = stem.to_owned();
    name.append("-");
    text::put_signed(&mut name, kbps as i64);
    name.append(end);
    name
}

/// The name of the compressed file.
pub fn opus_name(stem: &str, kbps: i32) -> (name: String)
    ensures
        name@ == rated(stem@, kbps, "k.opus"@),
{
    rated_name(stem, kbps, "k.opus")
}

/// The name of the file with the decoded stream.
pub fn wav_name(stem: &str, kbps: i32) -> (name: String)
    ensures
        name@ == rated(stem@, kbps, "k.wav"@),
{
    rated_name(stem, kbps, "k.wav")
}

/// The name of the file with what the codec threw away.
pub fn diff_name(stem: &str, kbps: i32) -> (name: String)
    ensures
        name@ == rated(stem@, kbps, "k-diff.wav"@),
{
    rated_name(stem, kbps, "k-diff.wav")
}

/// The name of the file with the input, to compare against.
pub fn source_name(stem: &str) -> (name: String)
    ensures
        name@ == stem@ + "-original.wav"@,
{
    stem.to_owned().concat("-original.wav")
}

/// What the user is told in the end: which files to listen to. They are those of the lowest
/// bitrate, because that is the one where there is something to hear.
pub open spec fn listening(stem: Seq<char>, low: i32) -> Seq<char> {
    "\nListen:\n  afplay out/"@ + stem + "-original.wav          the input\n  ffplay -autoexit out/"@
        + rated(stem, low, "k.opus    the .opus file itself\n  afplay out/"@) + rated(
        stem,
        low,
        "k.wav              the same thing decoded to WAV\n  afplay out/"@,
    ) + rated(stem, low, "k-diff.wav         only what the codec discarded"@)
}

/// What the user is told in the end.
pub fn listen_message(stem: &str, bitrates: &Vec<i32>) -> (m: String)
    ensures
        m@ == listening(stem@, lowest_of(bitrates@)),
{
    let low: i32 = lowest(bitrates);
    let mut m: String = "\nListen:\n  afplay out/".to_owned();
    m.append(stem);
    m.append("-original.wav          the input\n  ffplay -autoexit out/");
    let a: String = rated_name(stem, low, "k.opus    the .opus file itself\n  afplay out/");
    m.append(a.as_str());
    let b: String = rated_name(
        stem,
        low,
        "k.wav              the same thing decoded to WAV\n  afplay out/",
    );
    m.append(b.as_str());
    let c: String = rated_name(stem, low, "k-diff.wav         only what the codec discarded");
    m.append(c.as_str());
    assert(m@ =~= listening(stem@, low));
    m
}

/// A file to write.
pub struct OutFile {
    pub name: String,
    pub bytes: Vec<u8>,
}

/// Whether a recording fits the fields of a `.wav` file.
pub open spec fn wav_fits(w: wav::WavData) -> bool {
    &&& 2 * w.samples.len() <= usize::MAX
    &&& 36 + (2 * w.samples.len()) % 0x1_0000_0000 <= u32::MAX
    &&& w.rate * (2 * w.channels) <= u32::MAX
}

/// Whether a recording fits the fields of a `.wav` file.
pub fn fits_wav(w: &Wav) -> (yes: bool)
    ensures
        yes == wav_fits(w@),
{
    if w.samples.len() > usize::MAX / 2 {
        return false;
    }
    let size: u64 = 2 * w.samples.len() as u64 % 0x1_0000_0000;
    assert(0 <= w.rate * (2 * w.channels) <= 0xFFFF_FFFF * 0x1_FFFE) by (nonlinear_arith)
        requires
            0 <= w.rate <= 0xFFFF_FFFF,
            0 <= w.channels <= 0xFFFF,
    ;
    36 + size <= u32::MAX as u64 && w.rate as u64 * (2 * w.channels as u64) <= u32::MAX as u64
}

/// The file with the input, so that a comparison is against a file and not a memory.
pub fn source_file(stem: &str, source: &Wav) -> (f: OutFile)
    requires
        wav_fits(source@),
    ensures
        f.name@ == stem@ + "-original.wav"@,
        f.bytes@ == wav::file_bytes(source@),
{
    OutFile { name: source_name(stem), bytes: wav::write(source) }
}

/// The compressed stream in its container, playable anywhere.
pub fn opus_file(stem: &str, kbps: i32, source: &Wav, trip: &Trip, vendor: &str) -> (f: OutFile)
    requires
        countable(source@, trip.lookahead as nat),
        ogg::writable(
            trip@.packets,
            stream_of(source@, trip.lookahead as nat),
            vendor.spec_bytes(),
        ),
    ensures
        f.name@ == rated(stem@, kbps, "k.opus"@),
        f.bytes@ == ogg::pages_bytes(
            ogg::file_pages(
                trip@.packets,
                stream_of(source@, trip.lookahead as nat),
                vendor.spec_bytes(),
            ),
        ),
{
    let s: Stream = stream_for(source, trip.lookahead);
    OutFile { name: opus_name(stem, kbps), bytes: ogg::write(trip.packets.as_slice(), &s, vendor) }
}

/// The same stream decoded back, lined up with the input.
pub fn wav_file(stem: &str, kbps: i32, trip: &Trip) -> (f: OutFile)
    requires
        wav_fits(trip@.decoded),
    ensures
        f.name@ == rated(stem@, kbps, "k.wav"@),
        f.bytes@ == wav::file_bytes(trip@.decoded),
{
    OutFile { name: wav_name(stem, kbps), bytes: wav::write(&trip.decoded) }
}

/// What the codec threw away.
pub fn diff_file(stem: &str, kbps: i32, difference: &Wav) -> (f: OutFile)
    requires
        wav_fits(difference@),
    ensures
        f.name@ == rated(stem@, kbps, "k-diff.wav"@),
        f.bytes@ == wav::file_bytes(difference@),
{
    OutFile { name: diff_name(stem, kbps), bytes: wav::write(difference) }
}

#[verifier::spinoff_prover]
proof fn lemma_rate_divides(rate: u32)
    requires
        opus_rate(rate),
    ensures
        rate * per_sample(rate) == CLOCK,
        trip::frame_size(rate) * per_sample(rate) == 960,
{
    let (r, f, m) = (rate as int, trip::frame_size(rate) as int, per_sample(rate) as int);
    assert({
        ||| r == 8_000 && f == 160 && m == 6
        ||| r == 12_000 && f == 240 && m == 4
        ||| r == 16_000 && f == 320 && m == 3
        ||| r == 24_000 && f == 480 && m == 2
        ||| r == 48_000 && f == 960 && m == 1
    });
    assert(r * m == 48_000 && f * m == 960) by (nonlinear_arith)
        requires
            ({
                ||| r == 8_000 && f == 160 && m == 6
                ||| r == 12_000 && f == 240 && m == 4
                ||| r == 16_000 && f == 320 && m == 3
                ||| r == 24_000 && f == 480 && m == 2
                ||| r == 48_000 && f == 960 && m == 1
            }),
    ;
}

/// The 48 kHz samples in one sample at `rate`.
pub open spec fn per_sample(rate: u32) -> nat {
    CLOCK as nat / (rate as nat)
}

/// At every rate that the codec accepts, the clock is exact: one sample at that rate is a whole
/// number of 48 kHz samples.
pub proof fn law_clock_is_exact(n: nat, rate: u32)
    requires
        opus_rate(rate),
    ensures
        ticks(n, rate) == n * per_sample(rate),
{
    let m = per_sample(rate);
    let r = rate as nat;
    assert(r * m == 48_000) by {
        lemma_rate_divides(rate);
    }
    assert(n * 48_000 == (n * m) * r) by (nonlinear_arith)
        requires
            r * m == 48_000,
    ;
    vstd::arithmetic::div_mod::lemma_div_by_multiple((n * m) as int, r as int);
}

/// A packet always spans 20 ms of the container's clock, whatever the input rate.
pub proof fn law_packet_duration(source: wav::WavData, lookahead: nat)
    requires
        opus_rate(source.rate),
    ensures
        stream_of(source, lookahead).samples_per_packet == 960,
{
    law_clock_is_exact(trip::frame_size(source.rate), source.rate);
    lemma_rate_divides(source.rate);
}

/// A player that skips the codec delay and stops at the last granule position plays exactly the
/// recording: as many 48 kHz samples as the recording lasts, with no padding at the end. The
/// delay has to fit its field.
pub proof fn law_playback_length(source: wav::WavData, lookahead: nat)
    requires
        opus_rate(source.rate),
        source.channels > 0,
        countable(source, lookahead),
        ticks(lookahead, source.rate) <= u16::MAX,
    ensures
        stream_of(source, lookahead).final_granule - stream_of(source, lookahead).pre_skip
            == source.samples.len() / (source.channels as nat) * per_sample(source.rate),
{
    law_clock_is_exact(source.samples.len() / (source.channels as nat), source.rate);
}

/// What a player makes of the `.opus` file of a recording: every page passes its checksum, the
/// opening packet has the channels and the rate of the recording and the codec delay in 48 kHz
/// samples, the packets come out whole and in order after the two header packets, and it plays
/// for exactly as long as the recording lasts.
pub proof fn law_opus_file_plays(
    source: wav::WavData,
    lookahead: nat,
    packets: Seq<Seq<u8>>,
    vendor: Seq<u8>,
)
    requires
        opus_rate(source.rate),
        source.channels > 0,
        countable(source, lookahead),
        ticks(lookahead, source.rate) <= u16::MAX,
        packets.len() > 0,
        ogg::writable(packets, stream_of(source, lookahead), vendor),
    ensures
        ({
            let s = stream_of(source, lookahead);
            let read = demux::read_pages(ogg::pages_bytes(ogg::file_pages(packets, s, vendor)));
            &&& read matches Some(pages)
            &&& demux::page_packets(pages).skip(2) == packets
            &&& demux::played(pages) == source.samples.len() / (source.channels as nat)
                * per_sample(source.rate)
            &&& demux::played(pages) * source.rate == source.samples.len() / (source.channels as nat)
                * 48_000
            &&& source.channels <= 255 ==> pages[0].packets[0][9] == source.channels
            &&& bytes::le_value(pages[0].packets[0].subrange(12, 16)) == source.rate
            &&& bytes::le_value(pages[0].packets[0].subrange(10, 12)) * source.rate == lookahead
                * 48_000
        }),
{
    let s = stream_of(source, lookahead);
    let pages = ogg::file_pages(packets, s, vendor);
    let audio = ogg::audio_pages(packets, s, 0, 2);
    demux::law_file_reads_back(packets, s, vendor);
    assert(demux::page_packets(pages).skip(2) =~= packets);
    law_playback_length(source, lookahead);
    demux::law_audio_pages(packets, s, 0, 2);
    ogg::lemma_grow(packets, 0, 1);
    assert(audio.len() > 0);
    assert(demux::placed(audio, audio.len() - 1, s, 0, 2));
    assert(pages.last() == audio.last());
    reveal_strlit("OpusHead");
    bytes::lemma_le_len(s.pre_skip as nat, 2);
    bytes::lemma_le_limits();
    bytes::law_le_round_trip(s.pre_skip as nat, 2);
    assert(ogg::head(s).subrange(10, 12) =~= bytes::le(s.pre_skip as nat, 2));
    bytes::lemma_le_len(s.input_rate as nat, 4);
    bytes::law_le_round_trip(s.input_rate as nat, 4);
    assert(ogg::head(s).subrange(12, 16) =~= bytes::le(s.input_rate as nat, 4));
    law_stream(source, lookahead);
    let frames = source.samples.len() / (source.channels as nat);
    let (m, r) = (per_sample(source.rate), source.rate as nat);
    assert(r * m == 48_000) by {
        lemma_rate_divides(source.rate);
    }
    assert((frames * m) * r == frames * 48_000) by (nonlinear_arith)
        requires
            r * m == 48_000,
    ;
}

/// The packets hold all that is to be played: the last granule position is never past the end
/// of the silent packet, as long as the codec delay is at most a frame.
pub proof fn law_end_is_within_the_packets(source: wav::WavData, lookahead: nat)
    requires
        opus_rate(source.rate),
        source.channels > 0,
        countable(source, lookahead),
        lookahead <= trip::frame_size(source.rate),
    ensures
        ({
            let block = trip::frame_size(source.rate) * source.channels as nat;
            let packets = trip::block_count(source.samples.len(), block) + 1;
            stream_of(source, lookahead).final_granule <= packets * stream_of(
                source,
                lookahead,
            ).samples_per_packet
        }),
{
    let frame = trip::frame_size(source.rate);
    let ch = source.channels as nat;
    let block = frame * ch;
    let len = source.samples.len();
    let frames = len / ch;
    let n = trip::block_count(len, block);
    let m = per_sample(source.rate);
    lemma_rate_divides(source.rate);
    law_clock_is_exact(frames, source.rate);
    law_clock_is_exact(lookahead, source.rate);
    law_packet_duration(source, lookahead);
    assert(frame * m == 960);
    assert(frame > 0);
    assert(block > 0) by (nonlinear_arith)
        requires
            frame > 0,
            ch > 0,
            block == frame * ch,
    ;
    trip::lemma_blocks(len, block);
    // frames <= n * frame, because len <= n * block.
    vstd::arithmetic::div_mod::lemma_fundamental_div_mod(len as int, ch as int);
    assert(frames <= n * frame) by (nonlinear_arith)
        requires
            ch * frames <= len,
            len <= n * block,
            block == frame * ch,
            ch > 0,
    ;
    assert(frames * m + lookahead * m <= (n + 1) * 960) by (nonlinear_arith)
        requires
            frames <= n * frame,
            lookahead <= frame,
            frame * m == 960,
    ;
}

/// The rates that the codec accepts are the multiples of 4 kHz, other than 4 kHz, that go into
/// 48 kHz.
pub proof fn law_opus_rates(rate: u32)
    ensures
        opus_rate(rate) <==> rate > 4_000 && rate % 4_000 == 0 && 48_000u32 % rate == 0,
{
    if rate > 48_000 {
        vstd::arithmetic::div_mod::lemma_small_mod(48_000, rate as nat);
    } else if rate > 4_000 && rate % 4_000 == 0 {
        assert(rate == 8_000 || rate == 12_000 || rate == 16_000 || rate == 20_000 || rate == 24_000 || rate == 28_000 || rate == 32_000 || rate == 36_000 || rate == 40_000 || rate == 44_000 || rate == 48_000);
        if rate == 8_000 {
            assert(48_000u32 % 8_000u32 == 0);
        } else if rate == 12_000 {
            assert(48_000u32 % 12_000u32 == 0);
        } else if rate == 16_000 {
            assert(48_000u32 % 16_000u32 == 0);
        } else if rate == 20_000 {
            assert(48_000u32 % 20_000u32 == 8000);
        } else if rate == 24_000 {
            assert(48_000u32 % 24_000u32 == 0);
        } else if rate == 28_000 {
            assert(48_000u32 % 28_000u32 == 20000);
        } else if rate == 32_000 {
            assert(48_000u32 % 32_000u32 == 16000);
        } else if rate == 36_000 {
            assert(48_000u32 % 36_000u32 == 12000);
        } else if rate == 40_000 {
            assert(48_000u32 % 40_000u32 == 8000);
        } else if rate == 44_000 {
            assert(48_000u32 % 44_000u32 == 4000);
        } else if rate == 48_000 {
            assert(48_000u32 % 48_000u32 == 0);
        }
    }
}

/// The clock counts whole 48 kHz samples, and never more than have passed.
pub proof fn law_ticks(n: nat, rate: u32)
    requires
        rate > 0,
    ensures
        ticks(n, rate) * rate <= n * 48_000 < (ticks(n, rate) + 1) * rate,
{
    let r = rate as int;
    let t = ticks(n, rate) as int;
    vstd::arithmetic::div_mod::lemma_fundamental_div_mod((n * 48_000) as int, r);
    vstd::arithmetic::div_mod::lemma_mod_bound((n * 48_000) as int, r);
    assert(t * r == r * t && (t + 1) * r == r * t + r) by (nonlinear_arith);
}

/// What the container is told of a recording: its channels and its rate; the codec delay and the
/// end of the recording after that delay, both as times on the 48 kHz clock; and 20 ms for every
/// packet.
pub proof fn law_stream(source: wav::WavData, lookahead: nat)
    requires
        opus_rate(source.rate),
        source.channels > 0,
        countable(source, lookahead),
        ticks(lookahead, source.rate) <= u16::MAX,
    ensures
        ({
            let s = stream_of(source, lookahead);
            let frames = source.samples.len() / (source.channels as nat);
            &&& source.channels <= 255 ==> s.channels == source.channels
            &&& s.input_rate == source.rate
            &&& s.pre_skip * source.rate == lookahead * 48_000
            &&& s.samples_per_packet == 960
            &&& s.final_granule * source.rate == (frames + lookahead) * 48_000
        }),
{
    let frames = source.samples.len() / (source.channels as nat);
    let (m, r) = (per_sample(source.rate), source.rate as nat);
    assert(r * m == 48_000) by {
        lemma_rate_divides(source.rate);
    }
    law_packet_duration(source, lookahead);
    law_clock_is_exact(frames, source.rate);
    law_clock_is_exact(lookahead, source.rate);
    assert((lookahead * m) * r == lookahead * 48_000 && (frames * m + lookahead * m) * r == (frames
        + lookahead) * 48_000) by (nonlinear_arith)
        requires
            r * m == 48_000,
    ;
}

/// A name is made of the stem, a dash, the bitrate in decimal and the end.
pub proof fn law_rated_name(stem: Seq<char>, kbps: i32, end: Seq<char>)
    ensures
        ({
            let name = rated(stem, kbps, end);
            let n = name.len() - end.len();
            &&& stem.len() + 1 < n
            &&& name.take(stem.len() as int) == stem
            &&& name[stem.len() as int] == '-'
            &&& text::number(name.subrange(stem.len() as int + 1, n)) == Some(kbps)
            &&& name.skip(n) == end
        }),
{
    reveal_strlit("-");
    let name = rated(stem, kbps, end);
    let n = name.len() - end.len();
    text::law_number_reads_back(kbps);
    text::lemma_signed(kbps as int);
    assert(name.take(stem.len() as int) =~= stem);
    assert(name.subrange(stem.len() as int + 1, n) =~= text::signed(kbps as int));
    assert(name.skip(n) =~= end);
}

proof fn lemma_says(front: Seq<char>, part: Seq<char>, back: Seq<char>)
    ensures
        report::says(front + part + back, part),
{
    let s = front + part + back;
    let at = front.len() as int;
    assert(s.subrange(at, at + part.len()) =~= part);
}

/// The last words name the copy of the input and the three files of the bitrate in question.
pub proof fn law_listening_names_the_files(stem: Seq<char>, low: i32)
    ensures
        report::says(listening(stem, low), stem + "-original.wav"@),
        report::says(listening(stem, low), rated(stem, low, "k.opus"@)),
        report::says(listening(stem, low), rated(stem, low, "k.wav"@)),
        report::says(listening(stem, low), rated(stem, low, "k-diff.wav"@)),
{
    reveal_strlit("-original.wav");
    reveal_strlit("k.opus");
    reveal_strlit("k.wav");
    reveal_strlit("k-diff.wav");
    reveal_strlit("-original.wav          the input\n  ffplay -autoexit out/");
    reveal_strlit("k.opus    the .opus file itself\n  afplay out/");
    reveal_strlit("k.wav              the same thing decoded to WAV\n  afplay out/");
    reveal_strlit("k-diff.wav         only what the codec discarded");
    let m = listening(stem, low);
    let open = "\nListen:\n  afplay out/"@;
    let copy = "-original.wav          the input\n  ffplay -autoexit out/"@;
    let opus = "k.opus    the .opus file itself\n  afplay out/"@;
    let wav = "k.wav              the same thing decoded to WAV\n  afplay out/"@;
    let diff = "k-diff.wav         only what the codec discarded"@;
    let (f1, f2, f3) = (rated(stem, low, opus), rated(stem, low, wav), rated(stem, low, diff));
    assert(copy =~= "-original.wav"@ + copy.skip(13));
    assert(opus =~= "k.opus"@ + opus.skip(6));
    assert(wav =~= "k.wav"@ + wav.skip(5));
    assert(diff =~= "k-diff.wav"@ + diff.skip(10));
    assert(f1 =~= rated(stem, low, "k.opus"@) + opus.skip(6));
    assert(f2 =~= rated(stem, low, "k.wav"@) + wav.skip(5));
    assert(f3 =~= rated(stem, low, "k-diff.wav"@) + diff.skip(10));
    lemma_says(open, stem + "-original.wav"@, copy.skip(13) + f1 + f2 + f3);
    assert(m =~= open + (stem + "-original.wav"@) + (copy.skip(13) + f1 + f2 + f3));
    lemma_says(open + stem + copy, rated(stem, low, "k.opus"@), opus.skip(6) + f2 + f3);
    assert(m =~= open + stem + copy + rated(stem, low, "k.opus"@) + (opus.skip(6) + f2 + f3));
    lemma_says(open + stem + copy + f1, rated(stem, low, "k.wav"@), wav.skip(5) + f3);
    assert(m =~= open + stem + copy + f1 + rated(stem, low, "k.wav"@) + (wav.skip(5) + f3));
    lemma_says(open + stem + copy + f1 + f2, rated(stem, low, "k-diff.wav"@), diff.skip(10));
    assert(m =~= open + stem + copy + f1 + f2 + rated(stem, low, "k-diff.wav"@) + diff.skip(10));
}

/// A rate that is refused is named first.
pub proof fn law_refusal_names_the_rate(rate: u32)
    ensures
        text::decimal(rate as nat).len() < rate_refused(rate).len(),
        rate_refused(rate).take(text::decimal(rate as nat).len() as int) == text::decimal(
            rate as nat,
        ),
        report::says(rate_refused(rate), "8000, 12000, 16000, 24000, 48000"@),
{
    reveal_strlit(
        " Hz is not an Opus sample rate (8000, 12000, 16000, 24000, 48000).\n       Convert first, e.g.\n         afconvert -f WAVE -d LEI16@48000 in.wav out.wav      (macOS)\n         ffmpeg -i in.wav -ar 48000 -c:a pcm_s16le out.wav",
    );
    reveal_strlit("8000, 12000, 16000, 24000, 48000");
    let d = text::decimal(rate as nat);
    let m = rate_refused(rate);
    let rest = m.skip(d.len() as int);
    assert(m.take(d.len() as int) =~= d);
    let part = "8000, 12000, 16000, 24000, 48000"@;
    assert(rest.subrange(32, 64) =~= part);
    lemma_says(d + rest.take(32), part, rest.skip(64));
    assert(m =~= d + rest.take(32) + part + rest.skip(64));
}

/// Recordings of ordinary size meet every limit: up to two channels at a rate that the codec
/// accepts, and less than four gigabytes.
pub proof fn law_ordinary_recordings_fit(source: wav::WavData, lookahead: nat)
    requires
        opus_rate(source.rate),
        source.channels == 1 || source.channels == 2,
        36 + 2 * source.samples.len() <= u32::MAX,
        lookahead <= u32::MAX,
    ensures
        wav_fits(source),
        countable(source, lookahead),
{
    let frames = source.samples.len() / (source.channels as nat);
    assert(frames <= source.samples.len()) by {
        vstd::arithmetic::div_mod::lemma_div_is_ordered_by_denominator(
            source.samples.len() as int,
            1,
            source.channels as int,
        );
        assert(source.samples.len() / 1 == source.samples.len());
    }
    law_ticks(frames, source.rate);
    law_ticks(lookahead, source.rate);
    let r = source.rate as int;
    assert(ticks(frames, source.rate) <= frames * 48_000 && ticks(lookahead, source.rate)
        <= lookahead * 48_000) by (nonlinear_arith)
        requires
            r >= 1,
            ticks(frames, source.rate) * r <= frames * 48_000,
            ticks(lookahead, source.rate) * r <= lookahead * 48_000,
    ;
}

} // verus!
