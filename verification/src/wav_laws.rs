//! What holds of every `.wav` file, told by its bytes: which files are taken and what they hold,
//! and where everything stands in a file that is written.

use crate::wav::{Chunk, ReadError, WavData};
use crate::{bytes, report, text, wav};
use vstd::prelude::*;
use vstd::string::*;

verus! {

/// Two bytes of a file, as a number.
#[verifier::opaque]
pub open spec fn two(b: Seq<u8>, at: int) -> int {
    b[at] + 0x100 * b[at + 1]
}

/// Four bytes of a file, as a number.
#[verifier::opaque]
pub open spec fn four(b: Seq<u8>, at: int) -> int {
    b[at] + 0x100 * b[at + 1] + 0x1_0000 * b[at + 2] + 0x100_0000 * b[at + 3]
}

proof fn lemma_two(b: Seq<u8>, at: int)
    requires
        0 <= at <= b.len() - 2,
    ensures
        bytes::le_value(b.subrange(at, at + 2)) == two(b, at),
        0 <= two(b, at) <= 0xFFFF,
{
    reveal(two);
    reveal_with_fuel(bytes::le_value, 3);
    let s = b.subrange(at, at + 2);
    assert(s.drop_first() =~= seq![b[at + 1]]);
    assert(s.drop_first().drop_first() =~= Seq::<u8>::empty());
}

proof fn lemma_four(b: Seq<u8>, at: int)
    requires
        0 <= at <= b.len() - 4,
    ensures
        bytes::le_value(b.subrange(at, at + 4)) == four(b, at),
        0 <= four(b, at) <= 0xFFFF_FFFF,
{
    reveal(four);
    reveal_with_fuel(bytes::le_value, 5);
    let s = b.subrange(at, at + 4);
    assert(s.drop_first() =~= seq![b[at + 1], b[at + 2], b[at + 3]]);
    assert(s.drop_first().drop_first() =~= seq![b[at + 2], b[at + 3]]);
    assert(s.drop_first().drop_first().drop_first() =~= seq![b[at + 3]]);
    assert(s.drop_first().drop_first().drop_first().drop_first() =~= Seq::<u8>::empty());
}

/// Every pair of data bytes is one sample, the low byte first, in two's complement; a single
/// byte left over is none.
pub proof fn law_every_pair_is_a_sample(data: Seq<u8>, i: int)
    requires
        0 <= i < data.len() / 2,
    ensures
        wav::pcm(data).len() == data.len() / 2,
        (wav::pcm(data)[i] - two(data, 2 * i)) % 0x1_0000 == 0,
{
    lemma_two(data, 2 * i);
}

/// Which recordings are taken: the format chunk has at least 16 bytes, says PCM or extensible,
/// 16 bits, and one or two channels. All that is refused is told apart by the first of these
/// that fails.
pub proof fn law_what_is_taken(fmt: Seq<u8>, data: Seq<u8>)
    ensures
        fmt.len() < 16 ==> wav::decoded(fmt, data) == Err::<WavData, ReadError>(
            ReadError::ShortFmt,
        ),
        fmt.len() >= 16 ==> {
            let pcm = two(fmt, 0) == 1 || two(fmt, 0) == 0xFFFE;
            let wide = two(fmt, 14) == 16;
            let few = two(fmt, 2) == 1 || two(fmt, 2) == 2;
            match wav::decoded(fmt, data) {
                Ok(w) => {
                    &&& pcm && wide && few
                    &&& w.channels == two(fmt, 2)
                    &&& w.rate == four(fmt, 4)
                    &&& w.samples.len() == data.len() / 2
                    &&& forall|i: int|
                        0 <= i < data.len() / 2 ==> (#[trigger] w.samples[i] - two(data, 2 * i))
                            % 0x1_0000 == 0
                },
                Err(ReadError::Format(n)) => !pcm && n == two(fmt, 0),
                Err(ReadError::Bits(n)) => pcm && !wide && n == two(fmt, 14),
                Err(ReadError::Channels(n)) => pcm && wide && !few && n == two(fmt, 2),
                Err(_) => false,
            }
        },
{
    if fmt.len() >= 16 {
        lemma_two(fmt, 0);
        lemma_two(fmt, 2);
        lemma_two(fmt, 14);
        lemma_four(fmt, 4);
        let w = wav::pcm(data);
        assert forall|i: int| 0 <= i < data.len() / 2 implies (#[trigger] w[i] - two(data, 2 * i))
            % 0x1_0000 == 0 by {
            law_every_pair_is_a_sample(data, i);
        }
    }
}

/// What follows the first 16 bytes of a format chunk changes nothing: files with an extension
/// there, as most recorders write them, read the same.
pub proof fn law_extension_changes_nothing(fmt: Seq<u8>, tail: Seq<u8>, data: Seq<u8>)
    requires
        fmt.len() >= 16,
    ensures
        wav::decoded(fmt + tail, data) == wav::decoded(fmt, data),
{
    let long = fmt + tail;
    assert(long.subrange(0, 2) =~= fmt.subrange(0, 2));
    assert(long.subrange(2, 4) =~= fmt.subrange(2, 4));
    assert(long.subrange(4, 8) =~= fmt.subrange(4, 8));
    assert(long.subrange(14, 16) =~= fmt.subrange(14, 16));
}

/// The chunks of a file follow one another: four bytes of name, four of size, the body, and one
/// more byte, whatever it holds, after an odd size.
pub proof fn law_chunk_walk(
    id: Seq<u8>,
    size: Seq<u8>,
    body: Seq<u8>,
    pad: Seq<u8>,
    rest: Seq<u8>,
)
    requires
        id.len() == 4,
        size.len() == 4,
        four(size, 0) == body.len(),
        pad.len() == body.len() % 2,
    ensures
        wav::chunks(id + size + body + pad + rest) == seq![Chunk { id, body }] + wav::chunks(rest),
{
    let b = id + size + body + pad + rest;
    assert(b.subrange(4, 8) =~= size);
    lemma_four(size, 0);
    assert(size.subrange(0, 4) =~= size);
    assert(wav::stated_size(b) == body.len());
    assert(wav::front_chunk(b).id =~= id);
    assert(wav::front_chunk(b).body =~= body);
    assert(b.skip(8 + body.len() as int + pad.len() as int) =~= rest);
}

/// A chunk that runs past the end of the file is the last one, and has what is there.
pub proof fn law_last_chunk_is_cut(id: Seq<u8>, size: Seq<u8>, body: Seq<u8>)
    requires
        id.len() == 4,
        size.len() == 4,
        four(size, 0) >= body.len(),
    ensures
        wav::chunks(id + size + body) == seq![Chunk { id, body }],
{
    let b = id + size + body;
    assert(b.subrange(4, 8) =~= size);
    lemma_four(size, 0);
    assert(size.subrange(0, 4) =~= size);
    assert(wav::front_chunk(b).id =~= id);
    assert(wav::front_chunk(b).body =~= body);
    let rest = b.skip(wav::at_most(wav::chunk_span(b), b.len() as int));
    assert(rest =~= Seq::empty());
    assert(wav::chunks(rest) =~= Seq::empty());
    assert(wav::chunks(b) =~= seq![Chunk { id, body }]);
}

/// Fewer than eight bytes are no chunk.
pub proof fn law_too_short_for_a_chunk(b: Seq<u8>)
    requires
        b.len() < 8,
    ensures
        wav::chunks(b).len() == 0,
{
}

/// Of several chunks with one name the last counts.
pub proof fn law_last_chunk_counts(cs: Seq<Chunk>, id: Seq<u8>)
    ensures
        match wav::last_body(cs, id) {
            Some(body) => exists|i: int|
                0 <= i < cs.len() && (#[trigger] cs[i]).id == id && cs[i].body == body && forall|
                    j: int,
                |
                    i < j < cs.len() ==> (#[trigger] cs[j]).id != id,
            None => forall|j: int| 0 <= j < cs.len() ==> (#[trigger] cs[j]).id != id,
        },
    decreases cs.len(),
{
    if cs.len() > 0 {
        let before = cs.drop_last();
        assert(cs[cs.len() - 1] == cs.last());
        if cs.last().id != id {
            law_last_chunk_counts(before, id);
            match wav::last_body(before, id) {
                Some(body) => {
                    let i = choose|i: int|
                        0 <= i < before.len() && (#[trigger] before[i]).id == id && before[i].body
                            == body && forall|j: int|
                            i < j < before.len() ==> (#[trigger] before[j]).id != id;
                    assert(cs[i] == before[i]);
                    assert forall|j: int| i < j < cs.len() implies (#[trigger] cs[j]).id != id by {
                        if j < before.len() {
                            assert(before[j] == cs[j]);
                        }
                    }
                },
                None => {
                    assert forall|j: int| 0 <= j < cs.len() implies (#[trigger] cs[j]).id != id by {
                        if j < before.len() {
                            assert(before[j] == cs[j]);
                        }
                    }
                },
            }
        }
    }
}

proof fn lemma_names()
    ensures
        bytes::ascii("RIFF"@) == seq![0x52u8, 0x49, 0x46, 0x46],
        bytes::ascii("WAVE"@) == seq![0x57u8, 0x41, 0x56, 0x45],
        bytes::ascii("fmt "@) == seq![0x66u8, 0x6D, 0x74, 0x20],
        bytes::ascii("data"@) == seq![0x64u8, 0x61, 0x74, 0x61],
        bytes::ascii("WAVEfmt "@) == seq![0x57u8, 0x41, 0x56, 0x45, 0x66, 0x6D, 0x74, 0x20],
{
    reveal_strlit("RIFF");
    reveal_strlit("WAVE");
    reveal_strlit("fmt ");
    reveal_strlit("data");
    reveal_strlit("WAVEfmt ");
    assert(bytes::ascii("RIFF"@) =~= seq![0x52u8, 0x49, 0x46, 0x46]);
    assert(bytes::ascii("WAVE"@) =~= seq![0x57u8, 0x41, 0x56, 0x45]);
    assert(bytes::ascii("fmt "@) =~= seq![0x66u8, 0x6D, 0x74, 0x20]);
    assert(bytes::ascii("data"@) =~= seq![0x64u8, 0x61, 0x74, 0x61]);
    assert(bytes::ascii("WAVEfmt "@) =~= seq![
        0x57u8,
        0x41,
        0x56,
        0x45,
        0x66,
        0x6D,
        0x74,
        0x20,
    ]);
}

/// What a file is: it starts with `RIFF`, a size that is not looked at, and `WAVE`; what it holds
/// is told by its last `fmt ` and its last `data` chunk, wherever they stand.
pub proof fn law_what_a_file_holds(size: Seq<u8>, rest: Seq<u8>)
    requires
        size.len() == 4,
    ensures
        ({
            let b = seq![0x52u8, 0x49, 0x46, 0x46] + size + seq![0x57u8, 0x41, 0x56, 0x45] + rest;
            let cs = wav::chunks(rest);
            match (
                wav::last_body(cs, seq![0x66u8, 0x6D, 0x74, 0x20]),
                wav::last_body(cs, seq![0x64u8, 0x61, 0x74, 0x61]),
            ) {
                (None, _) => wav::parsed(b) == Err::<WavData, ReadError>(ReadError::NoFmt),
                (Some(_), None) => wav::parsed(b) == Err::<WavData, ReadError>(ReadError::NoData),
                (Some(fmt), Some(data)) => wav::parsed(b) == wav::decoded(fmt, data),
            }
        }),
{
    let b = seq![0x52u8, 0x49, 0x46, 0x46] + size + seq![0x57u8, 0x41, 0x56, 0x45] + rest;
    lemma_names();
    assert(b.take(4) =~= seq![0x52u8, 0x49, 0x46, 0x46]);
    assert(b.subrange(8, 12) =~= seq![0x57u8, 0x41, 0x56, 0x45]);
    assert(b.skip(12) =~= rest);
}

/// Nothing else is a file of this kind.
pub proof fn law_other_files_are_refused(b: Seq<u8>)
    ensures
        wav::parsed(b) == Err::<WavData, ReadError>(ReadError::NotWave) <==> (b.len() < 12 || !(b[0]
            == 0x52 && b[1] == 0x49 && b[2] == 0x46 && b[3] == 0x46 && b[8] == 0x57 && b[9] == 0x41
            && b[10] == 0x56 && b[11] == 0x45)),
{
    lemma_names();
    if b.len() >= 12 {
        assert((b.take(4) =~= seq![0x52u8, 0x49, 0x46, 0x46]) == (b[0] == 0x52 && b[1] == 0x49
            && b[2] == 0x46 && b[3] == 0x46)) by {
            let t = b.take(4);
            assert(t[0] == b[0] && t[1] == b[1] && t[2] == b[2] && t[3] == b[3]);
        }
        assert((b.subrange(8, 12) =~= seq![0x57u8, 0x41, 0x56, 0x45]) == (b[8] == 0x57 && b[9]
            == 0x41 && b[10] == 0x56 && b[11] == 0x45)) by {
            let t = b.subrange(8, 12);
            assert(t[0] == b[8] && t[1] == b[9] && t[2] == b[10] && t[3] == b[11]);
        }
    }
}

/// A file with a format chunk of at least 16 bytes that says PCM or extensible, 16 bits and one
/// or two channels is taken, and gives every sample of its data.
pub proof fn law_good_files_are_taken(size: Seq<u8>, rest: Seq<u8>, fmt: Seq<u8>, data: Seq<u8>)
    requires
        size.len() == 4,
        wav::last_body(wav::chunks(rest), seq![0x66u8, 0x6D, 0x74, 0x20]) == Some(fmt),
        wav::last_body(wav::chunks(rest), seq![0x64u8, 0x61, 0x74, 0x61]) == Some(data),
        fmt.len() >= 16,
        two(fmt, 0) == 1 || two(fmt, 0) == 0xFFFE,
        two(fmt, 2) == 1 || two(fmt, 2) == 2,
        two(fmt, 14) == 16,
    ensures
        ({
            let b = seq![0x52u8, 0x49, 0x46, 0x46] + size + seq![0x57u8, 0x41, 0x56, 0x45] + rest;
            wav::parsed(b) matches Ok(w) && w.rate == four(fmt, 4) && w.channels == two(fmt, 2)
                && w.samples.len() == data.len() / 2
        }),
{
    law_what_a_file_holds(size, rest);
    law_what_is_taken(fmt, data);
}

proof fn lemma_le2(x: nat, b: Seq<u8>, at: int)
    requires
        0 <= at <= b.len() - 2,
        b.subrange(at, at + 2) == bytes::le(x, 2),
    ensures
        two(b, at) == x % 0x1_0000,
{
    lemma_two(b, at);
    bytes::lemma_le_limits();
    bytes::lemma_le_mod(x, 2);
    bytes::law_le_round_trip(x % 0x1_0000, 2);
}

proof fn lemma_le4(x: nat, b: Seq<u8>, at: int)
    requires
        0 <= at <= b.len() - 4,
        b.subrange(at, at + 4) == bytes::le(x, 4),
    ensures
        four(b, at) == x % 0x1_0000_0000,
{
    lemma_four(b, at);
    bytes::lemma_le_limits();
    bytes::lemma_le_mod(x, 4);
    bytes::law_le_round_trip(x % 0x1_0000_0000, 4);
}

/// The body of the format chunk, field by field.
#[verifier::spinoff_prover]
proof fn lemma_fmt_fields(w: WavData)
    ensures
        ({
            let f = wav::fmt_body(w);
            &&& f.len() == 16
            &&& two(f, 0) == 1
            &&& two(f, 2) == w.channels
            &&& four(f, 4) == w.rate
            &&& four(f, 8) == (w.rate * (2 * w.channels)) % 0x1_0000_0000
            &&& two(f, 12) == (2 * w.channels) % 0x1_0000
            &&& two(f, 14) == 16
        }),
{
    let f = wav::fmt_body(w);
    let byte_rate = w.rate as nat * (2 * w.channels as nat);
    bytes::lemma_le_len(1, 2);
    bytes::lemma_le_len(w.channels as nat, 2);
    bytes::lemma_le_len(w.rate as nat, 4);
    bytes::lemma_le_len(byte_rate, 4);
    bytes::lemma_le_len(2 * w.channels as nat, 2);
    bytes::lemma_le_len(16, 2);
    assert(f.subrange(0, 2) =~= bytes::le(1, 2));
    assert(f.subrange(2, 4) =~= bytes::le(w.channels as nat, 2));
    assert(f.subrange(4, 8) =~= bytes::le(w.rate as nat, 4));
    assert(f.subrange(8, 12) =~= bytes::le(byte_rate, 4));
    assert(f.subrange(12, 14) =~= bytes::le(2 * w.channels as nat, 2));
    assert(f.subrange(14, 16) =~= bytes::le(16, 2));
    lemma_le2(1, f, 0);
    lemma_le2(w.channels as nat, f, 2);
    lemma_le4(w.rate as nat, f, 4);
    lemma_le4(byte_rate, f, 8);
    lemma_le2(2 * w.channels as nat, f, 12);
    lemma_le2(16, f, 14);
    assert(byte_rate == w.rate * (2 * w.channels));
}

proof fn lemma_fmt_len(w: WavData)
    ensures
        wav::fmt_body(w).len() == 16,
{
    lemma_fmt_fields(w);
}

/// Samples stand in a file one after the other, two bytes each, the low byte first.
pub proof fn law_samples_in_a_file(samples: Seq<i16>, i: int)
    requires
        0 <= i < samples.len(),
    ensures
        wav::pcm_bytes(samples).len() == 2 * samples.len(),
        (two(wav::pcm_bytes(samples), 2 * i) - samples[i]) % 0x1_0000 == 0,
    decreases samples.len(),
{
    reveal(two);
    let init = samples.drop_last();
    let w = bytes::sample_word(samples.last());
    let b = wav::pcm_bytes(samples);
    bytes::lemma_le_len(w as nat, 2);
    lemma_pcm_len(init);
    if i < init.len() {
        law_samples_in_a_file(init, i);
        assert(b[2 * i] == wav::pcm_bytes(init)[2 * i]);
        assert(b[2 * i + 1] == wav::pcm_bytes(init)[2 * i + 1]);
    } else {
        assert(b.subrange(2 * i, 2 * i + 2) =~= bytes::le(w as nat, 2));
        lemma_le2(w as nat, b, 2 * i);
        bytes::law_sample_word_congruent(samples.last(), w);
    }
}

proof fn lemma_pcm_len(samples: Seq<i16>)
    ensures
        wav::pcm_bytes(samples).len() == 2 * samples.len(),
    decreases samples.len(),
{
    if samples.len() > 0 {
        lemma_pcm_len(samples.drop_last());
        bytes::lemma_le_len(bytes::sample_word(samples.last()) as nat, 2);
    }
}

/// Where everything stands in a file: the names, the sizes, which agree with the length of the
/// file, the format, channels, rate, byte rate, block size and bits, and then the samples.
#[verifier::spinoff_prover]
pub proof fn law_file_layout(w: WavData)
    requires
        36 + 2 * w.samples.len() <= u32::MAX,
        w.rate * (2 * w.channels) <= u32::MAX,
        w.channels < 0x8000,
    ensures
        ({
            let b = wav::file_bytes(w);
            &&& b.len() == 44 + 2 * w.samples.len()
            &&& b.take(4) == seq![0x52u8, 0x49, 0x46, 0x46]
            &&& four(b, 4) == b.len() - 8
            &&& b.subrange(8, 16) == seq![0x57u8, 0x41, 0x56, 0x45, 0x66, 0x6D, 0x74, 0x20]
            &&& four(b, 16) == 16
            &&& two(b, 20) == 1
            &&& two(b, 22) == w.channels
            &&& four(b, 24) == w.rate
            &&& four(b, 28) == w.rate * 2 * w.channels
            &&& two(b, 32) == 2 * w.channels
            &&& two(b, 34) == 16
            &&& b.subrange(36, 40) == seq![0x64u8, 0x61, 0x74, 0x61]
            &&& four(b, 40) == b.len() - 44
            &&& forall|i: int|
                0 <= i < w.samples.len() ==> (two(b, 44 + 2 * i) - #[trigger] w.samples[i])
                    % 0x1_0000 == 0
        }),
{
    let b = wav::file_bytes(w);
    let f = wav::fmt_body(w);
    let n = 2 * w.samples.len();
    let p = wav::pcm_bytes(w.samples);
    lemma_names();
    lemma_fmt_len(w);
    lemma_pcm_len(w.samples);
    bytes::lemma_le_len(36 + n, 4);
    bytes::lemma_le_len(16, 4);
    bytes::lemma_le_len(n, 4);
    lemma_parts(
        bytes::ascii("RIFF"@),
        bytes::le(36 + n, 4),
        bytes::ascii("WAVEfmt "@),
        bytes::le(16, 4),
        f,
        bytes::ascii("data"@),
        bytes::le(n, 4),
        p,
    );
    lemma_numbers(b, w);
    lemma_tail(b, p, w.samples);
}

#[verifier::spinoff_prover]
proof fn lemma_numbers(b: Seq<u8>, w: WavData)
    requires
        36 + 2 * w.samples.len() <= u32::MAX,
        w.rate * (2 * w.channels) <= u32::MAX,
        w.channels < 0x8000,
        b.len() == 44 + 2 * w.samples.len(),
        b.subrange(4, 8) == bytes::le(36 + 2 * w.samples.len(), 4),
        b.subrange(16, 20) == bytes::le(16, 4),
        forall|k: int| 0 <= k < 16 ==> #[trigger] b[20 + k] == wav::fmt_body(w)[k],
        b.subrange(40, 44) == bytes::le(2 * w.samples.len(), 4),
    ensures
        four(b, 4) == b.len() - 8,
        four(b, 16) == 16,
        two(b, 20) == 1,
        two(b, 22) == w.channels,
        four(b, 24) == w.rate,
        four(b, 28) == w.rate * 2 * w.channels,
        two(b, 32) == 2 * w.channels,
        two(b, 34) == 16,
        four(b, 40) == b.len() - 44,
{
    let n = 2 * w.samples.len();
    lemma_fmt_fields(w);
    lemma_le4(36 + n, b, 4);
    lemma_le4(16, b, 16);
    lemma_shifted(b, wav::fmt_body(w), 20);
    lemma_le4(n, b, 40);
    assert(w.rate * (2 * w.channels) == w.rate * 2 * w.channels) by (nonlinear_arith);
}

proof fn lemma_tail(b: Seq<u8>, p: Seq<u8>, samples: Seq<i16>)
    requires
        b.len() >= 44,
        b.skip(44) == p,
        p == wav::pcm_bytes(samples),
    ensures
        forall|i: int|
            0 <= i < samples.len() ==> (two(b, 44 + 2 * i) - #[trigger] samples[i]) % 0x1_0000 == 0,
{
    reveal(two);
    assert forall|i: int| 0 <= i < samples.len() implies (two(b, 44 + 2 * i)
        - #[trigger] samples[i]) % 0x1_0000 == 0 by {
        law_samples_in_a_file(samples, i);
        assert(b.skip(44)[2 * i] == b[44 + 2 * i]);
        assert(b.skip(44)[2 * i + 1] == b[44 + 2 * i + 1]);
    }
}

/// Where the parts of a file lie.
#[verifier::spinoff_prover]
proof fn lemma_parts(
    riff: Seq<u8>,
    size: Seq<u8>,
    names: Seq<u8>,
    fmt_size: Seq<u8>,
    fmt: Seq<u8>,
    data: Seq<u8>,
    data_size: Seq<u8>,
    p: Seq<u8>,
)
    requires
        riff.len() == 4,
        size.len() == 4,
        names.len() == 8,
        fmt_size.len() == 4,
        fmt.len() == 16,
        data.len() == 4,
        data_size.len() == 4,
    ensures
        ({
            let b = riff + size + names + fmt_size + fmt + data + data_size + p;
            &&& b.len() == 44 + p.len()
            &&& b.take(4) == riff
            &&& b.subrange(4, 8) == size
            &&& b.subrange(8, 16) == names
            &&& b.subrange(16, 20) == fmt_size
            &&& forall|k: int| 0 <= k < 16 ==> #[trigger] b[20 + k] == fmt[k]
            &&& b.subrange(36, 40) == data
            &&& b.subrange(40, 44) == data_size
            &&& b.skip(44) == p
        }),
{
    let b = riff + size + names + fmt_size + fmt + data + data_size + p;
    assert(b.take(4) =~= riff);
    assert(b.subrange(4, 8) =~= size);
    assert(b.subrange(8, 16) =~= names);
    assert(b.subrange(16, 20) =~= fmt_size);
    assert(b.subrange(36, 40) =~= data);
    assert(b.subrange(40, 44) =~= data_size);
    assert(b.skip(44) =~= p);
}

proof fn lemma_shifted(b: Seq<u8>, f: Seq<u8>, at: int)
    requires
        f.len() == 16,
        forall|k: int| 0 <= k < 16 ==> #[trigger] b[at + k] == f[k],
    ensures
        two(b, at) == two(f, 0),
        two(b, at + 2) == two(f, 2),
        four(b, at + 4) == four(f, 4),
        four(b, at + 8) == four(f, 8),
        two(b, at + 12) == two(f, 12),
        two(b, at + 14) == two(f, 14),
{
    reveal(two);
    reveal(four);
    assert(b[at + 0] == f[0] && b[at + 1] == f[1] && b[at + 2] == f[2] && b[at + 3] == f[3]);
    assert(b[at + 4] == f[4] && b[at + 5] == f[5] && b[at + 6] == f[6] && b[at + 7] == f[7]);
    assert(b[at + 8] == f[8] && b[at + 9] == f[9] && b[at + 10] == f[10] && b[at + 11] == f[11]);
    assert(b[at + 12] == f[12] && b[at + 13] == f[13] && b[at + 14] == f[14] && b[at + 15]
        == f[15]);
}

/// A refusal names what it is about: the file, or the number that is wrong.
pub proof fn law_refusals_name_their_cause(path: Seq<char>, n: u16)
    ensures
        ReadError::NotWave.told(path).take(path.len() as int) == path,
        report::says(ReadError::Format(n).told(path), "format "@ + text::decimal(n as nat)),
        report::says(ReadError::Bits(n).told(path), text::decimal(n as nat) + "-bit"@),
        report::says(ReadError::Channels(n).told(path), text::decimal(n as nat) + " channels"@),
{
    let d = text::decimal(n as nat);
    assert(ReadError::NotWave.told(path).take(path.len() as int) =~= path);
    let f = ReadError::Format(n).told(path);
    assert(f.subrange(0, 0int + ("format "@ + d).len()) =~= "format "@ + d);
    let b = ReadError::Bits(n).told(path);
    reveal_strlit("-bit");
    reveal_strlit("-bit samples; this demo handles 16-bit PCM only");
    assert(b.subrange(0, 0int + (d + "-bit"@).len()) =~= d + "-bit"@);
    let c = ReadError::Channels(n).told(path);
    reveal_strlit(" channels");
    reveal_strlit(" channels; Opus here handles mono or stereo");
    assert(c.subrange(0, 0int + (d + " channels"@).len()) =~= d + " channels"@);
}

} // verus!
