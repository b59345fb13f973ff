//! What holds of a whole session, from opening it to its result, whatever the codec answers.

use crate::trip::Stage;
use crate::{trip, wav};
use vstd::prelude::*;

verus! {

/// A session that has just been opened.
pub open spec fn opened(source: wav::WavData, kbps: i32) -> trip::SessionData {
    trip::SessionData {
        stage: Stage::Encoder,
        source,
        kbps,
        lookahead: 0,
        packets: Seq::empty(),
        output: Seq::empty(),
    }
}

/// Where a session stands after some replies.
pub open spec fn after(
    s: trip::SessionData,
    replies: Seq<trip::ReplyData>,
) -> trip::SessionData
    decreases replies.len(),
{
    if replies.len() == 0 {
        s
    } else {
        after(s, replies.drop_last()).next(replies.last()).0
    }
}

/// What a session asks for after some replies.
pub open spec fn asked(s: trip::SessionData, replies: Seq<trip::ReplyData>) -> trip::StepData {
    after(s, replies.drop_last()).next(replies.last()).1
}

/// The replies of a codec that is set up without trouble, reports the delay `delay`, and then
/// turns `k` frames into packets and these into samples.
pub open spec fn replies(
    delay: nat,
    packets: Seq<Seq<u8>>,
    pcm: Seq<Seq<i16>>,
    k: nat,
) -> Seq<trip::ReplyData>
    decreases k,
{
    if k == 0 {
        seq![
            trip::ReplyData::Ready,
            trip::ReplyData::Ready,
            trip::ReplyData::Ready,
            trip::ReplyData::Lookahead(delay as int),
            trip::ReplyData::Ready,
        ]
    } else {
        replies(delay, packets, pcm, (k - 1) as nat).push(
            trip::ReplyData::Packet(packets[k - 1]),
        ).push(trip::ReplyData::Pcm(pcm[k - 1]))
    }
}

/// Stretches of samples, end to end.
pub open spec fn spliced(pcm: Seq<Seq<i16>>) -> Seq<i16>
    decreases pcm.len(),
{
    if pcm.len() == 0 {
        Seq::empty()
    } else {
        spliced(pcm.drop_last()) + pcm.last()
    }
}

proof fn lemma_step(
    s: trip::SessionData,
    rs: Seq<trip::ReplyData>,
    r: trip::ReplyData,
)
    ensures
        after(s, rs.push(r)) == after(s, rs).next(r).0,
        asked(s, rs.push(r)) == after(s, rs).next(r).1,
{
    assert(rs.push(r).drop_last() =~= rs);
}

proof fn lemma_set_up(source: wav::WavData, kbps: i32, delay: nat)
    ensures
        ({
            let s = opened(source, kbps);
            let rs = replies(delay, Seq::empty(), Seq::empty(), 0);
            let ready = trip::SessionData { stage: Stage::Packet, lookahead: delay, ..s };
            &&& after(s, rs) == ready
            &&& asked(s, rs) == ready.next_frame()
        }),
{
    let s = opened(source, kbps);
    let r = trip::ReplyData::Ready;
    let l = trip::ReplyData::Lookahead(delay as int);
    let e = Seq::<trip::ReplyData>::empty();
    lemma_step(s, e, r);
    lemma_step(s, e.push(r), r);
    lemma_step(s, e.push(r).push(r), r);
    lemma_step(s, e.push(r).push(r).push(r), l);
    lemma_step(s, e.push(r).push(r).push(r).push(l), r);
    assert(e.push(r).push(r).push(r).push(l).push(r) =~= replies(
        delay,
        Seq::empty(),
        Seq::empty(),
        0,
    ));
}

/// Where a session stands after `k` frames have been through.
pub open spec fn underway(
    source: wav::WavData,
    kbps: i32,
    delay: nat,
    packets: Seq<Seq<u8>>,
    pcm: Seq<Seq<i16>>,
    k: nat,
) -> trip::SessionData {
    trip::SessionData {
        stage: Stage::Packet,
        source,
        kbps,
        lookahead: delay,
        packets: packets.take(k as int),
        output: spliced(pcm.take(k as int)),
    }
}

/// The encoder is given the frames of the recording one after the other, the silent one last,
/// whatever packets and samples come back; and what the decoder is given is the packet that
/// the encoder made of the frame.
pub proof fn law_frames_in_order(
    source: wav::WavData,
    kbps: i32,
    delay: nat,
    packets: Seq<Seq<u8>>,
    pcm: Seq<Seq<i16>>,
    k: nat,
)
    requires
        k <= opened(source, kbps).frames(),
        k <= packets.len(),
        k <= pcm.len(),
    ensures
        ({
            let s = opened(source, kbps);
            let rs = replies(delay, packets, pcm, k);
            &&& after(s, rs) == underway(source, kbps, delay, packets, pcm, k)
            &&& asked(s, rs) == (trip::StepData::Encode {
                pcm: trip::block_at(source.samples, s.block(), k),
                limit: trip::PACKET_LIMIT,
            })
            &&& forall|p: Seq<u8>|
                asked(s, #[trigger] rs.push(trip::ReplyData::Packet(p))) == trip::StepData::Decode(p)
        }),
    decreases k,
{
    let s = opened(source, kbps);
    let rs = replies(delay, packets, pcm, k);
    if k == 0 {
        lemma_set_up(source, kbps, delay);
        assert(packets.take(0) =~= Seq::empty());
        assert(pcm.take(0) =~= Seq::empty());
    } else {
        let j = (k - 1) as nat;
        law_frames_in_order(source, kbps, delay, packets, pcm, j);
        lemma_round(source, kbps, delay, packets, pcm, j);
    }
    assert forall|p: Seq<u8>|
        asked(s, #[trigger] rs.push(trip::ReplyData::Packet(p))) == trip::StepData::Decode(p) by {
        lemma_step(s, rs, trip::ReplyData::Packet(p));
    }
}

/// One more frame.
proof fn lemma_round(
    source: wav::WavData,
    kbps: i32,
    delay: nat,
    packets: Seq<Seq<u8>>,
    pcm: Seq<Seq<i16>>,
    j: nat,
)
    requires
        j < packets.len(),
        j < pcm.len(),
        after(opened(source, kbps), replies(delay, packets, pcm, j)) == underway(
            source,
            kbps,
            delay,
            packets,
            pcm,
            j,
        ),
    ensures
        ({
            let s = opened(source, kbps);
            let now = underway(source, kbps, delay, packets, pcm, j + 1);
            let rs = replies(delay, packets, pcm, j + 1);
            &&& after(s, rs) == now.onward().0
            &&& asked(s, rs) == now.onward().1
        }),
{
    let s = opened(source, kbps);
    let rs = replies(delay, packets, pcm, j);
    let p = trip::ReplyData::Packet(packets[j as int]);
    let d = trip::ReplyData::Pcm(pcm[j as int]);
    lemma_step(s, rs, p);
    lemma_step(s, rs.push(p), d);
    assert(packets.take(j as int + 1) =~= packets.take(j as int).push(packets[j as int]));
    assert(pcm.take(j as int + 1).drop_last() =~= pcm.take(j as int));
    let mid = after(s, rs.push(p));
    let now = underway(source, kbps, delay, packets, pcm, j + 1);
    assert(trip::SessionData { output: mid.output + pcm[j as int], ..mid } == now.at(Stage::Pcm));
    assert(now.at(Stage::Pcm).onward() == now.onward());
}

/// What a session comes to. Once every frame and the silent one have been through, the result
/// holds all packets in order, and the decoder's whole output lined up with the recording:
/// sample `i` of the result is sample `i` of the output after the codec delay, and there are
/// exactly as many samples as in the recording, at the same rate and on the same channels.
pub proof fn law_session_result(
    source: wav::WavData,
    kbps: i32,
    delay: nat,
    packets: Seq<Seq<u8>>,
    pcm: Seq<Seq<i16>>,
)
    requires
        packets.len() == opened(source, kbps).frames() + 1,
        pcm.len() == packets.len(),
    ensures
        asked(opened(source, kbps), replies(delay, packets, pcm, packets.len()))
            == trip::StepData::Done(
            (trip::TripData {
                decoded: wav::WavData {
                    rate: source.rate,
                    channels: source.channels,
                    samples: trip::aligned(
                        spliced(pcm),
                        delay * source.channels as nat,
                        source.samples.len(),
                    ),
                },
                packets,
                lookahead: delay,
            }),
        ),
{
    let n = opened(source, kbps).frames();
    law_frames_in_order(source, kbps, delay, packets, pcm, n);
    lemma_round(source, kbps, delay, packets, pcm, n);
    assert(packets.take(packets.len() as int) =~= packets);
    assert(pcm.take(pcm.len() as int) =~= pcm);
}

/// A decoder that fails on the silent frame costs nothing but its samples: the packet is kept
/// and the session still succeeds.
pub proof fn law_silent_frame_may_fail(
    source: wav::WavData,
    kbps: i32,
    delay: nat,
    packets: Seq<Seq<u8>>,
    pcm: Seq<Seq<i16>>,
    e: Seq<char>,
)
    requires
        packets.len() == opened(source, kbps).frames() + 1,
        pcm.len() == opened(source, kbps).frames(),
    ensures
        asked(
            opened(source, kbps),
            replies(delay, packets, pcm, pcm.len()).push(
                trip::ReplyData::Packet(packets.last()),
            ).push(trip::ReplyData::Failed(e)),
        ) == trip::StepData::Done(
            (trip::TripData {
                decoded: wav::WavData {
                    rate: source.rate,
                    channels: source.channels,
                    samples: trip::aligned(
                        spliced(pcm),
                        delay * source.channels as nat,
                        source.samples.len(),
                    ),
                },
                packets,
                lookahead: delay,
            }),
        ),
{
    let s = opened(source, kbps);
    let n = s.frames();
    let rs = replies(delay, packets, pcm, n);
    law_frames_in_order(source, kbps, delay, packets, pcm, n);
    lemma_step(s, rs, trip::ReplyData::Packet(packets.last()));
    lemma_step(s, rs.push(trip::ReplyData::Packet(packets.last())), trip::ReplyData::Failed(e));
    assert(packets.take(n as int).push(packets.last()) =~= packets);
    assert(pcm.take(pcm.len() as int) =~= pcm);
}

/// Every sample of the recording reaches the encoder, in its place: sample `i` stands in frame
/// `i / block` at `i % block`.
pub proof fn law_every_sample_is_encoded(samples: Seq<i16>, block: nat, i: nat)
    requires
        block > 0,
        i < samples.len(),
    ensures
        i / block < trip::block_count(samples.len(), block),
        trip::block_at(samples, block, i / block).len() == block,
        trip::block_at(samples, block, i / block)[(i % block) as int] == samples[i as int],
{
    let n = trip::block_count(samples.len(), block);
    let q = i / block;
    trip::lemma_blocks(samples.len(), block);
    vstd::arithmetic::div_mod::lemma_fundamental_div_mod(i as int, block as int);
    assert(block * q == q * block) by (nonlinear_arith);
    assert(q < n) by (nonlinear_arith)
        requires
            q * block <= i,
            i < n * block,
    ;
    trip::lemma_block_inside(samples.len(), block, q);
}

/// The last frame is the silent one.
pub proof fn law_last_frame_is_silent(samples: Seq<i16>, block: nat)
    requires
        block > 0,
    ensures
        trip::block_at(samples, block, trip::block_count(samples.len(), block)) == trip::silence(
            block,
        ),
{
    let n = trip::block_count(samples.len(), block);
    trip::lemma_blocks(samples.len(), block);
    trip::lemma_block_inside(samples.len(), block, n);
    assert(trip::block_at(samples, block, n) =~= trip::silence(block));
}

/// A recording with two channels is stereo to the codec, any other is mono.
pub proof fn law_layout(channels: u16)
    ensures
        trip::layout(channels) == trip::Channels::Stereo <==> channels == 2,
        trip::layout(channels) == trip::Channels::Mono <==> channels != 2,
{
}

/// How the codec is set up: the encoder gets the bitrate that was asked for, in bits per second,
/// and the complexity 10, is asked for its delay, and the decoder has the rate and the channels
/// of the recording.
pub proof fn law_set_up(source: wav::WavData, kbps: i32, delay: nat)
    requires
        i32::MIN <= kbps * 1000 <= i32::MAX,
    ensures
        ({
            let s = opened(source, kbps);
            let r = trip::ReplyData::Ready;
            let l = trip::ReplyData::Lookahead(delay as int);
            &&& asked(s, seq![r]) matches trip::StepData::SetBitrate(b) && b == kbps * 1000
            &&& asked(s, seq![r, r]) == trip::StepData::SetComplexity(10)
            &&& asked(s, seq![r, r, r]) == trip::StepData::ReadLookahead
            &&& asked(s, seq![r, r, r, l]) == (trip::StepData::CreateDecoder {
                rate: source.rate,
                channels: if source.channels == 2 {
                    trip::Channels::Stereo
                } else {
                    trip::Channels::Mono
                },
            })
        }),
{
    let s = opened(source, kbps);
    let r = trip::ReplyData::Ready;
    let l = trip::ReplyData::Lookahead(delay as int);
    let e = Seq::<trip::ReplyData>::empty();
    lemma_step(s, e, r);
    lemma_step(s, e.push(r), r);
    lemma_step(s, e.push(r).push(r), r);
    lemma_step(s, e.push(r).push(r).push(r), l);
    assert(e.push(r) =~= seq![r]);
    assert(e.push(r).push(r) =~= seq![r, r]);
    assert(e.push(r).push(r).push(r) =~= seq![r, r, r]);
    assert(e.push(r).push(r).push(r).push(l) =~= seq![r, r, r, l]);
}

/// The samples in a frame of 20 ms on all channels.
pub open spec fn frame_of(source: wav::WavData) -> int {
    source.rate as int / 1000 * 20 * source.channels
}

/// A recording fills as many frames as it takes to hold every sample, and no more.
pub proof fn law_frame_count(source: wav::WavData, kbps: i32)
    requires
        frame_of(source) > 0,
    ensures
        ({
            let n = opened(source, kbps).frames();
            &&& source.samples.len() <= n * frame_of(source)
            &&& n > 0 ==> (n - 1) * frame_of(source) < source.samples.len()
        }),
{
    let s = opened(source, kbps);
    let (n, b, len) = (s.frames() as int, s.block() as int, source.samples.len() as int);
    assert(b == frame_of(source)) by (nonlinear_arith)
        requires
            b == (source.rate / 1000) * 20 * source.channels,
            frame_of(source) == source.rate as int / 1000 * 20 * source.channels,
    ;
    trip::lemma_blocks(source.samples.len(), s.block());
    assert((n - 1) * b == n * b - b) by (nonlinear_arith);
    if n > 0 {
        assert(n * b >= b) by (nonlinear_arith)
            requires
                n > 0,
                b > 0,
        ;
    }
}

/// What the encoder is given, sample by sample: frame `k` begins where frame `k - 1` ended, has
/// 20 ms of the recording, and is silent past its end. A packet may have 4000 bytes. What the
/// decoder is given is that packet.
#[verifier::spinoff_prover]
pub proof fn law_every_frame_is_encoded(
    source: wav::WavData,
    kbps: i32,
    delay: nat,
    packets: Seq<Seq<u8>>,
    pcm: Seq<Seq<i16>>,
    k: nat,
    p: Seq<u8>,
)
    requires
        frame_of(source) > 0,
        k <= opened(source, kbps).frames(),
        k <= packets.len(),
        k <= pcm.len(),
    ensures
        ({
            let s = opened(source, kbps);
            let rs = replies(delay, packets, pcm, k);
            let b = frame_of(source);
            &&& asked(s, rs) matches trip::StepData::Encode { pcm: given, limit } && limit == 4000
                && given.len() == b && forall|j: int|
                0 <= j < b ==> #[trigger] given[j] == (if k * b + j < source.samples.len() {
                    source.samples[k * b + j]
                } else {
                    0i16
                })
            &&& asked(s, rs.push(trip::ReplyData::Packet(p))) == trip::StepData::Decode(p)
        }),
{
    let s = opened(source, kbps);
    let b = frame_of(source);
    let block = s.block();
    law_frames_in_order(source, kbps, delay, packets, pcm, k);
    lemma_step(s, replies(delay, packets, pcm, k), trip::ReplyData::Packet(p));
    assert(block == b) by (nonlinear_arith)
        requires
            block == (source.rate / 1000) * 20 * source.channels,
            b == source.rate as int / 1000 * 20 * source.channels,
    ;
    lemma_block_samples(source.samples, block, k);
}

/// One block of what the encoder is given, sample by sample.
proof fn lemma_block_samples(samples: Seq<i16>, block: nat, k: nat)
    requires
        block > 0,
        k <= trip::block_count(samples.len(), block),
    ensures
        trip::block_at(samples, block, k).len() == block,
        forall|j: int|
            0 <= j < block ==> #[trigger] trip::block_at(samples, block, k)[j] == (if k * block + j
                < samples.len() {
                samples[k * block + j]
            } else {
                0i16
            }),
{
    trip::lemma_block_inside(samples.len(), block, k);
    assert(0 <= k * block) by (nonlinear_arith);
}

/// What a session ends with, sample by sample: all packets in order; and of the decoder's whole
/// output, what comes after the codec delay on all channels, as long as the recording, with
/// silence where there is no more.
#[verifier::spinoff_prover]
pub proof fn law_decode_lines_up(
    source: wav::WavData,
    kbps: i32,
    delay: nat,
    packets: Seq<Seq<u8>>,
    pcm: Seq<Seq<i16>>,
)
    requires
        packets.len() == opened(source, kbps).frames() + 1,
        pcm.len() == packets.len(),
    ensures
        asked(opened(source, kbps), replies(delay, packets, pcm, packets.len())) matches
            trip::StepData::Done(t) && t.packets == packets && t.lookahead == delay
            && t.decoded.rate == source.rate && t.decoded.channels == source.channels
            && t.decoded.samples.len() == source.samples.len() && forall|i: int|
            0 <= i < source.samples.len() ==> #[trigger] t.decoded.samples[i] == (if delay
                * source.channels + i < spliced(pcm).len() {
                spliced(pcm)[delay * source.channels + i]
            } else {
                0i16
            }),
{
    law_session_result(source, kbps, delay, packets, pcm);
    assert(delay * source.channels as nat == delay * source.channels);
}

/// Lining up drops exactly the delay and keeps exactly the length: a signal that comes out late
/// is itself again, and one that comes out short is filled with silence.
pub proof fn law_alignment(front: Seq<i16>, signal: Seq<i16>, more: Seq<i16>, missing: nat)
    ensures
        trip::aligned(front + signal + more, front.len(), signal.len()) == signal,
        trip::aligned(front + signal, front.len(), signal.len() + missing) == signal + Seq::new(
            missing,
            |i: int| 0i16,
        ),
{
    assert(trip::aligned(front + signal + more, front.len(), signal.len()) =~= signal);
    assert(trip::aligned(front + signal, front.len(), signal.len() + missing) =~= signal
        + Seq::new(missing, |i: int| 0i16));
}

/// What a reply says: of a buffer, the samples that were decoded on all channels, as they are;
/// everything else as it is.
pub proof fn law_replies_are_taken_as_they_are(
    buffer: Vec<i16>,
    got: usize,
    channels: u16,
    packet: Vec<u8>,
    delay: i32,
    e: String,
)
    requires
        got * channels <= buffer@.len(),
    ensures
        (trip::Reply::Pcm { buffer, got }).said(channels) matches trip::ReplyData::Pcm(pcm)
            && pcm.len() == got * channels && forall|i: int|
            0 <= i < pcm.len() ==> #[trigger] pcm[i] == buffer@[i],
        trip::Reply::Packet(packet).said(channels) == trip::ReplyData::Packet(packet@),
        trip::Reply::Lookahead(delay).said(channels) == trip::ReplyData::Lookahead(delay as int),
        trip::Reply::Failed(e).said(channels) == trip::ReplyData::Failed(e@),
        trip::Reply::Ready.said(channels) == trip::ReplyData::Ready,
{
}

/// What a step asks for is what is in it.
pub proof fn law_steps_say_what_is_in_them(
    rate: u32,
    channels: trip::Channels,
    n: i32,
    pcm: Vec<i16>,
    limit: usize,
    packet: Vec<u8>,
    t: trip::Trip,
    e: String,
)
    ensures
        (trip::Step::CreateEncoder { rate, channels })@ == (trip::StepData::CreateEncoder {
            rate,
            channels,
        }),
        trip::Step::SetBitrate(n)@ == trip::StepData::SetBitrate(n),
        trip::Step::SetComplexity(n)@ == trip::StepData::SetComplexity(n),
        trip::Step::ReadLookahead@ == trip::StepData::ReadLookahead,
        (trip::Step::CreateDecoder { rate, channels })@ == (trip::StepData::CreateDecoder {
            rate,
            channels,
        }),
        (trip::Step::Encode { pcm, limit })@ == (trip::StepData::Encode { pcm: pcm@, limit }),
        trip::Step::Decode(packet)@ == trip::StepData::Decode(packet@),
        trip::Step::Done(t)@ matches trip::StepData::Done(d) && d.lookahead == t.lookahead
            && d.decoded.rate == t.decoded.rate && d.decoded.channels == t.decoded.channels
            && d.decoded.samples == t.decoded.samples@ && d.packets.len() == t.packets@.len()
            && forall|i: int|
            0 <= i < d.packets.len() ==> #[trigger] d.packets[i] == t.packets@[i]@,
        trip::Step::Fail(e)@ == trip::StepData::Fail(e@),
{
}

/// A failure ends the session with its cause, unless it is the decoder's on the silent frame; and
/// what is said of it ends with that cause.
pub proof fn law_failure_is_told(s: trip::SessionData, e: Seq<char>)
    requires
        !(s.stage == Stage::Pcm && s.packets.len() == s.frames() + 1),
        s.packets.len() <= s.frames() + 1,
    ensures
        s.next(trip::ReplyData::Failed(e)).0.stage == Stage::Over,
        s.next(trip::ReplyData::Failed(e)).1 matches trip::StepData::Fail(m) && e.len() <= m.len()
            && m.skip(m.len() - e.len()) == e,
{
    let (state, step) = s.next(trip::ReplyData::Failed(e));
    if let trip::StepData::Fail(m) = step {
        assert(m.skip(m.len() - e.len()) =~= e);
    }
}

/// Recordings of ordinary size can be cut into frames.
pub proof fn law_ordinary_recordings_can_be_framed(source: wav::WavData, delay: nat)
    requires
        frame_of(source) > 0,
        source.samples.len() + 2 * frame_of(source) + delay * source.channels <= u32::MAX,
    ensures
        trip::can_frame(source, delay),
{
    let block = trip::frame_size(source.rate) * source.channels as nat;
    assert(block == frame_of(source)) by (nonlinear_arith)
        requires
            block == (source.rate / 1000) * 20 * source.channels,
            frame_of(source) == source.rate as int / 1000 * 20 * source.channels,
    ;
    trip::lemma_blocks(source.samples.len(), block);
    assert(delay * source.channels as nat == delay * source.channels);
}

} // verus!
