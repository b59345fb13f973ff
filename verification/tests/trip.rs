use wav_demo::trip::{align, frame_len, layout_of, Channels, Reply, Session, Step, Trip};
use wav_demo::wav::Wav;

fn recording(rate: u32, channels: u16, n: usize) -> Wav {
    Wav { rate, channels, samples: (0..n).map(|i| (i % 30_000 + 1) as i16).collect() }
}

/// A codec that delays what it is given by `delay` samples per channel and packs each frame
/// into a packet of two bytes per sample.
struct Echo {
    delay: usize,
    held: Vec<i16>,
    log: Vec<String>,
}

impl Echo {
    fn new(delay: usize) -> Echo {
        Echo { delay, held: Vec::new(), log: Vec::new() }
    }

    fn answer(&mut self, step: &Step, channels: u16) -> Reply {
        match step {
            Step::CreateEncoder { rate, channels: c } => {
                self.log.push(format!("encoder {rate} {c:?}"));
                self.held = vec![0; self.delay * channels as usize];
                Reply::Ready
            }
            Step::SetBitrate(b) => {
                self.log.push(format!("bitrate {b}"));
                Reply::Ready
            }
            Step::SetComplexity(c) => {
                self.log.push(format!("complexity {c}"));
                Reply::Ready
            }
            Step::ReadLookahead => Reply::Lookahead(self.delay as i32),
            Step::CreateDecoder { rate, channels } => {
                self.log.push(format!("decoder {rate} {channels:?}"));
                Reply::Ready
            }
            Step::Encode { pcm, limit } => {
                assert_eq!(*limit, 4000);
                self.held.extend_from_slice(pcm);
                let out: Vec<i16> = self.held.drain(..pcm.len()).collect();
                Reply::Packet(out.iter().flat_map(|s| s.to_le_bytes()).collect())
            }
            Step::Decode(p) => {
                let mut buffer: Vec<i16> =
                    p.chunks_exact(2).map(|c| i16::from_le_bytes([c[0], c[1]])).collect();
                let got = buffer.len() / channels as usize;
                buffer.push(99);
                Reply::Pcm { buffer, got }
            }
            Step::Done(_) | Step::Fail(_) => unreachable!(),
        }
    }
}

fn run(source: &Wav, kbps: i32, codec: &mut Echo) -> Trip {
    let (mut session, mut step) = Session::start(source, kbps);
    loop {
        match step {
            Step::Done(trip) => return trip,
            Step::Fail(e) => panic!("{e}"),
            _ => {}
        }
        let reply = codec.answer(&step, source.channels);
        step = session.step(reply);
    }
}

fn failing_at(source: &Wav, fails: fn(&Step, usize) -> bool) -> Result<Trip, String> {
    let mut codec = Echo::new(3);
    let (mut session, mut step) = Session::start(source, 24);
    let mut n = 0;
    loop {
        match step {
            Step::Done(trip) => return Ok(trip),
            Step::Fail(e) => return Err(e),
            _ => {}
        }
        if matches!(step, Step::Encode { .. }) {
            n += 1;
        }
        let reply = if fails(&step, n) {
            Reply::Failed("boom".to_string())
        } else {
            codec.answer(&step, source.channels)
        };
        step = session.step(reply);
    }
}

#[test]
fn frame_is_twenty_milliseconds() {
    for (rate, n) in [(8_000, 160), (12_000, 240), (16_000, 320), (24_000, 480), (48_000, 960)] {
        assert_eq!(frame_len(rate), n);
    }
    assert_eq!(frame_len(44_100), 880);
    assert_eq!(frame_len(999), 0);
}

#[test]
fn two_channels_are_stereo() {
    assert_eq!(layout_of(2), Channels::Stereo);
    assert_eq!(layout_of(1), Channels::Mono);
    assert_eq!(layout_of(7), Channels::Mono);
}

#[test]
fn codec_is_set_up_in_order() {
    let mut codec = Echo::new(0);
    run(&recording(48_000, 2, 10), 64, &mut codec);
    assert_eq!(
        codec.log,
        ["encoder 48000 Stereo", "bitrate 64000", "complexity 10", "decoder 48000 Stereo"]
    );
}

#[test]
fn decode_lines_up_with_the_recording() {
    for (rate, channels, n, delay) in
        [(48_000, 2, 5000, 312), (8_000, 1, 160, 52), (8_000, 1, 161, 160), (16_000, 2, 0, 104)]
    {
        let source = recording(rate, channels, n);
        let trip = run(&source, 24, &mut Echo::new(delay));
        assert_eq!(trip.decoded.samples, source.samples);
        assert_eq!((trip.decoded.rate, trip.decoded.channels), (rate, channels));
        assert_eq!(trip.lookahead, delay);
    }
}

#[test]
fn one_packet_per_frame_and_a_silent_one() {
    let block = 320;
    for (n, packets) in [(0, 1), (1, 2), (319, 2), (320, 2), (321, 3), (960, 4)] {
        let trip = run(&recording(8_000, 2, n), 24, &mut Echo::new(0));
        assert_eq!(trip.packets.len(), packets);
        assert_eq!(trip.bytes(), packets * block * 2);
        assert!(trip.packets.last().unwrap().iter().all(|&b| b == 0));
    }
}

#[test]
fn encoder_gets_every_sample_in_its_place() {
    let source = recording(8_000, 1, 500);
    let (mut session, mut step) = Session::start(&source, 24);
    let mut codec = Echo::new(0);
    let mut given = Vec::new();
    while !matches!(step, Step::Done(_) | Step::Fail(_)) {
        if let Step::Encode { pcm, .. } = &step {
            assert_eq!(pcm.len(), 160);
            given.extend_from_slice(pcm);
        }
        let reply = codec.answer(&step, 1);
        step = session.step(reply);
    }
    assert_eq!(given.len(), 5 * 160);
    assert_eq!(given[..500], source.samples[..]);
    assert!(given[500..].iter().all(|&s| s == 0));
}

#[test]
fn short_decode_is_filled_with_silence() {
    let source = recording(8_000, 1, 320);
    let (mut session, mut step) = Session::start(&source, 24);
    let mut codec = Echo::new(0);
    let trip = loop {
        let reply = match &step {
            Step::Done(_) | Step::Fail(_) => break step,
            Step::Decode(_) => Reply::Pcm { buffer: vec![5; 160], got: 10 },
            s => codec.answer(s, 1),
        };
        step = session.step(reply);
    };
    match trip {
        Step::Done(t) => {
            let mut expected = vec![5; 30];
            expected.resize(320, 0);
            assert_eq!(t.decoded.samples, expected);
        }
        _ => panic!("not done"),
    }
}

#[test]
fn alignment_drops_the_delay_and_keeps_the_length() {
    assert_eq!(align(&[1, 2, 3, 4], 1, 2), [2, 3]);
    assert_eq!(align(&[1, 2, 3, 4], 1, 5), [2, 3, 4, 0, 0]);
    assert_eq!(align(&[1, 2], 2, 1), [0]);
    assert_eq!(align(&[1, 2], usize::MAX, 1), [0]);
    assert_eq!(align(&[], 0, 0), [0i16; 0]);
}

#[test]
fn each_failure_is_reported() {
    let source = recording(8_000, 1, 320);
    let e = |f: fn(&Step, usize) -> bool| failing_at(&source, f).err().unwrap();
    assert_eq!(
        e(|s, _| matches!(s, Step::CreateEncoder { .. })),
        "cannot create the encoder: boom"
    );
    assert_eq!(e(|s, _| matches!(s, Step::SetBitrate(_))), "boom");
    assert_eq!(e(|s, _| matches!(s, Step::SetComplexity(_))), "boom");
    assert_eq!(e(|s, _| matches!(s, Step::ReadLookahead)), "boom");
    assert_eq!(e(|s, _| matches!(s, Step::CreateDecoder { .. })), "boom");
    assert_eq!(e(|s, n| matches!(s, Step::Encode { .. }) && n == 2), "encode failed: boom");
    assert_eq!(e(|s, n| matches!(s, Step::Encode { .. }) && n == 3), "boom");
    assert_eq!(e(|s, n| matches!(s, Step::Decode(_)) && n == 1), "decode failed: boom");
}

#[test]
fn silent_frame_need_not_decode() {
    let source = recording(8_000, 1, 320);
    let trip = failing_at(&source, |s, n| matches!(s, Step::Decode(_)) && n == 3).ok().unwrap();
    assert_eq!(trip.packets.len(), 3);
    assert_eq!(trip.decoded.samples[..317], source.samples[..317]);
    assert_eq!(trip.decoded.samples[317..], [0, 0, 0]);
}
