use wav_demo::bytes::{i16le, put_i16, put_u16, put_u32, put_u64, set_u32, u16le, u32le};
use wav_demo::wav::{read, ReadError, Wav};

const SMALL: [u8; 52] = [
    82, 73, 70, 70, 44, 0, 0, 0, 87, 65, 86, 69, 102, 109, 116, 32, 16, 0, 0, 0, 1, 0, 2, 0, 128,
    187, 0, 0, 0, 238, 2, 0, 4, 0, 16, 0, 100, 97, 116, 97, 8, 0, 0, 0, 0, 0, 1, 0, 255, 255, 0,
    128,
];

fn small() -> Wav {
    Wav { rate: 48_000, channels: 2, samples: vec![0, 1, -1, -32768] }
}

fn chunk(id: &[u8], body: &[u8]) -> Vec<u8> {
    let mut b = id.to_vec();
    b.extend_from_slice(&(body.len() as u32).to_le_bytes());
    b.extend_from_slice(body);
    if body.len() % 2 == 1 {
        b.push(0);
    }
    b
}

fn fmt(format: u16, channels: u16, rate: u32, bits: u16) -> Vec<u8> {
    let mut b = Vec::new();
    b.extend_from_slice(&format.to_le_bytes());
    b.extend_from_slice(&channels.to_le_bytes());
    b.extend_from_slice(&rate.to_le_bytes());
    b.extend_from_slice(&[0; 6]);
    b.extend_from_slice(&bits.to_le_bytes());
    b
}

fn riff(chunks: &[Vec<u8>]) -> Vec<u8> {
    let mut b = b"RIFF\0\0\0\0WAVE".to_vec();
    for c in chunks {
        b.extend_from_slice(c);
    }
    b
}

fn error(b: &[u8]) -> ReadError {
    match read(b) {
        Ok(_) => panic!("accepted"),
        Err(e) => e,
    }
}

#[test]
fn numbers_are_little_endian() {
    assert_eq!(u16le(&[0x34, 0x12, 9]), 0x1234);
    assert_eq!(u32le(&[0x78, 0x56, 0x34, 0x12]), 0x1234_5678);
    assert_eq!(i16le(&[0xFF, 0xFF]), -1);
    assert_eq!(i16le(&[0x00, 0x80]), i16::MIN);
    assert_eq!(i16le(&[0xFF, 0x7F]), i16::MAX);
    let mut out = Vec::new();
    put_u16(&mut out, 0x0201);
    put_u32(&mut out, 0x0605_0403);
    put_u64(&mut out, 0x0E0D_0C0B_0A09_0807);
    put_i16(&mut out, -2);
    assert_eq!(out, [1, 2, 3, 4, 5, 6, 7, 8, 9, 10, 11, 12, 13, 14, 0xFE, 0xFF]);
    set_u32(&mut out, 1, 0xDDCC_BBAA);
    assert_eq!(&out[..6], [1, 0xAA, 0xBB, 0xCC, 0xDD, 6]);
}

#[test]
fn every_sample_survives_its_bytes() {
    for s in i16::MIN..=i16::MAX {
        let mut out = Vec::new();
        put_i16(&mut out, s);
        assert_eq!(out, s.to_le_bytes());
        assert_eq!(i16le(&out), s);
    }
}

#[test]
fn writes_the_bytes_of_a_file() {
    assert_eq!(wav_demo::wav::write(&small()), SMALL);
}

#[test]
fn file_comes_back_as_it_went_in() {
    for channels in [1, 2] {
        for rate in [8_000, 44_100, 48_000] {
            let samples: Vec<i16> = (0..1000).map(|i| (i * 77 - 30_000) as i16).collect();
            let w = Wav { rate, channels, samples };
            let back = read(&wav_demo::wav::write(&w)).ok().unwrap();
            assert_eq!(back.rate, rate);
            assert_eq!(back.channels, channels);
            assert_eq!(back.samples, w.samples);
        }
    }
}

#[test]
fn empty_recording_is_a_bare_header() {
    let w = Wav { rate: 48_000, channels: 1, samples: Vec::new() };
    let b = wav_demo::wav::write(&w);
    assert_eq!(b.len(), 44);
    assert_eq!(read(&b).ok().unwrap().samples.len(), 0);
}

#[test]
fn frames_count_instants() {
    assert_eq!(small().frames(), 2);
    let odd = Wav { rate: 8_000, channels: 2, samples: vec![1, 2, 3] };
    assert_eq!(odd.frames(), 1);
    let mono = Wav { rate: 8_000, channels: 1, samples: vec![1, 2, 3] };
    assert_eq!(mono.frames(), 3);
}

#[test]
fn metadata_before_data_is_not_audio() {
    let data = chunk(b"data", &[1, 0, 2, 0]);
    let plain = riff(&[chunk(b"fmt ", &fmt(1, 1, 8_000, 16)), data.clone()]);
    for info in [&b"INFOIART\x05\0\0\0me   "[..], &b"odd"[..], &b""[..]] {
        let listed =
            riff(&[chunk(b"fmt ", &fmt(1, 1, 8_000, 16)), chunk(b"LIST", info), data.clone()]);
        let w = read(&listed).ok().unwrap();
        assert_eq!(w.samples, [1, 2]);
        assert_eq!(w.samples, read(&plain).ok().unwrap().samples);
        assert_eq!(w.rate, 8_000);
    }
}

#[test]
fn chunk_order_does_not_matter_and_the_last_one_wins() {
    let b = riff(&[
        chunk(b"data", &[9, 0]),
        chunk(b"fmt ", &fmt(1, 2, 8_000, 16)),
        chunk(b"data", &[5, 0, 6, 0]),
        chunk(b"fmt ", &fmt(0xFFFE, 1, 12_000, 16)),
    ]);
    let w = read(&b).ok().unwrap();
    assert_eq!((w.rate, w.channels), (12_000, 1));
    assert_eq!(w.samples, [5, 6]);
}

#[test]
fn body_past_the_end_is_cut_off() {
    let mut b = riff(&[chunk(b"fmt ", &fmt(1, 1, 8_000, 16))]);
    b.extend_from_slice(b"data");
    b.extend_from_slice(&u32::MAX.to_le_bytes());
    b.extend_from_slice(&[1, 0, 2, 0, 3]);
    assert_eq!(read(&b).ok().unwrap().samples, [1, 2]);
}

#[test]
fn trailing_bytes_are_no_chunk() {
    let mut b = SMALL.to_vec();
    b.extend_from_slice(b"data\0\0\0");
    assert_eq!(read(&b).ok().unwrap().samples, small().samples);
}

#[test]
fn each_refusal_has_its_reason() {
    let good = chunk(b"fmt ", &fmt(1, 1, 8_000, 16));
    let data = chunk(b"data", &[]);
    assert_eq!(error(b""), ReadError::NotWave);
    assert_eq!(error(&SMALL[..11]), ReadError::NotWave);
    assert_eq!(error(b"RIFX\0\0\0\0WAVE"), ReadError::NotWave);
    assert_eq!(error(b"RIFF\0\0\0\0WAVX"), ReadError::NotWave);
    assert_eq!(error(&riff(&[data.clone()])), ReadError::NoFmt);
    assert_eq!(error(&riff(&[])), ReadError::NoFmt);
    assert_eq!(error(&riff(&[good])), ReadError::NoData);
    assert_eq!(error(&riff(&[chunk(b"fmt ", &[0; 15]), data.clone()])), ReadError::ShortFmt);
    assert_eq!(
        error(&riff(&[chunk(b"fmt ", &fmt(3, 1, 8_000, 32)), data.clone()])),
        ReadError::Format(3)
    );
    assert_eq!(
        error(&riff(&[chunk(b"fmt ", &fmt(1, 1, 8_000, 24)), data.clone()])),
        ReadError::Bits(24)
    );
    assert_eq!(
        error(&riff(&[chunk(b"fmt ", &fmt(1, 6, 8_000, 16)), data.clone()])),
        ReadError::Channels(6)
    );
    assert_eq!(
        error(&riff(&[chunk(b"fmt ", &fmt(1, 0, 8_000, 16)), data])),
        ReadError::Channels(0)
    );
}

#[test]
fn each_refusal_is_explained() {
    assert_eq!(ReadError::NotWave.message("a.mp3"), "a.mp3 is not a RIFF/WAVE file");
    assert_eq!(ReadError::NoFmt.message("x"), "no fmt chunk");
    assert_eq!(ReadError::NoData.message("x"), "no data chunk");
    assert_eq!(ReadError::ShortFmt.message("x"), "fmt chunk is too short");
    assert_eq!(
        ReadError::Format(3).message("x"),
        "format 3 is not PCM — convert with `afconvert` or `ffmpeg` first"
    );
    assert_eq!(
        ReadError::Bits(24).message("x"),
        "24-bit samples; this demo handles 16-bit PCM only"
    );
    assert_eq!(
        ReadError::Channels(6).message("x"),
        "6 channels; Opus here handles mono or stereo"
    );
}
