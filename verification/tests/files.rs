use wav_demo::args::Options;
use wav_demo::job::{Job, Order, Outcome};
use wav_demo::ogg::Stream;
use wav_demo::plan::{
    accepts, can_count, diff_file, fits_wav, listen_message, lowest, opus_file, rate_message,
    source_file, stream_for, to_48k, wav_file,
};
use wav_demo::trip::{frames_fit, Trip};
use wav_demo::wav::Wav;

fn silent(rate: u32, channels: u16, n: usize) -> Wav {
    Wav { rate, channels, samples: vec![0; n] }
}

fn trip(source: &Wav, lookahead: usize) -> Trip {
    Trip {
        decoded: Wav {
            rate: source.rate,
            channels: source.channels,
            samples: vec![1; source.samples.len()],
        },
        packets: vec![vec![1, 2, 3], vec![4]],
        lookahead,
    }
}

fn fields(s: Stream) -> (u8, u16, u32, u64, u64) {
    (s.channels, s.pre_skip, s.input_rate, s.samples_per_packet, s.final_granule)
}

#[test]
fn five_rates_are_accepted() {
    let good: Vec<u32> = (0..=192_000).filter(|&r| accepts(r)).collect();
    assert_eq!(good, [8_000, 12_000, 16_000, 24_000, 48_000]);
}

#[test]
fn other_rates_come_with_the_command_to_run() {
    assert_eq!(
        rate_message(44_100),
        "44100 Hz is not an Opus sample rate (8000, 12000, 16000, 24000, 48000).\n       Convert \
         first, e.g.\n         afconvert -f WAVE -d LEI16@48000 in.wav out.wav      (macOS)\n         \
         ffmpeg -i in.wav -ar 48000 -c:a pcm_s16le out.wav"
    );
}

#[test]
fn clock_runs_at_48_khz() {
    assert_eq!(to_48k(52, 8_000), 312);
    assert_eq!(to_48k(312, 48_000), 312);
    assert_eq!(to_48k(1, 44_100), 1);
    assert_eq!(to_48k(0, 1), 0);
}

#[test]
fn stream_of_the_demo_clip() {
    let s = stream_for(&silent(48_000, 2, 960_000), 312);
    assert_eq!(fields(s), (2, 312, 48_000, 960, 480_312));
}

#[test]
fn packets_last_20_ms_at_every_rate() {
    for rate in [8_000, 12_000, 16_000, 24_000, 48_000] {
        let n = rate as usize / 2 + 17;
        let lookahead = rate as usize * 13 / 2000;
        let s = stream_for(&silent(rate, 1, n), lookahead);
        assert_eq!(s.samples_per_packet, 960);
        let played = s.final_granule - s.pre_skip as u64;
        assert_eq!(played * rate as u64, n as u64 * 48_000);
        let frame = rate as usize / 50;
        let packets = (n + frame - 1) / frame + 1;
        assert!(s.final_granule <= packets as u64 * 960);
    }
}

#[test]
fn delay_that_is_too_long_for_its_field_wraps() {
    let s = stream_for(&silent(8_000, 1, 0), 20_000);
    assert_eq!(s.pre_skip, (120_000 % 65_536) as u16);
    assert_eq!(s.final_granule, 120_000);
}

#[test]
fn lowest_bitrate_is_listened_to() {
    assert_eq!(lowest(&vec![24, 64, 128]), 24);
    assert_eq!(lowest(&vec![64, -3, 24]), -3);
    assert_eq!(lowest(&vec![500]), 500);
    assert_eq!(lowest(&vec![]), 64);
    assert_eq!(
        listen_message("demo", &vec![64, 24]),
        "\nListen:\n  \
         afplay out/demo-original.wav          the input\n  \
         ffplay -autoexit out/demo-24k.opus    the .opus file itself\n  \
         afplay out/demo-24k.wav              the same thing decoded to WAV\n  \
         afplay out/demo-24k-diff.wav         only what the codec discarded"
    );
}

#[test]
fn files_have_their_names_and_contents() {
    let source = silent(8_000, 1, 160);
    let t = trip(&source, 52);
    let f = source_file("x", &source);
    assert_eq!(f.name, "x-original.wav");
    assert_eq!(f.bytes, wav_demo::wav::write(&source));
    let f = wav_file("x", 24, &t);
    assert_eq!(f.name, "x-24k.wav");
    assert_eq!(f.bytes, wav_demo::wav::write(&t.decoded));
    let f = opus_file("x", 24, &source, &t, "v");
    assert_eq!(f.name, "x-24k.opus");
    let s = stream_for(&source, 52);
    assert_eq!(f.bytes, wav_demo::ogg::write(&t.packets, &s, "v"));
}

#[test]
fn opus_file_plays_as_long_as_the_recording() {
    let number = |b: &[u8]| b.iter().rev().fold(0u64, |n, &x| n * 256 + x as u64);
    for rate in [8_000, 12_000, 16_000, 24_000, 48_000] {
        let source = silent(rate, 2, 2 * 12_345);
        let b = opus_file("x", 24, &source, &trip(&source, 77), "v").bytes;
        let pre_skip = number(&b[38..40]);
        let last = b.windows(4).rposition(|w| w == b"OggS").unwrap();
        let granule = number(&b[last + 6..last + 14]);
        assert_eq!((granule - pre_skip) * rate as u64, 12_345 * 48_000);
    }
}

#[test]
fn no_file_overwrites_another() {
    let source = silent(8_000, 1, 160);
    let t = trip(&source, 52);
    let mut names = vec![source_file("x", &source).name];
    for kbps in [2, 24, 242, -2] {
        names.push(opus_file("x", kbps, &source, &t, "v").name);
        names.push(wav_file("x", kbps, &t).name);
        names.push(diff_file("x", kbps, &source).name);
    }
    assert_eq!(names[3], "x-2k-diff.wav");
    assert_eq!(names[10], "x--2k.opus");
    let n = names.len();
    names.sort();
    names.dedup();
    assert_eq!(names.len(), n);
}

#[test]
fn limits_can_be_asked_for() {
    assert!(fits_wav(&silent(48_000, 2, 4)));
    assert!(!fits_wav(&silent(u32::MAX, 2, 0)));
    assert!(fits_wav(&silent(u32::MAX, 0, 0)));
    assert!(can_count(&silent(48_000, 2, 4), 312));
    assert!(!can_count(&silent(0, 2, 4), 312));
    assert!(!can_count(&silent(48_000, 0, 4), 312));
    assert!(!can_count(&silent(48_000, 2, 4), usize::MAX));
    assert!(frames_fit(&silent(48_000, 2, 4), 312));
    assert!(!frames_fit(&silent(999, 2, 4), 312));
    assert!(!frames_fit(&silent(48_000, 0, 4), 312));
    assert!(!frames_fit(&silent(48_000, 1, 4), usize::MAX));
}

fn start(input: Option<&str>, bitrates: &[i32]) -> (Job, Order) {
    let options =
        Options { input: input.map(|s| s.to_string()), bitrates: bitrates.to_vec() };
    Job::start(options, "x".to_string(), "v".to_string())
}

fn name(o: &Order) -> String {
    match o {
        Order::MakeFolder => "folder".to_string(),
        Order::Read(p) => format!("read {p}"),
        Order::MakeClip => "clip".to_string(),
        Order::Write(f) => format!("write {}", f.name),
        Order::RunTrip(k) => format!("trip {k}"),
        Order::Compare => "compare".to_string(),
        Order::Done(m) => format!("done {}", m.len()),
        Order::Fail(m) => format!("fail {m}"),
    }
}

#[test]
fn job_goes_through_all_bitrates() {
    let (mut job, mut order) = start(None, &[64, 24]);
    let mut log = Vec::new();
    loop {
        log.push(name(&order));
        let outcome = match &order {
            Order::MakeFolder | Order::Write(_) => Outcome::Ready,
            Order::Read(_) => unreachable!(),
            Order::MakeClip => Outcome::Clip(silent(8_000, 1, 160)),
            Order::RunTrip(_) => Outcome::Trip(trip(job.source(), 52)),
            Order::Compare => {
                assert_eq!(job.trip().lookahead, 52);
                Outcome::Difference(silent(8_000, 1, 160))
            }
            Order::Done(m) => {
                assert_eq!(*m, listen_message("x", &vec![64, 24]));
                break;
            }
            Order::Fail(m) => panic!("{m}"),
        };
        order = job.step(outcome);
    }
    log.pop();
    assert_eq!(
        log,
        [
            "folder",
            "clip",
            "write x-original.wav",
            "trip 64",
            "write x-64k.opus",
            "write x-64k.wav",
            "compare",
            "write x-64k-diff.wav",
            "trip 24",
            "write x-24k.opus",
            "write x-24k.wav",
            "compare",
            "write x-24k-diff.wav"
        ]
    );
}

#[test]
fn files_of_a_run_have_the_shape_of_the_input() {
    let source = Wav { rate: 16_000, channels: 2, samples: (0..640).collect() };
    let (mut job, mut order) = start(Some("in.wav"), &[64, 24]);
    let mut files: Vec<(String, Vec<u8>)> = Vec::new();
    loop {
        let outcome = match order {
            Order::MakeFolder => Outcome::Ready,
            Order::Read(p) => {
                assert_eq!(p, "in.wav");
                Outcome::Bytes(wav_demo::wav::write(&source))
            }
            Order::Write(f) => {
                files.push((f.name, f.bytes));
                Outcome::Ready
            }
            Order::RunTrip(_) => Outcome::Trip(trip(job.source(), 104)),
            Order::Compare => Outcome::Difference(silent(16_000, 2, 640)),
            Order::Done(_) => break,
            Order::MakeClip | Order::Fail(_) => unreachable!(),
        };
        order = job.step(outcome);
    }
    let names: Vec<&str> = files.iter().map(|f| f.0.as_str()).collect();
    assert_eq!(
        names,
        [
            "x-original.wav",
            "x-64k.opus",
            "x-64k.wav",
            "x-64k-diff.wav",
            "x-24k.opus",
            "x-24k.wav",
            "x-24k-diff.wav"
        ]
    );
    for (name, bytes) in &files {
        if name.ends_with(".wav") {
            let w = wav_demo::wav::read(bytes).ok().unwrap();
            assert_eq!((w.rate, w.channels, w.samples.len()), (16_000, 2, 640));
        }
    }
    let copy = wav_demo::wav::read(&files[0].1).ok().unwrap();
    assert_eq!(copy.samples, source.samples);
}

#[test]
fn job_reads_the_file_that_was_named() {
    let (mut job, order) = start(Some("in.wav"), &[]);
    assert_eq!(name(&order), "folder");
    assert_eq!(name(&job.step(Outcome::Ready)), "read in.wav");
    let b = wav_demo::wav::write(&silent(16_000, 2, 640));
    match job.step(Outcome::Bytes(b.clone())) {
        Order::Write(f) => {
            assert_eq!(f.name, "x-original.wav");
            assert_eq!(f.bytes, b);
        }
        o => panic!("{}", name(&o)),
    }
    assert_eq!(job.source().rate, 16_000);
    let end = job.step(Outcome::Ready);
    assert!(matches!(end, Order::Done(m) if m == listen_message("x", &vec![])));
}

#[test]
fn job_refuses_other_rates_before_writing() {
    let (mut job, _) = start(Some("in.wav"), &[24]);
    job.step(Outcome::Ready);
    let b = wav_demo::wav::write(&silent(44_100, 2, 4));
    assert_eq!(name(&job.step(Outcome::Bytes(b))), format!("fail {}", rate_message(44_100)));
    let (mut job, _) = start(None, &[24]);
    job.step(Outcome::Ready);
    let o = job.step(Outcome::Clip(silent(1, 1, 1)));
    assert_eq!(name(&o), format!("fail {}", rate_message(1)));
}

#[test]
fn job_refuses_what_is_no_recording() {
    let (mut job, _) = start(Some("in.mp3"), &[24]);
    job.step(Outcome::Ready);
    let o = job.step(Outcome::Bytes(b"ID3".to_vec()));
    assert_eq!(name(&o), "fail in.mp3 is not a RIFF/WAVE file");
}

fn failed() -> Outcome {
    Outcome::Failed { place: "there".to_string(), cause: "why".to_string() }
}

#[test]
fn job_says_what_failed() {
    let (mut job, _) = start(None, &[24]);
    assert_eq!(name(&job.step(failed())), "fail cannot create out/: why");
    let (mut job, _) = start(Some("a"), &[24]);
    job.step(Outcome::Ready);
    assert_eq!(name(&job.step(failed())), "fail cannot read there: why");
    for stop in 0..5 {
        let (mut job, _) = start(None, &[24]);
        job.step(Outcome::Ready);
        job.step(Outcome::Clip(silent(8_000, 1, 160)));
        let mut done = 0;
        let mut outcomes = vec![
            Outcome::Difference(silent(8_000, 1, 160)),
            Outcome::Ready,
            Outcome::Ready,
            Outcome::Trip(trip(&silent(8_000, 1, 160), 52)),
            Outcome::Ready,
        ];
        while done < stop {
            job.step(outcomes.pop().unwrap());
            done += 1;
        }
        let expected = match stop {
            1 | 4 => "fail why",
            _ => "fail cannot write there: why",
        };
        assert_eq!(name(&job.step(failed())), expected);
    }
}
