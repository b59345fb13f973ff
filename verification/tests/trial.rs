use wav_demo::report::{combining, version_claim, Combined, Report};
use wav_demo::signals::tone;
use wav_demo::trial::{
    channel_count, configurations, label, Answer, Application, Ask, Bitrate, Metadata, Setting,
    Trial,
};
use wav_demo::trip::Channels;

fn wave(n: usize) -> Vec<i16> {
    (0..n).map(|i| ((i % 40) as i16 - 20) * 100).collect()
}

/// What a codec answers that works, for a trial with frames of `n` samples.
fn good(ask: &Ask, rate: u32, channels: Channels, n: usize, round: usize) -> Answer {
    match ask {
        Ask::CreateEncoder { .. } | Ask::CreateDecoder { .. } | Ask::Tell { .. } => Answer::Ready,
        Ask::Configure(_) => Answer::Configured(true),
        Ask::ReadBitrate => Answer::Bitrate(Some(Bitrate::Bits(64_000))),
        Ask::ReadComplexity => Answer::Complexity(Some(8)),
        Ask::ReadRate => Answer::Rate(Some(rate)),
        Ask::Encode { pcm, limit } => {
            assert_eq!(*limit, 4000);
            assert_eq!(pcm.len(), n * channel_count(channels));
            Answer::Packet(vec![7; 30 + round])
        }
        Ask::Inspect(p) => {
            assert_eq!(p.len(), 30 + round);
            Answer::Metadata(Metadata {
                samples: Some(n),
                channels: Some(channels),
                frames: Some(1),
                expected: Some(n),
            })
        }
        Ask::Decode(p) => {
            assert_eq!(p.len(), 30 + round);
            Answer::Pcm { buffer: tone(rate, &wave(n), channel_count(channels)), got: n }
        }
        Ask::ReadBandwidth => Answer::Bandwidth(true),
        Ask::Done => unreachable!(),
    }
}

/// Runs a trial, with some answers replaced, and returns its claims and what was asked.
fn run(
    rate: u32,
    channels: Channels,
    twist: fn(&Ask, usize, Answer) -> Answer,
) -> (Vec<(String, bool)>, Vec<String>) {
    let n = rate as usize / 50;
    let input = tone(rate, &wave(n), channel_count(channels));
    let (mut trial, mut ask) = Trial::start(rate, channels, Application::Audio, input.clone());
    assert_eq!(*trial.input(), input);
    let (mut claims, mut asked, mut round) = (Vec::new(), Vec::new(), 0);
    loop {
        asked.push(match &ask {
            Ask::CreateEncoder { rate, channels, application } => {
                format!("encoder {rate} {channels:?} {application:?}")
            }
            Ask::CreateDecoder { rate, channels } => format!("decoder {rate} {channels:?}"),
            Ask::Configure(s) => format!("{s:?}"),
            Ask::Tell { packets, least, most } => format!("{packets} {least}..{most}"),
            Ask::Encode { .. } => "encode".to_string(),
            _ => String::new(),
        });
        if matches!(ask, Ask::Done) {
            return (claims, asked);
        }
        let answer = twist(&ask, round, good(&ask, rate, channels, n, round));
        if matches!(ask, Ask::Decode(_)) {
            round += 1;
        }
        let turn = trial.step(answer);
        claims.extend(turn.claims.into_iter().map(|c| (c.what, c.ok)));
        ask = turn.ask;
    }
}

fn false_claims(twist: fn(&Ask, usize, Answer) -> Answer) -> Vec<String> {
    let (claims, _) = run(8_000, Channels::Mono, twist);
    claims.into_iter().filter(|c| !c.1).map(|c| c.0).collect()
}

#[test]
fn eight_claims_per_configuration() {
    let (claims, _) = run(48_000, Channels::Stereo, |_, _, a| a);
    let names: Vec<&str> = claims.iter().map(|c| c.0.as_str()).collect();
    assert_eq!(
        names,
        [
            "48000 Hz stereo: encoder configures",
            "48000 Hz stereo: bitrate reads back",
            "48000 Hz stereo: complexity reads back",
            "48000 Hz stereo: sample rate reads back",
            "48000 Hz stereo: encodes to packets",
            "48000 Hz stereo: packet metadata agrees",
            "48000 Hz stereo: bandwidth is reported",
            "48000 Hz stereo: signal survives the round trip"
        ]
    );
    assert!(claims.iter().all(|c| c.1));
}

#[test]
fn trial_asks_for_real_settings_and_ten_frames() {
    let (_, asked) = run(16_000, Channels::Mono, |_, _, a| a);
    assert_eq!(asked[0], "encoder 16000 Mono Audio");
    assert_eq!(
        asked[1..6],
        [
            format!("{:?}", Setting::Bitrate(64_000)),
            format!("{:?}", Setting::Complexity(8)),
            format!("{:?}", Setting::Vbr(true)),
            format!("{:?}", Setting::InbandFec(true)),
            format!("{:?}", Setting::PacketLoss(10)),
        ]
    );
    assert_eq!(asked[9], "decoder 16000 Mono");
    assert_eq!(asked.iter().filter(|a| *a == "encode").count(), 10);
    assert_eq!(asked[asked.len() - 2], "10 30..39");
}

#[test]
fn each_refused_setting_is_noticed() {
    let refused: [fn(&Ask, usize, Answer) -> Answer; 5] = [
        |k, _, a| if matches!(k, Ask::Configure(Setting::Bitrate(_))) { Answer::Configured(false) } else { a },
        |k, _, a| if matches!(k, Ask::Configure(Setting::Complexity(_))) { Answer::Configured(false) } else { a },
        |k, _, a| if matches!(k, Ask::Configure(Setting::Vbr(_))) { Answer::Configured(false) } else { a },
        |k, _, a| if matches!(k, Ask::Configure(Setting::InbandFec(_))) { Answer::Configured(false) } else { a },
        |k, _, a| if matches!(k, Ask::Configure(Setting::PacketLoss(_))) { Answer::Configured(false) } else { a },
    ];
    for twist in refused {
        assert_eq!(false_claims(twist), ["8000 Hz mono: encoder configures"]);
    }
}

#[test]
fn each_wrong_reading_is_noticed() {
    assert_eq!(
        false_claims(|_, _, a| match a {
            Answer::Bitrate(_) => Answer::Bitrate(Some(Bitrate::Max)),
            a => a,
        }),
        ["8000 Hz mono: bitrate reads back"]
    );
    assert_eq!(
        false_claims(|_, _, a| match a {
            Answer::Bitrate(_) => Answer::Bitrate(None),
            Answer::Complexity(_) => Answer::Complexity(Some(9)),
            Answer::Rate(_) => Answer::Rate(Some(48_000)),
            Answer::Bandwidth(_) => Answer::Bandwidth(false),
            a => a,
        }),
        [
            "8000 Hz mono: bitrate reads back",
            "8000 Hz mono: complexity reads back",
            "8000 Hz mono: sample rate reads back",
            "8000 Hz mono: bandwidth is reported"
        ]
    );
}

#[test]
fn wrong_metadata_in_any_round_is_noticed() {
    let twists: [fn(&Ask, usize, Answer) -> Answer; 6] = [
        |_, r, a| match a {
            Answer::Metadata(m) if r == 0 => Answer::Metadata(Metadata { samples: None, ..m }),
            a => a,
        },
        |_, r, a| match a {
            Answer::Metadata(m) if r == 9 => {
                Answer::Metadata(Metadata { channels: Some(Channels::Stereo), ..m })
            }
            a => a,
        },
        |_, r, a| match a {
            Answer::Metadata(m) if r == 4 => Answer::Metadata(Metadata { frames: Some(2), ..m }),
            a => a,
        },
        |_, r, a| match a {
            Answer::Metadata(m) if r == 5 => {
                Answer::Metadata(Metadata { expected: Some(1), ..m })
            }
            a => a,
        },
        |_, r, a| match a {
            Answer::Pcm { buffer, got } if r == 7 => Answer::Pcm { buffer, got: got - 1 },
            a => a,
        },
        |_, r, a| match a {
            Answer::Metadata(m) if r == 1 => Answer::Metadata(Metadata { samples: Some(0), ..m }),
            a => a,
        },
    ];
    for twist in twists {
        assert_eq!(false_claims(twist), ["8000 Hz mono: packet metadata agrees"]);
    }
}

#[test]
fn silence_and_noise_do_not_pass_for_the_signal() {
    assert_eq!(
        false_claims(|_, r, a| match a {
            Answer::Pcm { buffer, got } if r == 9 => {
                Answer::Pcm { buffer: vec![0; buffer.len()], got }
            }
            a => a,
        }),
        ["8000 Hz mono: signal survives the round trip"]
    );
    assert_eq!(
        false_claims(|_, r, a| match a {
            Answer::Pcm { buffer, got } if r == 9 => {
                Answer::Pcm { buffer: vec![30_000; buffer.len()], got }
            }
            a => a,
        }),
        ["8000 Hz mono: signal survives the round trip"]
    );
    // Only the last frame counts.
    assert_eq!(
        false_claims(|_, r, a| match a {
            Answer::Pcm { buffer, got } if r == 8 => {
                Answer::Pcm { buffer: vec![0; buffer.len()], got }
            }
            a => a,
        }),
        [""; 0]
    );
}

#[test]
fn failures_end_the_trial() {
    let (claims, asked) =
        run(8_000, Channels::Mono, |k, _, a| match k {
            Ask::CreateEncoder { .. } => Answer::Failed("boom".to_string()),
            _ => a,
        });
    assert_eq!(claims, [("8000 Hz mono: create encoder (boom)".to_string(), false)]);
    assert_eq!(asked.len(), 2);
    let (claims, _) = run(8_000, Channels::Mono, |k, _, a| match k {
        Ask::CreateDecoder { .. } => Answer::Failed("boom".to_string()),
        _ => a,
    });
    assert_eq!(claims.len(), 5);
    assert_eq!(claims[4], ("8000 Hz mono: create decoder (boom)".to_string(), false));
    let (claims, _) = run(8_000, Channels::Mono, |k, r, a| match k {
        Ask::Encode { .. } if r == 3 => Answer::Failed("boom".to_string()),
        _ => a,
    });
    assert_eq!(claims[4], ("8000 Hz mono: encode (boom)".to_string(), false));
    let (claims, _) = run(8_000, Channels::Mono, |k, r, a| match k {
        Ask::Decode(_) if r == 9 => Answer::Failed("boom".to_string()),
        _ => a,
    });
    assert_eq!(claims[4], ("8000 Hz mono: decode (boom)".to_string(), false));
}

#[test]
fn four_configurations_with_names() {
    let names: Vec<String> =
        configurations().iter().map(|c| label(c.rate, c.channels)).collect();
    assert_eq!(names, ["48000 Hz stereo", "48000 Hz mono", "16000 Hz mono", "8000 Hz mono"]);
    let modes: Vec<Application> = configurations().iter().map(|c| c.application).collect();
    assert_eq!(
        modes,
        [Application::Audio, Application::Voip, Application::Voip, Application::Voip]
    );
}

#[test]
fn whole_run_makes_35_claims() {
    let mut report = Report::new();
    let c = version_claim("libopus 1.6.1");
    assert_eq!(report.check(&c.what, c.ok), "  ok    libopus is the pinned 1.6 series");
    for c in configurations() {
        for (what, ok) in run(c.rate, c.channels, |_, _, a| a).0 {
            report.check(&what, ok);
        }
    }
    for c in combining(&Combined::Packet { len: 100, frames: Some(2) }) {
        report.check(&c.what, c.ok);
    }
    assert!(report.clean());
    assert_eq!(report.summary(), "35 checks passed");
}

#[test]
fn report_lists_what_failed() {
    let mut report = Report::new();
    assert_eq!(report.check("a", true), "  ok    a");
    assert_eq!(report.check("b", false), "  FAIL  b");
    assert_eq!(report.check("c", true), "  ok    c");
    assert_eq!(report.check("d", false), "  FAIL  d");
    assert!(!report.clean());
    assert_eq!(report.passed, 2);
    assert_eq!(report.failed, ["b", "d"]);
    assert_eq!(report.summary(), "2 passed, 2 FAILED:\n  - b\n  - d");
    assert_eq!(Report::new().summary(), "0 checks passed");
    let mut full = Report { passed: usize::MAX, failed: Vec::new() };
    assert_eq!(full.check("e", false), "  FAIL  e");
    assert_eq!(full.passed, usize::MAX);
}

#[test]
fn other_libraries_are_noticed() {
    assert!(version_claim("libopus 1.6").ok);
    assert!(!version_claim("libopus 1.5.2").ok);
    assert!(!version_claim("unknown").ok);
}

#[test]
fn claims_about_combining() {
    let claims = |c: Combined| -> Vec<(String, bool)> {
        combining(&c).into_iter().map(|c| (c.what, c.ok)).collect()
    };
    let (a, b) = ("two packets combine into one", "the combined packet holds two frames");
    assert_eq!(
        claims(Combined::Packet { len: 9, frames: Some(2) }),
        [(a.to_string(), true), (b.to_string(), true)]
    );
    assert_eq!(
        claims(Combined::Packet { len: 0, frames: None }),
        [(a.to_string(), false), (b.to_string(), false)]
    );
    assert_eq!(
        claims(Combined::Packet { len: 9, frames: Some(1) }),
        [(a.to_string(), true), (b.to_string(), false)]
    );
    assert_eq!(
        claims(Combined::Failed("why".to_string())),
        [("repacketizer (why)".to_string(), false)]
    );
}
