use wav_demo::clip::{demo_clip, score, Voice, TOTAL};
use wav_demo::compare::{discarded, levels, peak, power, survives};
use wav_demo::delay::{search, Search};
use wav_demo::signals::{pulse, tone, Rng, AMPLITUDE};
use wav_demo::spectrum::{bands, shuffle, stage, transform_len};

#[test]
fn energy_is_exact() {
    assert_eq!(power(&[]), 0);
    assert_eq!(power(&[3, -4]), 25);
    assert_eq!(power(&[i16::MIN; 3]), 3 << 30);
    let l = levels(&[10, -10, 5], &[9, -12]);
    assert_eq!((l.signal, l.noise), (200, 5));
    let l = levels(&[i16::MIN], &[i16::MAX]);
    assert_eq!(l.noise, 65_535 * 65_535);
}

#[test]
fn no_noise_means_no_difference() {
    assert_eq!(levels(&[1, 2, 3], &[1, 2]).noise, 0);
    assert_ne!(levels(&[1, 2, 3], &[1, 3]).noise, 0);
    assert_eq!(levels(&[], &[1]).signal, 0);
}

#[test]
fn difference_and_its_peak() {
    let d = discarded(&[100, -100, 7, 1], &[90, 100, 7]);
    assert_eq!(d, [10, -200, 0]);
    assert_eq!(peak(&d), 200);
    assert_eq!(peak(&[]), 1);
    assert_eq!(peak(&[0, 0]), 1);
    assert_eq!(peak(&[i32::MIN, 5]), 1 << 31);
}

#[test]
fn survival_is_an_rms_within_a_factor_of_two() {
    let input = [100i16; 8];
    let rms = |pcm: &[i16]| {
        (pcm.iter().map(|&s| (s as f64).powi(2)).sum::<f64>() / pcm.len() as f64).sqrt()
    };
    for level in 0..400 {
        let decoded = [level; 8];
        let ratio = rms(&decoded) / rms(&input);
        assert_eq!(survives(&decoded, &input), ratio > 0.5 && ratio < 2.0, "{level}");
    }
    assert!(!survives(&[0; 8], &[0; 8]));
    assert!(!survives(&[], &[]));
}

#[test]
fn draws_of_the_generator() {
    let mut rng = Rng { state: 0xC0FFEE };
    let drawn: Vec<u64> = (0..4).map(|_| rng.next()).collect();
    assert_eq!(
        drawn,
        [8599424868465202, 7510128273172774, 3072531441455443, 1155775385811975]
    );
    let mut rng = Rng { state: 0x5eed };
    let drawn: Vec<u64> = (0..3).map(|_| rng.next()).collect();
    assert_eq!(drawn, [8428467204411416, 7479526967153471, 3827095121689708]);
    for _ in 0..1000 {
        let s = rng.state;
        let x = rng.next();
        assert!(x < 1 << 53);
        let next = s.wrapping_mul(6364136223846793005).wrapping_add(1442695040888963407);
        assert_eq!((rng.state, x), (next, next >> 11));
    }
}

#[test]
fn pulses_come_at_120_hz() {
    let at: Vec<usize> = (0..300).filter(|&i| pulse(i, 16_000)).collect();
    assert_eq!(at, [0, 133, 266]);
    assert!((0..10).all(|i| pulse(i, 119)));
    assert!((0..10).all(|i| pulse(i, 0)));
}

#[test]
fn wave_is_the_same_on_every_channel() {
    for (rate, n) in [(0, 0), (999, 0), (1000, 20), (8_000, 160), (44_100, 880), (48_000, 960)] {
        let wave: Vec<i16> = (0..n).map(|i| (i * 7 % 8001) as i16).collect();
        assert_eq!(tone(rate, &wave, 1), wave);
        for channels in [0, 1, 2, 3] {
            let pcm = tone(rate, &wave, channels);
            assert_eq!(pcm.len(), rate as usize / 1000 * 20 * channels);
            for (i, &s) in pcm.iter().enumerate() {
                assert_eq!(s, wave[i / channels]);
                assert!(s.abs() <= 8000);
            }
        }
    }
    let wave: Vec<i16> = (0..20).collect();
    assert_eq!(tone(1000, &wave, 2)[..6], [0, 0, 1, 1, 2, 2]);
}

#[test]
fn tone_of_a_sine() {
    for rate in [1000u32, 8_000, 12_000, 16_000, 24_000, 44_100, 48_000] {
        let wave: Vec<i16> = (0..rate as usize / 1000 * 20)
            .map(|i| {
                let t = i as f64 / rate as f64;
                ((t * 440.0 * std::f64::consts::TAU).sin() * AMPLITUDE as f64) as i16
            })
            .collect();
        let mono = tone(rate, &wave, 1);
        assert_eq!(mono[0], 0);
        for channels in [1, 2] {
            let pcm = tone(rate, &wave, channels);
            assert_eq!(pcm.len(), rate as usize / 1000 * 20 * channels);
            for (i, &s) in pcm.iter().enumerate() {
                assert!((-8000..=8000).contains(&s));
                assert_eq!(s, mono[i / channels]);
            }
        }
    }
}

#[test]
fn transform_length_as_by_the_next_power_of_two() {
    for len in (0..10_000).chain([1 << 20]) {
        let n = 4096.min((len + 1usize).next_power_of_two() / 2).max(2);
        assert_eq!(transform_len(len), n, "{len}");
    }
}

#[test]
fn bands_as_by_bin_width() {
    const EDGES: [f64; 9] =
        [0.0, 250.0, 500.0, 1000.0, 2000.0, 4000.0, 8000.0, 16000.0, 24000.0];
    for rate in [0, 1, 7, 8_000, 11_025, 12_000, 16_000, 24_000, 44_100, 48_000, 96_000, u32::MAX] {
        for len in [0, 1, 2, 3, 100, 4095, 4096, 48_000] {
            let n = transform_len(len);
            let bins = n.min(len) / 2;
            let bin_hz = rate as f64 / n as f64;
            let expected: Vec<(usize, usize)> = EDGES
                .windows(2)
                .map(|w| {
                    let lo = ((w[0] / bin_hz) as usize).min(bins);
                    (lo, ((w[1] / bin_hz) as usize).min(bins))
                })
                .collect();
            assert_eq!(bands(len, rate), expected, "{rate} {len}");
        }
    }
}

#[test]
fn bands_cover_the_transform() {
    for rate in [8_000, 12_000, 16_000, 24_000, 48_000] {
        let bs = bands(48_000, rate);
        assert_eq!(bs[0].0, 0);
        assert_eq!(bs[7].1, 2048);
        for w in bs.windows(2) {
            assert_eq!(w[0].1, w[1].0);
        }
    }
}

#[test]
fn shuffling_reverses_bits() {
    let mut xs: Vec<usize> = (0..8).collect();
    shuffle(&mut xs);
    assert_eq!(xs, [0, 4, 2, 6, 1, 5, 3, 7]);
    for k in 0..=12u32 {
        let n = 1usize << k;
        let mut xs: Vec<f64> = (0..n).map(|i| i as f64).collect();
        shuffle(&mut xs);
        for (i, &x) in xs.iter().enumerate() {
            let reversed = if k == 0 { 0 } else { i.reverse_bits() >> (usize::BITS - k) };
            assert_eq!(x, reversed as f64);
        }
        shuffle(&mut xs);
        assert!(xs.iter().enumerate().all(|(i, &x)| x == i as f64));
    }
}

#[test]
fn every_value_takes_part_once_per_stage() {
    for n in [2usize, 4, 8, 64] {
        let mut half = 1;
        while 2 * half <= n {
            let mut seen = vec![0; n];
            let mut expected = Vec::new();
            for i in (0..n).step_by(2 * half) {
                for k in 0..half {
                    expected.push((i + k, i + k + half, k));
                }
            }
            let pairs: Vec<(usize, usize, usize)> =
                stage(n, half).iter().map(|p| (p.low, p.high, p.step)).collect();
            assert_eq!(pairs, expected);
            for (low, high, _) in pairs {
                seen[low] += 1;
                seen[high] += 1;
            }
            assert!(seen.iter().all(|&c| c == 1));
            half *= 2;
        }
    }
}

#[test]
fn transform_built_on_the_stages_finds_a_tone() {
    let n = 64;
    let tau = std::f64::consts::TAU;
    let mut re: Vec<f64> = (0..n).map(|i| (i as f64 * 5.0 / n as f64 * tau).cos()).collect();
    let mut im = vec![0.0; n];
    shuffle(&mut re);
    shuffle(&mut im);
    let mut half = 1;
    while 2 * half <= n {
        for p in stage(n, half) {
            let a = -tau / (2 * half) as f64 * p.step as f64;
            let (wr, wi) = (a.cos(), a.sin());
            let (vr, vi) =
                (re[p.high] * wr - im[p.high] * wi, re[p.high] * wi + im[p.high] * wr);
            let (ur, ui) = (re[p.low], im[p.low]);
            re[p.low] = ur + vr;
            im[p.low] = ui + vi;
            re[p.high] = ur - vr;
            im[p.high] = ui - vi;
        }
        half *= 2;
    }
    for i in 0..n / 2 {
        let m = (re[i] * re[i] + im[i] * im[i]).sqrt();
        let expected = if i == 5 { n as f64 / 2.0 } else { 0.0 };
        assert!((m - expected).abs() < 1e-9, "{i} {m}");
    }
}

#[test]
fn delay_is_searched_where_every_window_fits() {
    assert_eq!(
        search(8_000, 8_000, 52, 60),
        Search::Try { first: 0, last: 112, window: 7888 }
    );
    assert_eq!(
        search(48_000, 48_000, 312, 100),
        Search::Try { first: 212, last: 412, window: 8192 }
    );
    assert_eq!(search(300, 1000, 10, 5), Search::Try { first: 5, last: 15, window: 300 });
    for (reference, decoded) in [(256, 368), (9000, 9000), (20_000, 400)] {
        if let Search::Try { last, window, .. } = search(reference, decoded, 52, 60) {
            assert!(last + window <= decoded && window <= reference);
        } else {
            panic!("settled");
        }
    }
}

#[test]
fn delay_is_the_hint_where_there_is_too_little() {
    assert_eq!(search(255, 10_000, 52, 60), Search::Settled(52));
    assert_eq!(search(10_000, 367, 52, 60), Search::Settled(52));
    assert_eq!(search(10_000, 40, 52, 60), Search::Settled(40));
    assert_eq!(search(0, 0, 0, 0), Search::Settled(0));
}

#[test]
fn score_as_by_tempo() {
    let rate = 48_000.0;
    let beat = 60.0 / 96.0;
    let chords = [[0, 3, 7], [-4, 0, 5], [3, 7, 12], [-2, 2, 7]];
    let mut expected = Vec::new();
    for bar in 0..4 {
        let bar_start = (beat * 4.0 * bar as f64 * rate) as usize;
        for b in 0..4 {
            let start = bar_start + (beat * b as f64 * rate) as usize;
            for v in 0..3 {
                let length = (beat * 1.6 * rate) as usize;
                expected.push((Voice::Pluck(v), start, length, chords[bar][v] + 12));
            }
        }
        for b in [0usize, 2] {
            let start = bar_start + (beat * b as f64 * rate) as usize;
            expected.push((Voice::Bass, start, (beat * 1.4 * rate) as usize, chords[bar][0]));
        }
        for e in 0..8 {
            let start = bar_start + (beat * 0.5 * e as f64 * rate) as usize;
            expected.push((Voice::Hat, start, (0.06 * rate) as usize, 0));
        }
    }
    let notes: Vec<(Voice, usize, usize, i32)> =
        score().iter().map(|n| (n.voice, n.start, n.length, n.pitch)).collect();
    assert_eq!(notes, expected);
    assert_eq!(TOTAL, (beat * 4.0 * 4.0 * rate) as usize);
}

#[test]
fn notes_stay_inside_the_clip() {
    let mut cut = 0;
    for n in score() {
        let heard = (0..n.length).filter(|i| n.start + i < TOTAL).count();
        assert_eq!(n.sounding(), heard);
        if heard < n.length {
            cut += 1;
            assert_ne!(n.voice, Voice::Hat);
        }
    }
    assert_eq!(cut, 3);
}

#[test]
fn clip_interleaves_its_channels() {
    let clip = demo_clip(&[1, 2, 3], &[-1, -2, -3]);
    assert_eq!((clip.rate, clip.channels), (48_000, 2));
    assert_eq!(clip.samples, [1, -1, 2, -2, 3, -3]);
    assert_eq!(clip.frames(), 3);
}
