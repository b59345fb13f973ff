use wav_demo::crc::crc32;
use wav_demo::ogg::{has_room, page, Stream, FIRST, LAST, SERIAL};

const SMALL: [u8; 167] = [
    79, 103, 103, 83, 0, 2, 0, 0, 0, 0, 0, 0, 0, 0, 83, 85, 80, 79, 0, 0, 0, 0, 140, 230, 249, 206,
    1, 19, 79, 112, 117, 115, 72, 101, 97, 100, 1, 2, 56, 1, 128, 187, 0, 0, 0, 0, 0, 79, 103, 103,
    83, 0, 0, 0, 0, 0, 0, 0, 0, 0, 0, 83, 85, 80, 79, 1, 0, 0, 0, 209, 144, 86, 73, 1, 60, 79, 112,
    117, 115, 84, 97, 103, 115, 13, 0, 0, 0, 108, 105, 98, 111, 112, 117, 115, 32, 49, 46, 54, 46,
    49, 1, 0, 0, 0, 27, 0, 0, 0, 69, 78, 67, 79, 68, 69, 82, 61, 119, 97, 118, 45, 100, 101, 109,
    111, 32, 40, 119, 97, 118, 45, 100, 101, 109, 111, 41, 79, 103, 103, 83, 0, 4, 248, 4, 0, 0, 0,
    0, 0, 0, 83, 85, 80, 79, 2, 0, 0, 0, 208, 172, 175, 104, 2, 3, 0, 97, 98, 99,
];

fn stream(channels: u8, pre_skip: u16, input_rate: u32, final_granule: u64) -> Stream {
    Stream { channels, pre_skip, input_rate, samples_per_packet: 960, final_granule }
}

/// A page as a reader sees it.
struct Found {
    kind: u8,
    granule: u64,
    serial: u32,
    seq: u32,
    sum: u32,
    segments: usize,
    len: usize,
    packets: Vec<Vec<u8>>,
}

fn number(b: &[u8]) -> u64 {
    b.iter().rev().fold(0, |n, &x| n * 256 + x as u64)
}

fn bitwise_crc(data: &[u8]) -> u32 {
    let mut r = 0u32;
    for &b in data {
        r ^= (b as u32) << 24;
        for _ in 0..8 {
            r = if r & 0x8000_0000 != 0 { (r << 1) ^ 0x04c1_1db7 } else { r << 1 };
        }
    }
    r
}

fn pages(mut b: &[u8]) -> Vec<Found> {
    let mut found = Vec::new();
    while !b.is_empty() {
        assert_eq!(&b[..5], b"OggS\0");
        let n = b[26] as usize;
        let table = &b[27..27 + n];
        let len = 27 + n + table.iter().map(|&s| s as usize).sum::<usize>();
        let mut blank = b[..len].to_vec();
        blank[22..26].fill(0);
        let sum = number(&b[22..26]) as u32;
        assert_eq!(sum, bitwise_crc(&blank));
        let (mut packets, mut open, mut at) = (Vec::new(), Vec::new(), 27 + n);
        for &s in table {
            open.extend_from_slice(&b[at..at + s as usize]);
            at += s as usize;
            if s < 255 {
                packets.push(std::mem::take(&mut open));
            }
        }
        assert!(open.is_empty());
        found.push(Found {
            kind: b[5],
            granule: number(&b[6..14]),
            serial: number(&b[14..18]) as u32,
            seq: number(&b[18..22]) as u32,
            sum,
            segments: n,
            len,
            packets,
        });
        b = &b[len..];
    }
    found
}

#[test]
fn checksum_of_known_messages() {
    assert_eq!(crc32(b""), 0);
    assert_eq!(crc32(b"123456789"), 0x89A1_897F);
    assert_eq!(crc32(b"OggS"), 0x5FB0_A94F);
    assert_eq!(crc32(&[0]), 0);
    assert_eq!(crc32(&[0xFF]), 0xB1F7_40B4);
}

#[test]
fn checksum_agrees_with_long_division() {
    let data: Vec<u8> = (0..3000u32).map(|i| (i * i + 7 * i) as u8).collect();
    for n in [1, 2, 3, 255, 256, 2999, 3000] {
        assert_eq!(crc32(&data[..n]), bitwise_crc(&data[..n]));
    }
}

#[test]
fn checksum_notices_one_changed_byte() {
    let data: Vec<u8> = (0..=255).collect();
    let sum = crc32(&data);
    for at in 0..data.len() {
        let mut other = data.clone();
        other[at] ^= 0x10;
        assert_ne!(crc32(&other), sum);
    }
}

#[test]
fn lacing_of_all_kinds_of_lengths() {
    let expected: [(usize, &[u8]); 6] = [
        (0, &[0]),
        (1, &[1]),
        (254, &[254]),
        (255, &[255, 0]),
        (510, &[255, 255, 0]),
        (511, &[255, 255, 1]),
    ];
    for (len, table) in expected {
        let packet = vec![7u8; len];
        let (mut out, mut seq) = (Vec::new(), 41);
        page(&mut out, 0, 5, 6, &mut seq, &[&packet]);
        assert_eq!(seq, 42);
        assert_eq!(out[26] as usize, table.len());
        assert_eq!(&out[27..27 + table.len()], table);
        assert_eq!(&out[27 + table.len()..], &packet[..]);
    }
}

#[test]
fn page_is_appended_with_its_fields() {
    let mut out = vec![1, 2, 3];
    let mut seq = 9;
    page(&mut out, FIRST, 0x0102_0304_0506_0708, 0xAABB_CCDD, &mut seq, &[b"xy", b"", b"z"]);
    assert_eq!(&out[..3], [1, 2, 3]);
    let p = &pages(&out[3..])[0];
    assert_eq!((p.kind, p.granule, p.serial, p.seq), (2, 0x0102_0304_0506_0708, 0xAABB_CCDD, 9));
    assert_eq!(p.packets, [b"xy".to_vec(), Vec::new(), b"z".to_vec()]);
}

#[test]
fn bytes_of_a_small_file() {
    let packets = vec![b"abc".to_vec(), Vec::new()];
    assert_eq!(wav_demo::ogg::write(&packets, &stream(2, 312, 48_000, 1272), "libopus 1.6.1"), SMALL);
}

#[test]
fn file_without_audio_is_two_headers() {
    let b = wav_demo::ogg::write(&[], &stream(1, 0, 8_000, 0), "v");
    let ps = pages(&b);
    assert_eq!(ps.len(), 2);
    assert_eq!(ps[0].kind, FIRST);
    assert_eq!(&ps[0].packets[0][..8], b"OpusHead");
    assert_eq!(&ps[1].packets[0][..8], b"OpusTags");
}

fn mixed() -> Vec<Vec<u8>> {
    let mut sizes = vec![0, 254, 255, 256, 510, 4000, 100, 4096, 1, 5000, 300];
    sizes.extend([20; 300]);
    sizes.iter().enumerate().map(|(i, &n)| vec![(i % 251) as u8; n]).collect()
}

#[test]
fn packets_share_pages_up_to_the_limits() {
    let b = wav_demo::ogg::write(&mixed(), &stream(1, 624, 8_000, 12_345), "v");
    let ps = pages(&b);
    let lens: Vec<usize> = ps.iter().map(|p| p.len).collect();
    assert_eq!(lens, [47, 76, 1311, 4043, 128, 4140, 29, 5047, 4298, 2358]);
    let segments: Vec<usize> = ps.iter().map(|p| p.segments).collect();
    assert_eq!(segments, [1, 1, 9, 16, 1, 17, 1, 20, 191, 111]);
    let sums: Vec<u32> = ps.iter().map(|p| p.sum).collect();
    assert_eq!(
        sums,
        [
            0x504c83eb, 0xaf63e556, 0x5a0d235, 0x4dfc324a, 0x54a204d, 0xf286c64, 0x307e973e,
            0xdf37bedb, 0x6743d4ec, 0x87bf3d5
        ]
    );
}

#[test]
fn granules_count_packets_and_the_last_one_trims() {
    let b = wav_demo::ogg::write(&mixed(), &stream(1, 624, 8_000, 12_345), "v");
    let ps = pages(&b);
    let granules: Vec<u64> = ps.iter().map(|p| p.granule).collect();
    assert_eq!(granules, [0, 0, 4800, 5760, 6720, 7680, 8640, 9600, 192_000, 12_345]);
    let mut done = 0;
    for p in &ps[2..ps.len() - 1] {
        done += p.packets.len() as u64;
        assert_eq!(p.granule, done * 960);
        assert_eq!(p.kind, 0);
    }
    assert_eq!(ps.last().unwrap().kind, LAST);
}

#[test]
fn reader_finds_every_packet() {
    let packets = mixed();
    let b = wav_demo::ogg::write(&packets, &stream(1, 624, 8_000, 12_345), "v");
    let ps = pages(&b);
    let found: Vec<Vec<u8>> = ps[2..].iter().flat_map(|p| p.packets.clone()).collect();
    assert_eq!(found, packets);
    for (i, p) in ps.iter().enumerate() {
        assert_eq!(p.seq as usize, i);
        assert_eq!(p.serial, SERIAL);
    }
}

#[test]
fn full_segment_table_starts_a_new_page() {
    let packets = vec![vec![1u8]; 600];
    let ps = pages(&wav_demo::ogg::write(&packets, &stream(1, 0, 8_000, 0), "v"));
    let counts: Vec<usize> = ps[2..].iter().map(|p| p.packets.len()).collect();
    assert_eq!(counts, [255, 255, 90]);
}

#[test]
fn longest_packet_fills_a_page() {
    let packets = vec![vec![9u8; 65_024]];
    assert!(has_room(&packets, &stream(1, 0, 8_000, 0), "v"));
    let ps = pages(&wav_demo::ogg::write(&packets, &stream(1, 0, 8_000, 0), "v"));
    assert_eq!(ps[2].segments, 255);
    assert_eq!(ps[2].packets, packets);
}

#[test]
fn room_has_limits() {
    let s = stream(1, 0, 8_000, 0);
    assert!(!has_room(&[vec![9u8; 65_025]], &s, "v"));
    assert!(!has_room(&[], &s, &"v".repeat(64_978)));
    assert!(has_room(&[], &s, &"v".repeat(64_977)));
    let wide = Stream { samples_per_packet: u64::MAX, ..stream(1, 0, 8_000, 0) };
    assert!(has_room(&[vec![1]], &wide, "v"));
    assert!(!has_room(&[vec![1], vec![2]], &wide, "v"));
}

#[test]
fn vendor_is_stored_as_utf8() {
    let ps = pages(&wav_demo::ogg::write(&[], &stream(1, 0, 8_000, 0), "öpus"));
    assert_eq!(&ps[1].packets[0][8..17], [5, 0, 0, 0, 0xC3, 0xB6, b'p', b'u', b's']);
}
