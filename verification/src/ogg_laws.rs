//! What holds of every `.opus` file, told by its bytes: how pages and header packets are laid
//! out, how packets are spread over pages, and what the checksum is.

use crate::ogg::{Page, Stream};
use crate::{bytes, crc, demux, ogg};
use vstd::prelude::*;
use vstd::string::*;

verus! {

/// The segments of a packet: all but the last are full, the last one is not, and together they
/// have as many bytes as the packet.
pub proof fn law_lace(n: nat, i: int)
    requires
        0 <= i < ogg::lace(n).len(),
    ensures
        ogg::lace(n).last() < 255,
        i < ogg::lace(n).len() - 1 ==> ogg::lace(n)[i] == 255,
        255 * (ogg::lace(n).len() - 1) + ogg::lace(n).last() == n,
{
}

/// Packets follow one another, and so do their segments: each packet adds its own bytes and its
/// own segments at the end.
pub proof fn law_packets_end_to_end(packets: Seq<Seq<u8>>, p: Seq<u8>)
    ensures
        ogg::joined(Seq::empty()) == Seq::<u8>::empty(),
        ogg::lacing(Seq::empty()) == Seq::<u8>::empty(),
        ogg::joined(packets.push(p)) == ogg::joined(packets) + p,
        ogg::lacing(packets.push(p)) == ogg::lacing(packets) + ogg::lace(p.len()),
{
    ogg::lemma_lacing_push(packets, p);
}

/// The packets behind a list are those in it, one for one.
pub proof fn law_contents(packets: Seq<Vec<u8>>, i: int)
    requires
        0 <= i < packets.len(),
    ensures
        ogg::contents(packets).len() == packets.len(),
        ogg::contents(packets)[i] == packets[i]@,
{
}

/// The packets behind a list of slices are those in it, one for one.
pub proof fn law_views(packets: Seq<&[u8]>, i: int)
    requires
        0 <= i < packets.len(),
    ensures
        ogg::views(packets).len() == packets.len(),
        ogg::views(packets)[i] == packets[i]@,
{
}

proof fn lemma_name()
    ensures
        bytes::ascii("OggS"@) == seq![0x4Fu8, 0x67, 0x67, 0x53],
        bytes::ascii("OpusHead"@) == seq![0x4Fu8, 0x70, 0x75, 0x73, 0x48, 0x65, 0x61, 0x64],
        bytes::ascii("OpusTags"@) == seq![0x4Fu8, 0x70, 0x75, 0x73, 0x54, 0x61, 0x67, 0x73],
{
    reveal_strlit("OggS");
    reveal_strlit("OpusHead");
    reveal_strlit("OpusTags");
    assert(bytes::ascii("OggS"@) =~= seq![0x4Fu8, 0x67, 0x67, 0x53]);
    assert(bytes::ascii("OpusHead"@) =~= seq![0x4Fu8, 0x70, 0x75, 0x73, 0x48, 0x65, 0x61, 0x64]);
    assert(bytes::ascii("OpusTags"@) =~= seq![0x4Fu8, 0x70, 0x75, 0x73, 0x54, 0x61, 0x67, 0x73]);
}

/// Where everything stands on a page: the name, the version, the kind, the granule position, the
/// serial number, the page number, the checksum of the page with that field zeroed, the segment
/// table behind its length, and the packets.
pub proof fn law_page_layout(p: Page)
    requires
        ogg::lacing(p.packets).len() <= 255,
        p.granule <= u64::MAX,
        p.serial <= u32::MAX,
        p.seq <= u32::MAX,
    ensures
        ({
            let b = ogg::page_bytes(p);
            let t = ogg::lacing(p.packets);
            &&& b.len() == 27 + t.len() + ogg::joined(p.packets).len()
            &&& b.take(4) == seq![0x4Fu8, 0x67, 0x67, 0x53]
            &&& b[4] == 0
            &&& b[5] == p.kind
            &&& bytes::le_value(b.subrange(6, 14)) == p.granule
            &&& bytes::le_value(b.subrange(14, 18)) == p.serial
            &&& bytes::le_value(b.subrange(18, 22)) == p.seq
            &&& bytes::le_value(b.subrange(22, 26)) == crc::crc(
                b.take(22) + seq![0u8, 0, 0, 0] + b.skip(26),
            )
            &&& b[26] == t.len()
            &&& b.subrange(27, 27 + t.len() as int) == t
            &&& b.skip(27 + t.len() as int) == ogg::joined(p.packets)
        }),
{
    let zero = ogg::page_with(p, 0);
    let sum = crc::crc(zero) as nat;
    let b = ogg::page_bytes(p);
    let t = ogg::lacing(p.packets);
    lemma_name();
    ogg::lemma_page_parts(p, 0);
    ogg::lemma_page_parts(p, sum);
    bytes::lemma_le_limits();
    bytes::lemma_le_len(sum, 4);
    bytes::law_le_round_trip(p.granule, 8);
    bytes::law_le_round_trip(p.serial, 4);
    bytes::law_le_round_trip(p.seq, 4);
    bytes::law_le_round_trip(sum, 4);
    assert(b.take(4) =~= b.subrange(0, 4));
    assert(b.skip(27 + t.len() as int) =~= b.subrange(27 + t.len() as int, b.len() as int));
    assert(bytes::le(0, 4) =~= seq![0u8, 0, 0, 0]) by {
        reveal_with_fuel(bytes::le, 5);
    }
    assert(b.take(22) + seq![0u8, 0, 0, 0] + b.skip(26) =~= zero) by {
        assert(b.take(22) =~= zero.take(22));
        assert(b.skip(26) =~= zero.skip(26));
        assert(zero.subrange(22, 26) == bytes::le(0, 4));
        assert(zero =~= zero.take(22) + zero.subrange(22, 26) + zero.skip(26));
    }
}

/// The opening packet, byte by byte: its name, version one, the channels, the samples to skip,
/// the rate of the recording, no gain and no channel mapping.
pub proof fn law_head_layout(s: Stream)
    ensures
        ({
            let h = ogg::head(s);
            &&& h.len() == 19
            &&& h.take(8) == seq![0x4Fu8, 0x70, 0x75, 0x73, 0x48, 0x65, 0x61, 0x64]
            &&& h[8] == 1
            &&& h[9] == s.channels
            &&& bytes::le_value(h.subrange(10, 12)) == s.pre_skip
            &&& bytes::le_value(h.subrange(12, 16)) == s.input_rate
            &&& h[16] == 0 && h[17] == 0
            &&& h[18] == 0
        }),
{
    let h = ogg::head(s);
    lemma_name();
    bytes::lemma_le_limits();
    bytes::lemma_le_len(s.pre_skip as nat, 2);
    bytes::lemma_le_len(s.input_rate as nat, 4);
    bytes::law_le_round_trip(s.pre_skip as nat, 2);
    bytes::law_le_round_trip(s.input_rate as nat, 4);
    assert(h.take(8) =~= bytes::ascii("OpusHead"@));
    assert(h.subrange(10, 12) =~= bytes::le(s.pre_skip as nat, 2));
    assert(h.subrange(12, 16) =~= bytes::le(s.input_rate as nat, 4));
}

/// The packet that names the encoder, byte by byte: its name, the length of the vendor string
/// and the string, then the number of comments, which is one, its length and the comment.
pub proof fn law_tags_layout(vendor: Seq<u8>)
    requires
        vendor.len() <= u32::MAX,
    ensures
        ({
            let t = ogg::tags(vendor);
            let n = vendor.len() as int;
            &&& t.len() == 47 + n
            &&& t.take(8) == seq![0x4Fu8, 0x70, 0x75, 0x73, 0x54, 0x61, 0x67, 0x73]
            &&& bytes::le_value(t.subrange(8, 12)) == n
            &&& t.subrange(12, 12 + n) == vendor
            &&& bytes::le_value(t.subrange(12 + n, 16 + n)) == 1
            &&& bytes::le_value(t.subrange(16 + n, 20 + n)) == 27
            &&& t.skip(20 + n) == bytes::ascii("ENCODER=wav-demo (wav-demo)"@)
        }),
{
    reveal_strlit("ENCODER=wav-demo (wav-demo)");
    let t = ogg::tags(vendor);
    let n = vendor.len() as int;
    lemma_name();
    bytes::lemma_le_limits();
    bytes::lemma_le_len(vendor.len(), 4);
    bytes::lemma_le_len(1, 4);
    bytes::lemma_le_len(27, 4);
    bytes::law_le_round_trip(vendor.len(), 4);
    bytes::law_le_round_trip(1, 4);
    bytes::law_le_round_trip(27, 4);
    assert(t.take(8) =~= bytes::ascii("OpusTags"@));
    assert(t.subrange(8, 12) =~= bytes::le(vendor.len(), 4));
    assert(t.subrange(12, 12 + n) =~= vendor);
    assert(t.subrange(12 + n, 16 + n) =~= bytes::le(1, 4));
    assert(t.subrange(16 + n, 20 + n) =~= bytes::le(27, 4));
    assert(t.skip(20 + n) =~= bytes::ascii("ENCODER=wav-demo (wav-demo)"@));
}

/// Pages follow one another in a file.
pub proof fn law_pages_end_to_end(pages: Seq<Page>, p: Page)
    ensures
        ogg::pages_bytes(Seq::empty()) == Seq::<u8>::empty(),
        ogg::pages_bytes(pages.push(p)) == ogg::pages_bytes(pages) + ogg::page_bytes(p),
    decreases pages.len(),
{
    let more = pages.push(p);
    if pages.len() == 0 {
        assert(more.drop_first() =~= Seq::empty());
        assert(ogg::pages_bytes(more.drop_first()) =~= Seq::empty());
        assert(ogg::pages_bytes(more) =~= ogg::page_bytes(p));
        assert(ogg::pages_bytes(pages) + ogg::page_bytes(p) =~= ogg::page_bytes(p));
    } else {
        law_pages_end_to_end(pages.drop_first(), p);
        assert(more.drop_first() =~= pages.drop_first().push(p));
        assert(ogg::pages_bytes(more) =~= ogg::pages_bytes(pages) + ogg::page_bytes(p));
    }
}

/// How many packets lie on the first `k` pages.
pub open spec fn packets_before(pages: Seq<Page>, k: int) -> nat
    decreases k,
{
    if k <= 0 {
        0
    } else {
        packets_before(pages, k - 1) + pages[k - 1].packets.len()
    }
}

proof fn lemma_packets_before(pages: Seq<Page>, k: int)
    requires
        0 <= k <= pages.len(),
    ensures
        packets_before(pages, k) == demux::page_packets(pages.take(k)).len(),
    decreases k,
{
    if k == 0 {
        assert(pages.take(0) =~= Seq::empty());
    } else {
        lemma_packets_before(pages, k - 1);
        lemma_page_packets_push(pages.take(k - 1), pages[k - 1]);
        assert(pages.take(k) =~= pages.take(k - 1).push(pages[k - 1]));
    }
}

proof fn lemma_page_packets_push(pages: Seq<Page>, p: Page)
    ensures
        demux::page_packets(pages.push(p)) == demux::page_packets(pages) + p.packets,
    decreases pages.len(),
{
    let more = pages.push(p);
    if pages.len() == 0 {
        assert(more.drop_first() =~= Seq::empty());
        assert(demux::page_packets(more.drop_first()) =~= Seq::empty());
        assert(demux::page_packets(more) =~= demux::page_packets(pages) + p.packets);
    } else {
        lemma_page_packets_push(pages.drop_first(), p);
        assert(more.drop_first() =~= pages.drop_first().push(p));
        assert(demux::page_packets(more) =~= demux::page_packets(pages) + p.packets);
    }
}

/// How packets are spread over the pages of a file. The first page begins the stream and has the
/// opening packet alone, the second the packet that names the encoder. Every further page has the
/// packets that follow those of the page before, as they are, at least one; never more than 255
/// segments, and more than 4096 bytes only in a single packet. A page that is not the last counts
/// the samples of all audio packets up to its end, and is full: with the next packet it would
/// have had more than 255 segments or more than 4096 bytes. The last page ends the stream at the
/// final granule position.
#[verifier::spinoff_prover]
pub proof fn law_spread_over_pages(packets: Seq<Seq<u8>>, s: Stream, vendor: Seq<u8>, k: int)
    requires
        forall|i: int| 0 <= i < packets.len() ==> (#[trigger] packets[i]).len() < 65025,
        0 <= k < ogg::file_pages(packets, s, vendor).len(),
    ensures
        ({
            let pages = ogg::file_pages(packets, s, vendor);
            let p = pages[k];
            let from = packets_before(pages, k) - 2;
            &&& p.serial == 0x4F50_5553
            &&& p.seq == k
            &&& k == 0 ==> p.kind == 2 && p.granule == 0 && p.packets == seq![ogg::head(s)]
            &&& k == 1 ==> p.kind == 0 && p.granule == 0 && p.packets == seq![ogg::tags(vendor)]
            &&& k >= 2 ==> {
                &&& 0 <= from < from + p.packets.len() <= packets.len()
                &&& p.packets == packets.subrange(from, from + p.packets.len())
                &&& ogg::lacing(p.packets).len() <= 255
                &&& p.packets.len() == 1 || ogg::joined(p.packets).len() <= 4096
                &&& if k == pages.len() - 1 {
                    &&& p.kind == 4
                    &&& p.granule == s.final_granule
                    &&& from + p.packets.len() == packets.len()
                } else {
                    let next = packets[from + p.packets.len()];
                    &&& p.kind == 0
                    &&& p.granule == (from + p.packets.len()) * s.samples_per_packet
                    &&& from + p.packets.len() < packets.len()
                    &&& ogg::lacing(p.packets).len() + next.len() / 255 + 1 > 255
                        || ogg::joined(p.packets).len() + next.len() > 4096
                }
            }
        }),
{
    let pages = ogg::file_pages(packets, s, vendor);
    let audio = ogg::audio_pages(packets, s, 0, 2);
    assert forall|i: int| 0 <= i < packets.len() implies #[trigger] ogg::lace(
        packets[i].len(),
    ).len() <= ogg::MAX_SEGMENTS by {
        assert(packets[i].len() < 65025);
    }
    demux::law_audio_pages(packets, s, 0, 2);
    if k >= 2 {
        let j = k - 2;
        let p = audio[j];
        assert(pages[k] == p);
        assert(demux::placed(audio, j, s, 0, 2));
        lemma_audio_before(packets, s, vendor, k);
        lemma_packets_before(audio, j);
        lemma_packets_before(audio, j + 1);
        lemma_slice(audio, j);
        let before = demux::page_packets(audio.take(j)).len() as int;
        assert(packets.skip(0) =~= packets);
        assert(p.packets =~= packets.subrange(before, before + p.packets.len()));
        if j < audio.len() - 1 {
            assert(demux::placed(audio, j + 1, s, 0, 2));
            lemma_packets_before(audio, j + 2);
            lemma_slice(audio, j + 1);
            let next = audio[j + 1].packets[0];
            assert(packets.subrange(
                before + p.packets.len(),
                before + p.packets.len() + audio[j + 1].packets.len(),
            )[0] == packets[before + p.packets.len()]);
            assert(next == packets[before + p.packets.len()]);
            ogg::lemma_lacing_push(p.packets, next);
        } else {
            assert(audio.take(j + 1) =~= audio);
        }
    }
}

/// The packets of a page, among all.
proof fn lemma_slice(pages: Seq<Page>, j: int)
    requires
        0 <= j < pages.len(),
    ensures
        ({
            let all = demux::page_packets(pages);
            let from = demux::page_packets(pages.take(j)).len() as int;
            let to = demux::page_packets(pages.take(j + 1)).len() as int;
            &&& to == from + pages[j].packets.len()
            &&& to <= all.len()
            &&& pages[j].packets == all.subrange(from, to)
        }),
{
    let all = demux::page_packets(pages);
    let front = demux::page_packets(pages.take(j));
    let to = demux::page_packets(pages.take(j + 1));
    lemma_page_packets_push(pages.take(j), pages[j]);
    assert(pages.take(j + 1) =~= pages.take(j).push(pages[j]));
    lemma_page_packets_append(pages.take(j + 1), pages.skip(j + 1));
    assert(pages.take(j + 1) + pages.skip(j + 1) =~= pages);
    assert(pages[j].packets =~= all.subrange(front.len() as int, to.len() as int));
}

proof fn lemma_page_packets_append(a: Seq<Page>, b: Seq<Page>)
    ensures
        demux::page_packets(a + b) == demux::page_packets(a) + demux::page_packets(b),
    decreases b.len(),
{
    if b.len() == 0 {
        assert(a + b =~= a);
        assert(demux::page_packets(b) =~= Seq::empty());
        assert(demux::page_packets(a) + demux::page_packets(b) =~= demux::page_packets(a));
    } else {
        let c = b.drop_last();
        lemma_page_packets_append(a, c);
        lemma_page_packets_push(a + c, b.last());
        lemma_page_packets_push(c, b.last());
        assert((a + c).push(b.last()) =~= a + b);
        assert(c.push(b.last()) =~= b);
        assert(demux::page_packets(a + b) =~= demux::page_packets(a) + demux::page_packets(b));
    }
}

/// The two header packets come before the audio.
proof fn lemma_audio_before(packets: Seq<Seq<u8>>, s: Stream, vendor: Seq<u8>, k: int)
    requires
        2 <= k <= ogg::file_pages(packets, s, vendor).len(),
    ensures
        packets_before(ogg::file_pages(packets, s, vendor), k) == 2 + packets_before(
            ogg::audio_pages(packets, s, 0, 2),
            k - 2,
        ),
    decreases k,
{
    let pages = ogg::file_pages(packets, s, vendor);
    if k == 2 {
        assert(packets_before(pages, 0) == 0);
        assert(packets_before(pages, 1) == 1);
        assert(packets_before(pages, 2) == 2);
    } else {
        lemma_audio_before(packets, s, vendor, k - 1);
        assert(pages[k - 1] == ogg::audio_pages(packets, s, 0, 2)[k - 3]);
    }
}

/// One step of the division by the polynomial x^32 + x^26 + x^23 + x^22 + x^16 + x^12 + x^11 +
/// x^10 + x^8 + x^7 + x^5 + x^4 + x^2 + x + 1: twice the register, less the polynomial where
/// that is too long.
pub proof fn law_division_step(r: u32)
    ensures
        crc::shift(r) as u64 == (if r >= 0x8000_0000 {
            (2 * (r as u64)) as u64 ^ 0x1_04c1_1db7u64
        } else {
            (2 * (r as u64)) as u64
        }),
{
    assert(crc::shift(r) as u64 == (if r >= 0x8000_0000 {
        (2 * (r as u64)) as u64 ^ 0x1_04c1_1db7u64
    } else {
        (2 * (r as u64)) as u64
    })) by (bit_vector);
}

/// The checksum of nothing is zero, and one more byte goes in at the top, followed by eight
/// steps of the division.
pub proof fn law_one_more_byte(data: Seq<u8>, b: u8)
    ensures
        crc::crc(Seq::empty()) == 0,
        ({
            let r0 = crc::crc(data) ^ ((b as u32) << 24);
            let r2 = crc::shift(crc::shift(r0));
            let r4 = crc::shift(crc::shift(r2));
            let r6 = crc::shift(crc::shift(r4));
            crc::crc(data.push(b)) == crc::shift(crc::shift(r6))
        }),
{
    assert(data.push(b).drop_last() =~= data);
}

proof fn lemma_shift_linear(x: u32, y: u32)
    ensures
        crc::shift(x ^ y) == crc::shift(x) ^ crc::shift(y),
{
    assert(crc::shift(x ^ y) == crc::shift(x) ^ crc::shift(y)) by (bit_vector);
}

proof fn lemma_shift8_linear(x: u32, y: u32)
    ensures
        crc::shift8(x ^ y) == crc::shift8(x) ^ crc::shift8(y),
{
    lemma_shift_linear(x, y);
    let (x1, y1) = (crc::shift(x), crc::shift(y));
    lemma_shift_linear(x1, y1);
    let (x2, y2) = (crc::shift(x1), crc::shift(y1));
    lemma_shift_linear(x2, y2);
    let (x3, y3) = (crc::shift(x2), crc::shift(y2));
    lemma_shift_linear(x3, y3);
    let (x4, y4) = (crc::shift(x3), crc::shift(y3));
    lemma_shift_linear(x4, y4);
    let (x5, y5) = (crc::shift(x4), crc::shift(y4));
    lemma_shift_linear(x5, y5);
    let (x6, y6) = (crc::shift(x5), crc::shift(y5));
    lemma_shift_linear(x6, y6);
    let (x7, y7) = (crc::shift(x6), crc::shift(y6));
    lemma_shift_linear(x7, y7);
}

/// Two messages, combined bit by bit.
pub open spec fn mixed(a: Seq<u8>, b: Seq<u8>) -> Seq<u8> {
    Seq::new(a.len(), |i: int| a[i] ^ b[i])
}

/// The checksum is a remainder: of two messages combined bit by bit it is the two checksums
/// combined bit by bit.
pub proof fn law_checksum_is_linear(a: Seq<u8>, b: Seq<u8>)
    requires
        a.len() == b.len(),
    ensures
        crc::crc(mixed(a, b)) == crc::crc(a) ^ crc::crc(b),
    decreases a.len(),
{
    if a.len() == 0 {
        assert(0u32 ^ 0u32 == 0u32) by (bit_vector);
    } else {
        let (c, d) = (a.drop_last(), b.drop_last());
        law_checksum_is_linear(c, d);
        assert(mixed(a, b).drop_last() =~= mixed(c, d));
        let (r, q) = (crc::crc(c), crc::crc(d));
        let (x, y) = (a.last(), b.last());
        assert((r ^ q) ^ (((x ^ y) as u32) << 24) == (r ^ ((x as u32) << 24)) ^ (q ^ ((y as u32)
            << 24))) by (bit_vector);
        lemma_shift8_linear(r ^ ((x as u32) << 24), q ^ ((y as u32) << 24));
    }
}

/// Zeros in front of a message change nothing, and a single one at the very end of any number of
/// zeros leaves the polynomial itself.
pub proof fn law_leading_zeros(n: nat, data: Seq<u8>)
    ensures
        crc::crc(Seq::new(n, |i: int| 0u8) + data) == crc::crc(data),
        crc::crc(Seq::new(n, |i: int| 0u8).push(1u8)) == 0x04c1_1db7,
    decreases n + data.len(),
{
    let zeros = Seq::new(n, |i: int| 0u8);
    if data.len() > 0 {
        law_leading_zeros(n, data.drop_last());
        assert((zeros + data).drop_last() =~= zeros + data.drop_last());
    } else {
        assert(zeros + data =~= zeros);
        if n > 0 {
            let fewer = Seq::new((n - 1) as nat, |i: int| 0u8);
            law_leading_zeros((n - 1) as nat, data);
            assert(fewer + data =~= fewer);
            assert(zeros.drop_last() =~= fewer);
            assert(crc::shift8(0u32 ^ ((0u8 as u32) << 24)) == 0) by (bit_vector);
        }
    }
    assert(zeros.push(1u8).drop_last() =~= zeros);
    if data.len() > 0 {
        law_leading_zeros(n, Seq::empty());
        assert(zeros + Seq::<u8>::empty() =~= zeros);
    } else {
        assert(zeros + data =~= zeros);
    }
    assert(crc::crc(zeros) == 0);
    assert(crc::shift8(0u32 ^ ((1u8 as u32) << 24)) == 0x04c1_1db7) by (bit_vector);
}

/// Packets as a codec makes them always fit: up to 4000 bytes each, 20 ms of them, for more than
/// a year.
pub proof fn law_ordinary_packets_fit(packets: Seq<Seq<u8>>, s: Stream, vendor: Seq<u8>)
    requires
        forall|i: int| 0 <= i < packets.len() ==> (#[trigger] packets[i]).len() <= 4000,
        packets.len() <= 2_000_000_000,
        vendor.len() <= 60_000,
        s.samples_per_packet == 960,
    ensures
        ogg::roomy(packets, s, vendor),
        ogg::writable(packets, s, vendor),
{
    assert forall|i: int| 0 <= i < packets.len() implies (#[trigger] packets[i]).len() < 65025 by {
        assert(packets[i].len() <= 4000);
    }
    ogg::law_roomy_is_writable(packets, s, vendor);
}

} // verus!
