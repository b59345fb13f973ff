//! Wrap Opus packets in an Ogg container, so the result is a `.opus` file a player will
//! open.
//!
//! An encoder hands back bare Opus packets with no framing at all: no lengths, no
//! timestamps, no channel count. That is the right thing for a network protocol, where the
//! transport already carries all of it, and useless as a file. Ogg supplies the missing
//! parts: packet boundaries, a sample clock, and the two header packets that say how many
//! channels there are and how much of the start to throw away.

use crate::{bytes, crc};
use vstd::prelude::*;
use vstd::slice::slice_subrange;
use vstd::string::*;

verus! {

/// Everything the container needs that the packets themselves do not carry.
pub struct Stream {
    pub channels: u8,
    /// Encoder delay, **in 48 kHz samples**: the field is defined at 48 kHz whatever the
    /// input rate is. A player discards this many samples so the file starts where the
    /// recording did.
    pub pre_skip: u16,
    /// The rate of the recording. Informational only: Opus always decodes at whatever rate
    /// is asked for, and this field exists so a player can say where the audio came from.
    pub input_rate: u32,
    /// 48 kHz samples per packet, for the timestamps.
    pub samples_per_packet: u64,
    /// Where the audio really ends, in 48 kHz samples including `pre_skip`. The last frame
    /// is zero-padded and there is a flush packet after it, so without this a player would
    /// render up to a frame of silence that was never in the input.
    pub final_granule: u64,
}

/// Fixed rather than random: there is one stream, and reruns should differ only where the
/// audio differs.
pub const SERIAL: u32 = 0x4F50_5553;

/// Page flag: beginning of stream.
pub const FIRST: u8 = 0x02;

/// Page flag: end of stream.
pub const LAST: u8 = 0x04;

/// The segments that one page can hold.
pub const MAX_SEGMENTS: usize = 255;

/// The bytes after which a page is not extended, so that a page loss costs a sensible
/// amount of audio.
pub const SOFT_BYTES: usize = 4096;

/// One page of the container.
#[verifier::ext_equal]
pub struct Page {
    pub kind: u8,
    pub granule: nat,
    pub serial: nat,
    pub seq: nat,
    pub packets: Seq<Seq<u8>>,
}

/// The segment lengths of a packet of `n` bytes. A packet ends at the first segment shorter
/// than 255, which is why a packet whose length is an exact multiple of 255 needs a trailing
/// zero.
pub open spec fn lace(n: nat) -> Seq<u8> {
    Seq::new(n / 255, |i: int| 255u8).push((n % 255) as u8)
}

/// The segment table of some packets.
pub open spec fn lacing(packets: Seq<Seq<u8>>) -> Seq<u8>
    decreases packets.len(),
{
    if packets.len() == 0 {
        Seq::empty()
    } else {
        lace(packets[0].len()) + lacing(packets.drop_first())
    }
}

/// Packets end to end.
pub open spec fn joined(packets: Seq<Seq<u8>>) -> Seq<u8>
    decreases packets.len(),
{
    if packets.len() == 0 {
        Seq::empty()
    } else {
        packets[0] + joined(packets.drop_first())
    }
}

/// The bytes of a page that carries the checksum `sum`: the fixed header, the segment table,
/// then the packet bodies.
pub open spec fn page_with(p: Page, sum: nat) -> Seq<u8> {
    bytes::ascii("OggS"@) + seq![0u8, p.kind] + bytes::le(p.granule, 8) + bytes::le(p.serial, 4)
        + bytes::le(p.seq, 4) + bytes::le(sum, 4) + seq![lacing(p.packets).len() as u8] + lacing(p.packets) + joined(p.packets)
}

/// The bytes of a page. The checksum covers the whole page with its own field zeroed.
pub open spec fn page_bytes(p: Page) -> Seq<u8> {
    page_with(p, crc::crc(page_with(p, 0)) as nat)
}

/// The bytes of several pages.
pub open spec fn pages_bytes(pages: Seq<Page>) -> Seq<u8>
    decreases pages.len(),
{
    if pages.len() == 0 {
        Seq::empty()
    } else {
        page_bytes(pages[0]) + pages_bytes(pages.drop_first())
    }
}

/// The packets behind a list of slices.
pub open spec fn views(packets: Seq<&[u8]>) -> Seq<Seq<u8>> {
    Seq::new(packets.len(), |i: int| packets[i]@)
}

/// The packets behind a list of vectors.
pub open spec fn contents(packets: Seq<Vec<u8>>) -> Seq<Seq<u8>> {
    Seq::new(packets.len(), |i: int| packets[i]@)
}

pub proof fn lemma_lacing_push(packets: Seq<Seq<u8>>, p: Seq<u8>)
    ensures
        lacing(packets.push(p)) == lacing(packets) + lace(p.len()),
        joined(packets.push(p)) == joined(packets) + p,
    decreases packets.len(),
{
    let more = packets.push(p);
    if packets.len() == 0 {
        assert(more.drop_first() =~= Seq::<Seq<u8>>::empty());
        assert(lacing(more.drop_first()) =~= Seq::empty());
        assert(joined(more.drop_first()) =~= Seq::empty());
        assert(lacing(more) =~= lace(p.len()));
        assert(joined(more) =~= p);
    } else {
        assert(more.drop_first() =~= packets.drop_first().push(p));
        lemma_lacing_push(packets.drop_first(), p);
        assert(lacing(more) =~= lacing(packets) + lace(p.len()));
        assert(joined(more) =~= joined(packets) + p);
    }
}

pub proof fn lemma_joined_grows(packets: Seq<Seq<u8>>, k: int)
    requires
        0 <= k <= packets.len(),
    ensures
        joined(packets.take(k)).len() <= joined(packets).len(),
    decreases packets.len() - k,
{
    if k == packets.len() {
        assert(packets.take(k) =~= packets);
    } else {
        assert(packets.take(k + 1) =~= packets.take(k).push(packets[k]));
        lemma_lacing_push(packets.take(k), packets[k]);
        lemma_joined_grows(packets, k + 1);
    }
}

/// Appends the segment lengths of one packet.
fn lace_packet(table: &mut Vec<u8>, len: usize)
    ensures
        final(table)@ == old(table)@ + lace(len as nat),
{
    let mut remaining: usize = len;
    while remaining >= 255
        invariant
            table@ + lace(remaining as nat) == old(table)@ + lace(len as nat),
        decreases remaining,
    {
        let ghost before = table@;
        table.push(255u8);
        remaining = remaining - 255;
        proof {
            assert((remaining + 255) as nat / 255 == remaining as nat / 255 + 1);
            assert(table@ + lace(remaining as nat) =~= before + lace((remaining + 255) as nat));
        }
    }
    table.push(remaining as u8);
    proof {
        assert(lace(remaining as nat) =~= seq![remaining as u8]);
    }
}

/// The segment table of some packets.
fn segment_table(packets: &[&[u8]]) -> (table: Vec<u8>)
    ensures
        table@ == lacing(views(packets@)),
{
    let n: usize = packets.len();
    let mut table: Vec<u8> = Vec::new();
    let mut i: usize = 0;
    assert(views(packets@).take(0) =~= Seq::<Seq<u8>>::empty());
    while i < n
        invariant
            n == packets@.len(),
            i <= n,
            table@ == lacing(views(packets@).take(i as int)),
        decreases n - i,
    {
        proof {
            assert(views(packets@).take(i + 1) =~= views(packets@).take(i as int).push(
                packets@[i as int]@,
            ));
            lemma_lacing_push(views(packets@).take(i as int), packets@[i as int]@);
        }
        lace_packet(&mut table, packets[i].len());
        i = i + 1;
    }
    assert(views(packets@).take(n as int) =~= views(packets@));
    table
}

/// Appends packets end to end.
fn put_packets(out: &mut Vec<u8>, packets: &[&[u8]])
    ensures
        final(out)@ == old(out)@ + joined(views(packets@)),
{
    let n: usize = packets.len();
    let ghost front = out@;
    let mut k: usize = 0;
    assert(views(packets@).take(0) =~= Seq::<Seq<u8>>::empty());
    assert(front =~= front + joined(views(packets@).take(0)));
    while k < n
        invariant
            n == packets@.len(),
            k <= n,
            out@ == front + joined(views(packets@).take(k as int)),
        decreases n - k,
    {
        proof {
            assert(views(packets@).take(k + 1) =~= views(packets@).take(k as int).push(
                packets@[k as int]@,
            ));
            lemma_lacing_push(views(packets@).take(k as int), packets@[k as int]@);
        }
        bytes::put(out, packets[k]);
        k = k + 1;
        assert(out@ =~= front + joined(views(packets@).take(k as int)));
    }
    assert(views(packets@).take(n as int) =~= views(packets@));
}

/// One Ogg page: the fixed header, the segment table, then the packet bodies.
#[verifier::spinoff_prover]
pub fn page(
    out: &mut Vec<u8>,
    header_type: u8,
    granule: u64,
    serial: u32,
    seq: &mut u32,
    packets: &[&[u8]],
)
    requires
        lacing(views(packets@)).len() <= MAX_SEGMENTS,
        *old(seq) < u32::MAX,
    ensures
        final(out)@ == old(out)@ + page_bytes(
            (Page {
                kind: header_type,
                granule: granule as nat,
                serial: serial as nat,
                seq: *old(seq) as nat,
                packets: views(packets@),
            }),
        ),
        *final(seq) == *old(seq) + 1,
{
    let start: usize = out.len();
    let ghost p = Page {
        kind: header_type,
        granule: granule as nat,
        serial: serial as nat,
        seq: *seq as nat,
        packets: views(packets@),
    };
    let table: Vec<u8> = segment_table(packets);
    proof {
        reveal_strlit("OggS");
        bytes::lemma_le_len(granule as nat, 8);
        bytes::lemma_le_len(serial as nat, 4);
        bytes::lemma_le_len(*seq as nat, 4);
        bytes::lemma_le_len(0, 4);
    }
    bytes::put_ascii(out, "OggS");
    out.push(0); // stream structure version
    out.push(header_type);
    bytes::put_u64(out, granule);
    bytes::put_u32(out, serial);
    bytes::put_u32(out, *seq);
    let crc_at: usize = out.len();
    bytes::put_u32(out, 0); // checksum, filled in below
    out.push(table.len() as u8);
    bytes::put(out, table.as_slice());
    put_packets(out, packets);
    assert(out@ =~= old(out)@ + page_with(p, 0));

    // The checksum covers the whole page with its own field zeroed, which is why it is
    // written last rather than computed along the way.
    let end: usize = out.len();
    let sum: u32 = crc::crc32(slice_subrange(out.as_slice(), start, end));
    let ghost unsummed = out@;
    bytes::set_u32(out, crc_at, sum);
    proof {
        assert(unsummed.subrange(start as int, end as int) =~= page_with(p, 0));
        lemma_page_parts(p, sum as nat);
        assert(out@ =~= old(out)@ + (page_with(p, 0).take(22) + bytes::le(sum as nat, 4)
            + page_with(p, 0).skip(26)));
    }
    *seq = *seq + 1;
}

/// Where the parts of a page lie.
pub proof fn lemma_page_parts(p: Page, sum: nat)
    ensures
        ({
            let b = page_with(p, sum);
            let t = lacing(p.packets);
            let d = joined(p.packets);
            &&& b.len() == 27 + t.len() + d.len()
            &&& b.subrange(0, 4) == bytes::ascii("OggS"@)
            &&& b[4] == 0
            &&& b[5] == p.kind
            &&& b.subrange(6, 14) == bytes::le(p.granule, 8)
            &&& b.subrange(14, 18) == bytes::le(p.serial, 4)
            &&& b.subrange(18, 22) == bytes::le(p.seq, 4)
            &&& b.subrange(22, 26) == bytes::le(sum, 4)
            &&& b[26] == t.len() as u8
            &&& b.subrange(27, 27 + t.len() as int) == t
            &&& b.subrange(27 + t.len() as int, b.len() as int) == d
            &&& b == page_with(p, 0).take(22) + bytes::le(sum, 4) + page_with(p, 0).skip(26)
        }),
{
    reveal_strlit("OggS");
    bytes::lemma_le_len(p.granule, 8);
    bytes::lemma_le_len(p.serial, 4);
    bytes::lemma_le_len(p.seq, 4);
    bytes::lemma_le_len(sum, 4);
    bytes::lemma_le_len(0, 4);
    let b = page_with(p, sum);
    let t = lacing(p.packets);
    let d = joined(p.packets);
    assert(b.subrange(0, 4) =~= bytes::ascii("OggS"@));
    assert(b.subrange(6, 14) =~= bytes::le(p.granule, 8));
    assert(b.subrange(14, 18) =~= bytes::le(p.serial, 4));
    assert(b.subrange(18, 22) =~= bytes::le(p.seq, 4));
    assert(b.subrange(22, 26) =~= bytes::le(sum, 4));
    assert(b.subrange(27, 27 + t.len() as int) =~= t);
    assert(b.subrange(27 + t.len() as int, b.len() as int) =~= d);
    assert(b =~= page_with(p, 0).take(22) + bytes::le(sum, 4) + page_with(p, 0).skip(26));
}

/// The packet that opens the stream: how many channels, how much to skip, where from.
pub open spec fn head(s: Stream) -> Seq<u8> {
    bytes::ascii("OpusHead"@) + seq![1u8, s.channels] + bytes::le(s.pre_skip as nat, 2) + bytes::le(
        s.input_rate as nat,
        4,
    ) + seq![0u8, 0u8] + seq![0u8]
}

/// The packet that names the encoder, given the name of the codec library.
pub open spec fn tags(vendor: Seq<u8>) -> Seq<u8> {
    bytes::ascii("OpusTags"@) + bytes::le(vendor.len(), 4) + vendor + bytes::le(1, 4) + bytes::le(
        "ENCODER=wav-demo (wav-demo)"@.len(),
        4,
    ) + bytes::ascii("ENCODER=wav-demo (wav-demo)"@)
}

/// Whether packets go on one page together.
pub open spec fn fits(packets: Seq<Seq<u8>>) -> bool {
    lacing(packets).len() <= MAX_SEGMENTS && joined(packets).len() <= SOFT_BYTES
}

/// How far a page that starts at packet `from` and holds everything before `to` still grows.
pub open spec fn grow(packets: Seq<Seq<u8>>, from: nat, to: nat) -> nat
    decreases packets.len() - to,
{
    if to < packets.len() && fits(packets.subrange(from as int, to as int + 1)) {
        grow(packets, from, to + 1)
    } else {
        to
    }
}

/// Where the page that starts at packet `from` ends: it takes one packet whatever its size,
/// and every further one that fits.
pub open spec fn cut(packets: Seq<Seq<u8>>, from: nat) -> nat {
    grow(packets, from, from + 1)
}

pub proof fn lemma_grow(packets: Seq<Seq<u8>>, from: nat, to: nat)
    requires
        from < to <= packets.len(),
    ensures
        to <= grow(packets, from, to) <= packets.len(),
        grow(packets, from, to) > to ==> fits(
            packets.subrange(from as int, grow(packets, from, to) as int),
        ),
        grow(packets, from, to) < packets.len() ==> !fits(
            packets.subrange(from as int, grow(packets, from, to) as int + 1),
        ),
    decreases packets.len() - to,
{
    if to < packets.len() && fits(packets.subrange(from as int, to as int + 1)) {
        lemma_grow(packets, from, to + 1);
    }
}

/// The pages of the audio from packet `from` on, numbered from `seq`. A page's granule
/// position counts the samples up to the end of its last packet; the last page ends the
/// stream, and its granule position trims the padding.
pub open spec fn audio_pages(packets: Seq<Seq<u8>>, s: Stream, from: nat, seq: nat) -> Seq<Page>
    decreases packets.len() - from,
{
    if from >= packets.len() {
        Seq::empty()
    } else {
        let to = cut(packets, from);
        let last = to == packets.len();
        proof {
            lemma_grow(packets, from, from + 1);
        }
        seq![
            Page {
                kind: if last {
                    LAST
                } else {
                    0u8
                },
                granule: if last {
                    s.final_granule as nat
                } else {
                    to * (s.samples_per_packet as nat)
                },
                serial: SERIAL as nat,
                seq: seq,
                packets: packets.subrange(from as int, to as int),
            },
        ] + audio_pages(packets, s, to, seq + 1)
    }
}

/// The pages of a whole file: one header packet to a page, then the audio.
pub open spec fn file_pages(packets: Seq<Seq<u8>>, s: Stream, vendor: Seq<u8>) -> Seq<Page> {
    seq![
        Page { kind: FIRST, granule: 0, serial: SERIAL as nat, seq: 0, packets: seq![head(s)] },
        Page { kind: 0, granule: 0, serial: SERIAL as nat, seq: 1, packets: seq![tags(vendor)] },
    ] + audio_pages(packets, s, 0, 2)
}

/// What fits the container: no packet longer than a page, and page numbers and granule
/// positions within their fields.
pub open spec fn writable(packets: Seq<Seq<u8>>, s: Stream, vendor: Seq<u8>) -> bool {
    &&& forall|i: int| 0 <= i < packets.len() ==> #[trigger] lace(packets[i].len()).len() <= MAX_SEGMENTS
    &&& lace(tags(vendor).len()).len() <= MAX_SEGMENTS
    &&& file_pages(packets, s, vendor).len() <= u32::MAX
    &&& forall|k: int|
        0 <= k < audio_pages(packets, s, 0, 2).len() ==> (#[trigger] audio_pages(
            packets,
            s,
            0,
            2,
        )[k]).granule <= u64::MAX
}

pub proof fn lemma_head_len(s: Stream)
    ensures
        head(s).len() == 19,
{
    reveal_strlit("OpusHead");
    bytes::lemma_le_len(s.pre_skip as nat, 2);
    bytes::lemma_le_len(s.input_rate as nat, 4);
}

/// The bytes of the opening packet.
fn head_packet(s: &Stream) -> (p: Vec<u8>)
    ensures
        p@ == head(*s),
        p@.len() == 19,
{
    proof {
        reveal_strlit("OpusHead");
        lemma_head_len(*s);
    }
    let mut p: Vec<u8> = Vec::with_capacity(19);
    bytes::put_ascii(&mut p, "OpusHead");
    p.push(1); // version
    p.push(s.channels);
    bytes::put_u16(&mut p, s.pre_skip);
    bytes::put_u32(&mut p, s.input_rate);
    p.push(0); // output gain, Q7.8 dB
    p.push(0);
    p.push(0); // channel mapping family 0: mono or stereo, no mapping table
    assert(p@ =~= head(*s));
    p
}

/// The bytes of the packet that names the encoder.
fn tags_packet(vendor: &[u8]) -> (p: Vec<u8>)
    requires
        vendor@.len() <= u32::MAX,
    ensures
        p@ == tags(vendor@),
{
    proof {
        reveal_strlit("OpusTags");
        reveal_strlit("ENCODER=wav-demo (wav-demo)");
    }
    let mut p: Vec<u8> = Vec::new();
    bytes::put_ascii(&mut p, "OpusTags");
    bytes::put_u32(&mut p, vendor.len() as u32);
    bytes::put(&mut p, vendor);
    bytes::put_u32(&mut p, 1); // one user comment
    bytes::put_u32(&mut p, 27);
    bytes::put_ascii(&mut p, "ENCODER=wav-demo (wav-demo)");
    assert(p@ =~= tags(vendor@));
    p
}

pub proof fn lemma_single(p: Seq<u8>)
    ensures
        lacing(seq![p]) == lace(p.len()),
        joined(seq![p]) == p,
{
    lemma_lacing_push(Seq::empty(), p);
    assert(Seq::<Seq<u8>>::empty().push(p) =~= seq![p]);
    assert(lacing(Seq::empty()) + lace(p.len()) =~= lace(p.len()));
    assert(joined(Seq::empty()) + p =~= p);
}

/// The `.opus` file that holds `packets`. `vendor` is conventionally the encoder's own
/// version.
///
/// Several packets go on a page, because a page header is 27 bytes plus the segment table
/// and a 20 ms packet at 24 kbps is only about 60 bytes: one page each would spend nearly
/// half the file on framing.
pub fn write(packets: &[Vec<u8>], s: &Stream, vendor: &str) -> (out: Vec<u8>)
    requires
        writable(contents(packets@), *s, vendor.spec_bytes()),
    ensures
        out@ == pages_bytes(file_pages(contents(packets@), *s, vendor.spec_bytes())),
{
    let ghost ps = contents(packets@);
    let ghost v = vendor.spec_bytes();
    let mut out: Vec<u8> = Vec::new();
    let mut seq: u32 = 0;

    // The first page carries the opening packet alone, as the format requires.
    let head: Vec<u8> = head_packet(s);
    let mut batch: Vec<&[u8]> = Vec::new();
    batch.push(head.as_slice());
    proof {
        lemma_single(head@);
        assert(views(batch@) =~= seq![head@]);
        bytes::lemma_le_len(v.len(), 4);
    }
    page(&mut out, FIRST, 0, SERIAL, &mut seq, batch.as_slice());

    let tags: Vec<u8> = tags_packet(vendor.as_bytes());
    batch.clear();
    batch.push(tags.as_slice());
    proof {
        lemma_single(tags@);
        assert(views(batch@) =~= seq![tags@]);
    }
    page(&mut out, 0, 0, SERIAL, &mut seq, batch.as_slice());

    batch.clear();
    let mut segments: usize = 0;
    let mut size: usize = 0;
    let n: usize = packets.len();
    let mut i: usize = 0;
    let ghost from: nat = 0;
    let ghost all = pages_bytes(file_pages(ps, *s, v));
    proof {
        lemma_two_then(ps, *s, v);
        assert(all =~= out@ + pages_bytes(audio_pages(ps, *s, from, seq as nat)));
        assert(ps.subrange(0, 0) =~= Seq::<Seq<u8>>::empty());
        assert(views(batch@) =~= ps.subrange(0, 0));
    }
    while i < n
        invariant
            n == packets@.len(),
            i <= n,
            ps == contents(packets@),
            from <= i,
            i == 0 ==> from == 0,
            i > 0 ==> from < i,
            views(batch@) == ps.subrange(from as int, i as int),
            segments == lacing(ps.subrange(from as int, i as int)).len(),
            size == joined(ps.subrange(from as int, i as int)).len(),
            segments <= 255,
            size <= 4096 || size < 65025,
            i > 0 ==> cut(ps, from) == grow(ps, from, i as nat),
            forall|k: int| 0 <= k < ps.len() ==> #[trigger] lace(ps[k].len()).len() <= 255,
            all == out@ + pages_bytes(audio_pages(ps, *s, from, seq as nat)),
            seq + audio_pages(ps, *s, from, seq as nat).len() <= u32::MAX,
            forall|k: int|
                0 <= k < audio_pages(ps, *s, from, seq as nat).len() ==> (#[trigger] audio_pages(
                    ps,
                    *s,
                    from,
                    seq as nat,
                )[k]).granule <= u64::MAX,
        decreases n - i,
    {
        let len: usize = packets[i].len();
        let need: usize = len / 255 + 1;
        proof {
            assert(ps[i as int].len() == len);
            assert(lace(ps[i as int].len()).len() == need);
            assert(ps.subrange(from as int, i + 1) =~= ps.subrange(from as int, i as int).push(
                ps[i as int],
            ));
            lemma_lacing_push(ps.subrange(from as int, i as int), ps[i as int]);
        }
        if !batch.is_empty() && (segments + need > MAX_SEGMENTS || size + len > SOFT_BYTES) {
            proof {
                assert(batch@.len() == views(batch@).len());
                assert(cut(ps, from) == i);
                let pages = audio_pages(ps, *s, from, seq as nat);
                assert(pages[0].granule == (i as nat) * (s.samples_per_packet as nat));
                assert(pages.drop_first() =~= audio_pages(ps, *s, i as nat, (seq + 1) as nat));
                assert forall|k: int|
                    0 <= k < audio_pages(
                        ps,
                        *s,
                        i as nat,
                        (seq + 1) as nat,
                    ).len() implies (#[trigger] audio_pages(
                    ps,
                    *s,
                    i as nat,
                    (seq + 1) as nat,
                )[k]).granule <= u64::MAX by {
                    assert(pages[k + 1].granule <= u64::MAX);
                }
            }
            let ghost before = out@;
            page(
                &mut out,
                0,
                i as u64 * s.samples_per_packet,
                SERIAL,
                &mut seq,
                batch.as_slice(),
            );
            batch.clear();
            segments = 0;
            size = 0;
            proof {
                assert(all =~= out@ + pages_bytes(audio_pages(ps, *s, i as nat, seq as nat)));
                from = i as nat;
                assert(ps.subrange(from as int, i as int) =~= Seq::<Seq<u8>>::empty());
                assert(ps.subrange(from as int, i + 1) =~= ps.subrange(from as int, i as int).push(
                    ps[i as int],
                ));
                lemma_lacing_push(ps.subrange(from as int, i as int), ps[i as int]);
            }
        }
        let ghost held = batch@;
        batch.push(packets[i].as_slice());
        segments = segments + need;
        size = size + len;
        i = i + 1;
        proof {
            assert(views(batch@) =~= views(held).push(ps[i - 1]));
            assert(views(batch@) =~= ps.subrange(from as int, i as int));
        }
    }
    if n > 0 {
        // End of stream, and the granule position that trims the padding.
        proof {
            assert(cut(ps, from) == n);
            let pages = audio_pages(ps, *s, from, seq as nat);
            assert(pages.drop_first() =~= audio_pages(ps, *s, n as nat, (seq + 1) as nat));
            assert(pages_bytes(pages.drop_first()) =~= Seq::empty());
        }
        page(&mut out, LAST, s.final_granule, SERIAL, &mut seq, batch.as_slice());
    }
    assert(out@ =~= all);
    out
}

/// Bounds that are easily tested and leave room for every field of the container.
pub open spec fn roomy(packets: Seq<Seq<u8>>, s: Stream, vendor: Seq<u8>) -> bool {
    &&& forall|i: int| 0 <= i < packets.len() ==> (#[trigger] packets[i]).len() < 65025
    &&& vendor.len() + 47 < 65025
    &&& packets.len() + 2 <= u32::MAX
    &&& packets.len() * (s.samples_per_packet as nat) <= u64::MAX
}

/// Whether some packets leave room for every field of the container.
pub fn has_room(packets: &[Vec<u8>], s: &Stream, vendor: &str) -> (yes: bool)
    ensures
        yes == roomy(contents(packets@), *s, vendor.spec_bytes()),
{
    let n: usize = packets.len();
    let ghost ps = contents(packets@);
    let mut i: usize = 0;
    while i < n
        invariant
            n == packets@.len(),
            i <= n,
            ps == contents(packets@),
            forall|k: int| 0 <= k < i ==> (#[trigger] ps[k]).len() < 65025,
        decreases n - i,
    {
        let len: usize = packets[i].len();
        assert(ps[i as int].len() == len);
        if len >= 65025 {
            return false;
        }
        i = i + 1;
    }
    if vendor.as_bytes().len() >= 65025 - 47 || n as u64 > u32::MAX as u64 - 2 {
        return false;
    }
    assert((n as u128) * (s.samples_per_packet as u128) <= u128::MAX) by (nonlinear_arith)
        requires
            n <= u32::MAX,
    ;
    (n as u128) * (s.samples_per_packet as u128) <= u64::MAX as u128
}

proof fn lemma_audio_pages_bounds(packets: Seq<Seq<u8>>, s: Stream, from: nat, seq: nat)
    requires
        from <= packets.len(),
        packets.len() * (s.samples_per_packet as nat) <= u64::MAX,
    ensures
        audio_pages(packets, s, from, seq).len() <= packets.len() - from,
        forall|k: int|
            0 <= k < audio_pages(packets, s, from, seq).len() ==> (#[trigger] audio_pages(
                packets,
                s,
                from,
                seq,
            )[k]).granule <= u64::MAX,
    decreases packets.len() - from,
{
    if from < packets.len() {
        let to = cut(packets, from);
        lemma_grow(packets, from, from + 1);
        lemma_audio_pages_bounds(packets, s, to, seq + 1);
        let (all, rest) = (
            audio_pages(packets, s, from, seq),
            audio_pages(packets, s, to, seq + 1),
        );
        let n = s.samples_per_packet as nat;
        assert(to * n <= packets.len() * n) by (nonlinear_arith)
            requires
                to <= packets.len(),
        ;
        assert forall|k: int| 0 <= k < all.len() implies (#[trigger] all[k]).granule <= u64::MAX by {
            if k > 0 {
                assert(all[k] == rest[k - 1]);
            }
        }
    }
}

/// What leaves room can be written.
pub proof fn law_roomy_is_writable(packets: Seq<Seq<u8>>, s: Stream, vendor: Seq<u8>)
    requires
        roomy(packets, s, vendor),
    ensures
        writable(packets, s, vendor),
{
    reveal_strlit("OpusTags");
    reveal_strlit("ENCODER=wav-demo (wav-demo)");
    bytes::lemma_le_len(vendor.len(), 4);
    bytes::lemma_le_len(1, 4);
    bytes::lemma_le_len(27, 4);
    lemma_audio_pages_bounds(packets, s, 0, 2);
    assert forall|i: int| 0 <= i < packets.len() implies #[trigger] lace(packets[i].len()).len()
        <= MAX_SEGMENTS by {
        assert(packets[i].len() < 65025);
    }
}

#[verifier::spinoff_prover]
proof fn lemma_two_then(ps: Seq<Seq<u8>>, s: Stream, v: Seq<u8>)
    ensures
        pages_bytes(file_pages(ps, s, v)) == page_bytes(file_pages(ps, s, v)[0]) + page_bytes(
            file_pages(ps, s, v)[1],
        ) + pages_bytes(audio_pages(ps, s, 0, 2)),
{
    let f = file_pages(ps, s, v);
    assert(f.drop_first().drop_first() =~= audio_pages(ps, s, 0, 2));
    assert(f.drop_first()[0] == f[1]);
    assert(pages_bytes(f) == page_bytes(f[0]) + pages_bytes(f.drop_first()));
    assert(pages_bytes(f.drop_first()) == page_bytes(f[1]) + pages_bytes(
        f.drop_first().drop_first(),
    ));
    assert(pages_bytes(f) =~= page_bytes(f[0]) + page_bytes(f[1]) + pages_bytes(
        audio_pages(ps, s, 0, 2),
    ));
}

} // verus!
