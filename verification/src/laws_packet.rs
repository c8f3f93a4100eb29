//! Which packets are converted, and what of a stream is counted.

use crate::json::parse_rfc3339_public;
use crate::labels::lemma_ascii_text;
use crate::laws_stream::{begins_before, is_hex, is_near, nibble};
use crate::obs::Instant;
use crate::packet::{
    detect_raw_family, frame_converted, packet_log_entry, stream_converted, stream_kind, Family,
    FamilyKind, InputFormat, Packet, PacketDriver,
};
use crate::packetlog::Entry;
use crate::rtcm::{
    first_frame_pos, first_msm7_pos, frame_len, frame_valid, frames_from, Numbers, Options,
};
use crate::sink::Sink;
use crate::text::utf8;
use crate::week::WeekConstraint;
use vstd::prelude::*;

verus! {

// ---- frames ----

/// Whether an RTCM frame begins at a place: the byte `d3`, a length in ten bits, as many
/// bytes, and a check sum in three that fits.
pub open spec fn frame_at(d: Seq<u8>, p: int) -> bool {
    let n = (d[p + 1] as int % 4) * 256 + d[p + 2];
    &&& 0 <= p && p + 6 <= d.len()
    &&& d[p] == 0xd3
    &&& p + 6 + n <= d.len()
    &&& crate::crc24q::crc24q(d.subrange(p, p + 3 + n)) == d[p + 3 + n] * 65536 + d[p + 4 + n] * 256
        + d[p + 5 + n]
}

proof fn lemma_frame_at(d: Seq<u8>, p: int)
    requires
        0 <= p <= d.len(),
    ensures
        frame_valid(d.skip(p)) <==> frame_at(d, p),
{
    let s = d.skip(p);
    if p + 6 <= d.len() {
        let n = frame_len(s);
        assert(n >= 6);
        if n <= s.len() {
            assert(s.take(n - 3) =~= d.subrange(p, p + n - 3));
            assert(s[n - 3] == d[p + n - 3] && s[n - 2] == d[p + n - 2] && s[n - 1] == d[p + n - 1]);
        }
    }
}

/// The first frame is found where the first begins.
pub proof fn lemma_first_frame_found(data: &[u8], r: Option<usize>, p: int)
    requires
        call_ensures(first_frame_pos, (data,), r),
        0 <= p < data@.len(),
    ensures
        r matches Some(i) ==> frame_at(data@, i as int) && (p < i ==> !frame_at(data@, p)),
        r is None ==> !frame_at(data@, p),
{
    crate::rtcm::lemma_first_frame(data@, 0);
    lemma_frame_at(data@, p);
    lemma_frame_at(data@, crate::rtcm::first_frame(data@, 0));
}

/// The number of the message in a frame: the first twelve bits behind its head.
pub open spec fn message_number(f: Seq<u8>) -> int {
    f[3] * 16 + f[4] as int / 16
}

/// Whether a frame holds an MSM7: 1077, 1087, 1097, 1107, 1117, 1127 or 1137.
pub open spec fn holds_msm7(f: Seq<u8>) -> bool {
    &&& f.len() >= 6
    &&& {
        let n = message_number(f);
        n == 1077 || n == 1087 || n == 1097 || n == 1107 || n == 1117 || n == 1127 || n == 1137
    }
}

/// How many of the first `k` frames hold an MSM7.
pub open spec fn msm7_among(frames: Seq<Seq<u8>>, k: int) -> int
    decreases k,
{
    if k <= 0 {
        0
    } else {
        msm7_among(frames, k - 1) + (if holds_msm7(frames[k - 1]) {
            1int
        } else {
            0int
        })
    }
}

proof fn lemma_stream_counts<F, G, S: Sink<F, G>>(
    pre: Family<S>,
    opts: Options,
    frames: Seq<Seq<u8>>,
    numbers: Seq<Numbers<F, G>>,
    wc: WeekConstraint,
    k: int,
    post: Family<S>,
    count: int,
)
    requires
        0 <= k <= frames.len(),
        !(pre is Ubx),
        stream_converted(pre, opts, frames, numbers, wc, k, post, count),
    ensures
        count == msm7_among(frames, k),
        !(post is Ubx),
    decreases k,
{
    if k > 0 {
        let first = k == 1;
        let (mid, n) = choose|mid: Family<S>, n: u64|
            {
                &&& stream_converted(pre, opts, frames, numbers, wc, k - 1, mid, count - n)
                &&& #[trigger] frame_converted(
                    mid,
                    opts,
                    frames[k - 1],
                    crate::packet::numbers_at(numbers, k - 1),
                    wc,
                    first,
                    post,
                    Ok::<u64, String>(n),
                )
            };
        lemma_stream_counts(pre, opts, frames, numbers, wc, k - 1, mid, count - n);
        assert(crate::rtcm::is_msm7(crate::rtcm::msg_type(frames[k - 1])) <==> holds_msm7(
            frames[k - 1],
        ));
    }
}

/// A stream that is RTCM is converted frame by frame, and the number of frames that hold an
/// MSM7 comes back.
pub proof fn lemma_stream_counted<F: Copy, G: Copy, S: Sink<F, G>>(
    data: &[u8],
    numbers: &[Numbers<F, G>],
    wc: &WeekConstraint,
    out: Result<u64, String>,
)
    ensures
        forall|p: &mut PacketDriver<S>| #[trigger]
            call_ensures(
                PacketDriver::<S>::convert_rtcm_stream::<F, G>,
                (p, data, numbers, wc),
                out,
            ) && out is Ok && (*p).wf() && !((*p).active() is Ubx) ==> out->Ok_0 == msm7_among(
                frames_from(data@, 0),
                frames_from(data@, 0).len() as int,
            ),
{
    assert forall|p: &mut PacketDriver<S>| #[trigger]
        call_ensures(
            PacketDriver::<S>::convert_rtcm_stream::<F, G>,
            (p, data, numbers, wc),
            out,
        ) && out is Ok && (*p).wf() && !((*p).active() is Ubx) implies out->Ok_0 == msm7_among(
        frames_from(data@, 0),
        frames_from(data@, 0).len() as int,
    ) by {
        let all = frames_from(data@, 0);
        lemma_stream_counts(
            (*p).active(),
            (*p).rtcm_opts,
            all,
            numbers@,
            *wc,
            all.len() as int,
            final(p).active(),
            out->Ok_0 as int,
        );
    }
}

/// The frames of a stream follow each other: the first is that which begins first, and the
/// others are those behind it.
pub proof fn lemma_frames_follow(d: Seq<u8>, p: int)
    requires
        frame_at(d, p),
        forall|q: int| 0 <= q < p ==> !#[trigger] frame_at(d, q),
    ensures
        ({
            let end = p + 6 + (d[p + 1] as int % 4) * 256 + d[p + 2];
            frames_from(d, 0) == seq![d.subrange(p, end)] + frames_from(d, end)
        }),
{
    assert forall|q: int| 0 <= q < p implies !frame_valid(#[trigger] d.skip(q)) by {
        lemma_frame_at(d, q);
        assert(!frame_at(d, q));
    }
    lemma_frame_at(d, p);
    lemma_skip_to(d, 0, p);
}

proof fn lemma_skip_to(d: Seq<u8>, i: int, p: int)
    requires
        0 <= i <= p < d.len(),
        forall|q: int| i <= q < p ==> !frame_valid(#[trigger] d.skip(q)),
    ensures
        frames_from(d, i) == frames_from(d, p),
    decreases p - i,
{
    if i < p {
        assert(!frame_valid(d.skip(i)));
        lemma_skip_to(d, i + 1, p);
    }
}

// ---- families ----

/// An input that says what it holds is converted as that; one with RINEX or obsj as none.
pub proof fn lemma_named_family(from: InputFormat, data: &[u8], r: Option<FamilyKind>)
    requires
        call_ensures(stream_kind, (from, data), r),
    ensures
        from is Ubx ==> r == Some(FamilyKind::Ubx),
        from is Rtcm ==> r == Some(FamilyKind::Rtcm),
        from is Rinex || from is ObsJson ==> r is None,
{
}

/// The family of a raw stream is that of the observations that come first.
pub proof fn lemma_raw_family(
    data: &[u8],
    msm7: Option<usize>,
    rawx: Option<usize>,
    r: Option<FamilyKind>,
)
    requires
        call_ensures(first_msm7_pos, (data,), msm7),
        call_ensures(crate::ubx_frame::first_rawx_pos, (data,), rawx),
        call_ensures(detect_raw_family, (data,), r),
    ensures
        msm7 is None && rawx is None ==> r is None,
        msm7 is Some && rawx is None ==> r == Some(FamilyKind::Rtcm),
        msm7 is None && rawx is Some ==> r == Some(FamilyKind::Ubx),
        msm7 is Some && rawx is Some && msm7->0 <= rawx->0 ==> r == Some(FamilyKind::Rtcm),
        msm7 is Some && rawx is Some && msm7->0 > rawx->0 ==> r == Some(FamilyKind::Ubx),
{
    crate::rtcm::lemma_first_msm7(data@, 0);
    crate::ubx_frame::lemma_first_rawx(data@, 0);
}

// ---- packet logs ----

/// Whether bytes are those that pairs of hexadecimal digits denote.
pub open spec fn are_pairs(hex: Seq<u8>, b: Seq<u8>) -> bool {
    &&& hex.len() == 2 * b.len()
    &&& forall|i: int| 0 <= i < hex.len() ==> is_hex(#[trigger] hex[i])
    &&& forall|i: int|
        0 <= i < b.len() ==> #[trigger] b[i] == nibble(hex[2 * i]) * 16 + nibble(hex[2 * i + 1])
}

proof fn lemma_pairs(hex: Seq<u8>, b: Seq<u8>)
    requires
        are_pairs(hex, b),
    ensures
        crate::packetlog::all_hex(hex),
        crate::packetlog::hex_bytes(hex) == b,
{
    assert forall|i: int| 0 <= i < hex.len() implies crate::packetlog::hex_val(
        #[trigger] hex[i],
    ) is Some by {
        assert(is_hex(hex[i]));
    }
    assert forall|i: int| 0 <= i < b.len() implies crate::packetlog::hex_bytes(hex)[i] == b[i] by {
        assert(is_hex(hex[2 * i]) && is_hex(hex[2 * i + 1]));
        assert(b[i] == nibble(hex[2 * i]) * 16 + nibble(hex[2 * i + 1]));
    }
    assert(crate::packetlog::hex_bytes(hex) =~= b);
}

proof fn lemma_tags()
    ensures
        utf8("RTCM"@) != utf8("UBX"@),
        utf8("RTCM"@).len() == 4 && utf8("UBX"@).len() == 3,
{
    reveal_strlit("RTCM");
    reveal_strlit("UBX");
    lemma_ascii_text("RTCM"@);
    lemma_ascii_text("UBX"@);
}

/// What was sent to the receiver is not converted, nor what has no payload or a tag that the
/// input does not hold.
pub proof fn lemma_passed_over(
    from: InputFormat,
    e: &Entry,
    line: u64,
    r: Result<Option<Packet>, String>,
)
    requires
        call_ensures(packet_log_entry, (from, e, line), r),
    ensures
        e.out ==> r matches Ok(None),
        e.bin is None && e.ascii is None ==> r matches Ok(None),
        e.tag is None ==> r matches Ok(None),
        (e.tag matches Some(s) && s@ == "RTCM"@) && !(from is Raw || from is Rtcm) ==> r matches Ok(
            None,
        ),
        (e.tag matches Some(s) && s@ == "UBX"@) && !(from is Raw || from is Ubx) ==> r matches Ok(
            None,
        ),
{
    lemma_tags();
    crate::labels::lemma_ascii_text(Seq::empty());
    if e.tag is None {
        assert(utf8(e.tag_text()).len() == 0);
    }
}

/// An RTCM packet is converted with the bytes of its payload and within a minute of its time.
pub proof fn lemma_rtcm_logged(
    from: InputFormat,
    e: &Entry,
    line: u64,
    time: &str,
    at: Option<Instant>,
    b: Seq<u8>,
    r: Result<Option<Packet>, String>,
)
    requires
        !e.out,
        from is Raw || from is Rtcm,
        e.tag matches Some(s) && s@ == "RTCM"@,
        e.bin matches Some(hex) && hex@.len() > 0 && are_pairs(utf8(hex@), b),
        e.t matches Some(s) && s@ == time@,
        call_ensures(parse_rfc3339_public, (time,), at),
        at matches Some(d) && is_near(d),
        call_ensures(packet_log_entry, (from, e, line), r),
    ensures
        r matches Ok(Some(p)) && p.kind == FamilyKind::Rtcm && p.payload@ == b && begins_before(
            p.week,
            at->0,
            60,
            120,
        ),
{
    lemma_tags();
    lemma_pairs(utf8(e.bin->0@), b);
}

/// An RTCM packet without a time is an error.
pub proof fn lemma_rtcm_needs_time(
    from: InputFormat,
    e: &Entry,
    line: u64,
    r: Result<Option<Packet>, String>,
)
    requires
        !e.out,
        from is Raw || from is Rtcm,
        e.tag matches Some(s) && s@ == "RTCM"@,
        e.bin matches Some(hex) && hex@.len() > 0,
        e.t is None,
        call_ensures(packet_log_entry, (from, e, line), r),
    ensures
        r is Err,
{
    lemma_tags();
}

/// A UBX packet is converted where it is an RXM-RAWX frame: `b5 62 02 15`.
pub proof fn lemma_ubx_logged(
    from: InputFormat,
    e: &Entry,
    line: u64,
    b: Seq<u8>,
    r: Result<Option<Packet>, String>,
)
    requires
        !e.out,
        from is Raw || from is Ubx,
        e.tag matches Some(s) && s@ == "UBX"@,
        e.bin matches Some(hex) && hex@.len() > 0 && are_pairs(utf8(hex@), b),
        b.len() >= 4,
        call_ensures(packet_log_entry, (from, e, line), r),
    ensures
        b[0] == 0xb5 && b[1] == 0x62 && b[2] == 0x02 && b[3] == 0x15 ==> (r matches Ok(Some(p))
            && p.kind == FamilyKind::Ubx && p.payload@ == b && p.week.dur_ns == 0),
        !(b[0] == 0xb5 && b[1] == 0x62 && b[2] == 0x02 && b[3] == 0x15) ==> r matches Ok(None),
{
    lemma_tags();
    let hex = utf8(e.bin->0@);
    lemma_pairs(hex, b);
    lemma_rawx_digits(hex, b);
}

proof fn lemma_rawx_digits(hex: Seq<u8>, b: Seq<u8>)
    requires
        are_pairs(hex, b),
        b.len() >= 4,
    ensures
        crate::packet::rawx_hex(hex) <==> b[0] == 0xb5 && b[1] == 0x62 && b[2] == 0x02 && b[3]
            == 0x15,
{
    reveal_strlit("b5620215");
    lemma_ascii_text("b5620215"@);
    let name = utf8("b5620215"@);
    assert(name.len() == 8);
    assert(name[0] == 0x62 && name[1] == 0x35 && name[2] == 0x36 && name[3] == 0x32 && name[4]
        == 0x30 && name[5] == 0x32 && name[6] == 0x31 && name[7] == 0x35);
    let head = hex.take(8);
    let x = crate::columns::lowered(head);
    let y = crate::columns::lowered(name);
    assert(x.len() == 8 && y.len() == 8);
    assert(b[0] == nibble(hex[0]) * 16 + nibble(hex[1]));
    assert(b[1] == nibble(hex[2]) * 16 + nibble(hex[3]));
    assert(b[2] == nibble(hex[4]) * 16 + nibble(hex[5]));
    assert(b[3] == nibble(hex[6]) * 16 + nibble(hex[7]));
    assert forall|i: int| 0 <= i < 8 implies (x[i] == y[i] <==> nibble(hex[i]) == nibble(
        name[i],
    )) by {
        assert(is_hex(hex[i]));
        assert(head[i] == hex[i]);
    }
    if b[0] == 0xb5 && b[1] == 0x62 && b[2] == 0x02 && b[3] == 0x15 {
        assert(is_hex(hex[0]) && is_hex(hex[1]) && is_hex(hex[2]) && is_hex(hex[3]) && is_hex(hex[4])
            && is_hex(hex[5]) && is_hex(hex[6]) && is_hex(hex[7]));
        assert forall|i: int| 0 <= i < 8 implies x[i] == y[i] by {
            assert(nibble(hex[0]) == 11 && nibble(hex[1]) == 5 && nibble(hex[2]) == 6 && nibble(
                hex[3],
            ) == 2 && nibble(hex[4]) == 0 && nibble(hex[5]) == 2 && nibble(hex[6]) == 1 && nibble(
                hex[7],
            ) == 5);
        }
        assert(x =~= y);
    }
    if x == y {
        assert(x[0] == y[0] && x[1] == y[1] && x[2] == y[2] && x[3] == y[3] && x[4] == y[4] && x[5]
            == y[5] && x[6] == y[6] && x[7] == y[7]);
    }
}

} // verus!
