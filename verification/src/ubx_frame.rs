//! UBX frames: two sync bytes, class, identifier, length, payload and check sum.

use vstd::prelude::*;
use vstd::slice::slice_subrange;

verus! {

/// The 8-bit Fletcher check sum of `data`.
pub open spec fn fletcher(data: Seq<u8>) -> (int, int)
    decreases data.len(),
{
    if data.len() == 0 {
        (0, 0)
    } else {
        let (a, b) = fletcher(data.drop_last());
        let a2 = (a + data.last()) % 256;
        (a2, (b + a2) % 256)
    }
}

proof fn lemma_fletcher_bounds(data: Seq<u8>)
    ensures
        0 <= fletcher(data).0 < 256,
        0 <= fletcher(data).1 < 256,
    decreases data.len(),
{
    if data.len() > 0 {
        lemma_fletcher_bounds(data.drop_last());
    }
}

/// The UBX 8-bit Fletcher check sum over class, identifier, length and payload.
pub fn checksum(data: &[u8]) -> (r: (u8, u8))
    ensures
        (r.0 as int, r.1 as int) == fletcher(data@),
{
    let mut a: u8 = 0;
    let mut b: u8 = 0;
    let mut i: usize = 0;
    while i < data.len()
        invariant
            i <= data@.len(),
            (a as int, b as int) == fletcher(data@.take(i as int)),
        decreases data@.len() - i,
    {
        assert(data@.take(i + 1).drop_last() =~= data@.take(i as int));
        let x: u8 = data[i];
        a = a.wrapping_add(x);
        b = b.wrapping_add(a);
        i += 1;
    }
    assert(data@.take(i as int) =~= data@);
    (a, b)
}

/// The number that bytes denote, the least significant first.
pub open spec fn little_endian(b: Seq<u8>) -> int
    decreases b.len(),
{
    if b.len() == 0 {
        0
    } else {
        b[0] + 256 * little_endian(b.skip(1))
    }
}

pub fn le_u16(b: &[u8]) -> (r: u16)
    requires
        b@.len() >= 2,
    ensures
        r == little_endian(b@.take(2)),
{
    reveal_with_fuel(little_endian, 3);
    b[0] as u16 + 256 * b[1] as u16
}

pub fn le_u32(b: &[u8]) -> (r: u32)
    requires
        b@.len() >= 4,
    ensures
        r == little_endian(b@.take(4)),
{
    proof {
        reveal_with_fuel(little_endian, 5);
        let t = b@.take(4);
        assert(t.skip(1)[0] == b@[1] && t.skip(1).skip(1)[0] == b@[2]
            && t.skip(1).skip(1).skip(1)[0] == b@[3]);
    }
    b[0] as u32 + 256 * (b[1] as u32 + 256 * (b[2] as u32 + 256 * b[3] as u32))
}

pub fn le_u64(b: &[u8]) -> (r: u64)
    requires
        b@.len() >= 8,
    ensures
        r == little_endian(b@.take(8)),
{
    let lo: u32 = le_u32(slice_subrange(b, 0, 4));
    let hi: u32 = le_u32(slice_subrange(b, 4, 8));
    proof {
        assert(b@.subrange(0, 4).take(4) =~= b@.take(8).take(4));
        assert(b@.subrange(4, 8).take(4) =~= b@.take(8).skip(4));
        lemma_little_endian_split(b@.take(8), 4);
    }
    lo as u64 + 0x1_0000_0000 * hi as u64
}

proof fn lemma_little_endian_split(b: Seq<u8>, n: int)
    requires
        n == 4,
        b.len() == 8,
    ensures
        little_endian(b) == little_endian(b.take(4)) + 0x1_0000_0000 * little_endian(b.skip(4)),
{
    reveal_with_fuel(little_endian, 5);
    let t = b.take(4);
    assert(b.skip(1).skip(1).skip(1).skip(1) =~= b.skip(4));
    assert(t.skip(1)[0] == b[1] && t.skip(1).skip(1)[0] == b[2] && t.skip(1).skip(1).skip(1)[0]
        == b[3]);
    assert(b.skip(1)[0] == b[1] && b.skip(1).skip(1)[0] == b[2] && b.skip(1).skip(1).skip(1)[0]
        == b[3]);
}

/// The length of the frame that `d` begins with, by its length field.
pub open spec fn frame_len(d: Seq<u8>) -> int {
    d[4] + 256 * d[5] + 8
}

/// Whether `d` begins with a complete frame whose check sum is right.
pub open spec fn frame_valid(d: Seq<u8>) -> bool {
    &&& d.len() >= 8
    &&& d[0] == 0xb5
    &&& d[1] == 0x62
    &&& d.len() >= frame_len(d)
    &&& fletcher(d.subrange(2, frame_len(d) - 2)) == (
        d[frame_len(d) - 2] as int,
        d[frame_len(d) - 1] as int,
    )
}

fn frame_at(data: &[u8], i: usize) -> (r: Option<usize>)
    requires
        i <= data@.len(),
    ensures
        r is Some <==> frame_valid(data@.skip(i as int)),
        r matches Some(n) ==> n == frame_len(data@.skip(i as int)) && i + n <= data@.len() && n
            >= 8,
{
    let ghost d = data@.skip(i as int);
    if data.len() - i < 8 || data[i] != 0xb5 || data[i + 1] != 0x62 {
        return None;
    }
    let n: usize = data[i + 4] as usize + 256 * data[i + 5] as usize + 8;
    if n > data.len() - i {
        return None;
    }
    let body = slice_subrange(data, i + 2, i + n - 2);
    assert(body@ =~= d.subrange(2, n - 2));
    let (a, b) = checksum(body);
    if a == data[i + n - 2] && b == data[i + n - 1] {
        Some(n)
    } else {
        None
    }
}

/// Where the first valid frame at or after `i` begins; the length of `d` where
/// there is none.
pub open spec fn first_frame(d: Seq<u8>, i: int) -> int
    decreases d.len() - i,
{
    if i < 0 || i >= d.len() {
        d.len() as int
    } else if frame_valid(d.skip(i)) {
        i
    } else {
        first_frame(d, i + 1)
    }
}

fn find_frame(data: &[u8], pos: usize) -> (r: Option<(usize, usize)>)
    requires
        pos <= data@.len(),
    ensures
        r is None <==> first_frame(data@, pos as int) == data@.len(),
        r matches Some((start, len)) ==> {
            &&& start == first_frame(data@, pos as int)
            &&& len == frame_len(data@.skip(start as int))
            &&& pos <= start
            &&& start + len <= data@.len()
            &&& len >= 8
        },
{
    let mut i: usize = pos;
    while i < data.len()
        invariant
            pos <= i <= data@.len(),
            first_frame(data@, pos as int) == first_frame(data@, i as int),
        decreases data@.len() - i,
    {
        if let Some(n) = frame_at(data, i) {
            return Some((i, n));
        }
        i += 1;
    }
    None
}

/// Byte offset of the first valid UBX frame. `None` if the buffer holds no
/// complete valid frame.
pub fn first_frame_pos(data: &[u8]) -> (r: Option<usize>)
    ensures
        r is None <==> first_frame(data@, 0) == data@.len(),
        r matches Some(i) ==> i == first_frame(data@, 0),
{
    match find_frame(data, 0) {
        Some((start, _)) => Some(start),
        None => None,
    }
}

/// Walks over the valid UBX frames in a byte buffer.
pub struct Frames<'a> {
    data: &'a [u8],
    pos: usize,
}

/// The valid frames in `data`, in order.
pub fn frames(data: &[u8]) -> (r: Frames<'_>)
    ensures
        r.buffer() == data@,
        r.position() == 0,
{
    Frames { data, pos: 0 }
}

impl<'a> Frames<'a> {
    /// The bytes that are walked over.
    pub closed spec fn buffer(self) -> Seq<u8> {
        self.data@
    }

    /// Where the search for the next frame begins.
    pub closed spec fn position(self) -> int {
        self.pos as int
    }

    /// The next valid frame.
    pub fn next(&mut self) -> (r: Option<&'a [u8]>)
        requires
            old(self).position() <= old(self).buffer().len(),
        ensures
            final(self).buffer() == old(self).buffer(),
            final(self).position() <= final(self).buffer().len(),
            ({
                let d = old(self).buffer();
                let start = first_frame(d, old(self).position());
                if start == d.len() {
                    r is None && final(self).position() == d.len()
                } else {
                    &&& r matches Some(f) && f@ == d.subrange(
                        start,
                        start + frame_len(d.skip(start)),
                    )
                    &&& final(self).position() == start + frame_len(d.skip(start))
                }
            }),
    {
        match find_frame(self.data, self.pos) {
            Some((start, len)) => {
                let total: usize = self.data.len();
                assert(start + len <= total);
                self.pos = start + len;
                Some(slice_subrange(self.data, start, start + len))
            },
            None => {
                self.pos = self.data.len();
                None
            },
        }
    }
}

/// Whether a frame begins as an RXM-RAWX message does.
pub open spec fn rawx_header(frame: Seq<u8>) -> bool {
    frame.len() >= 4 && frame[0] == 0xb5 && frame[1] == 0x62 && frame[2] == 0x02 && frame[3] == 0x15
}

/// Whether a single UBX frame is an RXM-RAWX message (class 0x02, id 0x15), from
/// its header bytes only.
pub fn is_rawx_frame(frame: &[u8]) -> (r: bool)
    ensures
        r == rawx_header(frame@),
{
    frame.len() >= 4 && frame[0] == 0xb5 && frame[1] == 0x62 && frame[2] == 0x02 && frame[3] == 0x15
}

/// Whether the class and identifier of a frame are those of RXM-RAWX.
pub fn packet_msg_is_rawx(frame: &[u8]) -> (r: bool)
    ensures
        r == (frame@.len() >= 6 && frame@[2] == 0x02 && frame@[3] == 0x15),
{
    frame.len() >= 6 && frame[2] == 0x02 && frame[3] == 0x15
}

/// Where the first valid RXM-RAWX frame at or after `i` begins, where each valid
/// frame is passed over as a whole; the length of `d` where there is none.
pub open spec fn first_rawx(d: Seq<u8>, i: int) -> int
    decreases d.len() - i,
{
    if i < 0 || i >= d.len() {
        d.len() as int
    } else if !frame_valid(d.skip(i)) {
        first_rawx(d, i + 1)
    } else if rawx_header(d.skip(i)) {
        i
    } else {
        first_rawx(d, i + frame_len(d.skip(i)))
    }
}

pub proof fn lemma_first_rawx(d: Seq<u8>, i: int)
    requires
        0 <= i <= d.len(),
    ensures
        i <= first_rawx(d, i) <= d.len(),
    decreases d.len() - i,
{
    if i < d.len() {
        if !frame_valid(d.skip(i)) {
            lemma_first_rawx(d, i + 1);
        } else if !rawx_header(d.skip(i)) {
            lemma_first_rawx(d, i + frame_len(d.skip(i)));
        }
    }
}

/// Byte offset of the first valid RXM-RAWX frame.
pub fn first_rawx_pos(data: &[u8]) -> (r: Option<usize>)
    ensures
        r is None <==> first_rawx(data@, 0) == data@.len(),
        r matches Some(i) ==> i == first_rawx(data@, 0),
{
    let mut i: usize = 0;
    while i < data.len()
        invariant
            i <= data@.len(),
            first_rawx(data@, 0) == first_rawx(data@, i as int),
        decreases data@.len() - i,
    {
        match frame_at(data, i) {
            Some(n) => {
                if is_rawx_frame(slice_subrange(data, i, i + n)) {
                    assert(rawx_header(data@.skip(i as int)));
                    return Some(i);
                }
                assert(!rawx_header(data@.skip(i as int)));
                i = i + n;
            },
            None => {
                i += 1;
            },
        }
    }
    None
}

// ---- RXM-RAWX ----

/// One measurement as it stands in a message; `pr_mes`, `cp_mes` and `do_mes`
/// are the bits of floating-point numbers.
#[derive(Clone, Copy, Debug, PartialEq, Eq, Structural)]
pub struct RawMeas {
    pub pr_mes: u64,
    pub cp_mes: u64,
    pub do_mes: u32,
    pub gnss_id: u8,
    pub sv_id: u8,
    pub sig_id: u8,
    pub freq_id: u8,
    pub lock_time: u16,
    pub cno: u8,
    pub cp_stdev: u8,
    pub trk_stat: u8,
}

/// One RXM-RAWX message as it stands in a frame; `rcv_tow` is the bits of a
/// floating-point number.
#[derive(Debug)]
pub struct RawRawx {
    pub rcv_tow: u64,
    pub week: u16,
    pub meas: Vec<RawMeas>,
}

/// The measurement in 32 bytes of a message.
pub open spec fn raw_meas(m: Seq<u8>) -> RawMeas {
    RawMeas {
        pr_mes: little_endian(m.subrange(0, 8)) as u64,
        cp_mes: little_endian(m.subrange(8, 16)) as u64,
        do_mes: little_endian(m.subrange(16, 20)) as u32,
        gnss_id: m[20],
        sv_id: m[21],
        sig_id: m[22],
        freq_id: m[23],
        lock_time: little_endian(m.subrange(24, 26)) as u16,
        cno: m[26],
        cp_stdev: m[28],
        trk_stat: m[30],
    }
}

/// The payload of an RXM-RAWX frame of version 1 with whole measurements; none
/// for any other.
pub open spec fn rawx_payload(frame: Seq<u8>) -> Option<Seq<u8>> {
    let p = frame.subrange(6, frame_len(frame) - 2);
    if frame.len() >= 8 && frame.len() >= frame_len(frame) && p.len() >= 16 && p[13] == 1 && (
    p.len() - 16) % 32 == 0 {
        Some(p)
    } else {
        None
    }
}

/// The message in a payload.
pub open spec fn rawx_in(p: Seq<u8>, r: RawRawx) -> bool {
    &&& r.rcv_tow == little_endian(p.subrange(0, 8))
    &&& r.week == little_endian(p.subrange(8, 10))
    &&& r.meas@ == Seq::new(
        ((p.len() - 16) / 32) as nat,
        |i: int| raw_meas(p.subrange(16 + i * 32, 16 + (i + 1) * 32)),
    )
}

fn parse_meas(m: &[u8]) -> (r: RawMeas)
    requires
        m@.len() == 32,
    ensures
        r == raw_meas(m@),
{
    proof {
        assert(m@.subrange(0, 8).take(8) =~= m@.subrange(0, 8));
        assert(m@.subrange(8, 16).take(8) =~= m@.subrange(8, 16));
        assert(m@.subrange(16, 20).take(4) =~= m@.subrange(16, 20));
        assert(m@.subrange(24, 26).take(2) =~= m@.subrange(24, 26));
    }
    RawMeas {
        pr_mes: le_u64(slice_subrange(m, 0, 8)),
        cp_mes: le_u64(slice_subrange(m, 8, 16)),
        do_mes: le_u32(slice_subrange(m, 16, 20)),
        gnss_id: m[20],
        sv_id: m[21],
        sig_id: m[22],
        freq_id: m[23],
        lock_time: le_u16(slice_subrange(m, 24, 26)),
        cno: m[26],
        cp_stdev: m[28],
        trk_stat: m[30],
    }
}

/// Decodes an RXM-RAWX frame.
pub fn parse_rawx(frame: &[u8]) -> (r: Option<RawRawx>)
    ensures
        r is Some <==> rawx_payload(frame@) is Some,
        r matches Some(m) ==> rawx_in(rawx_payload(frame@)->0, m),
{
    if frame.len() < 8 {
        return None;
    }
    let len: usize = frame[4] as usize + 256 * frame[5] as usize;
    if frame.len() < 6 + len + 2 {
        return None;
    }
    let p = slice_subrange(frame, 6, 6 + len);
    assert(p@ =~= frame@.subrange(6, frame_len(frame@) - 2));
    if p.len() < 16 || p[13] != 1 {
        return None;
    }
    let n: usize = (p.len() - 16) / 32;
    if 16 + n * 32 != p.len() {
        return None;
    }
    assert((p@.len() - 16) % 32 == 0);
    let rcv_tow: u64 = le_u64(slice_subrange(p, 0, 8));
    let week: u16 = le_u16(slice_subrange(p, 8, 10));
    proof {
        assert(p@.subrange(0, 8).take(8) =~= p@.subrange(0, 8));
        assert(p@.subrange(8, 10).take(2) =~= p@.subrange(8, 10));
    }
    let mut meas: Vec<RawMeas> = Vec::new();
    let mut i: usize = 0;
    while i < n
        invariant
            i <= n,
            n <= 2048,
            16 + n * 32 == p@.len(),
            meas@.len() == i,
            forall|j: int|
                0 <= j < i ==> #[trigger] meas@[j] == raw_meas(
                    p@.subrange(16 + j * 32, 16 + (j + 1) * 32),
                ),
        decreases n - i,
    {
        assert(16 + (i + 1) * 32 <= 16 + n * 32);
        let m = slice_subrange(p, 16 + i * 32, 16 + (i + 1) * 32);
        meas.push(parse_meas(m));
        i += 1;
    }
    let r = RawRawx { rcv_tow, week, meas };
    assert(r.meas@ =~= Seq::new(
        ((p@.len() - 16) / 32) as nat,
        |i: int| raw_meas(p@.subrange(16 + i * 32, 16 + (i + 1) * 32)),
    ));
    Some(r)
}

} // verus!
