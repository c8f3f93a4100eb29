//! Decoding RTCM messages bit by bit, into the integers that stand in them.

use crate::rtcm::{
    extract_msg_type, gnss_of_message, is_msm7, msg_type, Gnss, Message, SatData, SigData,
};
use crate::text::{lossy_text, text_of};
use vstd::arithmetic::power2::{lemma2_to64, lemma_pow2_adds, lemma_pow2_pos, lemma_pow2_unfold, pow2};
use vstd::bits::lemma_u64_shr_is_div;
use vstd::prelude::*;
use vstd::slice::slice_subrange;

verus! {

// ---- bits ----

/// Bit `i` of `d`, the most significant of a byte first; 0 behind the end.
pub open spec fn bit(d: Seq<u8>, i: int) -> int {
    if 0 <= i / 8 < d.len() {
        ((d[i / 8] >> ((7 - i % 8) as u8)) & 1u8) as int
    } else {
        0
    }
}

/// The unsigned number in `n` bits of `d` from bit `pos` on.
pub open spec fn field(d: Seq<u8>, pos: int, n: int) -> int
    decreases n,
{
    if n <= 0 {
        0
    } else {
        2 * field(d, pos, n - 1) + bit(d, pos + n - 1)
    }
}

/// The two's complement number in `n` bits of `d` from bit `pos` on.
pub open spec fn signed_field(d: Seq<u8>, pos: int, n: int) -> int {
    let v = field(d, pos, n);
    if v >= pow2((n - 1) as nat) {
        v - pow2(n as nat)
    } else {
        v
    }
}

proof fn lemma_bit_bounds(d: Seq<u8>, i: int)
    ensures
        0 <= bit(d, i) <= 1,
{
    if 0 <= i / 8 < d.len() {
        let x = d[i / 8];
        let s = (7 - i % 8) as u8;
        assert((x >> s) & 1u8 <= 1) by (bit_vector);
    }
}

/// A number in `n` bits is below the `n`th power of two.
pub proof fn lemma_field_bounds(d: Seq<u8>, pos: int, n: int)
    requires
        0 <= n,
    ensures
        0 <= field(d, pos, n) < pow2(n as nat),
    decreases n,
{
    lemma2_to64();
    if n > 0 {
        lemma_field_bounds(d, pos, n - 1);
        lemma_bit_bounds(d, pos + n - 1);
        lemma_pow2_unfold(n as nat);
    }
}

/// Reads numbers from a bit string.
pub struct BitReader<'a> {
    pub data: &'a [u8],
    pub bitpos: usize,
}

fn power(k: u32) -> (r: u64)
    requires
        k <= 63,
    ensures
        r == pow2(k as nat),
{
    let mut r: u64 = 1;
    let mut i: u32 = 0;
    proof {
        lemma2_to64();
    }
    while i < k
        invariant
            i <= k <= 63,
            r == pow2(i as nat),
        decreases k - i,
    {
        proof {
            lemma_pow2_unfold((i + 1) as nat);
            lemma_pow2_bound(i + 1);
        }
        r = r * 2;
        i += 1;
    }
    r
}

proof fn lemma_pow2_bound(k: int)
    requires
        0 <= k <= 63,
    ensures
        0 < pow2(k as nat) <= 0x8000_0000_0000_0000,
    decreases 63 - k,
{
    lemma2_to64();
    lemma_pow2_pos(k as nat);
    if k < 63 {
        lemma_pow2_bound(k + 1);
        lemma_pow2_unfold((k + 1) as nat);
    } else {
        lemma_pow2_adds(32, 31);
    }
}

impl<'a> BitReader<'a> {
    pub fn new(data: &'a [u8]) -> (r: BitReader<'a>)
        ensures
            r.data@ == data@,
            r.bitpos == 0,
    {
        BitReader { data, bitpos: 0 }
    }

    /// How many bits are left.
    pub fn remaining(&self) -> (r: usize)
        requires
            self.data@.len() * 8 <= usize::MAX,
        ensures
            r == (if self.bitpos <= self.data@.len() * 8 {
                self.data@.len() * 8 - self.bitpos
            } else {
                0
            }),
    {
        let total: usize = self.data.len() * 8;
        if self.bitpos <= total {
            total - self.bitpos
        } else {
            0
        }
    }

    /// Whether there are `n` more bits.
    pub fn has(&self, n: usize) -> (r: bool)
        requires
            self.bitpos + n + 7 <= usize::MAX,
        ensures
            r == (n == 0 || self.bitpos + n <= self.data@.len() * 8),
    {
        n == 0 || (self.bitpos + n + 7) / 8 <= self.data.len()
    }

    /// Reads `n` bits as an unsigned number. Behind the end all bits are 0.
    pub fn u(&mut self, n: u32) -> (r: u64)
        requires
            n <= 64,
            old(self).bitpos + n <= usize::MAX,
        ensures
            r == field(old(self).data@, old(self).bitpos as int, n as int),
            final(self).data@ == old(self).data@,
            final(self).bitpos == old(self).bitpos + n,
    {
        let mut v: u64 = 0;
        let mut i: u32 = 0;
        let ghost start = self.bitpos as int;
        let ghost d = self.data@;
        while i < n
            invariant
                i <= n <= 64,
                self.data@ == d,
                self.bitpos == start + i,
                start + n <= usize::MAX,
                v == field(d, start, i as int),
            decreases n - i,
        {
            proof {
                lemma_field_bounds(d, start, i as int);
                lemma_pow2_bound(i as int);
            }
            let at: usize = self.bitpos / 8;
            let b: u8 = if at < self.data.len() {
                let s: u8 = (7 - self.bitpos % 8) as u8;
                let x: u8 = self.data[at];
                let b: u8 = (x >> s) & 1u8;
                assert(b as int == bit(d, self.bitpos as int));
                b
            } else {
                0
            };
            proof {
                lemma_bit_bounds(d, self.bitpos as int);
            }
            v = 2 * v + b as u64;
            self.bitpos = self.bitpos + 1;
            i += 1;
        }
        v
    }

    /// Reads `n` bits as a two's complement number.
    pub fn i(&mut self, n: u32) -> (r: i64)
        requires
            1 <= n <= 62,
            old(self).bitpos + n <= usize::MAX,
        ensures
            r == signed_field(old(self).data@, old(self).bitpos as int, n as int),
            final(self).data@ == old(self).data@,
            final(self).bitpos == old(self).bitpos + n,
            -pow2((n - 1) as nat) <= r < pow2((n - 1) as nat),
    {
        let ghost d = self.data@;
        let ghost start = self.bitpos as int;
        let v: u64 = self.u(n);
        proof {
            lemma_field_bounds(d, start, n as int);
            lemma_pow2_bound(n as int);
            lemma_pow2_bound(n - 1);
            lemma_pow2_unfold(n as nat);
        }
        let half: u64 = power(n - 1);
        if v >= half {
            v as i64 - half as i64 - half as i64
        } else {
            v as i64
        }
    }

    /// Reads one bit.
    pub fn bit(&mut self) -> (r: bool)
        requires
            old(self).bitpos < usize::MAX,
        ensures
            r == (bit(old(self).data@, old(self).bitpos as int) == 1),
            final(self).data@ == old(self).data@,
            final(self).bitpos == old(self).bitpos + 1,
    {
        proof {
            reveal_with_fuel(field, 2);
            lemma_bit_bounds(self.data@, self.bitpos as int);
        }
        self.u(1) != 0
    }
}

// ---- masks ----

/// Whether place `i` of a mask of `width` bits is set, the most significant
/// first.
pub open spec fn mask_bit(mask: int, width: int, i: int) -> bool {
    (mask / pow2((width - 1 - i) as nat) as int) % 2 == 1
}

/// The places among the first `n` of a mask that are set, counted from 1.
pub open spec fn set_places(mask: int, width: int, n: int) -> Seq<u8>
    decreases n,
{
    if n <= 0 {
        Seq::empty()
    } else {
        let s = set_places(mask, width, n - 1);
        if mask_bit(mask, width, n - 1) {
            s.push(n as u8)
        } else {
            s
        }
    }
}

proof fn lemma_set_places_len(mask: int, width: int, n: int)
    requires
        0 <= n,
    ensures
        set_places(mask, width, n).len() <= n,
    decreases n,
{
    if n > 0 {
        lemma_set_places_len(mask, width, n - 1);
    }
}

/// A mask that was read from bits has the places set whose bits are 1.
pub proof fn lemma_mask_bit(d: Seq<u8>, pos: int, n: int, i: int)
    requires
        0 <= i < n,
    ensures
        mask_bit(field(d, pos, n), n, i) <==> bit(d, pos + i) == 1,
    decreases n,
{
    lemma2_to64();
    lemma_bit_bounds(d, pos + n - 1);
    let f = field(d, pos, n - 1);
    let b = bit(d, pos + n - 1);
    lemma_field_bounds(d, pos, n - 1);
    if i == n - 1 {
        assert(field(d, pos, n) / 1 == field(d, pos, n));
    } else {
        lemma_mask_bit(d, pos, n - 1, i);
        let q = pow2((n - 2 - i) as nat) as int;
        lemma_pow2_pos((n - 2 - i) as nat);
        lemma_pow2_unfold((n - 1 - i) as nat);
        assert((2 * f + b) / (2 * q) == f / q) by (nonlinear_arith)
            requires
                f >= 0,
                0 <= b <= 1,
                q > 0,
        ;
    }
}

fn mask_set(mask: u64, width: u32, i: u32) -> (r: bool)
    requires
        i < width <= 64,
    ensures
        r == mask_bit(mask as int, width as int, i as int),
{
    let s: u64 = (width - 1 - i) as u64;
    proof {
        lemma_u64_shr_is_div(mask, s);
        lemma_pow2_pos(s as nat);
    }
    let v: u64 = mask >> s;
    v % 2 == 1
}

/// Satellite numbers from a mask of `width` bits, the most significant first.
pub fn mask_bits_64(mask: u64, width: u32) -> (r: Vec<u8>)
    requires
        width <= 64,
    ensures
        r@ == set_places(mask as int, width as int, width as int),
        r@.len() <= width,
{
    let mut out: Vec<u8> = Vec::new();
    let mut i: u32 = 0;
    while i < width
        invariant
            i <= width <= 64,
            out@ == set_places(mask as int, width as int, i as int),
            out@.len() <= i,
        decreases width - i,
    {
        if mask_set(mask, width, i) {
            out.push((i + 1) as u8);
        }
        i += 1;
    }
    out
}

/// Signal numbers from a mask of 32 bits, the most significant first.
pub fn mask_bits_32(mask: u32) -> (r: Vec<u8>)
    ensures
        r@ == set_places(mask as int, 32, 32),
        r@.len() <= 32,
{
    mask_bits_64(mask as u64, 32)
}

/// Whether cell `cell` of a mask of `ncell` cells is set.
pub fn cell_set(mask: u64, ncell: usize, cell: usize) -> (r: bool)
    requires
        ncell <= 64,
    ensures
        r == (cell < ncell && mask_bit(mask as int, ncell as int, cell as int)),
{
    if ncell == 0 || cell >= ncell {
        return false;
    }
    mask_set(mask, ncell as u32, cell as u32)
}

// ---- MSM7 ----

/// `count` unsigned numbers of `n` bits each, from bit `pos` on.
pub open spec fn field_list(d: Seq<u8>, pos: int, n: int, count: int) -> Seq<u64> {
    Seq::new(count as nat, |i: int| field(d, pos + i * n, n) as u64)
}

/// `count` two's complement numbers of `n` bits each, from bit `pos` on.
pub open spec fn signed_list(d: Seq<u8>, pos: int, n: int, count: int) -> Seq<i64> {
    Seq::new(count as nat, |i: int| signed_field(d, pos + i * n, n) as i64)
}

fn read_list(r: &mut BitReader<'_>, n: u32, count: usize) -> (v: Vec<u64>)
    requires
        n <= 64,
        count <= 64,
        old(r).bitpos + 64 * 64 <= usize::MAX,
    ensures
        v@ == field_list(old(r).data@, old(r).bitpos as int, n as int, count as int),
        final(r).data@ == old(r).data@,
        final(r).bitpos == old(r).bitpos + n * count,
        forall|i: int|
            0 <= i < count ==> 0 <= #[trigger] v@[i] < pow2(n as nat),
{
    let mut v: Vec<u64> = Vec::new();
    let mut i: usize = 0;
    let ghost d = r.data@;
    let ghost start = r.bitpos as int;
    while i < count
        invariant
            i <= count <= 64,
            n <= 64,
            start + 64 * 64 <= usize::MAX,
            r.data@ == d,
            r.bitpos == start + n * i,
            v@ == field_list(d, start, n as int, i as int),
            forall|j: int| 0 <= j < i ==> 0 <= #[trigger] v@[j] < pow2(n as nat),
        decreases count - i,
    {
        assert(n * i <= 64 * 63 && n * (i + 1) == n * i + n && n * i == i * n) by (nonlinear_arith)
            requires
                0 <= n <= 64,
                0 <= i < 64,
        ;
        proof {
            lemma_field_bounds(d, start + i * n, n as int);
        }
        let x: u64 = r.u(n);
        v.push(x);
        i += 1;
        assert(v@ =~= field_list(d, start, n as int, i as int));
    }
    v
}

fn read_signed_list(r: &mut BitReader<'_>, n: u32, count: usize) -> (v: Vec<i64>)
    requires
        1 <= n <= 62,
        count <= 64,
        old(r).bitpos + 64 * 64 <= usize::MAX,
    ensures
        v@ == signed_list(old(r).data@, old(r).bitpos as int, n as int, count as int),
        final(r).data@ == old(r).data@,
        final(r).bitpos == old(r).bitpos + n * count,
        forall|i: int|
            0 <= i < count ==> -pow2((n - 1) as nat) <= #[trigger] v@[i] < pow2((n - 1) as nat),
{
    let mut v: Vec<i64> = Vec::new();
    let mut i: usize = 0;
    let ghost d = r.data@;
    let ghost start = r.bitpos as int;
    while i < count
        invariant
            i <= count <= 64,
            1 <= n <= 62,
            start + 64 * 64 <= usize::MAX,
            r.data@ == d,
            r.bitpos == start + n * i,
            v@ == signed_list(d, start, n as int, i as int),
            forall|j: int|
                0 <= j < i ==> -pow2((n - 1) as nat) <= #[trigger] v@[j] < pow2((n - 1) as nat),
        decreases count - i,
    {
        assert(n * i <= 64 * 63 && n * (i + 1) == n * i + n && n * i == i * n) by (nonlinear_arith)
            requires
                1 <= n <= 62,
                0 <= i < 64,
        ;
        let x: i64 = r.i(n);
        v.push(x);
        i += 1;
        assert(v@ =~= signed_list(d, start, n as int, i as int));
    }
    v
}

/// An MSM7 as it stands in a message: the numbers of its satellites and signals,
/// and a list of numbers for each kind of field.
#[derive(Debug)]
pub struct Msm7 {
    pub msg_num: u16,
    pub epoch_time: u32,
    pub cell_mask: u64,
    pub sats: Vec<u8>,
    pub sigs: Vec<u8>,
    pub range_int: Vec<u64>,
    pub ext_info: Vec<u64>,
    pub range_mod: Vec<u64>,
    pub sat_phase_rate: Vec<i64>,
    pub pseudorange: Vec<i64>,
    pub phase_range: Vec<i64>,
    pub lock_time: Vec<u64>,
    pub half_cycle: Vec<u64>,
    pub cnr: Vec<u64>,
    pub sig_phase_rate: Vec<i64>,
}

/// The satellites of a message: bits 73 to 136.
pub open spec fn msm_sats(p: Seq<u8>) -> Seq<u8> {
    set_places(field(p, 73, 64), 64, 64)
}

/// The signals of a message: bits 137 to 168.
pub open spec fn msm_sigs(p: Seq<u8>) -> Seq<u8> {
    set_places(field(p, 137, 32), 32, 32)
}

/// The number of places in the cell mask: one for each satellite and signal.
pub open spec fn msm_places(p: Seq<u8>) -> int {
    (msm_sats(p).len() * msm_sigs(p).len()) as int
}

/// The places of the cells that are there.
pub open spec fn msm_cells(p: Seq<u8>) -> Seq<u8> {
    set_places(field(p, 169, msm_places(p)), msm_places(p), msm_places(p))
}

/// The first bit behind the cell mask.
pub open spec fn msm_body(p: Seq<u8>) -> int {
    169 + msm_places(p)
}

/// The first bit of the cell data.
pub open spec fn msm_cell_body(p: Seq<u8>) -> int {
    msm_body(p) + 36 * msm_sats(p).len()
}

/// Whether a payload holds a complete MSM7: at most 64 places in the cell mask,
/// and bits enough for its satellites and cells, if it has any.
pub open spec fn msm_complete(p: Seq<u8>) -> bool {
    &&& msm_places(p) <= 64
    &&& msm_sats(p).len() == 0 || msm_cell_body(p) + 80 * msm_cells(p).len() <= p.len() * 8
}

/// The MSM7 in a payload: the fields of all satellites, one kind after the other,
/// and then those of all cells.
pub open spec fn msm7_in(p: Seq<u8>, m: Msm7) -> bool {
    let n = msm_sats(p).len() as int;
    let c = msm_cells(p).len() as int;
    let s = msm_body(p);
    let b = msm_cell_body(p);
    &&& m.epoch_time == field(p, 24, 30)
    &&& m.cell_mask == field(p, 169, msm_places(p))
    &&& m.sats@ == msm_sats(p)
    &&& m.sigs@ == msm_sigs(p)
    &&& m.range_int@ == field_list(p, s, 8, n)
    &&& m.ext_info@ == field_list(p, s + 8 * n, 4, n)
    &&& m.range_mod@ == field_list(p, s + 12 * n, 10, n)
    &&& m.sat_phase_rate@ == signed_list(p, s + 22 * n, 14, n)
    &&& m.pseudorange@ == signed_list(p, b, 20, c)
    &&& m.phase_range@ == signed_list(p, b + 20 * c, 24, c)
    &&& m.lock_time@ == field_list(p, b + 44 * c, 10, c)
    &&& m.half_cycle@ == field_list(p, b + 54 * c, 1, c)
    &&& m.cnr@ == field_list(p, b + 55 * c, 10, c)
    &&& m.sig_phase_rate@ == signed_list(p, b + 65 * c, 15, c)
}

impl Msm7 {
    /// Whether the lists have the lengths that the masks ask for, and their
    /// numbers the widths of their fields.
    pub open spec fn wf(self) -> bool {
        let n = self.sats@.len();
        let places = (self.sats@.len() * self.sigs@.len()) as int;
        let c = set_places(self.cell_mask as int, places, places).len();
        &&& n <= 64
        &&& self.sigs@.len() <= 32
        &&& places <= 64
        &&& c <= 64
        &&& self.range_int@.len() == n
        &&& self.ext_info@.len() == n
        &&& self.range_mod@.len() == n
        &&& self.sat_phase_rate@.len() == n
        &&& self.pseudorange@.len() == c
        &&& self.phase_range@.len() == c
        &&& self.lock_time@.len() == c
        &&& self.half_cycle@.len() == c
        &&& self.cnr@.len() == c
        &&& self.sig_phase_rate@.len() == c
        &&& forall|i: int| 0 <= i < n ==> #[trigger] self.range_int@[i] < 256
        &&& forall|i: int| 0 <= i < n ==> #[trigger] self.ext_info@[i] < 16
        &&& forall|i: int| 0 <= i < n ==> #[trigger] self.range_mod@[i] < 1024
        &&& forall|i: int| 0 <= i < n ==> -8192 <= #[trigger] self.sat_phase_rate@[i] < 8192
        &&& forall|i: int| 0 <= i < c ==> #[trigger] self.lock_time@[i] < 1024
        &&& forall|i: int| 0 <= i < c ==> #[trigger] self.cnr@[i] < 1024
    }
}

/// Decodes the payload of an MSM7; none where it is not complete.
#[verifier::rlimit(40)]
pub fn parse_msm7(mt: u16, payload: &[u8]) -> (r: Option<Msm7>)
    ensures
        r is Some <==> msm_complete(payload@),
        r matches Some(m) ==> m.msg_num == mt && msm7_in(payload@, m) && m.wf(),
{
    let ghost p = payload@;
    let mut r = BitReader::new(payload);
    let _header: u64 = r.u(24);
    proof {
        lemma_field_bounds(p, 24, 30);
        lemma_field_bounds(p, 137, 32);
        lemma2_to64();
        lemma_pow2_values();
    }
    let epoch_time: u32 = r.u(30) as u32;
    let _rest: u64 = r.u(19);
    let sat_mask: u64 = r.u(64);
    let sig_mask: u32 = r.u(32) as u32;
    let sats = mask_bits_64(sat_mask, 64);
    let sigs = mask_bits_32(sig_mask);
    let nsat: usize = sats.len();
    let nsig: usize = sigs.len();
    assert(nsat * nsig <= 64 * 32) by (nonlinear_arith)
        requires
            0 <= nsat <= 64,
            0 <= nsig <= 32,
    ;
    let places: usize = nsat * nsig;
    if places > 64 {
        return None;
    }
    let cell_mask: u64 = r.u(places as u32);
    let ncell: usize = mask_bits_64(cell_mask, places as u32).len();
    let need: usize = nsat * 36 + ncell * 80;
    if !r.has(need) {
        return None;
    }
    let range_int = read_list(&mut r, 8, nsat);
    let ext_info = read_list(&mut r, 4, nsat);
    let range_mod = read_list(&mut r, 10, nsat);
    let sat_phase_rate = read_signed_list(&mut r, 14, nsat);
    let pseudorange = read_signed_list(&mut r, 20, ncell);
    let phase_range = read_signed_list(&mut r, 24, ncell);
    let lock_time = read_list(&mut r, 10, ncell);
    let half_cycle = read_list(&mut r, 1, ncell);
    let cnr = read_list(&mut r, 10, ncell);
    let sig_phase_rate = read_signed_list(&mut r, 15, ncell);
    Some(
        Msm7 {
            msg_num: mt,
            epoch_time,
            cell_mask,
            sats,
            sigs,
            range_int,
            ext_info,
            range_mod,
            sat_phase_rate,
            pseudorange,
            phase_range,
            lock_time,
            half_cycle,
            cnr,
            sig_phase_rate,
        },
    )
}

/// The powers of two that bound the fields.
proof fn lemma_pow2_values()
    ensures
        pow2(1) == 2,
        pow2(4) == 16,
        pow2(8) == 256,
        pow2(10) == 1024,
        pow2(13) == 8192,
        pow2(30) == 0x4000_0000,
        pow2(32) == 0x1_0000_0000,
{
    lemma2_to64();
}

// ---- signals ----

/// A band digit and an attribute letter.
pub open spec fn code(band: u8, attribute: u8) -> Option<[u8; 2]> {
    Some([band, attribute])
}

/// The RINEX signal of a place in the signal mask of a system.
pub open spec fn signal_of(gnss: Gnss, sig_id: u8) -> Option<[u8; 2]> {
    match gnss {
        Gnss::Gps => {
            if sig_id == 2 { code(0x31, 0x43) }
            else if sig_id == 3 { code(0x31, 0x50) }
            else if sig_id == 4 { code(0x31, 0x57) }
            else if sig_id == 8 { code(0x32, 0x43) }
            else if sig_id == 9 { code(0x32, 0x50) }
            else if sig_id == 10 { code(0x32, 0x57) }
            else if sig_id == 15 { code(0x32, 0x53) }
            else if sig_id == 16 { code(0x32, 0x4c) }
            else if sig_id == 17 { code(0x32, 0x58) }
            else if sig_id == 22 { code(0x35, 0x49) }
            else if sig_id == 23 { code(0x35, 0x51) }
            else if sig_id == 24 { code(0x35, 0x58) }
            else if sig_id == 30 { code(0x31, 0x53) }
            else if sig_id == 31 { code(0x31, 0x4c) }
            else if sig_id == 32 { code(0x31, 0x58) }
            else { None }
        },
        Gnss::Glonass => {
            if sig_id == 2 { code(0x31, 0x43) }
            else if sig_id == 3 { code(0x31, 0x50) }
            else if sig_id == 8 { code(0x32, 0x43) }
            else if sig_id == 9 { code(0x32, 0x50) }
            else { None }
        },
        Gnss::Galileo => {
            if sig_id == 2 { code(0x31, 0x43) }
            else if sig_id == 3 { code(0x31, 0x41) }
            else if sig_id == 4 { code(0x31, 0x42) }
            else if sig_id == 5 { code(0x31, 0x58) }
            else if sig_id == 6 { code(0x31, 0x5a) }
            else if sig_id == 8 { code(0x36, 0x43) }
            else if sig_id == 9 { code(0x36, 0x41) }
            else if sig_id == 10 { code(0x36, 0x42) }
            else if sig_id == 11 { code(0x36, 0x58) }
            else if sig_id == 12 { code(0x36, 0x5a) }
            else if sig_id == 14 { code(0x37, 0x49) }
            else if sig_id == 15 { code(0x37, 0x51) }
            else if sig_id == 16 { code(0x37, 0x58) }
            else if sig_id == 18 { code(0x38, 0x49) }
            else if sig_id == 19 { code(0x38, 0x51) }
            else if sig_id == 20 { code(0x38, 0x58) }
            else if sig_id == 22 { code(0x35, 0x49) }
            else if sig_id == 23 { code(0x35, 0x51) }
            else if sig_id == 24 { code(0x35, 0x58) }
            else { None }
        },
        Gnss::Sbas => {
            if sig_id == 2 { code(0x31, 0x43) }
            else if sig_id == 22 { code(0x35, 0x49) }
            else if sig_id == 23 { code(0x35, 0x51) }
            else if sig_id == 24 { code(0x35, 0x58) }
            else { None }
        },
        Gnss::Qzss => {
            if sig_id == 2 { code(0x31, 0x43) }
            else if sig_id == 9 { code(0x36, 0x53) }
            else if sig_id == 10 { code(0x36, 0x4c) }
            else if sig_id == 11 { code(0x36, 0x58) }
            else if sig_id == 15 { code(0x32, 0x53) }
            else if sig_id == 16 { code(0x32, 0x4c) }
            else if sig_id == 17 { code(0x32, 0x58) }
            else if sig_id == 22 { code(0x35, 0x49) }
            else if sig_id == 23 { code(0x35, 0x51) }
            else if sig_id == 24 { code(0x35, 0x58) }
            else if sig_id == 30 { code(0x31, 0x53) }
            else if sig_id == 31 { code(0x31, 0x4c) }
            else if sig_id == 32 { code(0x31, 0x58) }
            else { None }
        },
        Gnss::Beidou => {
            if sig_id == 2 { code(0x32, 0x49) }
            else if sig_id == 3 { code(0x32, 0x51) }
            else if sig_id == 4 { code(0x32, 0x58) }
            else if sig_id == 8 { code(0x36, 0x49) }
            else if sig_id == 9 { code(0x36, 0x51) }
            else if sig_id == 10 { code(0x36, 0x58) }
            else if sig_id == 14 { code(0x37, 0x49) }
            else if sig_id == 15 { code(0x37, 0x51) }
            else if sig_id == 16 { code(0x37, 0x58) }
            else if sig_id == 22 { code(0x35, 0x44) }
            else if sig_id == 23 { code(0x35, 0x50) }
            else if sig_id == 24 { code(0x35, 0x58) }
            else if sig_id == 25 { code(0x37, 0x44) }
            else if sig_id == 30 { code(0x31, 0x44) }
            else if sig_id == 31 { code(0x31, 0x50) }
            else if sig_id == 32 { code(0x31, 0x58) }
            else { None }
        },
        Gnss::Irnss => {
            if sig_id == 8 { code(0x39, 0x41) }
            else if sig_id == 22 { code(0x35, 0x41) }
            else { None }
        },
    }
}

/// The RINEX signal of a place in the signal mask of a system.
pub fn rinex_sig(gnss: Gnss, sig_id: u8) -> (r: Option<[u8; 2]>)
    ensures
        r == signal_of(gnss, sig_id),
{
    match gnss {
        Gnss::Gps => match sig_id {
            2 => Some([0x31, 0x43]),
            3 => Some([0x31, 0x50]),
            4 => Some([0x31, 0x57]),
            8 => Some([0x32, 0x43]),
            9 => Some([0x32, 0x50]),
            10 => Some([0x32, 0x57]),
            15 => Some([0x32, 0x53]),
            16 => Some([0x32, 0x4c]),
            17 => Some([0x32, 0x58]),
            22 => Some([0x35, 0x49]),
            23 => Some([0x35, 0x51]),
            24 => Some([0x35, 0x58]),
            30 => Some([0x31, 0x53]),
            31 => Some([0x31, 0x4c]),
            32 => Some([0x31, 0x58]),
            _ => None,
        },
        Gnss::Glonass => match sig_id {
            2 => Some([0x31, 0x43]),
            3 => Some([0x31, 0x50]),
            8 => Some([0x32, 0x43]),
            9 => Some([0x32, 0x50]),
            _ => None,
        },
        Gnss::Galileo => match sig_id {
            2 => Some([0x31, 0x43]),
            3 => Some([0x31, 0x41]),
            4 => Some([0x31, 0x42]),
            5 => Some([0x31, 0x58]),
            6 => Some([0x31, 0x5a]),
            8 => Some([0x36, 0x43]),
            9 => Some([0x36, 0x41]),
            10 => Some([0x36, 0x42]),
            11 => Some([0x36, 0x58]),
            12 => Some([0x36, 0x5a]),
            14 => Some([0x37, 0x49]),
            15 => Some([0x37, 0x51]),
            16 => Some([0x37, 0x58]),
            18 => Some([0x38, 0x49]),
            19 => Some([0x38, 0x51]),
            20 => Some([0x38, 0x58]),
            22 => Some([0x35, 0x49]),
            23 => Some([0x35, 0x51]),
            24 => Some([0x35, 0x58]),
            _ => None,
        },
        Gnss::Sbas => match sig_id {
            2 => Some([0x31, 0x43]),
            22 => Some([0x35, 0x49]),
            23 => Some([0x35, 0x51]),
            24 => Some([0x35, 0x58]),
            _ => None,
        },
        Gnss::Qzss => match sig_id {
            2 => Some([0x31, 0x43]),
            9 => Some([0x36, 0x53]),
            10 => Some([0x36, 0x4c]),
            11 => Some([0x36, 0x58]),
            15 => Some([0x32, 0x53]),
            16 => Some([0x32, 0x4c]),
            17 => Some([0x32, 0x58]),
            22 => Some([0x35, 0x49]),
            23 => Some([0x35, 0x51]),
            24 => Some([0x35, 0x58]),
            30 => Some([0x31, 0x53]),
            31 => Some([0x31, 0x4c]),
            32 => Some([0x31, 0x58]),
            _ => None,
        },
        Gnss::Beidou => match sig_id {
            2 => Some([0x32, 0x49]),
            3 => Some([0x32, 0x51]),
            4 => Some([0x32, 0x58]),
            8 => Some([0x36, 0x49]),
            9 => Some([0x36, 0x51]),
            10 => Some([0x36, 0x58]),
            14 => Some([0x37, 0x49]),
            15 => Some([0x37, 0x51]),
            16 => Some([0x37, 0x58]),
            22 => Some([0x35, 0x44]),
            23 => Some([0x35, 0x50]),
            24 => Some([0x35, 0x58]),
            25 => Some([0x37, 0x44]),
            30 => Some([0x31, 0x44]),
            31 => Some([0x31, 0x50]),
            32 => Some([0x31, 0x58]),
            _ => None,
        },
        Gnss::Irnss => match sig_id {
            8 => Some([0x39, 0x41]),
            22 => Some([0x35, 0x41]),
            _ => None,
        },
    }
}

// ---- satellites and cells ----

/// What an MSM7 tells of its satellite `i`.
pub open spec fn sat_data(m: Msm7, gnss: Gnss, i: int) -> SatData<i64> {
    SatData {
        satellite_id: m.sats@[i],
        range_int: if m.range_int@[i] == 255 {
            None
        } else {
            Some(m.range_int@[i] as u8)
        },
        range_mod: m.range_mod@[i] as i64,
        phase_rate: if m.sat_phase_rate@[i] == -8192 {
            None
        } else {
            Some(m.sat_phase_rate@[i] as i16)
        },
        glo_channel: if gnss == Gnss::Glonass && m.ext_info@[i] <= 13 {
            Some((m.ext_info@[i] - 7) as i8)
        } else {
            None
        },
    }
}

/// What an MSM7 tells of its cell `c`, which is of satellite number `sat` and
/// signal `sig`.
pub open spec fn sig_data(m: Msm7, c: int, sat: u8, sig: [u8; 2]) -> SigData<i64> {
    SigData {
        satellite_id: sat,
        band: (sig@[0] - 0x30) as u8,
        attribute: sig@[1],
        pseudorange: valid_value(m.pseudorange@[c], -524_288),
        phase_range: valid_value(m.phase_range@[c], -8_388_608),
        phase_rate: valid_value(m.sig_phase_rate@[c], -16_384),
        lock: m.lock_time@[c] as u16,
        half_cycle: m.half_cycle@[c] != 0,
        cnr: valid_value(m.cnr@[c] as i64, 0),
    }
}

/// A field value, unless it is the one that stands for none.
pub open spec fn valid_value(v: i64, invalid: int) -> Option<i64> {
    if v == invalid {
        None
    } else {
        Some(v)
    }
}

/// What an MSM7 tells of the cells in the first `n` places of its mask: those
/// that are there and whose signal is known, in order.
pub open spec fn sig_list(m: Msm7, gnss: Gnss, n: int) -> Seq<SigData<i64>>
    decreases n,
{
    if n <= 0 {
        Seq::empty()
    } else {
        let s = sig_list(m, gnss, n - 1);
        let nsig = m.sigs@.len() as int;
        let places = m.sats@.len() * m.sigs@.len();
        let k = n - 1;
        let c = set_places(m.cell_mask as int, places as int, k).len() as int;
        if mask_bit(m.cell_mask as int, places as int, k) {
            match signal_of(gnss, m.sigs@[k % nsig]) {
                Some(sig) => s.push(sig_data(m, c, m.sats@[k / nsig], sig)),
                None => s,
            }
        } else {
            s
        }
    }
}

fn optional(v: i64, invalid: i64) -> (r: Option<i64>)
    ensures
        r == valid_value(v, invalid as int),
{
    if v == invalid {
        None
    } else {
        Some(v)
    }
}

/// The frequency channel of a GLONASS satellite of an MSM7.
pub fn glonass_frequency_channel(gnss: Gnss, m: &Msm7, sat_index: usize) -> (r: Option<i8>)
    requires
        m.wf(),
        sat_index < m.sats@.len(),
    ensures
        r == sat_data(*m, gnss, sat_index as int).glo_channel,
{
    match gnss {
        Gnss::Glonass => {
            let v: u64 = m.ext_info[sat_index];
            if v > 13 {
                None
            } else {
                Some(v as i8 - 7)
            }
        },
        _ => None,
    }
}

proof fn lemma_signal_band(gnss: Gnss, sig_id: u8)
    ensures
        signal_of(gnss, sig_id) matches Some(s) ==> 0x31 <= s@[0] <= 0x39,
{
}

impl Msm7 {
    /// The satellites of the message.
    pub fn satellites(&self, gnss: Gnss) -> (r: Vec<SatData<i64>>)
        requires
            self.wf(),
        ensures
            r@ == Seq::new(self.sats@.len(), |i: int| sat_data(*self, gnss, i)),
    {
        let mut out: Vec<SatData<i64>> = Vec::new();
        let mut i: usize = 0;
        while i < self.sats.len()
            invariant
                i <= self.sats@.len(),
                self.wf(),
                out@.len() == i,
                forall|j: int| 0 <= j < i ==> #[trigger] out@[j] == sat_data(*self, gnss, j),
            decreases self.sats@.len() - i,
        {
            assert(self.range_int@[i as int] < 256 && self.range_mod@[i as int] < 1024);
            assert(-8192 <= self.sat_phase_rate@[i as int] < 8192);
            let whole: u64 = self.range_int[i];
            let rate: i64 = self.sat_phase_rate[i];
            out.push(
                SatData {
                    satellite_id: self.sats[i],
                    range_int: if whole == 255 {
                        None
                    } else {
                        Some(whole as u8)
                    },
                    range_mod: self.range_mod[i] as i64,
                    phase_rate: if rate == -8192 {
                        None
                    } else {
                        Some(rate as i16)
                    },
                    glo_channel: glonass_frequency_channel(gnss, self, i),
                },
            );
            i += 1;
        }
        assert(out@ =~= Seq::new(self.sats@.len(), |i: int| sat_data(*self, gnss, i)));
        out
    }

    /// The cells of the message whose signal is known.
    pub fn signals(&self, gnss: Gnss) -> (r: Vec<SigData<i64>>)
        requires
            self.wf(),
        ensures
            r@ == sig_list(*self, gnss, (self.sats@.len() * self.sigs@.len()) as int),
    {
        let nsig: usize = self.sigs.len();
        assert(self.sats@.len() * nsig <= 64 * 32) by (nonlinear_arith)
            requires
                self.sats@.len() <= 64,
                nsig <= 32,
        ;
        let places: usize = self.sats.len() * nsig;
        let ghost mask = self.cell_mask as int;
        let mut out: Vec<SigData<i64>> = Vec::new();
        let mut cell: usize = 0;
        let mut k: usize = 0;
        while k < places
            invariant
                k <= places <= 64,
                self.wf(),
                nsig == self.sigs@.len(),
                places == self.sats@.len() * self.sigs@.len(),
                mask == self.cell_mask,
                cell == set_places(mask, places as int, k as int).len(),
                out@ == sig_list(*self, gnss, k as int),
            decreases places - k,
        {
            if cell_set(self.cell_mask, places, k) {
                proof {
                    lemma_places_grow(mask, places as int, k + 1, places as int);
                    lemma_place_split(k as int, self.sats@.len() as int, nsig as int);
                    lemma_signal_band(gnss, self.sigs@[k as int % nsig as int]);
                    assert(self.lock_time@[cell as int] < 1024 && self.cnr@[cell as int] < 1024);
                }
                if let Some(sig) = rinex_sig(gnss, self.sigs[k % nsig]) {
                    out.push(
                        SigData {
                            satellite_id: self.sats[k / nsig],
                            band: sig[0] - 0x30,
                            attribute: sig[1],
                            pseudorange: optional(self.pseudorange[cell], -524_288),
                            phase_range: optional(self.phase_range[cell], -8_388_608),
                            phase_rate: optional(self.sig_phase_rate[cell], -16_384),
                            lock: self.lock_time[cell] as u16,
                            half_cycle: self.half_cycle[cell] != 0,
                            cnr: optional(self.cnr[cell] as i64, 0),
                        },
                    );
                }
                cell += 1;
            }
            k += 1;
        }
        out
    }
}

proof fn lemma_places_grow(mask: int, width: int, a: int, b: int)
    requires
        0 <= a <= b,
    ensures
        set_places(mask, width, a).len() <= set_places(mask, width, b).len(),
    decreases b - a,
{
    if a < b {
        lemma_places_grow(mask, width, a, b - 1);
    }
}

proof fn lemma_place_split(k: int, nsat: int, nsig: int)
    requires
        0 <= k < nsat * nsig,
        nsat >= 0,
        nsig >= 0,
    ensures
        nsig > 0,
        0 <= k / nsig < nsat,
        0 <= k % nsig < nsig,
{
    assert(nsig > 0) by (nonlinear_arith)
        requires
            0 <= k < nsat * nsig,
            nsig >= 0,
    ;
    assert(0 <= k / nsig < nsat && 0 <= k % nsig < nsig) by (nonlinear_arith)
        requires
            0 <= k < nsat * nsig,
            nsig > 0,
    ;
}

// ---- metadata messages ----

/// `n` bytes from bit `pos` on.
pub open spec fn byte_list(d: Seq<u8>, pos: int, n: int) -> Seq<u8> {
    Seq::new(n as nat, |i: int| field(d, pos + i * 8, 8) as u8)
}

/// `b` without the NULs and spaces at its end.
pub open spec fn unpadded(b: Seq<u8>) -> Seq<u8>
    decreases b.len(),
{
    if b.len() > 0 && (b.last() == 0 || b.last() == 0x20) {
        unpadded(b.drop_last())
    } else {
        b
    }
}

/// Trims trailing spaces and NULs from the bytes of a text.
pub fn clean_ascii(b: &[u8]) -> (r: String)
    ensures
        r@ == lossy_text(unpadded(b@)),
{
    let mut n: usize = b.len();
    assert(b@.take(n as int) =~= b@);
    while n > 0 && (b[n - 1] == 0 || b[n - 1] == 0x20)
        invariant
            n <= b@.len(),
            unpadded(b@) == unpadded(b@.take(n as int)),
        decreases n,
    {
        assert(b@.take(n as int).drop_last() =~= b@.take(n - 1));
        n -= 1;
    }
    let t = slice_subrange(b, 0, n);
    assert(t@ =~= b@.take(n as int));
    text_of(t)
}

/// Reads a text of `n` bytes.
fn read_ascii(r: &mut BitReader<'_>, n: usize) -> (s: String)
    requires
        n <= 255,
        old(r).bitpos + 8 * 256 <= usize::MAX,
    ensures
        s@ == lossy_text(unpadded(byte_list(old(r).data@, old(r).bitpos as int, n as int))),
        final(r).data@ == old(r).data@,
        final(r).bitpos == old(r).bitpos + 8 * n,
{
    let mut bytes: Vec<u8> = Vec::new();
    let mut i: usize = 0;
    let ghost d = r.data@;
    let ghost start = r.bitpos as int;
    while i < n
        invariant
            i <= n <= 255,
            start + 8 * 256 <= usize::MAX,
            r.data@ == d,
            r.bitpos == start + 8 * i,
            bytes@ == byte_list(d, start, i as int),
        decreases n - i,
    {
        proof {
            lemma_field_bounds(d, start + i * 8, 8);
            lemma_pow2_values();
        }
        bytes.push(r.u(8) as u8);
        i += 1;
        assert(bytes@ =~= byte_list(d, start, i as int));
    }
    clean_ascii(bytes.as_slice())
}

/// The station number of a message: bits 12 to 23.
pub open spec fn station_of(p: Seq<u8>) -> int {
    field(p, 12, 12)
}

/// The text whose length stands in the byte at bit `pos`.
pub open spec fn text_at(p: Seq<u8>, pos: int) -> Seq<char> {
    lossy_text(unpadded(byte_list(p, pos + 8, field(p, pos, 8))))
}

/// The first bit behind the text whose length stands in the byte at bit `pos`.
pub open spec fn text_end(p: Seq<u8>, pos: int) -> int {
    pos + 8 + 8 * field(p, pos, 8)
}

/// The coordinates of a station position message, in tenths of a millimetre.
pub open spec fn position_of(p: Seq<u8>) -> [i64; 3] {
    [
        signed_field(p, 34, 38) as i64,
        signed_field(p, 74, 38) as i64,
        signed_field(p, 114, 38) as i64,
    ]
}

fn read_text(r: &mut BitReader<'_>) -> (s: String)
    requires
        old(r).bitpos + 8 * 512 <= usize::MAX,
    ensures
        s@ == text_at(old(r).data@, old(r).bitpos as int),
        final(r).data@ == old(r).data@,
        final(r).bitpos == text_end(old(r).data@, old(r).bitpos as int),
        final(r).bitpos <= old(r).bitpos + 8 * 256,
{
    proof {
        lemma_field_bounds(r.data@, r.bitpos as int, 8);
        lemma_pow2_values();
    }
    let n: usize = r.u(8) as usize;
    read_ascii(r, n)
}

/// Reads past the message number and returns the station number.
fn skip_header(r: &mut BitReader<'_>) -> (station: u16)
    requires
        old(r).bitpos == 0,
    ensures
        station == station_of(old(r).data@),
        final(r).data@ == old(r).data@,
        final(r).bitpos == 24,
{
    let _number: u64 = r.u(12);
    proof {
        lemma_field_bounds(r.data@, 12, 12);
        lemma2_to64();
    }
    r.u(12) as u16
}

/// What a decoded message must be for the payload `p` of message number `mt`.
pub open spec fn decoded(mt: int, p: Seq<u8>, m: Message<i64>) -> bool {
    if mt == 1005 {
        m matches Message::Position { station, position } && station == station_of(p) && position@
            == position_of(p)@
    } else if mt == 1006 {
        m matches Message::PositionHeight { station, position, delta } && station == station_of(p)
            && position@ == position_of(p)@ && delta@ == [field(p, 152, 16) as i64, 0, 0]@
    } else if mt == 1007 {
        m matches Message::Antenna { station, descriptor, serial } && station == station_of(p)
            && descriptor@ == text_at(p, 24) && serial@.len() == 0
    } else if mt == 1008 {
        m matches Message::Antenna { station, descriptor, serial } && station == station_of(p)
            && descriptor@ == text_at(p, 24) && serial@ == text_at(p, text_end(p, 24) + 8)
    } else if mt == 1013 {
        m matches Message::SystemParameters { station, leap } && station == station_of(p) && leap
            == Some(field(p, 62, 8) as u8)
    } else if mt == 1033 {
        let a = text_end(p, 24) + 8;
        let b = text_end(p, a);
        let c = text_end(p, b);
        let d = text_end(p, c);
        m matches Message::Equipment {
            station,
            antenna,
            antenna_serial,
            receiver,
            firmware,
            receiver_serial,
        } && station == station_of(p) && antenna@ == text_at(p, 24) && antenna_serial@ == text_at(
            p,
            a,
        ) && receiver@ == text_at(p, b) && firmware@ == text_at(p, c) && receiver_serial@
            == text_at(p, d)
    } else if mt == 1230 {
        m matches Message::Station { station } && station == station_of(p)
    } else if is_msm7(mt) && gnss_of_message(mt) is Some && msm_complete(p) {
        exists|x: Msm7| #[trigger] msm7_in(p, x) && x.wf() && msm_decoded(mt, x, m)
    } else {
        m is Other
    }
}

/// The observation message of an MSM7.
pub open spec fn msm_decoded(mt: int, x: Msm7, m: Message<i64>) -> bool {
    let g = gnss_of_message(mt)->0;
    m matches Message::Msm { gnss, epoch, sats, sigs } && gnss == g && epoch == x.epoch_time
        && sats@ == Seq::new(x.sats@.len(), |i: int| sat_data(x, g, i)) && sigs@ == sig_list(
        x,
        g,
        (x.sats@.len() * x.sigs@.len()) as int,
    )
}

fn read_position(r: &mut BitReader<'_>) -> (v: [i64; 3])
    requires
        old(r).bitpos == 24,
    ensures
        v@ == position_of(old(r).data@)@,
        final(r).data@ == old(r).data@,
        final(r).bitpos == 152,
{
    let _flags: u64 = r.u(10);
    let x: i64 = r.i(38);
    let _flags2: u64 = r.u(2);
    let y: i64 = r.i(38);
    let _flags3: u64 = r.u(2);
    let z: i64 = r.i(38);
    let v = [x, y, z];
    assert(v@ =~= position_of(r.data@)@);
    v
}

/// Decodes the payload of a message that tells the position of the station.
pub fn parse_1005(payload: &[u8]) -> (m: Message<i64>)
    ensures
        decoded(1005, payload@, m),
{
    let mut r = BitReader::new(payload);
    let station: u16 = skip_header(&mut r);
    let position = read_position(&mut r);
    Message::Position { station, position }
}

/// Decodes the payload of a message that tells the position of the station and
/// the height of its antenna.
pub fn parse_1006(payload: &[u8]) -> (m: Message<i64>)
    ensures
        decoded(1006, payload@, m),
{
    let mut r = BitReader::new(payload);
    let station: u16 = skip_header(&mut r);
    let position = read_position(&mut r);
    proof {
        lemma_field_bounds(payload@, 152, 16);
        lemma2_to64();
    }
    let height: u64 = r.u(16);
    let delta = [height as i64, 0, 0];
    Message::PositionHeight { station, position, delta }
}

/// Decodes the payload of a message that describes the antenna.
pub fn parse_1007(payload: &[u8]) -> (m: Message<i64>)
    ensures
        decoded(1007, payload@, m),
{
    let mut r = BitReader::new(payload);
    let station: u16 = skip_header(&mut r);
    let descriptor = read_text(&mut r);
    Message::Antenna { station, descriptor, serial: String::new() }
}

/// Decodes the payload of a message that describes the antenna and tells its
/// serial number.
pub fn parse_1008(payload: &[u8]) -> (m: Message<i64>)
    ensures
        decoded(1008, payload@, m),
{
    let mut r = BitReader::new(payload);
    let station: u16 = skip_header(&mut r);
    let descriptor = read_text(&mut r);
    let _setup: u64 = r.u(8);
    let serial = read_text(&mut r);
    Message::Antenna { station, descriptor, serial }
}

/// Decodes the payload of a message that describes antenna and receiver.
pub fn parse_1033(payload: &[u8]) -> (m: Message<i64>)
    ensures
        decoded(1033, payload@, m),
{
    let mut r = BitReader::new(payload);
    let station: u16 = skip_header(&mut r);
    let antenna = read_text(&mut r);
    let _setup: u64 = r.u(8);
    let antenna_serial = read_text(&mut r);
    let receiver = read_text(&mut r);
    let firmware = read_text(&mut r);
    let receiver_serial = read_text(&mut r);
    Message::Equipment { station, antenna, antenna_serial, receiver, firmware, receiver_serial }
}

/// Decodes the payload of a message with system parameters.
pub fn parse_1013(payload: &[u8]) -> (m: Message<i64>)
    ensures
        decoded(1013, payload@, m),
{
    let mut r = BitReader::new(payload);
    let station: u16 = skip_header(&mut r);
    let _skipped: u64 = r.u(38);
    proof {
        lemma_field_bounds(payload@, 62, 8);
        lemma_pow2_values();
    }
    let leap: u8 = r.u(8) as u8;
    Message::SystemParameters { station, leap: Some(leap) }
}

/// Decodes the payload of a message of which only the station is kept.
pub fn parse_1230(payload: &[u8]) -> (m: Message<i64>)
    ensures
        decoded(1230, payload@, m),
{
    let mut r = BitReader::new(payload);
    let station: u16 = skip_header(&mut r);
    Message::Station { station }
}

/// The payload of a frame: what lies between its header and its check sum.
pub fn payload_of(frame: &[u8]) -> (r: &[u8])
    requires
        frame@.len() >= 6,
    ensures
        r@ == frame@.subrange(3, frame@.len() - 3),
{
    slice_subrange(frame, 3, frame.len() - 3)
}

/// Decodes an RTCM frame into the integers that stand in it.
pub fn parse_msg(frame: &[u8]) -> (m: Message<i64>)
    requires
        frame@.len() >= 6,
    ensures
        decoded(msg_type(frame@), frame@.subrange(3, frame@.len() - 3), m),
{
    let mt: u16 = extract_msg_type(frame);
    let payload = payload_of(frame);
    match mt {
        1005 => parse_1005(payload),
        1006 => parse_1006(payload),
        1007 => parse_1007(payload),
        1008 => parse_1008(payload),
        1013 => parse_1013(payload),
        1033 => parse_1033(payload),
        1230 => parse_1230(payload),
        _ => {
            if mt < 1071 || mt > 1137 || mt % 10 != 7 {
                return Message::Other;
            }
            match (Gnss::from_msg_num(mt), parse_msm7(mt, payload)) {
                (Some(gnss), Some(x)) => {
                    let sats = x.satellites(gnss);
                    let sigs = x.signals(gnss);
                    let m = Message::Msm { gnss, epoch: x.epoch_time, sats, sigs };
                    assert(msm7_in(payload@, x) && x.wf() && msm_decoded(mt as int, x, m));
                    m
                },
                _ => Message::Other,
            }
        },
    }
}

/// Every MSM7 message number has its system, and no two have the same.
pub proof fn lemma_msm7_systems(a: int, b: int)
    requires
        is_msm7(a),
        is_msm7(b),
    ensures
        gnss_of_message(a) is Some,
        gnss_of_message(a) == gnss_of_message(b) ==> a == b,
{
}

} // verus!
