//! Where the fields of an MSM7 stand in its bits, and which cell each of its signals takes its
//! values from.

use crate::msm::{
    bit, byte_list, field, lemma_mask_bit, mask_bit, msm7_in, msm_cells, msm_places, parse_msg,
    parse_msm7, position_of, sat_data, set_places, sig_data, sig_list, signal_of, signed_field,
    text_at, text_end, Msm7,
};
use crate::rtcm::{Message, SatData, SigData};
use crate::rtcm_time::Gnss;
use crate::text::lossy_text;
use vstd::arithmetic::power2::{lemma2_to64, lemma_pow2_adds, lemma_pow2_unfold, pow2};
use vstd::prelude::*;

verus! {

// ---- bits ----

/// Bit `i` of a message, the highest of each byte first.
pub open spec fn told_bit(p: Seq<u8>, i: int) -> int {
    let x = p[i / 8] as int;
    let k = i % 8;
    if k == 0 {
        x / 128
    } else if k == 1 {
        x / 64 % 2
    } else if k == 2 {
        x / 32 % 2
    } else if k == 3 {
        x / 16 % 2
    } else if k == 4 {
        x / 8 % 2
    } else if k == 5 {
        x / 4 % 2
    } else if k == 6 {
        x / 2 % 2
    } else {
        x % 2
    }
}

/// The number in `n` bits of a message, the highest first.
pub open spec fn number_at(p: Seq<u8>, pos: int, n: int) -> int
    decreases n,
{
    if n <= 0 {
        0
    } else {
        2 * number_at(p, pos, n - 1) + told_bit(p, pos + n - 1)
    }
}

/// The number in two's complement in `n` bits of a message.
pub open spec fn signed_at(p: Seq<u8>, pos: int, n: int) -> int {
    if told_bit(p, pos) == 1 {
        number_at(p, pos, n) - pow2(n as nat)
    } else {
        number_at(p, pos, n)
    }
}

/// How many of `n` bits of a message are 1.
pub open spec fn ones_at(p: Seq<u8>, pos: int, n: int) -> int
    decreases n,
{
    if n <= 0 {
        0
    } else {
        ones_at(p, pos, n - 1) + told_bit(p, pos + n - 1)
    }
}

proof fn lemma_bit(p: Seq<u8>, i: int)
    requires
        0 <= i < 8 * p.len(),
    ensures
        bit(p, i) == told_bit(p, i),
        told_bit(p, i) == 0 || told_bit(p, i) == 1,
{
    let x = p[i / 8];
    let s = (7 - i % 8) as u8;
    assert(s <= 7);
    assert(s == 0 ==> (x >> s) & 1u8 == x % 2) by (bit_vector);
    assert(s == 1 ==> (x >> s) & 1u8 == x / 2 % 2) by (bit_vector);
    assert(s == 2 ==> (x >> s) & 1u8 == x / 4 % 2) by (bit_vector);
    assert(s == 3 ==> (x >> s) & 1u8 == x / 8 % 2) by (bit_vector);
    assert(s == 4 ==> (x >> s) & 1u8 == x / 16 % 2) by (bit_vector);
    assert(s == 5 ==> (x >> s) & 1u8 == x / 32 % 2) by (bit_vector);
    assert(s == 6 ==> (x >> s) & 1u8 == x / 64 % 2) by (bit_vector);
    assert(s == 7 ==> (x >> s) & 1u8 == x / 128) by (bit_vector);
}

proof fn lemma_number(p: Seq<u8>, pos: int, n: int)
    requires
        0 <= pos,
        0 <= n,
        pos + n <= 8 * p.len(),
    ensures
        field(p, pos, n) == number_at(p, pos, n),
        0 <= number_at(p, pos, n) < pow2(n as nat),
        n > 0 ==> (number_at(p, pos, n) >= pow2((n - 1) as nat) <==> told_bit(p, pos) == 1),
    decreases n,
{
    lemma2_to64();
    if n > 0 {
        lemma_number(p, pos, n - 1);
        lemma_bit(p, pos + n - 1);
        lemma_pow2_unfold(n as nat);
        if n > 1 {
            lemma_pow2_unfold((n - 1) as nat);
        }
    }
}

proof fn lemma_signed(p: Seq<u8>, pos: int, n: int)
    requires
        0 <= pos,
        0 < n,
        pos + n <= 8 * p.len(),
    ensures
        signed_field(p, pos, n) == signed_at(p, pos, n),
        -pow2((n - 1) as nat) <= signed_at(p, pos, n) < pow2((n - 1) as nat),
{
    lemma_number(p, pos, n);
    lemma_pow2_unfold(n as nat);
}

// ---- masks ----

/// Whether a list holds the numbers, counted from 1, of the bits that are 1, in order.
pub open spec fn lists_ones(list: Seq<u8>, p: Seq<u8>, pos: int, n: int) -> bool {
    &&& forall|i: int| 0 <= i < list.len() ==> 1 <= #[trigger] list[i] <= n
    &&& forall|i: int, j: int| 0 <= i < j < list.len() ==> #[trigger] list[i] < #[trigger] list[j]
    &&& forall|k: u8| 1 <= k <= n ==> (#[trigger] list.contains(k) <==> told_bit(p, pos + k - 1) == 1)
}

proof fn lemma_places(p: Seq<u8>, pos: int, width: int, n: int)
    requires
        0 <= pos,
        0 <= n <= width <= 64,
        pos + width <= 8 * p.len(),
    ensures
        lists_ones(set_places(field(p, pos, width), width, n), p, pos, n),
        set_places(field(p, pos, width), width, n).len() == ones_at(p, pos, n),
    decreases n,
{
    if n > 0 {
        lemma_places(p, pos, width, n - 1);
        lemma_mask_bit(p, pos, width, n - 1);
        lemma_bit(p, pos + n - 1);
        let mask = field(p, pos, width);
        let before = set_places(mask, width, n - 1);
        let list = set_places(mask, width, n);
        let last = n as u8;
        assert forall|k: u8| 1 <= k <= n implies (#[trigger] list.contains(k) <==> told_bit(
            p,
            pos + k - 1,
        ) == 1) by {
            if k < n {
                assert(before.contains(k) <==> told_bit(p, pos + k - 1) == 1);
                if before.contains(k) {
                    let i = choose|i: int| 0 <= i < before.len() && before[i] == k;
                    assert(list[i] == k);
                }
                if list.contains(k) {
                    let i = choose|i: int| 0 <= i < list.len() && list[i] == k;
                    assert(before[i] == k);
                }
            } else {
                if mask_bit(mask, width, n - 1) {
                    assert(list[before.len() as int] == last);
                } else {
                    assert(!before.contains(k)) by {
                        if before.contains(k) {
                            let i = choose|i: int| 0 <= i < before.len() && before[i] == k;
                            assert(before[i] <= n - 1);
                        }
                    }
                }
            }
        }
    }
}

// ---- layout ----

/// Whether satellite `i` has its fields: all whole ranges stand first, then the other
/// information, the fractions and the rates.
pub open spec fn sat_fields(p: Seq<u8>, m: Msm7, i: int) -> bool {
    let n = m.sats@.len() as int;
    let at = 169 + m.sats@.len() * m.sigs@.len();
    &&& m.range_int@[i] == number_at(p, at + 8 * i, 8)
    &&& m.ext_info@[i] == number_at(p, at + 8 * n + 4 * i, 4)
    &&& m.range_mod@[i] == number_at(p, at + 12 * n + 10 * i, 10)
    &&& m.sat_phase_rate@[i] == signed_at(p, at + 22 * n + 14 * i, 14)
}

/// Whether cell `j` has its fields: all ranges stand first, then the phases, the lock times, the
/// ambiguities, the strengths and the rates.
pub open spec fn cell_fields(p: Seq<u8>, m: Msm7, c: int, j: int) -> bool {
    let at = 169 + m.sats@.len() * m.sigs@.len() + 36 * m.sats@.len();
    &&& m.pseudorange@[j] == signed_at(p, at + 20 * j, 20)
    &&& m.phase_range@[j] == signed_at(p, at + 20 * c + 24 * j, 24)
    &&& m.lock_time@[j] == number_at(p, at + 44 * c + 10 * j, 10)
    &&& m.half_cycle@[j] == number_at(p, at + 54 * c + j, 1)
    &&& m.cnr@[j] == number_at(p, at + 55 * c + 10 * j, 10)
    &&& m.sig_phase_rate@[j] == signed_at(p, at + 65 * c + 15 * j, 15)
}

proof fn lemma_widths()
    ensures
        pow2(1) == 2,
        pow2(4) == 16,
        pow2(8) == 256,
        pow2(10) == 1024,
        pow2(13) == 8192,
        pow2(14) == 16_384,
        pow2(19) == 524_288,
        pow2(23) == 8_388_608,
{
    lemma2_to64();
}

proof fn lemma_sat_fields(p: Seq<u8>, m: Msm7, i: int)
    requires
        msm7_in(p, m),
        0 <= i < m.sats@.len(),
        169 + m.sats@.len() * m.sigs@.len() + 36 * m.sats@.len() <= 8 * p.len(),
        0 <= m.sats@.len() * m.sigs@.len(),
    ensures
        sat_fields(p, m, i),
{
    let n = m.sats@.len() as int;
    let at = 169 + m.sats@.len() * m.sigs@.len();
    lemma_widths();
    lemma_number(p, at + 8 * i, 8);
    lemma_number(p, at + 8 * n + 4 * i, 4);
    lemma_number(p, at + 12 * n + 10 * i, 10);
    lemma_signed(p, at + 22 * n + 14 * i, 14);
}

proof fn lemma_cell_fields(p: Seq<u8>, m: Msm7, c: int, j: int)
    requires
        msm7_in(p, m),
        c == msm_cells(p).len(),
        0 <= j < c,
        169 + m.sats@.len() * m.sigs@.len() + 36 * m.sats@.len() + 80 * c <= 8 * p.len(),
        0 <= m.sats@.len() * m.sigs@.len(),
    ensures
        cell_fields(p, m, c, j),
{
    let at = 169 + m.sats@.len() * m.sigs@.len() + 36 * m.sats@.len();
    lemma_widths();
    lemma_signed(p, at + 20 * j, 20);
    lemma_signed(p, at + 20 * c + 24 * j, 24);
    lemma_number(p, at + 44 * c + 10 * j, 10);
    lemma_number(p, at + 54 * c + j, 1);
    lemma_number(p, at + 55 * c + 10 * j, 10);
    lemma_signed(p, at + 65 * c + 15 * j, 15);
}

/// The fields of an MSM7 stand where its masks put them.
pub proof fn lemma_msm_layout(mt: u16, payload: &[u8], r: Option<Msm7>)
    requires
        call_ensures(parse_msm7, (mt, payload), r),
        8 * payload@.len() >= 169,
    ensures
        r matches Some(m) ==> m.sats@.len() > 0 ==> {
            let p = payload@;
            let places = (m.sats@.len() * m.sigs@.len()) as int;
            let c = ones_at(p, 169, places);
            &&& m.msg_num == mt && m.epoch_time == number_at(p, 24, 30)
            &&& lists_ones(m.sats@, p, 73, 64)
            &&& lists_ones(m.sigs@, p, 137, 32)
            &&& m.cell_mask == number_at(p, 169, places)
            &&& m.pseudorange@.len() == c && m.phase_range@.len() == c && m.lock_time@.len() == c
            &&& m.half_cycle@.len() == c && m.cnr@.len() == c && m.sig_phase_rate@.len() == c
            &&& forall|i: int| 0 <= i < m.sats@.len() ==> #[trigger] sat_fields(p, m, i)
            &&& forall|j: int| 0 <= j < c ==> #[trigger] cell_fields(p, m, c, j)
        },
{
    if let Some(m) = r {
        let p = payload@;
        lemma_number(p, 24, 30);
        lemma_places(p, 73, 64, 64);
        lemma_places(p, 137, 32, 32);
        let places = msm_places(p);
        if m.sats@.len() > 0 {
            assert(0 <= m.sats@.len() * m.sigs@.len()) by (nonlinear_arith);
            assert(places == m.sats@.len() * m.sigs@.len());
            lemma_number(p, 169, places);
            lemma_places(p, 169, places, places);
            let c = msm_cells(p).len() as int;
            assert forall|i: int| 0 <= i < m.sats@.len() implies #[trigger] sat_fields(p, m, i) by {
                lemma_sat_fields(p, m, i);
            }
            assert forall|j: int| 0 <= j < c implies #[trigger] cell_fields(p, m, c, j) by {
                lemma_cell_fields(p, m, c, j);
            }
        }
    }
}

// ---- satellites and signals ----

/// Whether a value that may be missing is this one, which stands for none where it is `none`.
pub open spec fn stands_for(x: Option<i64>, v: int, none: int) -> bool {
    if v == none {
        x is None
    } else {
        x matches Some(w) && w == v
    }
}

/// Whether a satellite has its own fields.
pub open spec fn is_sat(m: Msm7, gnss: Gnss, i: int, s: SatData<i64>) -> bool {
    &&& s.satellite_id == m.sats@[i]
    &&& m.range_int@[i] == 255 ==> s.range_int is None
    &&& m.range_int@[i] < 255 ==> (s.range_int matches Some(x) && x == m.range_int@[i])
    &&& s.range_mod == m.range_mod@[i]
    &&& m.sat_phase_rate@[i] == -8192 ==> s.phase_rate is None
    &&& m.sat_phase_rate@[i] > -8192 ==> (s.phase_rate matches Some(x) && x
        == m.sat_phase_rate@[i])
    &&& (gnss is Glonass && m.ext_info@[i] <= 13) ==> (s.glo_channel matches Some(x) && x + 7
        == m.ext_info@[i])
    &&& !(gnss is Glonass && m.ext_info@[i] <= 13) ==> s.glo_channel is None
}

/// Every satellite of an MSM7 comes, in order, with its own fields.
pub proof fn lemma_satellites(m: &Msm7, gnss: Gnss, r: Vec<SatData<i64>>)
    requires
        m.wf(),
        call_ensures(Msm7::satellites, (m, gnss), r),
    ensures
        r@.len() == m.sats@.len(),
        forall|i: int| 0 <= i < r@.len() ==> is_sat(*m, gnss, i, #[trigger] r@[i]),
{
    assert forall|i: int| 0 <= i < r@.len() implies is_sat(*m, gnss, i, #[trigger] r@[i]) by {
        assert(m.range_int@[i] < 256 && m.range_mod@[i] < 1024 && m.ext_info@[i] < 16);
        assert(-8192 <= m.sat_phase_rate@[i] < 8192);
        assert(r@[i] == sat_data(*m, gnss, i));
    }
}

/// Whether place `k` of a mask is set, the highest bit first.
pub open spec fn is_set(mask: int, width: int, k: int) -> bool {
    (mask / pow2((width - 1 - k) as nat) as int) % 2 == 1
}

/// How many of the first `k` places of a mask are set.
pub open spec fn set_before(mask: int, width: int, k: int) -> int
    decreases k,
{
    if k <= 0 {
        0
    } else {
        set_before(mask, width, k - 1) + (if is_set(mask, width, k - 1) {
            1int
        } else {
            0int
        })
    }
}

/// The number of places in the cell mask of a message.
pub open spec fn places_of(m: Msm7) -> int {
    (m.sats@.len() * m.sigs@.len()) as int
}

/// Whether a signal is that of place `k`: of the satellite and signal that meet there, with the
/// values of the cell whose number is that of the places set before.
pub open spec fn is_signal(m: Msm7, gnss: Gnss, k: int, s: SigData<i64>) -> bool {
    let n = m.sigs@.len() as int;
    let c = set_before(m.cell_mask as int, places_of(m), k);
    &&& 0 <= k < places_of(m) && is_set(m.cell_mask as int, places_of(m), k)
    &&& s.satellite_id == m.sats@[k / n]
    &&& signal_of(gnss, m.sigs@[k % n]) matches Some(g) && s.band + 0x30 == g@[0] && s.attribute
        == g@[1]
    &&& stands_for(s.pseudorange, m.pseudorange@[c] as int, -524_288)
    &&& stands_for(s.phase_range, m.phase_range@[c] as int, -8_388_608)
    &&& stands_for(s.phase_rate, m.sig_phase_rate@[c] as int, -16_384)
    &&& stands_for(s.cnr, m.cnr@[c] as int, 0)
    &&& s.lock == m.lock_time@[c]
    &&& s.half_cycle == (m.half_cycle@[c] != 0)
}

/// Whether signals are those of the places among the first `n` that are set and whose signal
/// is known: one for each, in order.
pub open spec fn are_signals(
    m: Msm7,
    gnss: Gnss,
    n: int,
    ks: Seq<int>,
    ss: Seq<SigData<i64>>,
) -> bool {
    &&& ks.len() == ss.len()
    &&& forall|q: int| 0 <= q < ss.len() ==> is_signal(m, gnss, ks[q], #[trigger] ss[q])
    &&& forall|q: int| 0 <= q < ks.len() ==> 0 <= #[trigger] ks[q] < n
    &&& forall|a: int, b: int| 0 <= a < b < ks.len() ==> #[trigger] ks[a] < #[trigger] ks[b]
    &&& forall|k: int|
        0 <= k < n && #[trigger] is_set(m.cell_mask as int, places_of(m), k) && signal_of(
            gnss,
            m.sigs@[k % m.sigs@.len() as int],
        ) is Some ==> ks.contains(k)
}

proof fn lemma_set_before(mask: int, width: int, k: int)
    ensures
        set_places(mask, width, k).len() == set_before(mask, width, k),
    decreases k,
{
    if k > 0 {
        lemma_set_before(mask, width, k - 1);
    }
}

proof fn lemma_set_grows(mask: int, width: int, a: int, b: int)
    requires
        0 <= a <= b,
    ensures
        0 <= set_before(mask, width, a) <= set_before(mask, width, b),
    decreases b,
{
    if a < b {
        lemma_set_grows(mask, width, a, b - 1);
    } else if a > 0 {
        lemma_set_grows(mask, width, a - 1, b - 1);
    }
}

proof fn lemma_signals_to(m: Msm7, gnss: Gnss, n: int) -> (ks: Seq<int>)
    requires
        m.wf(),
        0 <= n <= places_of(m),
    ensures
        are_signals(m, gnss, n, ks, sig_list(m, gnss, n)),
    decreases n,
{
    if n == 0 {
        Seq::empty()
    } else {
        let before = lemma_signals_to(m, gnss, n - 1);
        let k = n - 1;
        let mask = m.cell_mask as int;
        let width = places_of(m);
        let g = m.sigs@.len() as int;
        let c = set_before(mask, width, k);
        lemma_set_before(mask, width, k);
        lemma_set_before(mask, width, width);
        lemma_set_grows(mask, width, n, width);
        lemma_set_grows(mask, width, k, n);
        let old_list = sig_list(m, gnss, k);
        let list = sig_list(m, gnss, n);
        if mask_bit(mask, width, k) && signal_of(gnss, m.sigs@[k % g]) is Some {
            assert(is_set(mask, width, k));
            assert(m.lock_time@[c] < 1024 && m.cnr@[c] < 1024);
            let sig = signal_of(gnss, m.sigs@[k % g])->0;
            let s = sig_data(m, c, m.sats@[k / g], sig);
            assert(0x31 <= sig@[0] <= 0x39);
            assert(is_signal(m, gnss, k, s));
            let ks = before.push(k);
            assert(list == old_list.push(s));
            assert forall|j: int|
                0 <= j < n && #[trigger] is_set(mask, width, j) && signal_of(
                    gnss,
                    m.sigs@[j % g],
                ) is Some implies ks.contains(j) by {
                if j < k {
                    let q = choose|q: int| 0 <= q < before.len() && before[q] == j;
                    assert(ks[q] == j);
                } else {
                    assert(ks[before.len() as int] == j);
                }
            }
            ks
        } else {
            assert(list == old_list);
            before
        }
    }
}

/// Every cell of an MSM7 whose signal is known comes, in order, with its own values.
pub proof fn lemma_signals(m: &Msm7, gnss: Gnss, r: Vec<SigData<i64>>)
    requires
        m.wf(),
        call_ensures(Msm7::signals, (m, gnss), r),
    ensures
        exists|ks: Seq<int>| #[trigger] are_signals(*m, gnss, places_of(*m), ks, r@),
{
    let ks = lemma_signals_to(*m, gnss, places_of(*m));
    assert(are_signals(*m, gnss, places_of(*m), ks, r@));
}

/// Whether two messages have the same masks, and the same values in every cell but `j`.
pub open spec fn same_but(a: Msm7, b: Msm7, j: int) -> bool {
    &&& a.sats@ == b.sats@ && a.sigs@ == b.sigs@ && a.cell_mask == b.cell_mask
    &&& forall|c: int| c != j ==> #[trigger] a.pseudorange@[c] == b.pseudorange@[c]
    &&& forall|c: int| c != j ==> #[trigger] a.phase_range@[c] == b.phase_range@[c]
    &&& forall|c: int| c != j ==> #[trigger] a.sig_phase_rate@[c] == b.sig_phase_rate@[c]
    &&& forall|c: int| c != j ==> #[trigger] a.lock_time@[c] == b.lock_time@[c]
    &&& forall|c: int| c != j ==> #[trigger] a.half_cycle@[c] == b.half_cycle@[c]
    &&& forall|c: int| c != j ==> #[trigger] a.cnr@[c] == b.cnr@[c]
}

/// Whether two lists differ in one place at most.
pub open spec fn same_elsewhere<T>(x: Seq<T>, y: Seq<T>, q: int) -> bool {
    x.len() == y.len() && forall|i: int| 0 <= i < x.len() && i != q ==> #[trigger] x[i] == y[i]
}

proof fn lemma_one_differs(a: Msm7, b: Msm7, gnss: Gnss, j: int, n: int) -> (q: int)
    requires
        same_but(a, b, j),
        0 <= n <= places_of(a),
    ensures
        same_elsewhere(sig_list(a, gnss, n), sig_list(b, gnss, n), q),
        set_before(a.cell_mask as int, places_of(a), n) <= j ==> q == -1,
    decreases n,
{
    if n == 0 {
        -1
    } else {
        let q = lemma_one_differs(a, b, gnss, j, n - 1);
        let mask = a.cell_mask as int;
        let width = places_of(a);
        let k = n - 1;
        let c = set_before(mask, width, k);
        lemma_set_before(mask, width, k);
        lemma_set_grows(mask, width, k, n);
        let x = sig_list(a, gnss, k);
        let y = sig_list(b, gnss, k);
        if mask_bit(mask, width, k) {
            assert(is_set(mask, width, k));
            if c == j {
                x.len() as int
            } else {
                assert(a.pseudorange@[c] == b.pseudorange@[c]);
                assert(a.phase_range@[c] == b.phase_range@[c]);
                assert(a.sig_phase_rate@[c] == b.sig_phase_rate@[c]);
                assert(a.lock_time@[c] == b.lock_time@[c]);
                assert(a.half_cycle@[c] == b.half_cycle@[c]);
                assert(a.cnr@[c] == b.cnr@[c]);
                q
            }
        } else {
            q
        }
    }
}

/// Messages that differ in one cell give signals that differ in one place at most.
pub proof fn lemma_cells_are_separate(
    a: &Msm7,
    b: &Msm7,
    gnss: Gnss,
    j: int,
    ra: Vec<SigData<i64>>,
    rb: Vec<SigData<i64>>,
)
    requires
        same_but(*a, *b, j),
        call_ensures(Msm7::signals, (a, gnss), ra),
        call_ensures(Msm7::signals, (b, gnss), rb),
    ensures
        exists|q: int| #[trigger] same_elsewhere(ra@, rb@, q),
{
    assert(0 <= places_of(*a)) by (nonlinear_arith);
    let q = lemma_one_differs(*a, *b, gnss, j, places_of(*a));
    assert(same_elsewhere(ra@, rb@, q));
}

/// No two places of the signal mask of a system have the same name.
pub proof fn lemma_names_differ(gnss: Gnss, i: u8, j: u8)
    requires
        i != j,
        signal_of(gnss, i) is Some,
        signal_of(gnss, j) is Some,
    ensures
        signal_of(gnss, i)->0 != signal_of(gnss, j)->0,
{
    let x = signal_of(gnss, i)->0;
    let y = signal_of(gnss, j)->0;
    assert(x@[0] != y@[0] || x@[1] != y@[1]);
}

// ---- messages about the station ----

/// The bytes of the text whose length stands in byte `k`.
pub open spec fn text_in(p: Seq<u8>, k: int) -> Seq<u8> {
    p.subrange(k + 1, k + 1 + p[k])
}

/// The byte behind the text whose length stands in byte `k`.
pub open spec fn behind(p: Seq<u8>, k: int) -> int {
    k + 1 + p[k]
}

/// Whether a text is that whose length stands in byte `k`, where that ends in no padding.
pub open spec fn told_text(s: Seq<char>, p: Seq<u8>, k: int) -> bool {
    behind(p, k) <= p.len() && (p[k] == 0 || (p[behind(p, k) - 1] != 0 && p[behind(p, k) - 1]
        != 0x20)) ==> s == lossy_text(text_in(p, k))
}

/// Whether a position is the one in a message, coordinate by coordinate.
pub open spec fn told_position(v: [i64; 3], p: Seq<u8>) -> bool {
    &&& v@[0] == signed_at(p, 34, 38)
    &&& v@[1] == signed_at(p, 74, 38)
    &&& v@[2] == signed_at(p, 114, 38)
}

/// The number of the station in a message: the low half of its second byte and the third.
pub open spec fn told_station(p: Seq<u8>) -> int {
    (p[1] as int % 16) * 256 + p[2]
}

proof fn lemma_told(p: Seq<u8>, k: int, i: int)
    requires
        0 <= k < p.len(),
        0 <= i < 8,
    ensures
        ({
            let x = p[k] as int;
            let b = told_bit(p, 8 * k + i);
            &&& i == 0 ==> b == x / 128
            &&& i == 1 ==> b == x / 64 % 2
            &&& i == 2 ==> b == x / 32 % 2
            &&& i == 3 ==> b == x / 16 % 2
            &&& i == 4 ==> b == x / 8 % 2
            &&& i == 5 ==> b == x / 4 % 2
            &&& i == 6 ==> b == x / 2 % 2
            &&& i == 7 ==> b == x % 2
        }),
{
    assert((8 * k + i) / 8 == k && (8 * k + i) % 8 == i);
}

proof fn lemma_next(p: Seq<u8>, pos: int, n: int)
    requires
        0 <= n,
    ensures
        number_at(p, pos, n + 1) == 2 * number_at(p, pos, n) + told_bit(p, pos + n),
{
}

proof fn lemma_halves(x: int)
    requires
        0 <= x < 256,
    ensures
        2 * (x / 128) + x / 64 % 2 == x / 64,
        2 * (x / 64) + x / 32 % 2 == x / 32,
        2 * (x / 32) + x / 16 % 2 == x / 16,
        2 * (x / 16) + x / 8 % 2 == x / 8,
        2 * (x / 8) + x / 4 % 2 == x / 4,
        2 * (x / 4) + x / 2 % 2 == x / 2,
        2 * (x / 2) + x % 2 == x,
        2 * (x / 8 % 2) + x / 4 % 2 == x / 4 % 4,
        2 * (x / 4 % 4) + x / 2 % 2 == x / 2 % 8,
        2 * (x / 2 % 8) + x % 2 == x % 16,
{
}

/// The number in bits that end with a byte.
proof fn lemma_byte_behind(p: Seq<u8>, pos: int, n: int, k: int)
    requires
        0 <= k < p.len(),
        0 <= n,
        pos + n == 8 * k,
    ensures
        number_at(p, pos, n + 8) == 256 * number_at(p, pos, n) + p[k],
{
    let x = p[k] as int;
    let v = number_at(p, pos, n);
    lemma_halves(x);
    lemma_told(p, k, 0);
    lemma_told(p, k, 1);
    lemma_told(p, k, 2);
    lemma_told(p, k, 3);
    lemma_told(p, k, 4);
    lemma_told(p, k, 5);
    lemma_told(p, k, 6);
    lemma_told(p, k, 7);
    lemma_next(p, pos, n);
    assert(number_at(p, pos, n + 1) == 2 * v + x / 128);
    lemma_next(p, pos, n + 1);
    assert(number_at(p, pos, n + 2) == 4 * v + x / 64);
    lemma_next(p, pos, n + 2);
    assert(number_at(p, pos, n + 3) == 8 * v + x / 32);
    lemma_next(p, pos, n + 3);
    assert(number_at(p, pos, n + 4) == 16 * v + x / 16);
    lemma_next(p, pos, n + 4);
    assert(number_at(p, pos, n + 5) == 32 * v + x / 8);
    lemma_next(p, pos, n + 5);
    assert(number_at(p, pos, n + 6) == 64 * v + x / 4);
    lemma_next(p, pos, n + 6);
    assert(number_at(p, pos, n + 7) == 128 * v + x / 2);
    lemma_next(p, pos, n + 7);
}

proof fn lemma_byte(p: Seq<u8>, k: int)
    requires
        0 <= k < p.len(),
    ensures
        field(p, 8 * k, 8) == p[k],
{
    lemma_number(p, 8 * k, 8);
    lemma_byte_behind(p, 8 * k, 0, k);
    assert(number_at(p, 8 * k, 0) == 0);
}

proof fn lemma_station(p: Seq<u8>)
    requires
        p.len() >= 3,
    ensures
        field(p, 12, 12) == told_station(p),
{
    let x = p[1] as int;
    lemma_number(p, 12, 12);
    lemma_halves(x);
    lemma_told(p, 1, 4);
    lemma_told(p, 1, 5);
    lemma_told(p, 1, 6);
    lemma_told(p, 1, 7);
    assert(number_at(p, 12, 0) == 0);
    lemma_next(p, 12, 0);
    assert(number_at(p, 12, 1) == x / 8 % 2);
    lemma_next(p, 12, 1);
    assert(number_at(p, 12, 2) == x / 4 % 4);
    lemma_next(p, 12, 2);
    assert(number_at(p, 12, 3) == x / 2 % 8);
    lemma_next(p, 12, 3);
    assert(number_at(p, 12, 4) == x % 16);
    lemma_byte_behind(p, 12, 4, 2);
}

proof fn lemma_text(p: Seq<u8>, k: int)
    requires
        0 <= k < p.len(),
    ensures
        told_text(text_at(p, 8 * k), p, k),
        text_end(p, 8 * k) == 8 * behind(p, k),
{
    lemma_byte(p, k);
    if behind(p, k) <= p.len() {
        let n = p[k] as int;
        let b = byte_list(p, 8 * k + 8, n);
        let t = text_in(p, k);
        assert forall|i: int| 0 <= i < n implies b[i] == t[i] by {
            lemma_byte(p, k + 1 + i);
            assert(8 * k + 8 + i * 8 == 8 * (k + 1 + i));
        }
        assert(b =~= t);
        if n > 0 {
            assert(b.last() == p[behind(p, k) - 1]);
        }
    }
}

proof fn lemma_position(p: Seq<u8>)
    requires
        8 * p.len() >= 152,
    ensures
        told_position(position_of(p), p),
{
    lemma_signed(p, 34, 38);
    lemma_signed(p, 74, 38);
    lemma_signed(p, 114, 38);
    lemma2_to64();
    lemma_pow2_adds(32, 5);
    assert(position_of(p)@ =~= seq![
        signed_field(p, 34, 38) as i64,
        signed_field(p, 74, 38) as i64,
        signed_field(p, 114, 38) as i64,
    ]);
}

/// Messages that tell the position of the station: the three coordinates, and for the second
/// the height of the antenna.
pub proof fn lemma_position_messages(frame: &[u8], m: Message<i64>, n: int)
    requires
        call_ensures(parse_msg, (frame,), m),
        frame@.len() >= 27,
        n == frame@[3] * 16 + frame@[4] as int / 16,
    ensures
        ({
            let p = frame@.subrange(3, frame@.len() - 3);
            &&& n == 1005 ==> (m matches Message::Position { station, position } && station
                == told_station(p) && told_position(position, p))
            &&& n == 1006 ==> (m matches Message::PositionHeight { station, position, delta }
                && station == told_station(p) && told_position(position, p) && delta@[0]
                == number_at(p, 152, 16) && delta@[1] == 0 && delta@[2] == 0)
            &&& n == 1013 ==> (m matches Message::SystemParameters { station, leap } && station
                == told_station(p) && (leap matches Some(l) && l == number_at(p, 62, 8)))
            &&& n == 1230 ==> (m matches Message::Station { station } && station == told_station(
                p,
            ))
        }),
{
    let p = frame@.subrange(3, frame@.len() - 3);
    lemma_station(p);
    lemma_position(p);
    lemma_number(p, 152, 16);
    lemma_number(p, 62, 8);
    lemma2_to64();
    let x = [field(p, 152, 16) as i64, 0i64, 0i64];
    assert(x@.len() == 3);
}

/// Messages that describe antenna and receiver: texts one behind the other, with the number of
/// the setup behind the first.
pub proof fn lemma_equipment_messages(frame: &[u8], m: Message<i64>, n: int)
    requires
        call_ensures(parse_msg, (frame,), m),
        frame@.len() >= 10,
        n == frame@[3] * 16 + frame@[4] as int / 16,
    ensures
        ({
            let p = frame@.subrange(3, frame@.len() - 3);
            let a = behind(p, 3) + 1;
            let b = behind(p, a);
            let c = behind(p, b);
            let d = behind(p, c);
            &&& n == 1007 ==> (m matches Message::Antenna { station, descriptor, serial } && station
                == told_station(p) && told_text(descriptor@, p, 3) && serial@.len() == 0)
            &&& n == 1008 && a < p.len() ==> (m matches Message::Antenna {
                station,
                descriptor,
                serial,
            } && station == told_station(p) && told_text(descriptor@, p, 3) && told_text(
                serial@,
                p,
                a,
            ))
            &&& n == 1033 && d < p.len() ==> (m matches Message::Equipment {
                station,
                antenna,
                antenna_serial,
                receiver,
                firmware,
                receiver_serial,
            } && station == told_station(p) && told_text(antenna@, p, 3) && told_text(
                antenna_serial@,
                p,
                a,
            ) && told_text(receiver@, p, b) && told_text(firmware@, p, c) && told_text(
                receiver_serial@,
                p,
                d,
            ))
        }),
{
    let p = frame@.subrange(3, frame@.len() - 3);
    let a = behind(p, 3) + 1;
    let b = behind(p, a);
    let c = behind(p, b);
    let d = behind(p, c);
    lemma_station(p);
    lemma_text(p, 3);
    if a < p.len() {
        lemma_text(p, a);
        if d < p.len() {
            lemma_text(p, b);
            lemma_text(p, c);
            lemma_text(p, d);
        }
    }
}

} // verus!
