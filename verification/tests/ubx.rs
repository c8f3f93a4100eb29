use obsj::obs::{SatId, SigId};
use obsj::sink::Collector;
use obsj::ubx::{
    carrier_phase, half_cycle_unresolved, rinex_sat_num, rinex_sig, rinex_sys, Converter, Meas,
    MeasNumbers, Options, Rawx, RawxNumbers, BDS, CP_VALID, GAL, GLO, GPS, HALF_CYC, NAVIC, PR_VALID, SBAS, SUB_HALF_CYC,
};
use obsj::ubx_decode::find_rawx;
use obsj::ubx_frame::{checksum, first_rawx_pos, frames, is_rawx_frame, parse_rawx};

fn converter(opts: Options) -> Converter<Collector<f64, f32>> {
    Converter::new(Collector::new(), opts)
}

fn opts() -> Options {
    Options { slip_threshold: 15, bds_geo_half_cycle: false }
}

fn base_meas() -> Meas<f64, f32> {
    Meas {
        pr_mes: Some(23_956_830.530),
        cp_mes: Some(125_893_980.172),
        cp_half: Some(125_893_980.172 + 0.5),
        do_mes: Some(0.0),
        cn0: 0.0,
        gnss_id: GPS,
        sv_id: 1,
        sig_id: 0,
        freq_id: 0,
        lock_time: 100,
        cno: 0,
        cp_stdev: 0,
        trk_stat: PR_VALID | CP_VALID | HALF_CYC,
    }
}

fn key() -> (SatId, SigId) {
    (SatId::format(b'G', 1), SigId(*b"1C"))
}

// ---- mapping tables ----

#[test]
fn rinex_sys_table() {
    assert_eq!(rinex_sys(GPS), Some(b'G'));
    assert_eq!(rinex_sys(GLO), Some(b'R'));
    assert_eq!(rinex_sys(BDS), Some(b'C'));
    assert_eq!(rinex_sys(NAVIC), Some(b'I'));
    assert_eq!(rinex_sys(99), None);
}

#[test]
fn rinex_sat_num_table() {
    // SBAS PRNs >= 120 collapse to two digits.
    assert_eq!(rinex_sat_num(SBAS, 120), 20);
    assert_eq!(rinex_sat_num(SBAS, 100), 100);
    // GLONASS 255 is "unknown".
    assert_eq!(rinex_sat_num(GLO, 255), 0);
    assert_eq!(rinex_sat_num(GLO, 5), 5);
    assert_eq!(rinex_sat_num(GPS, 3), 3);
}

#[test]
fn rinex_sig_table() {
    assert_eq!(rinex_sig(GPS, 0), Some(*b"1C"));
    assert_eq!(rinex_sig(GPS, 3), Some(*b"2L"));
    assert_eq!(rinex_sig(GPS, 99), None);
    assert_eq!(rinex_sig(GAL, 5), Some(*b"7I"));
    assert_eq!(rinex_sig(BDS, 0), Some(*b"2I"));
    assert_eq!(rinex_sig(BDS, 7), Some(*b"5P"));
    assert_eq!(rinex_sig(BDS, 8), Some(*b"5D"));
    assert_eq!(rinex_sig(BDS, 9), None); // gap in the BDS table
    assert_eq!(rinex_sig(GLO, 2), Some(*b"2C"));
    assert_eq!(rinex_sig(99, 0), None);
}

// ---- slip / loss-of-lock ----

#[test]
fn slip_unset_for_steady_valid_phase() {
    let mut c = converter(opts());
    let (sat, sig) = key();
    let (ll, hc) = c.slip_hc(sat, sig, &base_meas(), true);
    assert!(!ll && !hc);
}

#[test]
fn slip_set_on_zero_lock() {
    let mut c = converter(opts());
    let (sat, sig) = key();
    let mut m = base_meas();
    m.lock_time = 0;
    let (ll, hc) = c.slip_hc(sat, sig, &m, true);
    assert!(ll && !hc);
}

#[test]
fn slip_deferred_without_phase() {
    // No carrier phase this epoch: the slip is pending, not yet emitted.
    let mut c = converter(opts());
    let (sat, sig) = key();
    let mut m = base_meas();
    m.lock_time = 0;
    m.trk_stat = PR_VALID; // no CP_VALID
    let (ll, hc) = c.slip_hc(sat, sig, &m, false);
    assert!(!ll && !hc);
}

#[test]
fn slip_on_lock_time_decrease() {
    let mut c = converter(opts());
    let (sat, sig) = key();
    let mut m = base_meas();
    m.lock_time = 100;
    assert_eq!(c.slip_hc(sat, sig, &m, true), (false, false));
    m.lock_time = 50; // lock counter went backwards
    assert!(c.slip_hc(sat, sig, &m, true).0);
}

#[test]
fn slip_on_sub_half_cycle_change() {
    let mut c = converter(opts());
    let (sat, sig) = key();
    let m = base_meas();
    assert_eq!(c.slip_hc(sat, sig, &m, true), (false, false));
    let mut m2 = base_meas();
    m2.trk_stat |= SUB_HALF_CYC; // sub-half-cycle toggled
    assert!(c.slip_hc(sat, sig, &m2, true).0);
}

#[test]
fn slip_on_cp_stdev_threshold() {
    let (sat, sig) = key();
    // At/over threshold -> slip; below -> none.
    let mut c = converter(opts());
    let mut m = base_meas();
    m.cp_stdev = 15;
    assert!(c.slip_hc(sat, sig, &m, true).0);

    let mut c = converter(opts());
    let mut m = base_meas();
    m.cp_stdev = 14;
    assert!(!c.slip_hc(sat, sig, &m, true).0);
}

#[test]
fn half_cycle_unresolved_rules() {
    let mut m = base_meas();
    // Non-SBAS: unresolved iff the HALF_CYC bit is clear.
    m.trk_stat = PR_VALID | CP_VALID; // HALF_CYC clear
    assert!(half_cycle_unresolved(&m));
    m.trk_stat |= HALF_CYC;
    assert!(!half_cycle_unresolved(&m));
    // SBAS: unresolved while lock time is short (<= 8000).
    let mut s = base_meas();
    s.gnss_id = SBAS;
    s.lock_time = 8000;
    assert!(half_cycle_unresolved(&s));
    s.lock_time = 8001;
    assert!(!half_cycle_unresolved(&s));
}

// ---- carrier phase / BDS GEO half-cycle ----

#[test]
fn bds_geo_half_cycle_option() {
    let bds = |sv| Meas {
        cp_mes: Some(100.25),
        cp_half: Some(100.25 + 0.5),
        gnss_id: BDS,
        sv_id: sv,
        trk_stat: CP_VALID | HALF_CYC,
        ..base_meas()
    };
    // Default: GEO phase unchanged.
    assert_eq!(carrier_phase(&bds(2), false), Some(100.25));
    // Enabled: a BDS GEO (svid <= 5) gets a half-cycle added.
    assert_eq!(carrier_phase(&bds(2), true), Some(100.75));
    // Enabled: a non-GEO BDS satellite is unchanged.
    assert_eq!(carrier_phase(&bds(6), true), Some(100.25));
    // No CP_VALID -> no phase.
    let mut no_cp = bds(2);
    no_cp.trk_stat = PR_VALID;
    assert_eq!(carrier_phase(&no_cp, true), None);
}

#[test]
fn rawx_frame_recognition() {
    assert!(is_rawx_frame(&[0xB5, 0x62, 0x02, 0x15]));
    assert!(!is_rawx_frame(&[0xB5, 0x62, 0x02, 0x14])); // wrong id
    assert!(!is_rawx_frame(&[0xB5, 0x62, 0x01, 0x15])); // wrong class
    assert!(!is_rawx_frame(&[0xB5, 0x62])); // too short
}

// ---- frames and messages ----

fn framed(class: u8, id: u8, payload: &[u8]) -> Vec<u8> {
    let mut f = vec![0xB5, 0x62, class, id, payload.len() as u8, (payload.len() >> 8) as u8];
    f.extend_from_slice(payload);
    let (a, b) = checksum(&f[2..]);
    f.push(a);
    f.push(b);
    f
}

#[test]
fn fletcher_checksum() {
    assert_eq!(checksum(&[0x01, 0x07, 0x00, 0x00]), (0x08, 0x19));
}

// An RXM-RAWX frame with one measurement.
fn rawx_frame(pr: f64) -> Vec<u8> {
    let mut payload = vec![0u8; 16 + 32];
    payload[0..8].copy_from_slice(&345_600.0f64.to_le_bytes());
    payload[8..10].copy_from_slice(&2397u16.to_le_bytes());
    payload[11] = 1;
    payload[13] = 1;
    payload[16..24].copy_from_slice(&pr.to_le_bytes());
    payload[24..32].copy_from_slice(&1.5e8f64.to_le_bytes());
    payload[32..36].copy_from_slice(&(-2.5f32).to_le_bytes());
    payload[16 + 20] = GPS;
    payload[16 + 21] = 7;
    payload[16 + 24..16 + 26].copy_from_slice(&500u16.to_le_bytes());
    payload[16 + 26] = 43;
    payload[16 + 30] = PR_VALID | CP_VALID;
    framed(0x02, 0x15, &payload)
}

#[test]
fn rawx_is_found_and_read() {
    let other = framed(0x01, 0x07, &[]);
    let rawx = rawx_frame(2.5e7);
    let mut data = other.clone();
    data.extend_from_slice(&rawx);
    assert_eq!(first_rawx_pos(&data), Some(other.len()));
    let mut it = frames(&data);
    assert_eq!(it.next().unwrap(), other.as_slice());
    let f = it.next().unwrap();
    let m = parse_rawx(f).unwrap();
    assert_eq!(m.week, 2397);
    assert_eq!(f64::from_bits(m.rcv_tow), 345_600.0);
    assert_eq!(m.meas.len(), 1);
    assert_eq!(f64::from_bits(m.meas[0].pr_mes), 2.5e7);
    assert_eq!((m.meas[0].sv_id, m.meas[0].lock_time, m.meas[0].cno), (7, 500, 43));
    assert!(it.next().is_none());
}

#[test]
fn measurements_become_observations() {
    let mut c = converter(opts());
    let batch =
        [Rawx { tow_ticks: 3_456_000_000_000, week: 2397, meas: vec![base_meas()] }];
    assert!(batch[0].is_ok());
    assert_eq!(c.convert_batch(&batch).unwrap(), 1);
    let o = c.sink().obs[0];
    assert_eq!(o.t.gps_week_millis(), (2397, 345_600_000));
    assert_eq!(o.sat.as_str(), "G01");
    assert_eq!(o.sig.as_str(), "1C");
    assert_eq!(o.v.pr, Some(23_956_830.530));
    assert_eq!(o.v.cp, Some(125_893_980.172));
}

#[test]
fn unknown_satellites_give_no_observation() {
    let mut c = converter(opts());
    let mut m = base_meas();
    m.gnss_id = 99;
    let batch = [Rawx { tow_ticks: 0, week: 2397, meas: vec![m] }];
    c.convert_batch(&batch).unwrap();
    assert!(c.sink().obs.is_empty());
}

#[test]
fn a_change_of_the_half_cycle_waits_for_a_phase() {
    let mut c = converter(opts());
    let (sat, sig) = key();
    assert_eq!(c.slip_hc(sat, sig, &base_meas(), true), (false, false));
    let mut m = base_meas();
    m.trk_stat |= SUB_HALF_CYC;
    assert!(!c.slip_hc(sat, sig, &m, false).0);
    assert!(c.slip_hc(sat, sig, &m, true).0);
    assert!(!c.slip_hc(sat, sig, &m, true).0);
}

#[test]
fn messages_are_found_in_bytes() {
    let mut data = framed(0x01, 0x07, &[]);
    data.extend_from_slice(&rawx_frame(2.5e7));
    let end = data.len();
    data.extend_from_slice(&rawx_frame(2.6e7)[..30]);
    let (found, unread) = find_rawx(&data);
    assert_eq!((found.len(), unread), (1, data.len() - end));
    assert_eq!(found[0].week, 2397);
    assert_eq!(f64::from_bits(found[0].rcv_tow), 345_600.0);
    let m = found[0].meas[0];
    assert_eq!(f64::from_bits(m.pr_mes), 2.5e7);
    assert_eq!(f64::from_bits(m.cp_mes), 1.5e8);
    assert_eq!(f32::from_bits(m.do_mes), -2.5);
    assert_eq!((m.gnss_id, m.sv_id, m.sig_id, m.freq_id), (GPS, 7, 0, 0));
    assert_eq!((m.lock_time, m.cno, m.cp_stdev, m.trk_stat), (500, 43, 0, PR_VALID | CP_VALID));
}

fn quantities() -> RawxNumbers<f64, f32> {
    let meas = vec![MeasNumbers { pr: 1.0, cp: 2.0, cp_half: 2.5, dop: 3.0, cn0: 43.0 }];
    RawxNumbers { tow_ticks: 3_456_000_000_000, meas }
}

#[test]
fn a_packet_is_found_across_chunks() {
    let mut c = converter(opts());
    let frame = rawx_frame(2.5e7);
    assert!(c.messages(&frame[..20]).is_empty());
    assert_eq!(c.convert_chunk::<f64, f32>(&frame[..20], &[]).unwrap(), 0);
    assert_eq!(c.messages(&frame[20..]).len(), 1);
    assert_eq!(c.convert_chunk(&frame[20..], &[quantities()]).unwrap(), 1);
    let o = c.sink().obs[0];
    assert_eq!(o.t.gps_week_millis(), (2397, 345_600_000));
    assert_eq!(o.sat.as_str(), "G07");
    assert_eq!((o.v.pr, o.v.cp, o.v.dop, o.v.cn0), (Some(1.0), Some(2.0), Some(3.0), Some(43.0)));
    assert!(c.messages(&[]).is_empty());
}

#[test]
fn quantities_that_are_not_finite_are_left_out() {
    for pr in [f64::INFINITY, f64::NEG_INFINITY, f64::NAN] {
        let mut c = converter(opts());
        assert_eq!(c.convert_chunk(&rawx_frame(pr), &[quantities()]).unwrap(), 1);
        assert_eq!((c.sink().obs[0].v.pr, c.sink().obs[0].v.cp), (None, Some(2.0)));
    }
}

#[test]
fn quantities_must_be_those_of_the_messages() {
    let mut c = converter(opts());
    let e = c.convert_chunk::<f64, f32>(&rawx_frame(2.5e7), &[]).unwrap_err();
    assert_eq!(e.to_string(), "UBX-RXM-RAWX value out of range");
    let late = RawxNumbers { tow_ticks: i64::MAX, ..quantities() };
    assert!(c.convert_chunk(&rawx_frame(2.5e7), &[late]).is_err());
    assert!(c.sink().obs.is_empty());
}

#[test]
fn a_stream_may_be_cut_anywhere() {
    // A byte that begins no packet is passed over; a header of a long packet takes in
    // the frame after it.
    for (middle, count) in [(vec![0xb5, 0x00], 2), (vec![0xb5, 0x62, 0x00], 1)] {
        let data = [rawx_frame(2.5e7), middle, rawx_frame(2.6e7)].concat();
        let (whole, rest) = find_rawx(&data);
        assert_eq!(whole.len(), count);
        for cut in 0..=data.len() {
            let (first, unread) = find_rawx(&data[..cut]);
            let (second, left) = find_rawx(&data[cut - unread..]);
            let found: Vec<u64> = first.iter().chain(&second).map(|m| m.meas[0].pr_mes).collect();
            let all: Vec<u64> = whole.iter().map(|m| m.meas[0].pr_mes).collect();
            assert_eq!((found, left), (all, rest));
        }
    }
}

// A GLONASS channel is asked only of a satellite and a signal that are known.
#[test]
fn channels_of_unknown_satellites_do_not_matter() {
    let glonass = |sv_id, sig_id, freq_id| Meas { gnss_id: GLO, sv_id, sig_id, freq_id, ..base_meas() };
    for unknown in [glonass(255, 0, 130), glonass(5, 9, 130)] {
        assert!(!unknown.is_known());
        let batch = vec![Rawx { week: 2397, tow_ticks: 0, meas: vec![unknown, base_meas()] }];
        assert!(batch[0].is_ok());
        let mut c = converter(opts());
        assert_eq!(c.convert_batch(&batch).unwrap(), 1);
        assert_eq!(c.sink().obs.len(), 1);
    }
    let known = glonass(5, 0, 130);
    assert!(known.is_known());
    assert!(!Rawx { week: 2397, tow_ticks: 0, meas: vec![known] }.is_ok());
    let ordinary = glonass(5, 0, 3);
    let mut c = converter(opts());
    c.convert_batch(&[Rawx { week: 2397, tow_ticks: 0, meas: vec![ordinary] }]).unwrap();
    assert_eq!(c.sink().obs[0].v.frq, Some(-4));

    // The same on bytes.
    let mut payload = rawx_frame(2.5e7)[6..6 + 48].to_vec();
    payload[16 + 20] = GLO;
    payload[16 + 21] = 255;
    payload[16 + 23] = 130;
    let mut c = converter(opts());
    assert_eq!(c.convert_chunk(&framed(0x02, 0x15, &payload), &[quantities()]).unwrap(), 1);
    assert!(c.sink().obs.is_empty());
    payload[16 + 21] = 5;
    assert!(c.convert_chunk(&framed(0x02, 0x15, &payload), &[quantities()]).is_err());
}
