use obsj::freq::signal_frequency_hz;
use obsj::obs::SigId;

fn sig(s: &[u8; 2]) -> SigId {
    SigId(*s)
}

// Frequencies are whole numbers of hertz.
fn hz(sys: u8, s: SigId, frq: Option<i8>) -> Option<f64> {
    signal_frequency_hz(sys, s, frq).map(|n| n as f64)
}

#[test]
fn fixed_band_frequencies() {
    // A representative entry from each fixed (non-GLONASS) system/band.
    assert_eq!(hz(b'G', sig(b"1C"), None), Some(1575.420e6));
    assert_eq!(hz(b'G', sig(b"2L"), None), Some(1227.600e6));
    assert_eq!(hz(b'G', sig(b"5I"), None), Some(1176.450e6));
    assert_eq!(hz(b'E', sig(b"5Q"), None), Some(1176.450e6));
    assert_eq!(hz(b'E', sig(b"6B"), None), Some(1278.750e6));
    assert_eq!(hz(b'C', sig(b"2I"), None), Some(1561.098e6));
    assert_eq!(hz(b'J', sig(b"1C"), None), Some(1575.420e6));
    assert_eq!(hz(b'S', sig(b"5I"), None), Some(1176.450e6));
    assert_eq!(hz(b'I', sig(b"9A"), None), Some(2492.028e6));
}

#[test]
fn glonass_fdma_channel_arithmetic() {
    // G1: 1602 + k*0.5625 MHz; G2: 1246 + k*0.4375 MHz.
    assert_eq!(hz(b'R', sig(b"1C"), Some(0)), Some(1602.000e6));
    assert_eq!(hz(b'R', sig(b"1C"), Some(-7)), Some((1602.000 + -7.0 * 0.5625) * 1e6));
    assert_eq!(hz(b'R', sig(b"1C"), Some(6)), Some((1602.000 + 6.0 * 0.5625) * 1e6));
    assert_eq!(hz(b'R', sig(b"2C"), Some(3)), Some((1246.000 + 3.0 * 0.4375) * 1e6));
}

#[test]
fn glonass_requires_channel() {
    // GLONASS without the FDMA channel has no defined frequency.
    assert_eq!(hz(b'R', sig(b"1C"), None), None);
    assert_eq!(hz(b'R', sig(b"2C"), None), None);
}

#[test]
fn unknown_system_or_band() {
    assert_eq!(hz(b'Z', sig(b"1C"), None), None);
    // GPS has no band 9.
    assert_eq!(hz(b'G', sig(b"9X"), None), None);
    // GLONASS has no band 5.
    assert_eq!(hz(b'R', sig(b"5I"), Some(0)), None);
}
