//! Carrier frequencies of RINEX systems and signals, with the GLONASS frequency
//! channels.

use crate::obs::SigId;
use vstd::prelude::*;

verus! {

/// The carrier frequency in hertz of a system letter and band digit. A GLONASS
/// frequency also depends on the channel `frq`.
pub open spec fn carrier_hz(sys: u8, band: u8, frq: Option<i8>) -> Option<int> {
    // The letters are G, R, E, S, J, C and I; the digits '1' to '9'.
    if sys == 0x52 {
        match frq {
            Some(k) => if band == 0x31 {
                Some(1_602_000_000 + k * 562_500)
            } else if band == 0x32 {
                Some(1_246_000_000 + k * 437_500)
            } else {
                None
            },
            None => None,
        }
    } else if band == 0x31 && (sys == 0x47 || sys == 0x45 || sys == 0x53 || sys == 0x4a || sys
        == 0x43) {
        Some(1_575_420_000)
    } else if band == 0x32 && (sys == 0x47 || sys == 0x4a) {
        Some(1_227_600_000)
    } else if band == 0x32 && sys == 0x43 {
        Some(1_561_098_000)
    } else if band == 0x35 && (sys == 0x47 || sys == 0x45 || sys == 0x53 || sys == 0x4a || sys
        == 0x43 || sys == 0x49) {
        Some(1_176_450_000)
    } else if band == 0x36 && (sys == 0x45 || sys == 0x4a) {
        Some(1_278_750_000)
    } else if band == 0x36 && sys == 0x43 {
        Some(1_268_520_000)
    } else if band == 0x37 && (sys == 0x45 || sys == 0x43) {
        Some(1_207_140_000)
    } else if band == 0x38 && sys == 0x45 {
        Some(1_191_795_000)
    } else if band == 0x39 && sys == 0x49 {
        Some(2_492_028_000)
    } else {
        None
    }
}

/// Carrier frequency in hertz for a system letter and signal. `frq` is the
/// GLONASS frequency channel and must be there for GLONASS. Returns `None` when
/// the system, band, or channel is not recognised.
pub fn signal_frequency_hz(sys: u8, sig: SigId, frq: Option<i8>) -> (r: Option<i64>)
    ensures
        r is Some <==> carrier_hz(sys, sig.0@[0], frq) is Some,
        r matches Some(f) ==> carrier_hz(sys, sig.0@[0], frq) == Some(f as int),
{
    let band: u8 = sig.band();
    match sys {
        0x47 => match band {
            0x31 => Some(1_575_420_000),
            0x32 => Some(1_227_600_000),
            0x35 => Some(1_176_450_000),
            _ => None,
        },
        0x52 => match frq {
            Some(k) => match band {
                0x31 => Some(1_602_000_000 + k as i64 * 562_500),
                0x32 => Some(1_246_000_000 + k as i64 * 437_500),
                _ => None,
            },
            None => None,
        },
        0x45 => match band {
            0x31 => Some(1_575_420_000),
            0x35 => Some(1_176_450_000),
            0x36 => Some(1_278_750_000),
            0x37 => Some(1_207_140_000),
            0x38 => Some(1_191_795_000),
            _ => None,
        },
        0x53 => match band {
            0x31 => Some(1_575_420_000),
            0x35 => Some(1_176_450_000),
            _ => None,
        },
        0x4a => match band {
            0x31 => Some(1_575_420_000),
            0x32 => Some(1_227_600_000),
            0x35 => Some(1_176_450_000),
            0x36 => Some(1_278_750_000),
            _ => None,
        },
        0x43 => match band {
            0x31 => Some(1_575_420_000),
            0x32 => Some(1_561_098_000),
            0x35 => Some(1_176_450_000),
            0x36 => Some(1_268_520_000),
            0x37 => Some(1_207_140_000),
            _ => None,
        },
        0x49 => match band {
            0x35 => Some(1_176_450_000),
            0x39 => Some(2_492_028_000),
            _ => None,
        },
        _ => None,
    }
}

} // verus!
