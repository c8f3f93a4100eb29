//! The labels of header lines, byte by byte.

use crate::cells::{firm, plain};
use crate::text::{is_ascii, utf8};
use vstd::prelude::*;
use vstd::utf8::*;

verus! {

/// A text of ASCII characters has a byte for each.
pub proof fn lemma_ascii_text(s: Seq<char>)
    requires
        is_ascii_chars(s),
    ensures
        utf8(s).len() == s.len(),
        is_ascii(utf8(s)),
        forall|i: int| 0 <= i < s.len() ==> #[trigger] utf8(s)[i] == s[i] as u8,
{
    is_ascii_chars_encode_utf8(s);
    is_ascii_chars_nat_bound(s);
}

/// The names of the time systems differ.
pub proof fn lemma_time_systems()
    ensures
        utf8("GPS"@) != utf8("GLO"@),
        utf8("GPS"@) != utf8("UTC"@),
        utf8("GPS"@) != utf8("BDT"@),
        utf8("GPS"@) == seq![0x47u8, 0x50u8, 0x53u8],
{
    reveal_strlit("GPS");
    reveal_strlit("GLO");
    reveal_strlit("UTC");
    reveal_strlit("BDT");
    lemma_ascii_text("GPS"@);
    lemma_ascii_text("GLO"@);
    lemma_ascii_text("UTC"@);
    lemma_ascii_text("BDT"@);
    assert(utf8("GPS"@)[0] == 0x47);
    assert(utf8("GPS"@)[1] == 0x50);
    assert(utf8("GPS"@)[2] == 0x53);
    assert(utf8("GLO"@)[1] == 0x4c);
    assert(utf8("UTC"@)[0] == 0x55);
    assert(utf8("BDT"@)[0] == 0x42);
    assert(utf8("GPS"@) =~= seq![0x47u8, 0x50u8, 0x53u8]);
}

/// Whether a text can be the label of a header line: printing characters, with
/// blanks between them only, and no more than twenty.
#[verifier::opaque]
pub open spec fn is_label(b: Seq<u8>) -> bool {
    0 < b.len() <= 20 && plain(b) && firm(b)
}

/// A text of printing characters is encoded in printing characters.
pub proof fn lemma_plain_text(s: Seq<char>)
    requires
        forall|i: int| 0 <= i < s.len() ==> ' ' <= #[trigger] s[i] <= '~',
    ensures
        utf8(s).len() == s.len(),
        plain(utf8(s)),
        forall|i: int| 0 <= i < s.len() ==> #[trigger] utf8(s)[i] == s[i] as u8,
{
    lemma_ascii_text(s);
    assert forall|i: int| 0 <= i < utf8(s).len() implies 0x20 <= #[trigger] utf8(s)[i] <= 0x7e by {
        let c = s[i];
        assert(' ' <= c <= '~');
        assert(utf8(s)[i] == c as u8);
    }
}

proof fn lemma_rinex_version_type()
    ensures
        is_label(utf8("RINEX VERSION / TYPE"@)),
        utf8("RINEX VERSION / TYPE"@).len() == 20,
        utf8("RINEX VERSION / TYPE"@)[0] == 0x52,
{
    reveal(is_label);
    reveal_strlit("RINEX VERSION / TYPE");
    lemma_plain_text("RINEX VERSION / TYPE"@);
    assert(utf8("RINEX VERSION / TYPE"@)[0] == 0x52);
    assert(utf8("RINEX VERSION / TYPE"@)[19] == 0x45);
}

proof fn lemma_pgm_run_by_date()
    ensures
        is_label(utf8("PGM / RUN BY / DATE"@)),
        utf8("PGM / RUN BY / DATE"@).len() == 19,
        utf8("PGM / RUN BY / DATE"@)[0] == 0x50,
{
    reveal(is_label);
    reveal_strlit("PGM / RUN BY / DATE");
    lemma_plain_text("PGM / RUN BY / DATE"@);
    assert(utf8("PGM / RUN BY / DATE"@)[0] == 0x50);
    assert(utf8("PGM / RUN BY / DATE"@)[18] == 0x45);
}

proof fn lemma_comment()
    ensures
        is_label(utf8("COMMENT"@)),
        utf8("COMMENT"@).len() == 7,
        utf8("COMMENT"@)[0] == 0x43,
{
    reveal(is_label);
    reveal_strlit("COMMENT");
    lemma_plain_text("COMMENT"@);
    assert(utf8("COMMENT"@)[0] == 0x43);
    assert(utf8("COMMENT"@)[6] == 0x54);
}

proof fn lemma_marker_name()
    ensures
        is_label(utf8("MARKER NAME"@)),
        utf8("MARKER NAME"@).len() == 11,
        utf8("MARKER NAME"@)[0] == 0x4d,
        utf8("MARKER NAME"@)[7] == 0x4e,
{
    reveal(is_label);
    reveal_strlit("MARKER NAME");
    lemma_plain_text("MARKER NAME"@);
    assert(utf8("MARKER NAME"@)[0] == 0x4d);
    assert(utf8("MARKER NAME"@)[7] == 0x4e);
    assert(utf8("MARKER NAME"@)[10] == 0x45);
}

proof fn lemma_marker_number()
    ensures
        is_label(utf8("MARKER NUMBER"@)),
        utf8("MARKER NUMBER"@).len() == 13,
        utf8("MARKER NUMBER"@)[0] == 0x4d,
{
    reveal(is_label);
    reveal_strlit("MARKER NUMBER");
    lemma_plain_text("MARKER NUMBER"@);
    assert(utf8("MARKER NUMBER"@)[0] == 0x4d);
    assert(utf8("MARKER NUMBER"@)[12] == 0x52);
}

proof fn lemma_marker_type()
    ensures
        is_label(utf8("MARKER TYPE"@)),
        utf8("MARKER TYPE"@).len() == 11,
        utf8("MARKER TYPE"@)[0] == 0x4d,
        utf8("MARKER TYPE"@)[7] == 0x54,
{
    reveal(is_label);
    reveal_strlit("MARKER TYPE");
    lemma_plain_text("MARKER TYPE"@);
    assert(utf8("MARKER TYPE"@)[0] == 0x4d);
    assert(utf8("MARKER TYPE"@)[7] == 0x54);
    assert(utf8("MARKER TYPE"@)[10] == 0x45);
}

proof fn lemma_observer_agency()
    ensures
        is_label(utf8("OBSERVER / AGENCY"@)),
        utf8("OBSERVER / AGENCY"@).len() == 17,
        utf8("OBSERVER / AGENCY"@)[0] == 0x4f,
{
    reveal(is_label);
    reveal_strlit("OBSERVER / AGENCY");
    lemma_plain_text("OBSERVER / AGENCY"@);
    assert(utf8("OBSERVER / AGENCY"@)[0] == 0x4f);
    assert(utf8("OBSERVER / AGENCY"@)[16] == 0x59);
}

proof fn lemma_rec_type_vers()
    ensures
        is_label(utf8("REC # / TYPE / VERS"@)),
        utf8("REC # / TYPE / VERS"@).len() == 19,
        utf8("REC # / TYPE / VERS"@)[0] == 0x52,
{
    reveal(is_label);
    reveal_strlit("REC # / TYPE / VERS");
    lemma_plain_text("REC # / TYPE / VERS"@);
    assert(utf8("REC # / TYPE / VERS"@)[0] == 0x52);
    assert(utf8("REC # / TYPE / VERS"@)[18] == 0x53);
}

proof fn lemma_ant_type()
    ensures
        is_label(utf8("ANT # / TYPE"@)),
        utf8("ANT # / TYPE"@).len() == 12,
        utf8("ANT # / TYPE"@)[0] == 0x41,
{
    reveal(is_label);
    reveal_strlit("ANT # / TYPE");
    lemma_plain_text("ANT # / TYPE"@);
    assert(utf8("ANT # / TYPE"@)[0] == 0x41);
    assert(utf8("ANT # / TYPE"@)[11] == 0x45);
}

proof fn lemma_approx_position_xyz()
    ensures
        is_label(utf8("APPROX POSITION XYZ"@)),
        utf8("APPROX POSITION XYZ"@).len() == 19,
        utf8("APPROX POSITION XYZ"@)[0] == 0x41,
{
    reveal(is_label);
    reveal_strlit("APPROX POSITION XYZ");
    lemma_plain_text("APPROX POSITION XYZ"@);
    assert(utf8("APPROX POSITION XYZ"@)[0] == 0x41);
    assert(utf8("APPROX POSITION XYZ"@)[18] == 0x5a);
}

proof fn lemma_antenna_delta_h_e_n()
    ensures
        is_label(utf8("ANTENNA: DELTA H/E/N"@)),
        utf8("ANTENNA: DELTA H/E/N"@).len() == 20,
        utf8("ANTENNA: DELTA H/E/N"@)[0] == 0x41,
{
    reveal(is_label);
    reveal_strlit("ANTENNA: DELTA H/E/N");
    lemma_plain_text("ANTENNA: DELTA H/E/N"@);
    assert(utf8("ANTENNA: DELTA H/E/N"@)[0] == 0x41);
    assert(utf8("ANTENNA: DELTA H/E/N"@)[19] == 0x4e);
}

proof fn lemma_sys_obs_types()
    ensures
        is_label(utf8("SYS / # / OBS TYPES"@)),
        utf8("SYS / # / OBS TYPES"@).len() == 19,
        utf8("SYS / # / OBS TYPES"@)[0] == 0x53,
{
    reveal(is_label);
    reveal_strlit("SYS / # / OBS TYPES");
    lemma_plain_text("SYS / # / OBS TYPES"@);
    assert(utf8("SYS / # / OBS TYPES"@)[0] == 0x53);
    assert(utf8("SYS / # / OBS TYPES"@)[18] == 0x53);
}

proof fn lemma_sys_scale_factor()
    ensures
        is_label(utf8("SYS / SCALE FACTOR"@)),
        utf8("SYS / SCALE FACTOR"@).len() == 18,
        utf8("SYS / SCALE FACTOR"@)[0] == 0x53,
{
    reveal(is_label);
    reveal_strlit("SYS / SCALE FACTOR");
    lemma_plain_text("SYS / SCALE FACTOR"@);
    assert(utf8("SYS / SCALE FACTOR"@)[0] == 0x53);
    assert(utf8("SYS / SCALE FACTOR"@)[17] == 0x52);
}

proof fn lemma_signal_strength_unit()
    ensures
        is_label(utf8("SIGNAL STRENGTH UNIT"@)),
        utf8("SIGNAL STRENGTH UNIT"@).len() == 20,
        utf8("SIGNAL STRENGTH UNIT"@)[0] == 0x53,
{
    reveal(is_label);
    reveal_strlit("SIGNAL STRENGTH UNIT");
    lemma_plain_text("SIGNAL STRENGTH UNIT"@);
    assert(utf8("SIGNAL STRENGTH UNIT"@)[0] == 0x53);
    assert(utf8("SIGNAL STRENGTH UNIT"@)[19] == 0x54);
}

/// The label of the line with the interval.
pub proof fn lemma_interval()
    ensures
        is_label(utf8("INTERVAL"@)),
        utf8("INTERVAL"@).len() == 8,
        utf8("INTERVAL"@)[0] == 0x49,
{
    reveal(is_label);
    reveal_strlit("INTERVAL");
    lemma_plain_text("INTERVAL"@);
    assert(utf8("INTERVAL"@)[0] == 0x49);
    assert(utf8("INTERVAL"@)[7] == 0x4c);
}

proof fn lemma_glonass_slot_frq()
    ensures
        is_label(utf8("GLONASS SLOT / FRQ #"@)),
        utf8("GLONASS SLOT / FRQ #"@).len() == 20,
        utf8("GLONASS SLOT / FRQ #"@)[0] == 0x47,
{
    reveal(is_label);
    reveal_strlit("GLONASS SLOT / FRQ #");
    lemma_plain_text("GLONASS SLOT / FRQ #"@);
    assert(utf8("GLONASS SLOT / FRQ #"@)[0] == 0x47);
    assert(utf8("GLONASS SLOT / FRQ #"@)[19] == 0x23);
}

proof fn lemma_leap_seconds()
    ensures
        is_label(utf8("LEAP SECONDS"@)),
        utf8("LEAP SECONDS"@).len() == 12,
        utf8("LEAP SECONDS"@)[0] == 0x4c,
{
    reveal(is_label);
    reveal_strlit("LEAP SECONDS");
    lemma_plain_text("LEAP SECONDS"@);
    assert(utf8("LEAP SECONDS"@)[0] == 0x4c);
    assert(utf8("LEAP SECONDS"@)[11] == 0x53);
}

proof fn lemma_time_of_first_obs()
    ensures
        is_label(utf8("TIME OF FIRST OBS"@)),
        utf8("TIME OF FIRST OBS"@).len() == 17,
        utf8("TIME OF FIRST OBS"@)[0] == 0x54,
{
    reveal(is_label);
    reveal_strlit("TIME OF FIRST OBS");
    lemma_plain_text("TIME OF FIRST OBS"@);
    assert(utf8("TIME OF FIRST OBS"@)[0] == 0x54);
    assert(utf8("TIME OF FIRST OBS"@)[16] == 0x53);
}

proof fn lemma_time_of_last_obs()
    ensures
        is_label(utf8("TIME OF LAST OBS"@)),
        utf8("TIME OF LAST OBS"@).len() == 16,
        utf8("TIME OF LAST OBS"@)[0] == 0x54,
{
    reveal(is_label);
    reveal_strlit("TIME OF LAST OBS");
    lemma_plain_text("TIME OF LAST OBS"@);
    assert(utf8("TIME OF LAST OBS"@)[0] == 0x54);
    assert(utf8("TIME OF LAST OBS"@)[15] == 0x53);
}

proof fn lemma_end_of_header()
    ensures
        is_label(utf8("END OF HEADER"@)),
        utf8("END OF HEADER"@).len() == 13,
        utf8("END OF HEADER"@)[0] == 0x45,
{
    reveal(is_label);
    reveal_strlit("END OF HEADER");
    lemma_plain_text("END OF HEADER"@);
    assert(utf8("END OF HEADER"@)[0] == 0x45);
    assert(utf8("END OF HEADER"@)[12] == 0x52);
}

proof fn lemma_glonass_cod_phs_bis()
    ensures
        is_label(utf8("GLONASS COD/PHS/BIS"@)),
        utf8("GLONASS COD/PHS/BIS"@).len() == 19,
        utf8("GLONASS COD/PHS/BIS"@)[0] == 0x47,
{
    reveal(is_label);
    reveal_strlit("GLONASS COD/PHS/BIS");
    lemma_plain_text("GLONASS COD/PHS/BIS"@);
    assert(utf8("GLONASS COD/PHS/BIS"@)[0] == 0x47);
    assert(utf8("GLONASS COD/PHS/BIS"@)[18] == 0x53);
}

/// The labels differ in their length or in their first letters.
pub proof fn lemma_labels()
    ensures
        is_label(utf8("RINEX VERSION / TYPE"@)),
        utf8("RINEX VERSION / TYPE"@).len() == 20 && utf8("RINEX VERSION / TYPE"@)[0] == 0x52,
        is_label(utf8("PGM / RUN BY / DATE"@)),
        utf8("PGM / RUN BY / DATE"@).len() == 19 && utf8("PGM / RUN BY / DATE"@)[0] == 0x50,
        is_label(utf8("COMMENT"@)),
        utf8("COMMENT"@).len() == 7 && utf8("COMMENT"@)[0] == 0x43,
        is_label(utf8("MARKER NAME"@)),
        utf8("MARKER NAME"@).len() == 11 && utf8("MARKER NAME"@)[0] == 0x4d,
        is_label(utf8("MARKER NUMBER"@)),
        utf8("MARKER NUMBER"@).len() == 13 && utf8("MARKER NUMBER"@)[0] == 0x4d,
        is_label(utf8("MARKER TYPE"@)),
        utf8("MARKER TYPE"@).len() == 11 && utf8("MARKER TYPE"@)[0] == 0x4d,
        is_label(utf8("OBSERVER / AGENCY"@)),
        utf8("OBSERVER / AGENCY"@).len() == 17 && utf8("OBSERVER / AGENCY"@)[0] == 0x4f,
        is_label(utf8("REC # / TYPE / VERS"@)),
        utf8("REC # / TYPE / VERS"@).len() == 19 && utf8("REC # / TYPE / VERS"@)[0] == 0x52,
        is_label(utf8("ANT # / TYPE"@)),
        utf8("ANT # / TYPE"@).len() == 12 && utf8("ANT # / TYPE"@)[0] == 0x41,
        is_label(utf8("APPROX POSITION XYZ"@)),
        utf8("APPROX POSITION XYZ"@).len() == 19 && utf8("APPROX POSITION XYZ"@)[0] == 0x41,
        is_label(utf8("ANTENNA: DELTA H/E/N"@)),
        utf8("ANTENNA: DELTA H/E/N"@).len() == 20 && utf8("ANTENNA: DELTA H/E/N"@)[0] == 0x41,
        is_label(utf8("SYS / # / OBS TYPES"@)),
        utf8("SYS / # / OBS TYPES"@).len() == 19 && utf8("SYS / # / OBS TYPES"@)[0] == 0x53,
        is_label(utf8("SYS / SCALE FACTOR"@)),
        utf8("SYS / SCALE FACTOR"@).len() == 18 && utf8("SYS / SCALE FACTOR"@)[0] == 0x53,
        is_label(utf8("SIGNAL STRENGTH UNIT"@)),
        utf8("SIGNAL STRENGTH UNIT"@).len() == 20 && utf8("SIGNAL STRENGTH UNIT"@)[0] == 0x53,
        is_label(utf8("INTERVAL"@)),
        utf8("INTERVAL"@).len() == 8 && utf8("INTERVAL"@)[0] == 0x49,
        is_label(utf8("GLONASS SLOT / FRQ #"@)),
        utf8("GLONASS SLOT / FRQ #"@).len() == 20 && utf8("GLONASS SLOT / FRQ #"@)[0] == 0x47,
        is_label(utf8("LEAP SECONDS"@)),
        utf8("LEAP SECONDS"@).len() == 12 && utf8("LEAP SECONDS"@)[0] == 0x4c,
        is_label(utf8("TIME OF FIRST OBS"@)),
        utf8("TIME OF FIRST OBS"@).len() == 17 && utf8("TIME OF FIRST OBS"@)[0] == 0x54,
        is_label(utf8("TIME OF LAST OBS"@)),
        utf8("TIME OF LAST OBS"@).len() == 16 && utf8("TIME OF LAST OBS"@)[0] == 0x54,
        is_label(utf8("END OF HEADER"@)),
        utf8("END OF HEADER"@).len() == 13 && utf8("END OF HEADER"@)[0] == 0x45,
        is_label(utf8("GLONASS COD/PHS/BIS"@)),
        utf8("GLONASS COD/PHS/BIS"@).len() == 19 && utf8("GLONASS COD/PHS/BIS"@)[0] == 0x47,
        utf8("MARKER NAME"@)[7] == 0x4e && utf8("MARKER TYPE"@)[7] == 0x54,
{
    lemma_rinex_version_type();
    lemma_pgm_run_by_date();
    lemma_comment();
    lemma_marker_name();
    lemma_marker_number();
    lemma_marker_type();
    lemma_observer_agency();
    lemma_rec_type_vers();
    lemma_ant_type();
    lemma_approx_position_xyz();
    lemma_antenna_delta_h_e_n();
    lemma_sys_obs_types();
    lemma_sys_scale_factor();
    lemma_signal_strength_unit();
    lemma_interval();
    lemma_glonass_slot_frq();
    lemma_leap_seconds();
    lemma_time_of_first_obs();
    lemma_time_of_last_obs();
    lemma_end_of_header();
    lemma_glonass_cod_phs_bis();
}

} // verus!
