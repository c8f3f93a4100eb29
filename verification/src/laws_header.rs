//! What reading the lines of a RINEX header gives, column by column.

use crate::columns::cols;
use crate::labels::{lemma_labels, lemma_time_systems};
use crate::metadata::{AntennaView, MarkerView, MetadataRunView, MetadataView, ReceiverView};
use crate::obs::GpsTime;
use crate::rinex_read::{
    cn0_from_ssi, file_to_gps_time, float_triple, header_step, read_header_line, run_date,
    ObsHeader, ObsHeaderView,
};
use crate::text::{fields, int_text, lossy_text, trimmed, utf8};
use vstd::prelude::*;

verus! {

/// Whether a line bears a label in its columns from 60 on.
pub open spec fn labelled(line: Seq<u8>, name: Seq<char>) -> bool {
    trimmed(cols(line, 60, 80)) == utf8(name)
}

/// The words in columns of a line, without the whitespace around them.
pub open spec fn words(line: Seq<u8>, a: int, b: int) -> Seq<char> {
    lossy_text(trimmed(cols(line, a, b)))
}

/// The lines about the station are read from their columns: a marker from the first 60, the
/// observer from 0 to 20 and the agency from 20 to 60, the number, the type and the version
/// of the receiver from 20 columns each, and the number and the type of the antenna from 20
/// each. Nothing else of the header changes.
pub proof fn lemma_station_lines_read(line: &[u8], base: usize, r: Result<bool, String>)
    ensures
        forall|h: &mut ObsHeader| #[trigger]
            call_ensures(read_header_line, (h, line, base), r) ==> {
                let s = line@;
                let m = (*h)@.meta;
                &&& labelled(s, "MARKER NAME"@) ==> metadata_read(
                    (*h)@,
                    MetadataView {
                        marker: MarkerView { name: words(s, 0, 60), ..m.marker },
                        ..m
                    },
                    final(h)@,
                    r,
                )
                &&& labelled(s, "MARKER NUMBER"@) ==> metadata_read(
                    (*h)@,
                    MetadataView {
                        marker: MarkerView { number: words(s, 0, 60), ..m.marker },
                        ..m
                    },
                    final(h)@,
                    r,
                )
                &&& labelled(s, "MARKER TYPE"@) ==> metadata_read(
                    (*h)@,
                    MetadataView {
                        marker: MarkerView { type_: words(s, 0, 60), ..m.marker },
                        ..m
                    },
                    final(h)@,
                    r,
                )
                &&& labelled(s, "OBSERVER / AGENCY"@) ==> metadata_read(
                    (*h)@,
                    MetadataView { observer: words(s, 0, 20), agency: words(s, 20, 60), ..m },
                    final(h)@,
                    r,
                )
                &&& labelled(s, "REC # / TYPE / VERS"@) ==> metadata_read(
                    (*h)@,
                    MetadataView {
                        receiver: ReceiverView {
                            number: words(s, 0, 20),
                            type_: words(s, 20, 40),
                            version: words(s, 40, 60),
                        },
                        ..m
                    },
                    final(h)@,
                    r,
                )
                &&& labelled(s, "ANT # / TYPE"@) ==> metadata_read(
                    (*h)@,
                    MetadataView {
                        antenna: AntennaView { number: words(s, 0, 20), type_: words(s, 20, 40) },
                        ..m
                    },
                    final(h)@,
                    r,
                )
            },
{
    reveal(header_step);
    lemma_labels();
}

/// Whether a line was read that changes the metadata alone, and more lines follow.
pub open spec fn metadata_read(
    pre: ObsHeaderView,
    meta: MetadataView<crate::rinex_read::Reading>,
    post: ObsHeaderView,
    r: Result<bool, String>,
) -> bool {
    &&& r == Ok::<bool, String>(false)
    &&& post == (ObsHeaderView { meta, ..pre })
}

/// The lines about the file are read from their columns: the program from 0 to 20, who ran
/// it from 20 to 40 and the date from 40 to 60; a comment from the first 60; the position
/// and the offset of the antenna each from three numbers in the first 60.
pub proof fn lemma_origin_lines_read(line: &[u8], base: usize, r: Result<bool, String>)
    ensures
        forall|h: &mut ObsHeader| #[trigger]
            call_ensures(read_header_line, (h, line, base), r) ==> {
                let s = line@;
                let m = (*h)@.meta;
                &&& labelled(s, "RINEX VERSION / TYPE"@) && fields(cols(s, 0, 20)).len() > 0
                    ==> metadata_read(
                    (*h)@,
                    MetadataView { version: lossy_text(fields(cols(s, 0, 20))[0]), ..m },
                    final(h)@,
                    r,
                )
                &&& labelled(s, "PGM / RUN BY / DATE"@) ==> metadata_read(
                    (*h)@,
                    MetadataView {
                        run: MetadataRunView {
                            program: words(s, 0, 20),
                            by: words(s, 20, 40),
                            date: run_date(cols(s, 40, 60)),
                        },
                        ..m
                    },
                    final(h)@,
                    r,
                )
                &&& labelled(s, "APPROX POSITION XYZ"@) && float_triple(
                    cols(s, 0, 60),
                    base as int,
                ) is Some ==> metadata_read(
                    (*h)@,
                    MetadataView {
                        approx_position: float_triple(cols(s, 0, 60), base as int),
                        ..m
                    },
                    final(h)@,
                    r,
                )
                &&& labelled(s, "ANTENNA: DELTA H/E/N"@) && float_triple(
                    cols(s, 0, 60),
                    base as int,
                ) is Some ==> metadata_read(
                    (*h)@,
                    MetadataView {
                        antenna_delta: float_triple(cols(s, 0, 60), base as int),
                        ..m
                    },
                    final(h)@,
                    r,
                )
                &&& labelled(s, "COMMENT"@) ==> metadata_read(
                    (*h)@,
                    MetadataView { comment: final(h)@.meta.comment, ..m },
                    final(h)@,
                    r,
                ) && final(h)@.meta.comment.len() == m.comment.len() + 1
                    && final(h)@.meta.comment.drop_last() == m.comment
            },
{
    reveal(header_step);
    lemma_labels();
    assert forall|h: &mut ObsHeader| #[trigger]
        call_ensures(read_header_line, (h, line, base), r) && labelled(
            line@,
            "COMMENT"@,
        ) implies final(h)@.meta.comment.drop_last() == (*h)@.meta.comment by {
        assert(final(h)@.meta.comment.drop_last() =~= (*h)@.meta.comment);
    }
}

/// Leap seconds are read from the first number of their line; the last line ends the
/// header; a line with a label that is not known changes nothing.
pub proof fn lemma_other_lines_read(line: &[u8], base: usize, n: i16, r: Result<bool, String>)
    ensures
        forall|h: &mut ObsHeader| #[trigger]
            call_ensures(read_header_line, (h, line, base), r) ==> {
                let s = line@;
                let m = (*h)@.meta;
                &&& labelled(s, "LEAP SECONDS"@) && fields(cols(s, 0, 60)).len() > 0 && int_text(
                    fields(cols(s, 0, 60))[0],
                ) == Some(n as int) ==> metadata_read(
                    (*h)@,
                    MetadataView { leap_seconds: Some(n), ..m },
                    final(h)@,
                    r,
                )
                &&& labelled(s, "END OF HEADER"@) ==> r == Ok::<bool, String>(true)
                    && final(h)@.meta == m && final(h)@.codes == (*h)@.codes && final(h)@.frq
                    == (*h)@.frq && ((*h)@.time_system.len() > 0 ==> final(h)@.time_system
                    == (*h)@.time_system)
                &&& labelled(s, "TIME OF FIRST OBS"@) && fields(cols(s, 0, 60)).len() >= 7
                    ==> r == Ok::<bool, String>(false) && final(h)@ == (ObsHeaderView {
                    time_system: fields(cols(s, 0, 60))[6],
                    ..(*h)@
                })
            },
{
    reveal(header_step);
    lemma_labels();
}

/// Times in GLONASS time or UTC lie before GPS time by the leap seconds, those in BeiDou
/// time by 14 seconds; all others are GPS time.
pub proof fn lemma_times_in_gps(t: GpsTime, name: &[u8], leap: i64, r: GpsTime)
    requires
        call_ensures(file_to_gps_time, (t, name, leap), r),
    ensures
        name@ == seq![0x47u8, 0x50u8, 0x53u8] ==> r == t,
        name@ == utf8("GLO"@) || name@ == utf8("UTC"@) ==> r.0 == t.0 + leap * 10_000_000,
        name@ == utf8("BDT"@) ==> r.0 == t.0 + 140_000_000,
{
    lemma_time_systems();
    reveal_strlit("GLO");
    reveal_strlit("UTC");
    reveal_strlit("BDT");
    crate::labels::lemma_ascii_text("GLO"@);
    crate::labels::lemma_ascii_text("UTC"@);
    crate::labels::lemma_ascii_text("BDT"@);
    assert(utf8("GLO"@)[0] == 0x47 && utf8("UTC"@)[0] == 0x55 && utf8("BDT"@)[0] == 0x42);
}

/// A strength indicator stands for the middle of its step of six dB-Hz; the steps at the
/// ends are open.
pub proof fn lemma_strengths(ssi: u8, r: u8)
    requires
        call_ensures(cn0_from_ssi, (ssi,), r),
    ensures
        ssi <= 1 ==> r == 6,
        2 <= ssi <= 8 ==> 6 * ssi <= r < 6 * ssi + 6 && r % 6 == 3,
        ssi >= 9 ==> r == 57,
{
}

} // verus!
