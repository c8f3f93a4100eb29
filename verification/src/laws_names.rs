//! Which date a file name tells, and which week a file is placed in.

use crate::calendar::is_date;
use crate::columns::digit_run;
use crate::laws_rinex::{four_digits, lemma_four, lemma_two, two_digits};
use crate::laws_stream::{begins_before, is_near};
use crate::laws_time::{is_instant, lemma_is_instant};
use crate::obs::{Civil, Instant};
use crate::reread::lemma_padded_number;
use crate::text::{digits_value, is_digit, lemma_dec_len, utf8, zero_padded};
use crate::week::{
    date_from_filename, dates_of, file_week_constraint, midnight, run_date, runs_of, WeekConstraint,
    WeekSource,
};
use vstd::prelude::*;

verus! {

/// Whether a text has no digits.
pub open spec fn no_digits(s: Seq<u8>) -> bool {
    forall|i: int| 0 <= i < s.len() ==> !(0x30 <= #[trigger] s[i] <= 0x39)
}

/// Whether a text is of digits alone.
pub open spec fn only_digits(s: Seq<u8>) -> bool {
    forall|i: int| 0 <= i < s.len() ==> 0x30 <= #[trigger] s[i] <= 0x39
}

/// Whether a run of digits begins with a date: year, month and day.
pub open spec fn begins_with(run: Seq<u8>, c: Civil) -> bool {
    &&& run.len() >= 8 && only_digits(run)
    &&& four_digits(run, 0, c.year as int)
    &&& two_digits(run, 4, c.month as int)
    &&& two_digits(run, 6, c.day as int)
    &&& c.hour == 0 && c.minute == 0 && c.second == 0 && c.nanos == 0
}

proof fn lemma_skipped(a: Seq<u8>, s: Seq<u8>)
    requires
        no_digits(a),
    ensures
        runs_of(a + s) == runs_of(s),
    decreases a.len(),
{
    if a.len() == 0 {
        assert(a + s =~= s);
    } else {
        let t = a + s;
        assert(t[0] == a[0]);
        assert(!is_digit(t[0]));
        assert(t.skip(1) =~= a.skip(1) + s);
        lemma_skipped(a.skip(1), s);
    }
}

proof fn lemma_run_length(run: Seq<u8>, s: Seq<u8>)
    requires
        only_digits(run),
        s.len() == 0 || !(0x30 <= s[0] <= 0x39),
    ensures
        digit_run(run + s) == run.len(),
    decreases run.len(),
{
    let t = run + s;
    if run.len() == 0 {
        assert(t =~= s);
    } else {
        assert(t[0] == run[0]);
        assert(t.skip(1) =~= run.skip(1) + s);
        lemma_run_length(run.skip(1), s);
    }
}

proof fn lemma_run_found(run: Seq<u8>, s: Seq<u8>)
    requires
        run.len() > 0,
        only_digits(run),
        s.len() == 0 || !(0x30 <= s[0] <= 0x39),
    ensures
        runs_of(run + s) == seq![run] + runs_of(s),
{
    let t = run + s;
    lemma_run_length(run, s);
    assert(t[0] == run[0]);
    assert(is_digit(t[0]));
    assert(t.take(run.len() as int) =~= run);
    assert(t.skip(run.len() as int) =~= s);
}

proof fn lemma_none(a: Seq<u8>)
    requires
        no_digits(a),
    ensures
        runs_of(a) == Seq::<Seq<u8>>::empty(),
{
    lemma_skipped(a, Seq::empty());
    assert(a + Seq::<u8>::empty() =~= a);
}

proof fn lemma_two_value(f: Seq<u8>, a: int, n: nat)
    requires
        0 <= a && a + 2 <= f.len(),
        two_digits(f, a, n as int),
    ensures
        digits_value(f.subrange(a, a + 2)) == n,
{
    lemma_two(n);
    lemma_dec_len(n);
    lemma_padded_number(n, 2);
    assert(f.subrange(a, a + 2) =~= zero_padded(n, 2));
}

proof fn lemma_run_date(run: Seq<u8>, c: Civil, d: Instant)
    requires
        begins_with(run, c),
        is_instant(d, c),
    ensures
        run_date(run) == (c.year as int, c.month as int, c.day as int),
        midnight(c.year as int, c.month as int, c.day as int) == c,
        c.unix() == d.secs,
        d.nanos == 0,
        is_date(c.year as int, c.month as int, c.day as int),
{
    lemma_is_instant(d, c);
    lemma_four(c.year as nat);
    lemma_dec_len(c.year as nat);
    lemma_padded_number(c.year as nat, 4);
    assert(run.subrange(0, 4) =~= zero_padded(c.year as nat, 4));
    lemma_two_value(run, 4, c.month as nat);
    lemma_two_value(run, 6, c.day as nat);
}

/// A file name with one run of eight or more digits, which begins with a date, tells its
/// midnight in UTC.
pub proof fn lemma_date_in_name(
    base: &str,
    path: &str,
    a: Seq<u8>,
    run: Seq<u8>,
    b: Seq<u8>,
    c: Civil,
    d: Instant,
    r: Result<Instant, String>,
)
    requires
        utf8(base@) == a + run + b,
        no_digits(a) && no_digits(b),
        begins_with(run, c),
        is_instant(d, c),
        call_ensures(date_from_filename, (base, path), r),
    ensures
        r == Ok::<Instant, String>(d),
{
    lemma_run_date(run, c, d);
    assert(a + run + b =~= a + (run + b));
    lemma_skipped(a, run + b);
    lemma_run_found(run, b);
    lemma_none(b);
    let runs = seq![run] + Seq::<Seq<u8>>::empty();
    assert(runs =~= seq![run]);
    assert(runs.drop_last() =~= Seq::<Seq<u8>>::empty());
    reveal_with_fuel(dates_of, 2);
    assert(dates_of(runs) =~= seq![run_date(run)]);
}

/// A file name with two runs of eight or more digits, which begin with dates, tells the date
/// where it is the same, and none where they differ.
pub proof fn lemma_two_dates_in_name(
    base: &str,
    path: &str,
    a: Seq<u8>,
    one: Seq<u8>,
    m: Seq<u8>,
    two: Seq<u8>,
    b: Seq<u8>,
    c: Civil,
    d: Instant,
    e: Civil,
    f: Instant,
    r: Result<Instant, String>,
)
    requires
        utf8(base@) == a + one + m + two + b,
        no_digits(a) && no_digits(m) && no_digits(b),
        m.len() > 0,
        begins_with(one, c),
        is_instant(d, c),
        begins_with(two, e),
        is_instant(f, e),
        call_ensures(date_from_filename, (base, path), r),
    ensures
        c == e ==> r == Ok::<Instant, String>(d),
        c != e ==> r is Err,
{
    lemma_run_date(one, c, d);
    lemma_run_date(two, e, f);
    assert(a + one + m + two + b =~= a + (one + (m + (two + b))));
    lemma_skipped(a, one + (m + (two + b)));
    lemma_run_found(one, m + (two + b));
    lemma_skipped(m, two + b);
    lemma_run_found(two, b);
    lemma_none(b);
    let runs = seq![one] + (seq![two] + Seq::<Seq<u8>>::empty());
    assert(runs =~= seq![one, two]);
    assert(runs.drop_last() =~= seq![one]);
    assert(seq![one].drop_last() =~= Seq::<Seq<u8>>::empty());
    reveal_with_fuel(dates_of, 3);
    let x = run_date(one);
    let y = run_date(two);
    assert(dates_of(seq![one]) =~= seq![x]);
    assert(seq![x].contains(y) <==> x == y) by {
        assert(seq![x][0] == x);
    }
    if x == y {
        assert(dates_of(runs) =~= seq![x]);
    } else {
        assert(dates_of(runs) =~= seq![x, y]);
    }
    if c != e {
        assert(x != y);
    }
}

/// A file name without digits tells no date.
pub proof fn lemma_no_date_in_name(base: &str, path: &str, r: Result<Instant, String>)
    requires
        no_digits(utf8(base@)),
        call_ensures(date_from_filename, (base, path), r),
    ensures
        r is Err,
{
    lemma_none(utf8(base@));
}

/// A file is placed by the date that is given, by the date in its name, or in the week before
/// the present, as it is asked for; one that is older than that week is refused where its
/// messages need it and nothing else was asked for.
pub proof fn lemma_file_placed(
    s: &WeekSource<'_>,
    rtcm_only: bool,
    named: Result<Instant, String>,
    r: Result<WeekConstraint, String>,
)
    requires
        is_near(s.date) && is_near(s.now),
        named matches Ok(d) ==> is_near(d),
        call_ensures(date_from_filename, (s.base, s.path), named),
        call_ensures(file_week_constraint, (s, rtcm_only), r),
    ensures
        s.mode is Date ==> (r matches Ok(w) && begins_before(w.interval, s.date, 50_400, 180_000)),
        s.mode is Filename ==> match named {
            Ok(d) => r matches Ok(w) && begins_before(w.interval, d, 50_400, 180_000),
            Err(e) => r matches Err(x) && x@ == e@,
        },
        s.mode is Recent ==> (r matches Ok(w) && begins_before(
            w.interval,
            s.now,
            604_800,
            604_800,
        )),
        s.mode is Auto ==> {
            let old = s.modtime matches Some(t) && t.secs + 604_800 < s.now.secs;
            &&& r is Err <==> old && rtcm_only
            &&& r matches Ok(w) ==> begins_before(w.interval, s.now, 604_800, 604_800) && (
            w.err is Some <==> old)
        },
{
}

} // verus!
