//! RINEX backend selection.
//!
//! The self-contained internal backend is the default and handles plain RINEX 3.x
//! observation files. An external backend is used when asked for explicitly or
//! when a job needs a capability the internal one lacks: CRINEX (Hatanaka) input,
//! detected from content. Where it is not available, asking for it, or feeding
//! CRINEX, fails cleanly.

use crate::columns::{lowered, same_letters};
use crate::error::Error;
use crate::text::{find_byte, first_index, quoted_text, same_bytes, utf8, with_quoted};
use vstd::prelude::*;
use vstd::slice::slice_subrange;

verus! {

/// What reads and writes RINEX files.
#[derive(Clone, Copy, Debug, PartialEq, Eq, Structural)]
pub enum RinexBackend {
    Internal,
    External,
}

/// What `str::to_lowercase` makes of a text.
pub uninterp spec fn lowercase_text(s: Seq<char>) -> Seq<char>;

/// `str::to_lowercase`.
#[verifier::external_body]
pub(crate) fn lowercase(s: &str) -> (r: String)
    ensures
        r@ == lowercase_text(s@),
{
    s.to_lowercase()
}

/// Whether a text is a name, in whatever case.
pub open spec fn is_name(s: Seq<char>, name: Seq<char>) -> bool {
    lowered(utf8(s)) == lowered(utf8(name))
}

/// Whether a text is a name, in whatever case.
pub fn named(s: &str, name: &str) -> (r: bool)
    ensures
        r == is_name(s@, name@),
{
    same_letters(s.as_bytes(), name.as_bytes())
}

/// The backend that an option names, or what is wrong with it. `diy` is another name
/// of the internal backend and `crate` one of the external.
pub open spec fn backend_of(s: Seq<char>) -> Result<Option<RinexBackend>, Seq<char>> {
    if is_name(s, "auto"@) {
        Ok(None)
    } else if is_name(s, "internal"@) || is_name(s, "diy"@) {
        Ok(Some(RinexBackend::Internal))
    } else if is_name(s, "external"@) || is_name(s, "crate"@) {
        Ok(Some(RinexBackend::External))
    } else {
        Err(
            "unsupported RINEX backend "@ + quoted_text(lowercase_text(s))
                + " (expected internal, external, or auto)"@,
        )
    }
}

/// Parses the `--rinex-backend` value. `auto` (the default) returns `None`.
pub fn parse_backend(s: &str) -> (r: Result<Option<RinexBackend>, String>)
    ensures
        match backend_of(s@) {
            Ok(b) => r == Ok::<Option<RinexBackend>, String>(b),
            Err(e) => r matches Err(m) && m@ == e,
        },
{
    if named(s, "auto") {
        Ok(None)
    } else if named(s, "internal") || named(s, "diy") {
        Ok(Some(RinexBackend::Internal))
    } else if named(s, "external") || named(s, "crate") {
        Ok(Some(RinexBackend::External))
    } else {
        let what = with_quoted("unsupported RINEX backend ", lowercase(s).as_str());
        Err(what.concat(" (expected internal, external, or auto)"))
    }
}

/// Parses a `--rinex-backend` value (`auto`/`diy`/`crate`).
pub fn parse_rinex_backend(s: &str) -> (r: Result<Option<RinexBackend>, String>)
    ensures
        match backend_of(s@) {
            Ok(b) => r == Ok::<Option<RinexBackend>, String>(b),
            Err(e) => r matches Err(m) && m@ == e,
        },
{
    parse_backend(s)
}

/// What is wrong with a choice of backend for an input, if anything is.
pub open spec fn backend_error(
    explicit: Option<RinexBackend>,
    crinex: bool,
    external_available: bool,
) -> Option<Seq<char>> {
    match explicit {
        Some(RinexBackend::Internal) if crinex => Some(
            "CRINEX input needs the external RINEX backend; do not pass --rinex-backend internal"@,
        ),
        Some(RinexBackend::External) if !external_available => Some(
            "the external RINEX backend is not compiled in; rebuild with --features rinex-crate"@,
        ),
        None if crinex && !external_available => Some(
            "CRINEX input needs the external RINEX backend; rebuild with --features rinex-crate"@,
        ),
        _ => None,
    }
}

/// The backend for an input, where nothing is wrong with the choice.
pub open spec fn chosen_backend(explicit: Option<RinexBackend>, crinex: bool) -> RinexBackend {
    match explicit {
        Some(b) => b,
        None => if crinex {
            RinexBackend::External
        } else {
            RinexBackend::Internal
        },
    }
}

/// Resolves the backend for a RINEX input.
pub fn resolve_input(
    explicit: Option<RinexBackend>,
    crinex: bool,
    external_available: bool,
) -> (r: Result<RinexBackend, Error>)
    ensures
        match backend_error(explicit, crinex, external_available) {
            Some(e) => r matches Err(Error::Rinex(m)) && m@ == e,
            None => r == Ok::<RinexBackend, Error>(chosen_backend(explicit, crinex)),
        },
{
    match explicit {
        Some(RinexBackend::Internal) => if crinex {
            Err(
                Error::Rinex(
                    "CRINEX input needs the external RINEX backend; do not pass --rinex-backend internal".to_owned(),
                ),
            )
        } else {
            Ok(RinexBackend::Internal)
        },
        Some(RinexBackend::External) => if external_available {
            Ok(RinexBackend::External)
        } else {
            Err(
                Error::Rinex(
                    "the external RINEX backend is not compiled in; rebuild with --features rinex-crate".to_owned(),
                ),
            )
        },
        None => if crinex && !external_available {
            Err(
                Error::Rinex(
                    "CRINEX input needs the external RINEX backend; rebuild with --features rinex-crate".to_owned(),
                ),
            )
        } else if crinex {
            Ok(RinexBackend::External)
        } else {
            Ok(RinexBackend::Internal)
        },
    }
}

/// Whether a text occurs in another.
pub open spec fn occurs(s: Seq<u8>, w: Seq<u8>) -> bool {
    exists|i: int| 0 <= i <= s.len() - w.len() && #[trigger] s.subrange(i, i + w.len()) == w
}

/// Whether the first line of a file is that of a CRINEX file.
pub open spec fn crinex_head(head: Seq<u8>) -> bool {
    occurs(head.take(first_index(head, 0x0a)), utf8("CRINEX VERS"@))
}

/// A CRINEX (Hatanaka) file begins with a `CRINEX VERS / TYPE` header line.
pub fn is_crinex(head: &[u8]) -> (r: bool)
    ensures
        r == crinex_head(head@),
{
    let end: usize = find_byte(head, 0x0a);
    let line = slice_subrange(head, 0, end);
    assert(line@ =~= head@.take(end as int));
    let w = "CRINEX VERS".as_bytes();
    let n: usize = w.len();
    let mut i: usize = 0;
    while i < line.len() && line.len() - i >= n
        invariant
            i <= line@.len(),
            n == w@.len(),
            w@ == utf8("CRINEX VERS"@),
            line@ == head@.take(first_index(head@, 0x0a)),
            forall|j: int|
                0 <= j < i && j <= line@.len() - w@.len() ==> #[trigger] line@.subrange(
                    j,
                    j + w@.len(),
                ) != w@,
        decreases line@.len() - i,
    {
        if same_bytes(slice_subrange(line, i, i + n), w) {
            assert(line@.subrange(i as int, i + w@.len()) == w@);
            return true;
        }
        i += 1;
    }
    proof {
        reveal_strlit("CRINEX VERS");
        vstd::utf8::is_ascii_chars_encode_utf8("CRINEX VERS"@);
        assert(w@.len() == 11);
    }
    false
}

} // verus!
