//! SatPulse packet logs. Each line is one logged packet; for conversion we need
//! its timestamp, tag, payload (`bin` in hex, or `ascii`), and the `out`
//! direction flag.

use crate::text::{number_text, utf8};
use vstd::prelude::*;

verus! {

/// One line of a packet log.
pub struct Entry {
    pub t: Option<String>,
    pub tag: Option<String>,
    pub bin: Option<String>,
    pub ascii: Option<String>,
    pub out: bool,
}

impl Entry {
    /// The tag, empty where there is none.
    pub open spec fn tag_text(self) -> Seq<char> {
        match self.tag {
            Some(s) => s@,
            None => Seq::empty(),
        }
    }

    /// The tag, empty where there is none.
    pub fn tag_str(&self) -> (r: &str)
        ensures
            r@ == self.tag_text(),
    {
        match &self.tag {
            Some(s) => s.as_str(),
            None => {
                proof {
                    reveal_strlit("");
                    assert(""@ =~= Seq::empty());
                }
                ""
            },
        }
    }
}

/// The value of a hexadecimal digit, in either case.
pub open spec fn hex_val(b: u8) -> Option<int> {
    if 0x30 <= b <= 0x39 {
        Some(b - 0x30)
    } else if 0x61 <= b <= 0x66 {
        Some(b - 0x61 + 10)
    } else if 0x41 <= b <= 0x46 {
        Some(b - 0x41 + 10)
    } else {
        None
    }
}

/// Whether all bytes are hexadecimal digits.
pub open spec fn all_hex(s: Seq<u8>) -> bool {
    forall|i: int| 0 <= i < s.len() ==> hex_val(#[trigger] s[i]) is Some
}

/// The bytes that pairs of hexadecimal digits denote.
pub open spec fn hex_bytes(s: Seq<u8>) -> Seq<u8> {
    Seq::new(
        s.len() / 2,
        |i: int| (hex_val(s[2 * i])->0 * 16 + hex_val(s[2 * i + 1])->0) as u8,
    )
}

/// Where the first byte that is no hexadecimal digit stands; the length where there
/// is none.
pub open spec fn first_other(s: Seq<u8>) -> int
    decreases s.len(),
{
    if s.len() == 0 || hex_val(s[0]) is None {
        0
    } else {
        1 + first_other(s.skip(1))
    }
}

/// A number below 16 as a lower-case hexadecimal digit.
pub open spec fn hex_digit(n: int) -> char {
    (if n < 10 { 0x30 + n } else { 0x57 + n }) as char
}

/// What is said of a text that is not hexadecimal: the first byte that is no digit,
/// and its place.
pub open spec fn hex_error(s: Seq<u8>) -> Seq<char> {
    let i = first_other(s);
    "invalid hex byte 0x"@ + seq![hex_digit(s[i] as int / 16), hex_digit(s[i] as int % 16)]
        + " at index "@ + number_text(i as nat)
}

/// `faster_hex::hex_decode`, into a destination of half the length: it succeeds
/// where the source consists of hexadecimal digits in either case, and writes the
/// bytes that they denote; else it leaves the destination as it is, and its
/// error, which tells the first byte that is no digit, is given as text.
#[verifier::external_body]
fn decode_pairs(src: &[u8], dst: &mut Vec<u8>) -> (r: Result<(), String>)
    requires
        src@.len() == 2 * old(dst)@.len(),
    ensures
        r is Ok <==> all_hex(src@),
        r is Ok ==> final(dst)@ == hex_bytes(src@),
        r is Err ==> final(dst)@ == old(dst)@,
        r matches Err(e) ==> e@ == hex_error(src@),
{
    match faster_hex::hex_decode(src, dst) {
        Ok(_) => Ok(()),
        Err(e) => Err(e.to_string()),
    }
}

/// Decodes a lower- or upper-case hex string into `out`, which is cleared first. A
/// string of even length that is not hexadecimal leaves zeros there.
pub fn hex_decode(s: &str, out: &mut Vec<u8>) -> (r: Result<(), String>)
    ensures
        utf8(s@).len() % 2 != 0 ==> final(out)@.len() == 0 && (r matches Err(e) && e@
            == "odd-length hex string"@),
        utf8(s@).len() % 2 == 0 && !all_hex(utf8(s@)) ==> final(out)@ == Seq::new(
            utf8(s@).len() / 2,
            |i: int| 0u8,
        ) && (r matches Err(e) && e@ == "invalid hex string: "@ + hex_error(utf8(s@))),
        utf8(s@).len() % 2 == 0 && all_hex(utf8(s@)) ==> r is Ok && final(out)@ == hex_bytes(
            utf8(s@),
        ),
{
    let b = s.as_bytes();
    if b.len() % 2 != 0 {
        *out = Vec::new();
        return Err("odd-length hex string".to_owned());
    }
    let n: usize = b.len() / 2;
    let mut dst: Vec<u8> = Vec::new();
    crate::text::push_repeated(&mut dst, 0, n);
    assert(dst@ =~= Seq::new(n as nat, |i: int| 0u8));
    let r = decode_pairs(b, &mut dst);
    *out = dst;
    match r {
        Ok(_) => Ok(()),
        Err(e) => Err("invalid hex string: ".to_owned().concat(e.as_str())),
    }
}

} // verus!
