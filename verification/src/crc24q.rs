//! CRC-24Q, the cyclic redundancy check of RTCM frames.

use vstd::prelude::*;

verus! {

/// The generator polynomial.
pub const POLY: u32 = 0x0186_4cfb;

/// One step of the division by the generator: the remainder moves up by a bit,
/// and a bit that leaves it at the top is replaced by what it stands for.
pub open spec fn shift_bit(c: u32) -> u32 {
    if c & 0x0080_0000 != 0 {
        ((c << 1) ^ 0x0186_4cfb) & 0x00ff_ffff
    } else {
        (c << 1) & 0x00ff_ffff
    }
}

/// Eight steps of the division.
pub open spec fn shift_byte(c: u32) -> u32 {
    shift_bit(
        shift_bit(shift_bit(shift_bit(shift_bit(shift_bit(shift_bit(shift_bit(c))))))),
    )
}

/// The remainder after one more byte.
pub open spec fn crc_step(c: u32, b: u8) -> u32 {
    shift_byte(c ^ ((b as u32) << 16))
}

/// The CRC of `data`: the remainder of its bits, from an initial 0.
pub open spec fn crc24q(data: Seq<u8>) -> u32
    decreases data.len(),
{
    if data.len() == 0 {
        0
    } else {
        crc_step(crc24q(data.drop_last()), data.last())
    }
}

fn shift(c: u32) -> (r: u32)
    ensures
        r == shift_bit(c),
{
    if c & 0x0080_0000 != 0 {
        ((c << 1) ^ POLY) & 0x00ff_ffff
    } else {
        (c << 1) & 0x00ff_ffff
    }
}

/// The remainders of all bytes.
fn make_table() -> (t: Vec<u32>)
    ensures
        t@.len() == 256,
        forall|i: int| 0 <= i < 256 ==> #[trigger] t@[i] == shift_byte((i as u32) << 16),
{
    let mut t: Vec<u32> = Vec::new();
    let mut i: u32 = 0;
    while i < 256
        invariant
            i <= 256,
            t@.len() == i,
            forall|j: int| 0 <= j < i ==> #[trigger] t@[j] == shift_byte((j as u32) << 16),
        decreases 256 - i,
    {
        let c: u32 = i << 16;
        t.push(shift(shift(shift(shift(shift(shift(shift(shift(c)))))))));
        i += 1;
    }
    t
}

/// A table of the remainders of bytes takes the division eight bits further at
/// once.
proof fn lemma_table_step(c: u32, b: u8)
    requires
        c <= 0x00ff_ffff,
    ensures
        ({
            let top = (c >> 16) as u8;
            ((c << 8) & 0x00ff_ffff) ^ shift_byte(((b ^ top) as u32) << 16) == crc_step(c, b)
        }),
        crc_step(c, b) <= 0x00ff_ffff,
{
    let top = (c >> 16) as u8;
    assert(((c << 8) & 0x00ff_ffff) ^ shift_byte(((b ^ top) as u32) << 16) == shift_byte(
        c ^ ((b as u32) << 16),
    )) by (bit_vector)
        requires
            c <= 0x00ff_ffff,
            top == (c >> 16) as u8,
    ;
    let last = shift_bit(
        shift_bit(
            shift_bit(shift_bit(shift_bit(shift_bit(shift_bit(c ^ ((b as u32) << 16)))))),
        ),
    );
    assert(shift_bit(last) <= 0x00ff_ffff) by (bit_vector);
}

/// CRC-24Q over `data`.
pub fn checksum(data: &[u8]) -> (r: u32)
    ensures
        r == crc24q(data@),
        r <= 0x00ff_ffff,
{
    let table = make_table();
    let mut crc: u32 = 0;
    let mut i: usize = 0;
    while i < data.len()
        invariant
            i <= data@.len(),
            table@.len() == 256,
            forall|j: int|
                0 <= j < 256 ==> #[trigger] table@[j] == shift_byte((j as u32) << 16),
            crc == crc24q(data@.take(i as int)),
            crc <= 0x00ff_ffff,
        decreases data@.len() - i,
    {
        let b: u8 = data[i];
        let top: u8 = (crc >> 16) as u8;
        proof {
            lemma_table_step(crc, b);
            assert(data@.take(i + 1).drop_last() =~= data@.take(i as int));
        }
        crc = ((crc << 8) & 0x00ff_ffff) ^ table[(b ^ top) as usize];
        i += 1;
    }
    assert(data@.take(i as int) =~= data@);
    crc
}

} // verus!
