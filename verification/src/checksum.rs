//! CRC-32C, the Castagnoli checksum.

use vstd::prelude::*;

verus! {

/// One step of the division by the reflected Castagnoli polynomial.
pub open spec fn shift_bit(value: u32) -> u32 {
    if value & 1 == 1 {
        (value >> 1) ^ 0x82f6_3b78u32
    } else {
        value >> 1
    }
}

/// Four steps of the division.
pub open spec fn shift_nibble(value: u32) -> u32 {
    shift_bit(shift_bit(shift_bit(shift_bit(value))))
}

/// Eight steps of the division: what one byte takes.
pub open spec fn shift_byte(value: u32) -> u32 {
    shift_nibble(shift_nibble(value))
}

/// The remainder after the bytes `s`, from the remainder `state`.
pub open spec fn remainder(state: u32, s: Seq<u8>) -> u32
    decreases s.len(),
{
    if s.len() == 0 {
        state
    } else {
        shift_byte(remainder(state, s.drop_last()) ^ (s.last() as u32))
    }
}

/// The CRC-32C of `s`.
pub open spec fn crc(s: Seq<u8>) -> u32 {
    !remainder(0xffff_ffff, s)
}

/// The remainder after two pieces is the remainder of the second after the first.
pub proof fn lemma_remainder_concat(state: u32, a: Seq<u8>, b: Seq<u8>)
    ensures
        remainder(state, a + b) == remainder(remainder(state, a), b),
    decreases b.len(),
{
    if b.len() == 0 {
        assert(a + b =~= a);
    } else {
        assert((a + b).drop_last() =~= a + b.drop_last());
        lemma_remainder_concat(state, a, b.drop_last());
    }
}

proof fn lemma_shift_injective(a: u32, b: u32)
    requires
        shift_byte(a) == shift_byte(b),
    ensures
        a == b,
{
    assert(forall|x: u32, y: u32| #[trigger] shift_bit(x) == #[trigger] shift_bit(y) ==> x == y)
        by (bit_vector);
}

proof fn lemma_xor_injective(r: u32, q: u32, x: u8, y: u8)
    ensures
        r ^ (x as u32) == r ^ (y as u32) ==> x == y,
        r ^ (x as u32) == q ^ (x as u32) ==> r == q,
{
    assert(r ^ (x as u32) == r ^ (y as u32) ==> x == y) by (bit_vector);
    assert(r ^ (x as u32) == q ^ (x as u32) ==> r == q) by (bit_vector);
}

proof fn lemma_changed_remainder(state: u32, s: Seq<u8>, at: int, x: u8)
    requires
        0 <= at < s.len(),
        x != s[at],
    ensures
        remainder(state, s.update(at, x)) != remainder(state, s),
    decreases s.len(),
{
    let t = s.update(at, x);
    let r = remainder(state, s.drop_last());
    let q = remainder(state, t.drop_last());
    if at == s.len() - 1 {
        assert(t.drop_last() =~= s.drop_last());
        lemma_xor_injective(r, q, s.last(), x);
    } else {
        assert(t.drop_last() =~= s.drop_last().update(at, x));
        lemma_changed_remainder(state, s.drop_last(), at, x);
        lemma_xor_injective(r, q, s.last(), x);
    }
    if remainder(state, t) == remainder(state, s) {
        lemma_shift_injective(q ^ (t.last() as u32), r ^ (s.last() as u32));
    }
}

/// Changing one byte changes the checksum.
pub proof fn lemma_changed_byte(s: Seq<u8>, at: int, x: u8)
    requires
        0 <= at < s.len(),
        x != s[at],
    ensures
        crc(s.update(at, x)) != crc(s),
{
    lemma_changed_remainder(0xffff_ffff, s, at, x);
    let r = remainder(0xffff_ffff, s);
    let q = remainder(0xffff_ffff, s.update(at, x));
    assert(r != q ==> !r != !q) by (bit_vector);
}

/// The remainders that four bits leave.
pub const TABLE: [u32; 16] = [
    0x0000_0000, 0x105e_c76f, 0x20bd_8ede, 0x30e3_49b1,
    0x417b_1dbc, 0x5125_dad3, 0x61c6_9362, 0x7198_540d,
    0x82f6_3b78, 0x92a8_fc17, 0xa24b_b5a6, 0xb215_72c9,
    0xc38d_26c4, 0xd3d3_e1ab, 0xe330_a81a, 0xf36e_6f75,
];

/// The entries of [`TABLE`] as a function.
spec fn table_entry(i: u32) -> u32 {
    if i == 0 {
        0x0000_0000u32
    } else if i == 1 {
        0x105e_c76fu32
    } else if i == 2 {
        0x20bd_8edeu32
    } else if i == 3 {
        0x30e3_49b1u32
    } else if i == 4 {
        0x417b_1dbcu32
    } else if i == 5 {
        0x5125_dad3u32
    } else if i == 6 {
        0x61c6_9362u32
    } else if i == 7 {
        0x7198_540du32
    } else if i == 8 {
        0x82f6_3b78u32
    } else if i == 9 {
        0x92a8_fc17u32
    } else if i == 10 {
        0xa24b_b5a6u32
    } else if i == 11 {
        0xb215_72c9u32
    } else if i == 12 {
        0xc38d_26c4u32
    } else if i == 13 {
        0xd3d3_e1abu32
    } else if i == 14 {
        0xe330_a81au32
    } else {
        0xf36e_6f75u32
    }
}

proof fn lemma_table()
    ensures
        forall|i: int| 0 <= i < 16 ==> #[trigger] TABLE[i] == shift_nibble(i as u32),
{
    assert(forall|i: u32| i < 16 ==> table_entry(i) == shift_nibble(i)) by (bit_vector);
    assert forall|i: int| 0 <= i < 16 implies #[trigger] TABLE[i] == shift_nibble(i as u32) by {
        assert(TABLE[i] == table_entry(i as u32));
    }
}

/// Divides out four bits.
fn reduce_nibble(value: u32) -> (rest: u32)
    ensures
        rest == shift_nibble(value),
{
    let low: u32 = value & 15;
    let high: u32 = value >> 4;
    proof {
        lemma_table();
        assert(low < 16) by (bit_vector)
            requires
                low == value & 15,
        ;
        assert(shift_nibble(low) ^ high == shift_nibble(value)) by (bit_vector)
            requires
                low == value & 15,
                high == value >> 4,
        ;
    }
    TABLE[low as usize] ^ high
}

/// A running CRC-32C.
pub struct Checksum(u32);

impl Checksum {
    /// The remainder so far.
    pub closed spec fn state(self) -> u32 {
        self.0
    }

    /// Starts a checksum.
    pub fn new() -> (sum: Self)
        ensures
            sum.state() == 0xffff_ffffu32,
    {
        Checksum(0xffff_ffff)
    }

    /// Adds bytes to the checksum.
    pub fn update(&mut self, bytes: &[u8])
        ensures
            final(self).state() == remainder(old(self).state(), bytes@),
    {
        let mut i: usize = 0;
        assert(bytes@.take(0) =~= Seq::empty());
        while i < bytes.len()
            invariant
                i <= bytes@.len(),
                self.0 == remainder(old(self).0, bytes@.take(i as int)),
            decreases bytes@.len() - i,
        {
            let mixed: u32 = self.0 ^ (bytes[i] as u32);
            assert(bytes@.take(i + 1).drop_last() =~= bytes@.take(i as int));
            self.0 = reduce_nibble(reduce_nibble(mixed));
            i = i + 1;
        }
        assert(bytes@.take(i as int) =~= bytes@);
    }

    /// The checksum of the bytes added.
    pub fn finish(self) -> (sum: u32)
        ensures
            sum == !self.state(),
    {
        !self.0
    }
}

/// The CRC-32C of a byte string.
pub fn crc32c(bytes: &[u8]) -> (sum: u32)
    ensures
        sum == crc(bytes@),
{
    let mut checksum = Checksum::new();
    checksum.update(bytes);
    checksum.finish()
}

} // verus!
