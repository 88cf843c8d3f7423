//! Little-endian integers of a fixed width.

use vstd::prelude::*;

verus! {

/// The number of values that `n` bytes can take.
pub open spec fn pow256(n: nat) -> nat
    decreases n,
{
    if n == 0 {
        1
    } else {
        256 * pow256((n - 1) as nat)
    }
}

/// The `n` low bytes of `x`, the least significant first.
pub open spec fn le(x: nat, n: nat) -> Seq<u8>
    decreases n,
{
    if n == 0 {
        Seq::empty()
    } else {
        seq![(x % 256) as u8] + le(x / 256, (n - 1) as nat)
    }
}

/// The number whose bytes are `s`, the least significant first.
pub open spec fn un_le(s: Seq<u8>) -> nat
    decreases s.len(),
{
    if s.len() == 0 {
        0
    } else {
        s[0] as nat + 256 * un_le(s.drop_first())
    }
}

/// `s` with the bytes from `at` on replaced by `t`.
pub open spec fn overwrite(s: Seq<u8>, at: int, t: Seq<u8>) -> Seq<u8> {
    Seq::new(s.len(), |i: int| if at <= i < at + t.len() { t[i - at] } else { s[i] })
}

pub broadcast proof fn lemma_le_len(x: nat, n: nat)
    ensures
        #[trigger] le(x, n).len() == n,
    decreases n,
{
    if n > 0 {
        lemma_le_len(x / 256, (n - 1) as nat);
    }
}

pub proof fn lemma_pow256()
    ensures
        pow256(0) == 1,
        pow256(1) == 256,
        pow256(2) == 0x1_0000,
        pow256(4) == 0x1_0000_0000,
        pow256(8) == 0x1_0000_0000_0000_0000,
{
    reveal_with_fuel(pow256, 9);
}

pub proof fn lemma_un_le_bound(s: Seq<u8>)
    ensures
        un_le(s) < pow256(s.len()),
    decreases s.len(),
{
    if s.len() > 0 {
        lemma_un_le_bound(s.drop_first());
    }
}

/// Reading back what was written gives the number, if it fits.
pub proof fn lemma_un_le_le(x: nat, n: nat)
    requires
        x < pow256(n),
    ensures
        un_le(le(x, n)) == x,
    decreases n,
{
    lemma_le_len(x, n);
    if n > 0 {
        lemma_un_le_le(x / 256, (n - 1) as nat);
        assert(le(x, n).drop_first() =~= le(x / 256, (n - 1) as nat));
    }
}

/// Writing what was read gives the bytes.
pub proof fn lemma_le_un_le(s: Seq<u8>)
    ensures
        le(un_le(s), s.len()) == s,
    decreases s.len(),
{
    if s.len() > 0 {
        lemma_le_un_le(s.drop_first());
        assert(un_le(s) % 256 == s[0] as nat);
        assert(un_le(s) / 256 == un_le(s.drop_first()));
        assert(seq![s[0]] + s.drop_first() =~= s);
    } else {
        assert(le(un_le(s), 0) =~= s);
    }
}

/// Appends the `n` low bytes of `x`.
pub fn put_le(out: &mut Vec<u8>, x: u64, n: usize)
    ensures
        final(out)@ == old(out)@ + le(x as nat, n as nat),
{
    let mut rest: u64 = x;
    let mut left: usize = n;
    proof {
        assert(old(out)@ + le(x as nat, n as nat) =~= out@ + le(rest as nat, left as nat));
    }
    while left > 0
        invariant
            out@ + le(rest as nat, left as nat) == old(out)@ + le(x as nat, n as nat),
        decreases left,
    {
        let ghost before = out@;
        out.push((rest % 256) as u8);
        proof {
            assert(out@ + le(rest as nat / 256, (left - 1) as nat) =~= before + le(
                rest as nat,
                left as nat,
            ));
        }
        rest = rest / 256;
        left = left - 1;
    }
    proof {
        assert(out@ + le(rest as nat, 0) =~= out@);
    }
}

/// Reads the `n` bytes at `at` as a number.
pub fn get_le(data: &[u8], at: usize, n: usize) -> (x: u64)
    requires
        n <= 8,
        at + n <= data@.len(),
    ensures
        x == un_le(data@.subrange(at as int, at + n)),
{
    let mut acc: u64 = 0;
    let mut i: usize = n;
    let total: usize = data.len();
    proof {
        lemma_pow256();
    }
    assert(data@.subrange(at + n, at + n) =~= Seq::empty());
    while i > 0
        invariant
            i <= n <= 8,
            at + n <= total == data@.len(),
            acc == un_le(data@.subrange(at + i, at + n)),
        decreases i,
    {
        i = i - 1;
        proof {
            let tail = data@.subrange(at + i, at + n);
            assert(tail.drop_first() =~= data@.subrange(at + i + 1, at + n));
            lemma_un_le_bound(tail.drop_first());
            lemma_un_le_bound(tail);
            reveal_with_fuel(pow256, 9);
        }
        acc = acc * 256 + data[at + i] as u64;
    }
    acc
}

/// Writes the `n` low bytes of `x` at `at`.
pub fn set_le(data: &mut Vec<u8>, at: usize, x: u64, n: usize)
    requires
        at + n <= old(data)@.len(),
    ensures
        final(data)@ == overwrite(old(data)@, at as int, le(x as nat, n as nat)),
{
    let mut bytes: Vec<u8> = Vec::new();
    put_le(&mut bytes, x, n);
    proof {
        lemma_le_len(x as nat, n as nat);
        assert(bytes@ =~= le(x as nat, n as nat));
    }
    set_bytes(data, at, &bytes);
}

/// Writes `bytes` at `at`.
pub fn set_bytes(data: &mut Vec<u8>, at: usize, bytes: &[u8])
    requires
        at + bytes@.len() <= old(data)@.len(),
    ensures
        final(data)@ == overwrite(old(data)@, at as int, bytes@),
{
    let mut i: usize = 0;
    let total: usize = data.len();
    while i < bytes.len()
        invariant
            i <= bytes@.len(),
            at + bytes@.len() <= total == data@.len(),
            data@.len() == old(data)@.len(),
            data@ == overwrite(old(data)@, at as int, bytes@.take(i as int)),
        decreases bytes@.len() - i,
    {
        data.set(at + i, bytes[i]);
        i = i + 1;
        assert(data@ =~= overwrite(old(data)@, at as int, bytes@.take(i as int)));
    }
    assert(bytes@.take(i as int) =~= bytes@);
}

/// Appends `bytes`.
pub fn put_bytes(out: &mut Vec<u8>, bytes: &[u8])
    ensures
        final(out)@ == old(out)@ + bytes@,
{
    out.extend_from_slice(bytes);
    assert(out@ =~= old(out)@ + bytes@);
}

/// The bytes of `data` from `from` to `to`, copied.
pub fn copy_range(data: &[u8], from: usize, to: usize) -> (out: Vec<u8>)
    requires
        from <= to <= data@.len(),
    ensures
        out@ == data@.subrange(from as int, to as int),
{
    vstd::slice::slice_to_vec(vstd::slice::slice_subrange(data, from, to))
}

/// Whether two byte strings are equal.
pub fn same_bytes(a: &[u8], b: &[u8]) -> (same: bool)
    ensures
        same == (a@ == b@),
{
    if a.len() != b.len() {
        return false;
    }
    let mut i: usize = 0;
    while i < a.len()
        invariant
            i <= a@.len() == b@.len(),
            a@.take(i as int) == b@.take(i as int),
        decreases a@.len() - i,
    {
        if a[i] != b[i] {
            assert(a@[i as int] != b@[i as int]);
            return false;
        }
        assert(a@.take(i + 1) =~= a@.take(i as int).push(a@[i as int]));
        assert(b@.take(i + 1) =~= b@.take(i as int).push(b@[i as int]));
        i = i + 1;
    }
    assert(a@.take(i as int) =~= a@);
    assert(b@.take(i as int) =~= b@);
    true
}

} // verus!
