//! Numbers as decimal text.

use vstd::prelude::*;
use vstd::string::StringExecFns;

verus! {

/// The character of a decimal digit.
pub open spec fn digit(d: nat) -> char {
    (48 + d) as char
}

/// The decimal text of a number, without leading zeros.
pub open spec fn decimal(n: nat) -> Seq<char>
    decreases n,
{
    if n < 10 {
        seq![digit(n)]
    } else {
        decimal(n / 10).push(digit(n % 10))
    }
}

/// The `width` low decimal digits of a number, with leading zeros.
pub open spec fn padded(n: nat, width: nat) -> Seq<char>
    decreases width,
{
    if width == 0 {
        Seq::empty()
    } else {
        padded(n / 10, (width - 1) as nat).push(digit(n % 10))
    }
}

/// The value of a run of decimal digits, or `None` if a character is no digit.
pub open spec fn digits_value(s: Seq<char>) -> Option<nat>
    decreases s.len(),
{
    if s.len() == 0 {
        Some(0)
    } else {
        match digits_value(s.drop_last()) {
            Some(high) if '0' <= s.last() <= '9' => Some((high * 10 + (s.last() as int - 48)) as nat),
            _ => None,
        }
    }
}

/// The text of one digit.
fn digit_text(d: u64) -> (s: &'static str)
    requires
        d < 10,
    ensures
        s@ == seq![digit(d as nat)],
{
    proof {
        reveal_strlit("0");
        reveal_strlit("1");
        reveal_strlit("2");
        reveal_strlit("3");
        reveal_strlit("4");
        reveal_strlit("5");
        reveal_strlit("6");
        reveal_strlit("7");
        reveal_strlit("8");
        reveal_strlit("9");
    }
    let s: &'static str = match d {
        0 => "0",
        1 => "1",
        2 => "2",
        3 => "3",
        4 => "4",
        5 => "5",
        6 => "6",
        7 => "7",
        8 => "8",
        _ => "9",
    };
    assert(s@ =~= seq![digit(d as nat)]);
    s
}

/// Writes a number in decimal.
pub fn to_decimal(n: u64) -> (s: String)
    ensures
        s@ == decimal(n as nat),
    decreases n,
{
    if n < 10 {
        let mut s = String::new();
        s.append(digit_text(n));
        assert(s@ =~= decimal(n as nat));
        s
    } else {
        let mut s = to_decimal(n / 10);
        s.append(digit_text(n % 10));
        assert(s@ =~= decimal(n as nat));
        s
    }
}

/// Writes a number in decimal with leading zeros, `width` digits in all.
pub fn to_padded(n: u64, width: usize) -> (s: String)
    ensures
        s@ == padded(n as nat, width as nat),
    decreases width,
{
    if width == 0 {
        let s = String::new();
        assert(s@ =~= padded(n as nat, 0));
        s
    } else {
        let mut s = to_padded(n / 10, width - 1);
        s.append(digit_text(n % 10));
        assert(s@ =~= padded(n as nat, width as nat));
        s
    }
}

/// Joins two texts.
pub fn join(a: &str, b: &str) -> (s: String)
    ensures
        s@ == a@ + b@,
{
    let mut s = String::new();
    s.append(a);
    s.append(b);
    assert(s@ =~= a@ + b@);
    s
}

/// A label followed by a number, such as `entity 7`.
pub fn label(name: &str, n: u64) -> (s: String)
    ensures
        s@ == name@ + decimal(n as nat),
{
    join(name, to_decimal(n).as_str())
}

/// Whether a name is a number of 20 digits that fits, and which.
pub open spec fn named_number(name: Seq<char>) -> Option<u64> {
    if name.len() == 20 {
        match digits_value(name) {
            Some(n) => if n <= u64::MAX {
                Some(n as u64)
            } else {
                None
            },
            None => None,
        }
    } else {
        None
    }
}

/// Reads a number of exactly 20 digits.
pub fn parse_number(name: &str) -> (r: Option<u64>)
    ensures
        r == named_number(name@),
{
    let count: usize = name.unicode_len();
    if count != 20 {
        return None;
    }
    let mut n: u64 = 0;
    let mut i: usize = 0;
    proof {
        assert(name@.take(0) =~= Seq::empty());
    }
    while i < count
        invariant
            i <= count,
            count == name@.len(),
            count == 20,
            digits_value(name@.take(i as int)) == Some(n as nat),
        decreases count - i,
    {
        let c: char = name.get_char(i);
        proof {
            assert(name@.take(i + 1).drop_last() =~= name@.take(i as int));
            assert(name@.take(i + 1).last() == c);
        }
        let d: u32 = c as u32;
        if d < 48 || d > 57 {
            proof {
                lemma_digits_prefix(name@, i + 1);
                assert(name@.take(20) =~= name@);
            }
            return None;
        }
        let d: u64 = (d - 48) as u64;
        if n > u64::MAX / 10 || n * 10 > u64::MAX - d {
            proof {
                lemma_digits_prefix(name@, i + 1);
            }
            return None;
        }
        n = n * 10 + d;
        i = i + 1;
    }
    assert(name@.take(20) =~= name@);
    Some(n)
}

/// The front of a run of digits is one too, and of no greater value.
proof fn lemma_digits_prefix(s: Seq<char>, n: int)
    requires
        0 <= n <= s.len(),
    ensures
        digits_value(s) is Some ==> digits_value(s.take(n)) is Some && digits_value(
            s.take(n),
        ).unwrap() <= digits_value(s).unwrap(),
    decreases s.len(),
{
    if n == s.len() {
        assert(s.take(n) =~= s);
    } else {
        assert(s.drop_last().take(n) =~= s.take(n));
        lemma_digits_prefix(s.drop_last(), n);
    }
}

/// A number reads back from the name of its file.
pub proof fn lemma_number(n: u64)
    ensures
        named_number(padded(n as nat, 20)) == Some(n),
{
    lemma_padded(n as nat, 20);
    assert(ten(20) > u64::MAX) by {
        reveal_with_fuel(ten, 21);
    }
}

/// A power of ten.
spec fn ten(n: nat) -> nat
    decreases n,
{
    if n == 0 {
        1
    } else {
        10 * ten((n - 1) as nat)
    }
}

proof fn lemma_padded(n: nat, width: nat)
    ensures
        padded(n, width).len() == width,
        digits_value(padded(n, width)) is Some,
        n < ten(width) ==> digits_value(padded(n, width)) == Some(n),
    decreases width,
{
    if width > 0 {
        let w = (width - 1) as nat;
        lemma_padded(n / 10, w);
        let s = padded(n, width);
        assert(s.drop_last() =~= padded(n / 10, w));
        assert(s.last() == digit(n % 10));
    }
}

} // verus!
