//! Integers as decimal text: the form in which a creation time stands in an
//! index key and in a stored record.

use vstd::prelude::*;
use crate::text::push_char;

verus! {

/// Whether `c` is one of the ten decimal digits.
pub open spec fn is_digit(c: char) -> bool {
    '0' <= c && c <= '9'
}

/// The digit character for `d`, where `0 <= d <= 9`.
pub open spec fn digit_char(d: int) -> char {
    ((48 + d) as u8) as char
}

/// The value of the digit character `c`.
pub open spec fn digit_value(c: char) -> int {
    c as int - 48
}

/// The decimal digits of `n`, most significant first, without leading zeros.
pub open spec fn digits(n: nat) -> Seq<char>
    decreases n,
{
    if n < 10 {
        seq![digit_char(n as int)]
    } else {
        digits(n / 10).push(digit_char((n % 10) as int))
    }
}

/// The decimal text of `n`: its digits, after a minus sign where `n` is negative.
pub open spec fn decimal(n: int) -> Seq<char> {
    if n < 0 {
        seq!['-'] + digits((-n) as nat)
    } else {
        digits(n as nat)
    }
}

/// The position after the longest run of digits of `s` that starts at `i`.
pub open spec fn digits_end(s: Seq<char>, i: int) -> int
    decreases s.len() - i,
{
    if 0 <= i < s.len() && is_digit(s[i]) {
        digits_end(s, i + 1)
    } else {
        i
    }
}

/// The number that the digits of `s` from `i` up to `j` spell.
pub open spec fn digits_number(s: Seq<char>, i: int, j: int) -> nat
    decreases j - i,
{
    if j <= i {
        0
    } else {
        (digits_number(s, i, j - 1) * 10 + digit_value(s[j - 1])) as nat
    }
}

/// Reads a natural number in canonical decimal form at position `i` of `s`:
/// the longest run of digits there, which must not be empty and must not
/// start with a zero unless it is the single digit zero. Gives the number and
/// the position after it.
pub open spec fn read_nat(s: Seq<char>, i: int) -> Option<(nat, int)> {
    let j = digits_end(s, i);
    if 0 <= i < j && (s[i] != '0' || j == i + 1) {
        Some((digits_number(s, i, j), j))
    } else {
        None
    }
}

/// Reads an unsigned 64-bit integer in canonical decimal form at position `i`.
pub open spec fn read_u64(s: Seq<char>, i: int) -> Option<(u64, int)> {
    match read_nat(s, i) {
        Some((n, j)) => if n <= u64::MAX { Some((n as u64, j)) } else { None },
        None => None,
    }
}

/// Reads a signed 64-bit integer in canonical decimal form at position `i`: a
/// canonical natural number, or a minus sign and a canonical natural number
/// that is not zero.
pub open spec fn read_i64(s: Seq<char>, i: int) -> Option<(i64, int)> {
    if 0 <= i < s.len() && s[i] == '-' {
        match read_nat(s, i + 1) {
            Some((n, j)) => if 0 < n <= 0x8000_0000_0000_0000 { Some(((-(n as int)) as i64, j)) } else { None },
            None => None,
        }
    } else {
        match read_nat(s, i) {
            Some((n, j)) => if n <= i64::MAX { Some((n as i64, j)) } else { None },
            None => None,
        }
    }
}

/// Every character of `digits(n)` is a digit, and the first is a zero only
/// where `n` is zero.
pub proof fn lemma_digits_shape(n: nat)
    ensures
        digits(n).len() >= 1,
        forall|k: int| 0 <= k < digits(n).len() ==> is_digit(#[trigger] digits(n)[k]),
        digits(n)[0] == '0' <==> n == 0,
        n < 10 <==> digits(n).len() == 1,
    decreases n,
{
    if n >= 10 {
        lemma_digits_shape(n / 10);
    }
}

/// The digit run that starts at `i` ends at `j` when every character from `i`
/// up to `j` is a digit and the one at `j`, if any, is not.
pub proof fn lemma_digits_end(s: Seq<char>, i: int, j: int)
    requires
        0 <= i <= j <= s.len(),
        forall|k: int| i <= k < j ==> is_digit(#[trigger] s[k]),
        j == s.len() || !is_digit(s[j]),
    ensures
        digits_end(s, i) == j,
    decreases j - i,
{
    if i < j {
        lemma_digits_end(s, i + 1, j);
    }
}

/// The digit run that starts at `i` holds digits only, and stops at the end of
/// `s` or before a character that is no digit.
pub proof fn lemma_digits_end_is_run(s: Seq<char>, i: int)
    requires
        0 <= i <= s.len(),
    ensures
        i <= digits_end(s, i) <= s.len(),
        forall|k: int| i <= k < digits_end(s, i) ==> is_digit(#[trigger] s[k]),
        digits_end(s, i) == s.len() || !is_digit(s[digits_end(s, i)]),
    decreases s.len() - i,
{
    if i < s.len() && is_digit(s[i]) {
        lemma_digits_end_is_run(s, i + 1);
    }
}

/// The digits of `n`, found in `s` from `i` on, spell `n`.
pub proof fn lemma_digits_number(s: Seq<char>, i: int, n: nat)
    requires
        0 <= i,
        i + digits(n).len() <= s.len(),
        s.subrange(i, i + digits(n).len()) == digits(n),
    ensures
        digits_number(s, i, i + digits(n).len()) == n,
    decreases n,
{
    let t = digits(n);
    let j = i + t.len();
    assert(s[j - 1] == s.subrange(i, j)[t.len() - 1]);
    if n < 10 {
        assert(digits_number(s, i, i) == 0);
        assert(digits_number(s, i, i + 1) == digits_number(s, i, i) * 10 + digit_value(s[i]));
    } else {
        let head = digits(n / 10);
        assert(s.subrange(i, i + head.len()) =~= t.subrange(0, head.len() as int));
        assert(t.subrange(0, head.len() as int) =~= head);
        lemma_digits_number(s, i, n / 10);
    }
}

/// A run of digits that does not start with a zero spells a number that is
/// not zero; any run spells a number that grows with the run.
pub proof fn lemma_number_grows(s: Seq<char>, i: int, j: int, k: int)
    requires
        0 <= i <= j <= k <= s.len(),
        forall|m: int| i <= m < k ==> is_digit(#[trigger] s[m]),
    ensures
        digits_number(s, i, j) <= digits_number(s, i, k),
        i < j && s[i] != '0' ==> digits_number(s, i, j) > 0,
    decreases k - i, k - j,
{
    if j < k {
        lemma_number_grows(s, i, j, k - 1);
        assert(is_digit(s[k - 1]));
        assert(digits_number(s, i, k) == digits_number(s, i, k - 1) * 10 + digit_value(s[k - 1]));
    } else if i < j {
        assert(is_digit(s[j - 1]));
        assert(digits_number(s, i, j) == digits_number(s, i, j - 1) * 10 + digit_value(s[j - 1]));
        if i < j - 1 {
            lemma_number_grows(s, i, j - 1, j - 1);
        } else {
            assert(digits_number(s, i, i) == 0);
        }
    }
}

/// A canonical run of digits is the decimal form of the number it spells.
pub proof fn lemma_number_digits(s: Seq<char>, i: int, j: int)
    requires
        0 <= i < j <= s.len(),
        forall|m: int| i <= m < j ==> is_digit(#[trigger] s[m]),
        s[i] != '0' || j == i + 1,
    ensures
        digits(digits_number(s, i, j)) == s.subrange(i, j),
    decreases j - i,
{
    assert(is_digit(s[j - 1]));
    assert(is_digit(s[i]));
    assert(digits_number(s, i, j) == digits_number(s, i, j - 1) * 10 + digit_value(s[j - 1]));
    if j == i + 1 {
        assert(digits_number(s, i, i) == 0);
        assert(digits_number(s, i, j) == digit_value(s[i]));
        assert(digits(digits_number(s, i, j)) == seq![digit_char(digit_value(s[i]))]);
        assert(digits(digits_number(s, i, j)) =~= s.subrange(i, j));
    } else {
        lemma_number_grows(s, i, j - 1, j - 1);
        lemma_number_digits(s, i, j - 1);
        let head = digits_number(s, i, j - 1);
        let whole = digits_number(s, i, j);
        assert(whole == head * 10 + digit_value(s[j - 1]));
        assert(whole / 10 == head && whole % 10 == digit_value(s[j - 1]));
        assert(whole >= 10);
        assert(digits(whole) == digits(head).push(digit_char(digit_value(s[j - 1]))));
        assert(digits(whole) =~= s.subrange(i, j - 1).push(s[j - 1]));
        assert(s.subrange(i, j - 1).push(s[j - 1]) =~= s.subrange(i, j));
    }
}

/// Reading back the decimal form of `n`: where the digits of `n` stand in `s`
/// from `i` on and no digit follows them, `read_nat` gives `n`.
pub proof fn lemma_read_nat_of_digits(s: Seq<char>, i: int, n: nat)
    requires
        0 <= i,
        i + digits(n).len() <= s.len(),
        s.subrange(i, i + digits(n).len()) == digits(n),
        i + digits(n).len() == s.len() || !is_digit(s[i + digits(n).len()]),
    ensures
        read_nat(s, i) == Some((n, i + digits(n).len())),
{
    let t = digits(n);
    let j = i + t.len();
    lemma_digits_shape(n);
    assert forall|k: int| i <= k < j implies is_digit(#[trigger] s[k]) by {
        assert(s[k] == s.subrange(i, j)[k - i]);
    }
    lemma_digits_end(s, i, j);
    lemma_digits_number(s, i, n);
    assert(s[i] == s.subrange(i, j)[0]);
}

/// What `read_nat` accepts is canonical: the text it read is the decimal form
/// of the number it gives.
pub proof fn lemma_read_nat_canonical(s: Seq<char>, i: int)
    requires
        read_nat(s, i) is Some,
    ensures
        ({
            let (n, j) = read_nat(s, i)->0;
            &&& 0 <= i < j <= s.len()
            &&& s.subrange(i, j) == digits(n)
            &&& j == s.len() || !is_digit(s[j])
        }),
{
    lemma_digits_end_is_run(s, i);
    lemma_number_digits(s, i, digits_end(s, i));
}

/// Reading back what was written: where the decimal text of `n` stands in
/// `s` from `i` on and no digit follows it, `read_u64` gives `n`.
pub proof fn lemma_read_u64_of_digits(s: Seq<char>, i: int, n: u64)
    requires
        0 <= i,
        i + digits(n as nat).len() <= s.len(),
        s.subrange(i, i + digits(n as nat).len()) == digits(n as nat),
        i + digits(n as nat).len() == s.len() || !is_digit(s[i + digits(n as nat).len()]),
    ensures
        read_u64(s, i) == Some((n, i + digits(n as nat).len())),
{
    lemma_read_nat_of_digits(s, i, n as nat);
}

/// What `read_u64` accepts is the decimal text of the number it gives.
pub proof fn lemma_read_u64_canonical(s: Seq<char>, i: int)
    requires
        read_u64(s, i) is Some,
    ensures
        ({
            let (n, j) = read_u64(s, i)->0;
            &&& 0 <= i < j <= s.len()
            &&& s.subrange(i, j) == digits(n as nat)
            &&& j == s.len() || !is_digit(s[j])
        }),
{
    lemma_read_nat_canonical(s, i);
}

/// Reading back what was written: where the decimal text of `n` stands in
/// `s` from `i` on and no digit follows it, `read_i64` gives `n`.
pub proof fn lemma_read_i64_of_decimal(s: Seq<char>, i: int, n: i64)
    requires
        0 <= i,
        i + decimal(n as int).len() <= s.len(),
        s.subrange(i, i + decimal(n as int).len()) == decimal(n as int),
        i + decimal(n as int).len() == s.len() || !is_digit(s[i + decimal(n as int).len()]),
    ensures
        read_i64(s, i) == Some((n, i + decimal(n as int).len())),
{
    let t = decimal(n as int);
    assert(s[i] == s.subrange(i, i + t.len())[0]);
    if n < 0 {
        let m = (-(n as int)) as nat;
        lemma_digits_shape(m);
        assert(s.subrange(i + 1, i + 1 + digits(m).len()) =~= t.subrange(1, t.len() as int));
        assert(t.subrange(1, t.len() as int) =~= digits(m));
        lemma_read_nat_of_digits(s, i + 1, m);
    } else {
        lemma_digits_shape(n as nat);
        lemma_read_nat_of_digits(s, i, n as nat);
    }
}

/// What `read_i64` accepts is the decimal text of the number it gives.
pub proof fn lemma_read_i64_canonical(s: Seq<char>, i: int)
    requires
        read_i64(s, i) is Some,
    ensures
        ({
            let (n, j) = read_i64(s, i)->0;
            &&& 0 <= i < j <= s.len()
            &&& s.subrange(i, j) == decimal(n as int)
            &&& j == s.len() || !is_digit(s[j])
        }),
{
    let (n, j) = read_i64(s, i)->0;
    if s[i] == '-' {
        lemma_read_nat_canonical(s, i + 1);
        assert(s.subrange(i, j) =~= seq!['-'] + s.subrange(i + 1, j));
    } else {
        lemma_read_nat_canonical(s, i);
    }
}

/// The digit character for `d`.
pub fn digit_of(d: u8) -> (c: char)
    requires
        d < 10,
    ensures
        c == digit_char(d as int),
        is_digit(c),
        digit_value(c) == d,
{
    (48u8 + d) as char
}

/// Appends the decimal digits of `n` to `out`.
pub fn push_digits(out: &mut String, n: u64)
    ensures
        final(out)@ == old(out)@ + digits(n as nat),
    decreases n,
{
    if n >= 10 {
        push_digits(out, n / 10);
    }
    let d: u8 = (n % 10) as u8;
    push_char(out, digit_of(d));
    assert(out@ =~= old(out)@ + digits(n as nat));
}

/// Appends the decimal text of `n` to `out`.
pub fn push_decimal(out: &mut String, n: i64)
    ensures
        final(out)@ == old(out)@ + decimal(n as int),
{
    if n < 0 {
        push_char(out, '-');
        let magnitude: u64 = if n == i64::MIN {
            0x8000_0000_0000_0000u64
        } else {
            (-n) as u64
        };
        push_digits(out, magnitude);
        assert(out@ =~= old(out)@ + decimal(n as int));
    } else {
        push_digits(out, n as u64);
    }
}

/// Whether `c` is a decimal digit.
pub fn is_digit_char(c: char) -> (yes: bool)
    ensures
        yes == is_digit(c),
{
    let v: u32 = c as u32;
    48 <= v && v <= 57
}

/// Reads an unsigned 64-bit integer in canonical decimal form at position `i`
/// of `s`, and gives it with the position after it.
pub fn parse_u64(s: &Vec<char>, i: usize) -> (read: Option<(u64, usize)>)
    requires
        i <= s@.len(),
    ensures
        match read {
            Some((n, j)) => read_u64(s@, i as int) == Some((n, j as int)),
            None => read_u64(s@, i as int) is None,
        },
{
    let len: usize = s.len();
    proof {
        lemma_digits_end_is_run(s@, i as int);
    }
    if i >= len || !is_digit_char(s[i]) {
        return None;
    }
    let ghost end = digits_end(s@, i as int);
    let mut value: u64 = 0;
    let mut j: usize = i;
    assert(digits_number(s@, i as int, i as int) == 0);
    while j < len && is_digit_char(s[j])
        invariant
            i <= j <= end <= len,
            len == s@.len(),
            end == digits_end(s@, i as int),
            forall|k: int| i <= k < end ==> is_digit(#[trigger] s@[k]),
            end == len || !is_digit(s@[end]),
            value == digits_number(s@, i as int, j as int),
        decreases len - j,
    {
        let d: u64 = (s[j] as u32 - 48) as u64;
        proof {
            lemma_number_grows(s@, i as int, j as int + 1, end);
            assert(digits_number(s@, i as int, j as int + 1) == value * 10 + d);
        }
        if value > (u64::MAX - d) / 10 {
            return None;
        }
        value = value * 10 + d;
        j = j + 1;
    }
    assert(j == end);
    if s[i] == '0' && j != i + 1 {
        return None;
    }
    Some((value, j))
}

/// Reads a signed 64-bit integer in canonical decimal form at position `i` of
/// `s`, and gives it with the position after it.
pub fn parse_i64(s: &Vec<char>, i: usize) -> (read: Option<(i64, usize)>)
    requires
        i <= s@.len(),
    ensures
        match read {
            Some((n, j)) => read_i64(s@, i as int) == Some((n, j as int)),
            None => read_i64(s@, i as int) is None,
        },
{
    if i < s.len() && s[i] == '-' {
        match parse_u64(s, i + 1) {
            Some((n, j)) => {
                if n == 0 || n > 0x8000_0000_0000_0000u64 {
                    None
                } else if n == 0x8000_0000_0000_0000u64 {
                    Some((i64::MIN, j))
                } else {
                    Some((-(n as i64), j))
                }
            },
            None => {
                proof {
                    // a number too large for 64 bits is too large here as well
                    if let Some((n, _)) = read_nat(s@, i as int + 1) {
                        assert(n > u64::MAX);
                    }
                }
                None
            },
        }
    } else {
        match parse_u64(s, i) {
            Some((n, j)) => {
                if n > 0x7fff_ffff_ffff_ffffu64 {
                    None
                } else {
                    Some((n as i64, j))
                }
            },
            None => None,
        }
    }
}

} // verus!
