//! Numbers as text: decimal and hexadecimal digits, and reading them back.

use vstd::prelude::*;

verus! {

/// The character of a digit below 16, in lower case.
pub open spec fn digit_char(d: nat) -> char {
    if d < 10 {
        (48 + d) as char
    } else {
        (87 + d) as char
    }
}

/// The decimal digits of `n`, without leading zeros.
pub open spec fn decimal(n: nat) -> Seq<char>
    decreases n,
{
    if n < 10 {
        seq![digit_char(n)]
    } else {
        decimal(n / 10).push(digit_char(n % 10))
    }
}

/// The decimal digits of `n`, filled with zeros on the left up to `width`.
pub open spec fn zero_padded(n: nat, width: nat) -> Seq<char> {
    let digits = decimal(n);
    if digits.len() >= width {
        digits
    } else {
        Seq::new((width - digits.len()) as nat, |i: int| '0') + digits
    }
}

/// The last `width` hexadecimal digits of `n`.
pub open spec fn hex_fixed(n: nat, width: nat) -> Seq<char>
    decreases width,
{
    if width == 0 {
        Seq::empty()
    } else {
        hex_fixed(n / 16, (width - 1) as nat).push(digit_char(n % 16))
    }
}

/// The value of a character as a digit in `radix` (10 or 16).
pub open spec fn digit_value(c: char, radix: nat) -> Option<nat> {
    if '0' <= c <= '9' {
        Some((c as int - 48) as nat)
    } else if radix == 16 && 'a' <= c <= 'f' {
        Some((c as int - 87) as nat)
    } else if radix == 16 && 'A' <= c <= 'F' {
        Some((c as int - 55) as nat)
    } else {
        None
    }
}

/// The number that a run of digits writes in `radix`; `None` if a character
/// is no digit.
pub open spec fn digits_value(s: Seq<char>, radix: nat) -> Option<nat>
    decreases s.len(),
{
    if s.len() == 0 {
        Some(0)
    } else {
        match (digits_value(s.drop_last(), radix), digit_value(s.last(), radix)) {
            (Some(v), Some(d)) => Some(v * radix + d),
            _ => None,
        }
    }
}

/// The number at most `limit` that `s` writes in `radix`: an optional `+`
/// and at least one digit, nothing else.
pub open spec fn parse_number(s: Seq<char>, radix: nat, limit: nat) -> Option<nat> {
    let body = if s.len() > 0 && s[0] == '+' {
        s.skip(1)
    } else {
        s
    };
    match digits_value(body, radix) {
        Some(v) => if body.len() > 0 && v <= limit {
            Some(v)
        } else {
            None
        },
        None => None,
    }
}

/// Whether two strings hold the same characters.
pub fn str_eq(a: &str, b: &str) -> (r: bool)
    ensures
        r == (a@ == b@),
{
    let n: usize = a.unicode_len();
    if n != b.unicode_len() {
        return false;
    }
    let mut i: usize = 0;
    while i < n
        invariant
            i <= n,
            n == a@.len(),
            n == b@.len(),
            forall|j: int| 0 <= j < i ==> a@[j] == b@[j],
        decreases n - i,
    {
        if a.get_char(i) != b.get_char(i) {
            return false;
        }
        i = i + 1;
    }
    assert(a@ =~= b@);
    true
}

/// A copy of a string.
pub fn copy_str(a: &str) -> (r: String)
    ensures
        r@ == a@,
{
    String::from_str(a)
}

/// Append the character of a digit below 16.
fn push_digit(out: &mut String, d: u8)
    requires
        d < 16,
    ensures
        final(out)@ == old(out)@.push(digit_char(d as nat)),
{
    match d {
        0 => {
            proof {
                reveal_strlit("0");
            }
            out.append("0");
        },
        1 => {
            proof {
                reveal_strlit("1");
            }
            out.append("1");
        },
        2 => {
            proof {
                reveal_strlit("2");
            }
            out.append("2");
        },
        3 => {
            proof {
                reveal_strlit("3");
            }
            out.append("3");
        },
        4 => {
            proof {
                reveal_strlit("4");
            }
            out.append("4");
        },
        5 => {
            proof {
                reveal_strlit("5");
            }
            out.append("5");
        },
        6 => {
            proof {
                reveal_strlit("6");
            }
            out.append("6");
        },
        7 => {
            proof {
                reveal_strlit("7");
            }
            out.append("7");
        },
        8 => {
            proof {
                reveal_strlit("8");
            }
            out.append("8");
        },
        9 => {
            proof {
                reveal_strlit("9");
            }
            out.append("9");
        },
        10 => {
            proof {
                reveal_strlit("a");
            }
            out.append("a");
        },
        11 => {
            proof {
                reveal_strlit("b");
            }
            out.append("b");
        },
        12 => {
            proof {
                reveal_strlit("c");
            }
            out.append("c");
        },
        13 => {
            proof {
                reveal_strlit("d");
            }
            out.append("d");
        },
        14 => {
            proof {
                reveal_strlit("e");
            }
            out.append("e");
        },
        _ => {
            proof {
                reveal_strlit("f");
            }
            out.append("f");
        },
    }
    assert(out@ =~= old(out)@.push(digit_char(d as nat)));
}

/// Append the decimal digits of `n`.
pub fn push_decimal(out: &mut String, n: u64)
    ensures
        final(out)@ == old(out)@ + decimal(n as nat),
    decreases n,
{
    if n >= 10 {
        push_decimal(out, n / 10);
    }
    push_digit(out, (n % 10) as u8);
    assert(out@ =~= old(out)@ + decimal(n as nat));
}

/// The number of decimal digits of `n`.
fn decimal_len(n: u64) -> (r: usize)
    ensures
        r == decimal(n as nat).len(),
        1 <= r <= 20,
{
    let mut r: usize = 1;
    let mut rest: u64 = n;
    proof {
        lemma_decimal_len_small(n as nat);
    }
    while rest >= 10
        invariant
            1 <= r,
            decimal(n as nat).len() == r - 1 + decimal(rest as nat).len(),
            decimal(n as nat).len() <= 20,
        decreases rest,
    {
        rest = rest / 10;
        r = r + 1;
    }
    r
}

/// A number below 10 to the 20 has at most 20 digits.
proof fn lemma_decimal_len_small(n: nat)
    requires
        n <= u64::MAX,
    ensures
        1 <= decimal(n).len() <= 20,
{
    reveal_with_fuel(decimal, 21);
}

/// Append the decimal digits of `n`, filled with zeros on the left up to
/// `width`.
pub fn push_zero_padded(out: &mut String, n: u64, width: usize)
    ensures
        final(out)@ == old(out)@ + zero_padded(n as nat, width as nat),
{
    let len: usize = decimal_len(n);
    let mut k: usize = len;
    while k < width
        invariant
            len == decimal(n as nat).len(),
            k >= len,
            k <= width || k == len,
            out@ == old(out)@ + Seq::new((k - len) as nat, |i: int| '0'),
        decreases width - k,
    {
        proof {
            reveal_strlit("0");
        }
        out.append("0");
        k = k + 1;
        assert(out@ =~= old(out)@ + Seq::new((k - len) as nat, |i: int| '0'));
    }
    push_decimal(out, n);
    assert(out@ =~= old(out)@ + zero_padded(n as nat, width as nat));
}

/// Append the last `width` hexadecimal digits of `n`.
pub fn push_hex_fixed(out: &mut String, n: u32, width: usize)
    ensures
        final(out)@ == old(out)@ + hex_fixed(n as nat, width as nat),
    decreases width,
{
    if width > 0 {
        push_hex_fixed(out, n / 16, width - 1);
        push_digit(out, (n % 16) as u8);
    }
    assert(out@ =~= old(out)@ + hex_fixed(n as nat, width as nat));
}

/// The value of a character as a digit in `radix`.
fn read_digit(c: char, radix: u64) -> (r: Option<u64>)
    requires
        radix == 10 || radix == 16,
    ensures
        match (r, digit_value(c, radix as nat)) {
            (Some(v), Some(d)) => v == d && d < radix,
            (None, None) => true,
            _ => false,
        },
{
    let code: u64 = c as u64;
    if '0' <= c && c <= '9' {
        Some(code - 48)
    } else if radix == 16 && 'a' <= c && c <= 'f' {
        Some(code - 87)
    } else if radix == 16 && 'A' <= c && c <= 'F' {
        Some(code - 55)
    } else {
        None
    }
}

/// A longer run of digits writes a number at least as large.
proof fn lemma_digits_value_grows(s: Seq<char>, k: int, radix: nat)
    requires
        0 <= k <= s.len(),
        radix >= 1,
        digits_value(s, radix) is Some,
    ensures
        digits_value(s.take(k), radix) is Some,
        digits_value(s.take(k), radix)->0 <= digits_value(s, radix)->0,
    decreases s.len() - k,
{
    if k == s.len() {
        assert(s.take(k) =~= s);
    } else {
        lemma_digits_value_grows(s, k + 1, radix);
        let t = s.take(k + 1);
        assert(t.drop_last() =~= s.take(k));
        let v = digits_value(s.take(k), radix)->0;
        assert(v * radix >= v) by (nonlinear_arith)
            requires
                radix >= 1,
        ;
    }
}

/// Read a number written in `radix`, at most `limit`.
fn read_number(s: &str, radix: u64, limit: u64) -> (r: Option<u64>)
    requires
        radix == 10 || radix == 16,
    ensures
        match (r, parse_number(s@, radix as nat, limit as nat)) {
            (Some(v), Some(w)) => v == w,
            (None, None) => true,
            _ => false,
        },
{
    let n: usize = s.unicode_len();
    let mut start: usize = 0;
    if n > 0 && s.get_char(0) == '+' {
        start = 1;
    }
    let ghost body = s@.skip(start as int);
    proof {
        assert(s@.skip(0) =~= s@);
    }
    if start == n {
        return None;
    }
    let mut i: usize = start;
    let mut v: u64 = 0;
    while i < n
        invariant
            start <= i <= n,
            start < n,
            n == s@.len(),
            radix == 10 || radix == 16,
            body == s@.skip(start as int),
            parse_number(s@, radix as nat, limit as nat) == match digits_value(
                body,
                radix as nat,
            ) {
                Some(w) => if w <= limit {
                    Some(w)
                } else {
                    None
                },
                None => None,
            },
            digits_value(body.take(i - start), radix as nat) == Some(v as nat),
            v <= limit,
        decreases n - i,
    {
        let c: char = s.get_char(i);
        let ghost next = body.take(i + 1 - start);
        proof {
            assert(next.drop_last() =~= body.take(i - start));
            assert(next.last() == c);
            if digits_value(body, radix as nat) is Some {
                lemma_digits_value_grows(body, i + 1 - start, radix as nat);
            }
        }
        let d: u64 = match read_digit(c, radix) {
            Some(d) => d,
            None => {
                return None;
            },
        };
        let wide: u128 = (v as u128) * (radix as u128) + (d as u128);
        if wide > limit as u128 {
            return None;
        }
        v = wide as u64;
        i = i + 1;
    }
    proof {
        assert(body.take(n - start) =~= body);
    }
    Some(v)
}

/// Read a decimal number that fits 64 bits: an optional `+` and digits.
pub fn parse_u64(s: &str) -> (r: Option<u64>)
    ensures
        match (r, parse_number(s@, 10, u64::MAX as nat)) {
            (Some(v), Some(w)) => v == w,
            (None, None) => true,
            _ => false,
        },
{
    read_number(s, 10, u64::MAX)
}

/// Read a hexadecimal number that fits 16 bits: an optional `+` and digits.
pub fn parse_hex_u16(s: &str) -> (r: Option<u16>)
    ensures
        match (r, parse_number(s@, 16, u16::MAX as nat)) {
            (Some(v), Some(w)) => v == w,
            (None, None) => true,
            _ => false,
        },
{
    match read_number(s, 16, 65535) {
        Some(v) => Some(v as u16),
        None => None,
    }
}

/// The decimal digits of a number read back as the number.
pub proof fn lemma_decimal_digits_value(n: nat)
    ensures
        digits_value(decimal(n), 10) == Some(n),
        decimal(n).len() > 0,
        decimal(n)[0] != '+',
    decreases n,
{
    if n < 10 {
        let s = decimal(n);
        assert(s.drop_last() =~= Seq::<char>::empty());
        assert(digits_value(s.drop_last(), 10) == Some(0nat));
    } else {
        lemma_decimal_digits_value(n / 10);
        let s = decimal(n);
        assert(s.drop_last() =~= decimal(n / 10));
    }
}

/// Leading zeros change nothing of the number read.
proof fn lemma_leading_zeros(k: nat, s: Seq<char>)
    ensures
        digits_value(Seq::new(k, |i: int| '0') + s, 10) == digits_value(s, 10),
    decreases s.len(), k,
{
    let zeros = Seq::new(k, |i: int| '0');
    let all = zeros + s;
    if s.len() > 0 {
        assert(all.drop_last() =~= zeros + s.drop_last());
        lemma_leading_zeros(k, s.drop_last());
    } else if k > 0 {
        assert(all.drop_last() =~= Seq::new((k - 1) as nat, |i: int| '0') + s);
        lemma_leading_zeros((k - 1) as nat, s);
    } else {
        assert(all =~= s);
    }
}

/// A number written with leading zeros reads back as the number.
pub proof fn lemma_zero_padded_round_trip(n: nat, width: nat)
    requires
        n <= u64::MAX,
    ensures
        parse_number(zero_padded(n, width), 10, u64::MAX as nat) == Some(n),
{
    let digits = decimal(n);
    lemma_decimal_digits_value(n);
    if digits.len() < width {
        lemma_leading_zeros((width - digits.len()) as nat, digits);
    }
}

/// The last `width` hexadecimal digits of a number that has no more read
/// back as the number.
pub proof fn lemma_hex_fixed_round_trip(n: nat, width: nat)
    requires
        width == 4,
        n <= u16::MAX,
    ensures
        parse_number(hex_fixed(n, width), 16, u16::MAX as nat) == Some(n),
        hex_fixed(n, width).len() == width,
{
    reveal_with_fuel(hex_fixed, 5);
    reveal_with_fuel(digits_value, 5);
    let s = hex_fixed(n, 4);
    let s3 = hex_fixed(n / 16, 3);
    let s2 = hex_fixed(n / 16 / 16, 2);
    let s1 = hex_fixed(n / 16 / 16 / 16, 1);
    assert(s.drop_last() =~= s3);
    assert(s3.drop_last() =~= s2);
    assert(s2.drop_last() =~= s1);
    assert(s1.drop_last() =~= Seq::<char>::empty());
}

/// What follows `prefix` in `s`, if `s` starts with it.
pub open spec fn after_prefix(s: Seq<char>, prefix: Seq<char>) -> Option<Seq<char>> {
    if s.len() >= prefix.len() && s.take(prefix.len() as int) == prefix {
        Some(s.skip(prefix.len() as int))
    } else {
        None
    }
}

/// What stands before `suffix` in `s`, if `s` ends with it.
pub open spec fn before_suffix(s: Seq<char>, suffix: Seq<char>) -> Option<Seq<char>> {
    if s.len() >= suffix.len() && s.skip(s.len() - suffix.len()) == suffix {
        Some(s.take(s.len() - suffix.len()))
    } else {
        None
    }
}

/// What follows `prefix` in `s`, if `s` starts with it.
pub fn strip_prefix<'a>(s: &'a str, prefix: &str) -> (r: Option<&'a str>)
    ensures
        match (r, after_prefix(s@, prefix@)) {
            (Some(t), Some(u)) => t@ == u,
            (None, None) => true,
            _ => false,
        },
{
    let n: usize = s.unicode_len();
    let k: usize = prefix.unicode_len();
    if n < k {
        return None;
    }
    let head = s.substring_char(0, k);
    if !str_eq(head, prefix) {
        return None;
    }
    let rest = s.substring_char(k, n);
    assert(rest@ =~= s@.skip(k as int));
    Some(rest)
}

/// What stands before `suffix` in `s`, if `s` ends with it.
pub fn strip_suffix<'a>(s: &'a str, suffix: &str) -> (r: Option<&'a str>)
    ensures
        match (r, before_suffix(s@, suffix@)) {
            (Some(t), Some(u)) => t@ == u,
            (None, None) => true,
            _ => false,
        },
{
    let n: usize = s.unicode_len();
    let k: usize = suffix.unicode_len();
    if n < k {
        return None;
    }
    let tail = s.substring_char(n - k, n);
    assert(tail@ =~= s@.skip(n - k));
    if !str_eq(tail, suffix) {
        return None;
    }
    Some(s.substring_char(0, n - k))
}

/// A number that is read consists of digits alone, with a plus sign before them
/// at most, and is within the limit.
pub proof fn law_only_digits_are_numbers(s: Seq<char>, limit: nat, i: int)
    requires
        parse_number(s, 10, limit) is Some,
    ensures
        s.len() > 0,
        parse_number(s, 10, limit)->0 <= limit,
        0 <= i < s.len() ==> '0' <= s[i] <= '9' || (i == 0 && s[0] == '+' && s.len() > 1),
{
    if 0 <= i < s.len() {
        if s[0] == '+' {
            if i > 0 {
                lemma_all_digits(s.skip(1), i - 1);
            }
        } else {
            lemma_all_digits(s, i);
        }
    }
}

proof fn lemma_all_digits(s: Seq<char>, i: int)
    requires
        digits_value(s, 10) is Some,
        0 <= i < s.len(),
    ensures
        '0' <= s[i] <= '9',
    decreases s.len(),
{
    if i < s.len() - 1 {
        lemma_all_digits(s.drop_last(), i);
    }
}

/// The digits of a number: one more digit is ten times the number and the
/// digit, and no number but zero begins with a zero.
pub proof fn law_decimal_digits(n: nat, d: nat)
    requires
        d < 10,
    ensures
        n > 0 ==> decimal(n * 10 + d) == decimal(n).push(digit_char(d)),
        decimal(d) == seq![digit_char(d)],
        n > 0 ==> decimal(n)[0] != '0',
        d == 0 ==> digit_char(d) == '0',
        d == 9 ==> digit_char(d) == '9',
    decreases n,
{
    if n > 0 {
        assert((n * 10 + d) / 10 == n);
        assert((n * 10 + d) % 10 == d);
        if n >= 10 {
            law_decimal_digits(n / 10, 0);
            assert(decimal(n)[0] == decimal(n / 10)[0]);
        }
    }
}

} // verus!
