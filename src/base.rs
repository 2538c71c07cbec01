use vstd::prelude::*;
use vstd::string::*;

verus! {

/// Why the text of a number with its base could not be split.
#[derive(Debug, PartialEq, Eq, Structural, Clone, Copy)]
pub enum FormatError {
    /// Not one `)`, or no `(` before it.
    InvalidFormat,
    /// What stands between `(` and `)` is not a decimal `u32`.
    InvalidBase,
}

/// Why a string of digits has no value.
#[derive(Debug, PartialEq, Eq, Structural, Clone, Copy)]
pub enum DigitError {
    /// A character is not a digit of the base.
    InvalidDigit,
    /// The value does not fit in a `u64`.
    TooLarge,
}

/// The value of `c` as a digit in base `radix`: `0`-`9`, then `a`-`z` or `A`-`Z` for 10
/// and up, as `char::to_digit` reads it.
pub open spec fn digit_value(c: char, radix: nat) -> Option<nat> {
    let x = c as u32;
    let d: int = if '0' as u32 <= x <= '9' as u32 {
        x - '0' as u32
    } else if 'a' as u32 <= x <= 'z' as u32 {
        x - 'a' as u32 + 10
    } else if 'A' as u32 <= x <= 'Z' as u32 {
        x - 'A' as u32 + 10
    } else {
        36
    };
    if d < radix {
        Some(d as nat)
    } else {
        None
    }
}

/// The first character of the upper-case form of `c`, as Unicode defines it.
pub uninterp spec fn upper_of(c: char) -> Option<char>;

/// The digit that `c` stands for in base `radix`; with `upper`, `c` is read through
/// the first character of its upper-case form.
pub open spec fn digit_of(c: char, radix: nat, upper: bool) -> Option<nat> {
    if upper {
        match upper_of(c) {
            Some(u) => digit_value(u, radix),
            None => None,
        }
    } else {
        digit_value(c, radix)
    }
}

/// The value of the digits `s` in base `radix`, most significant first; `None` where a
/// character is no digit. The empty string has the value 0.
pub open spec fn value_of(s: Seq<char>, radix: nat, upper: bool) -> Option<nat>
    decreases s.len(),
{
    if s.len() == 0 {
        Some(0)
    } else {
        match (value_of(s.drop_last(), radix, upper), digit_of(s.last(), radix, upper)) {
            (Some(v), Some(d)) => Some(v * radix + d),
            _ => None,
        }
    }
}

/// What `str::parse::<u32>` reads: an optional `+`, then at least one decimal digit,
/// with a value that fits in a `u32`.
pub open spec fn parse_u32(s: Seq<char>) -> Option<nat> {
    let d = if s.len() > 0 && s[0] == '+' { s.drop_first() } else { s };
    if d.len() == 0 {
        None
    } else {
        match value_of(d, 10, false) {
            Some(v) => if v <= u32::MAX { Some(v) } else { None },
            None => None,
        }
    }
}

/// The place of the first `c` in `s`, or -1 where there is none.
pub open spec fn first_pos(s: Seq<char>, c: char) -> int
    decreases s.len(),
{
    if s.len() == 0 {
        -1
    } else if first_pos(s.drop_last(), c) >= 0 {
        first_pos(s.drop_last(), c)
    } else if s.last() == c {
        s.len() - 1
    } else {
        -1
    }
}

/// Splits `value(base)rest` into the digits and the base: there must be exactly one
/// `)`, and a `(` before it; the text after the `)` is not read.
pub open spec fn parse_input_spec(s: Seq<char>) -> Result<(Seq<char>, nat), FormatError> {
    if crate::anagram::count_of(s, ')') != 1 {
        Err(FormatError::InvalidFormat)
    } else {
        let head = s.subrange(0, first_pos(s, ')'));
        let j = first_pos(head, '(');
        if j < 0 {
            Err(FormatError::InvalidFormat)
        } else {
            match parse_u32(head.subrange(j + 1, head.len() as int)) {
                Some(b) => Ok((head.subrange(0, j), b)),
                None => Err(FormatError::InvalidBase),
            }
        }
    }
}

/// The character for a digit below 16: `0`-`9`, then `a`-`f`.
pub open spec fn digit_char(d: nat) -> char {
    if d < 10 {
        ((d + 48) as u8) as char
    } else {
        ((d + 87) as u8) as char
    }
}

/// The digits of `n` in base `b`, most significant first, without leading zeros; `0`
/// for zero.
pub open spec fn digits_in_base(n: nat, b: nat) -> Seq<char>
    decreases n via digits_in_base_decreases
{
    if b < 2 || n < b {
        seq![digit_char(n % 16)]
    } else {
        digits_in_base(n / b, b).push(digit_char(n % b))
    }
}

#[via_fn]
proof fn digits_in_base_decreases(n: nat, b: nat) {
    if !(b < 2 || n < b) {
        assert(n / b < n) by (nonlinear_arith)
            requires
                b >= 2,
                n >= b,
        ;
    }
}

/// What `convert_base` returns: the number in the new base, or the empty string where
/// the text cannot be read, a base lies outside 2 to 16, or the value passes `u64`.
pub open spec fn convert_spec(s: Seq<char>, to_base: nat) -> Seq<char> {
    match parse_input_spec(s) {
        Err(_) => Seq::empty(),
        Ok((v, b)) => if !(2 <= b <= 16) || !(2 <= to_base <= 16) {
            Seq::empty()
        } else {
            match value_of(v, b, true) {
                Some(n) => if n <= u64::MAX { digits_in_base(n, to_base) } else { Seq::empty() },
                None => Seq::empty(),
            }
        },
    }
}

/// Relies on `char::to_uppercase`: the first character of the upper-case form of `c`.
#[verifier::external_body]
fn first_upper(c: char) -> (r: Option<char>)
    ensures
        r == upper_of(c),
{
    c.to_uppercase().next()
}

/// Relies on collecting `char`s into a `String`: the string holds them in order.
#[verifier::external_body]
pub(crate) fn string_from_chars(v: &Vec<char>) -> (r: String)
    ensures
        r@ == v@,
{
    v.iter().collect()
}

/// What `char::to_digit` gives for `c` in base `radix`.
fn char_digit(c: char, radix: u32) -> (r: Option<u32>)
    requires
        2 <= radix <= 36,
    ensures
        match digit_value(c, radix as nat) {
            Some(d) => r == Some(d as u32),
            None => r is None,
        },
{
    let x = c as u32;
    let d: u32 = if '0' as u32 <= x && x <= '9' as u32 {
        x - '0' as u32
    } else if 'a' as u32 <= x && x <= 'z' as u32 {
        x - 'a' as u32 + 10
    } else if 'A' as u32 <= x && x <= 'Z' as u32 {
        x - 'A' as u32 + 10
    } else {
        36
    };
    if d < radix {
        Some(d)
    } else {
        None
    }
}

/// Reads the digits `s` in base `radix` into a `u64`.
fn read_digits(s: &str, radix: u32, upper: bool) -> (r: Result<u64, DigitError>)
    requires
        2 <= radix <= 36,
    ensures
        match value_of(s@, radix as nat, upper) {
            Some(v) => if v <= u64::MAX {
                r == Ok::<u64, DigitError>(v as u64)
            } else {
                r == Err::<u64, DigitError>(DigitError::TooLarge)
            },
            None => r == Err::<u64, DigitError>(DigitError::InvalidDigit),
        },
{
    let n = s.unicode_len();
    let mut acc: u64 = 0;
    let mut big = false;
    let mut bad = false;
    let mut i: usize = 0;
    while i < n
        invariant
            n == s@.len(),
            i <= n,
            2 <= radix <= 36,
            bad <==> value_of(s@.subrange(0, i as int), radix as nat, upper) is None,
            !bad ==> (big <==> value_of(s@.subrange(0, i as int), radix as nat, upper)->0 > u64::MAX),
            !bad && !big ==> acc == value_of(s@.subrange(0, i as int), radix as nat, upper)->0,
        decreases n - i,
    {
        let c = s.get_char(i);
        let d = if upper {
            match first_upper(c) {
                Some(u) => char_digit(u, radix),
                None => None,
            }
        } else {
            char_digit(c, radix)
        };
        let ghost pre = s@.subrange(0, i as int);
        assert(s@.subrange(0, i as int + 1).drop_last() =~= pre);
        match d {
            None => {
                bad = true;
            },
            Some(dv) => {
                if !bad {
                    let ghost v = value_of(pre, radix as nat, upper)->0;
                    if big {
                        assert(v * radix + dv >= v) by (nonlinear_arith)
                            requires
                                radix >= 2,
                        ;
                    } else {
                        match acc.checked_mul(radix as u64) {
                            Some(m) => match m.checked_add(dv as u64) {
                                Some(a) => {
                                    acc = a;
                                },
                                None => {
                                    big = true;
                                },
                            },
                            None => {
                                assert(v * radix + dv >= v * radix) by (nonlinear_arith);
                                big = true;
                            },
                        }
                    }
                }
            },
        }
        i = i + 1;
    }
    assert(s@.subrange(0, n as int) =~= s@);
    if bad {
        Err(DigitError::InvalidDigit)
    } else if big {
        Err(DigitError::TooLarge)
    } else {
        Ok(acc)
    }
}

/// The value of the digits `s` in base `base`, each character read through the first
/// character of its upper-case form.
pub fn to_decimal(s: &str, base: u32) -> (r: Result<u64, DigitError>)
    requires
        2 <= base <= 36,
    ensures
        match value_of(s@, base as nat, true) {
            Some(v) => if v <= u64::MAX {
                r == Ok::<u64, DigitError>(v as u64)
            } else {
                r == Err::<u64, DigitError>(DigitError::TooLarge)
            },
            None => r == Err::<u64, DigitError>(DigitError::InvalidDigit),
        },
{
    read_digits(s, base, true)
}

/// The characters of `s`, in order.
pub(crate) fn chars_of(s: &str) -> (r: Vec<char>)
    ensures
        r@ == s@,
{
    let n = s.unicode_len();
    let mut r: Vec<char> = Vec::new();
    let mut i: usize = 0;
    while i < n
        invariant
            n == s@.len(),
            i <= n,
            r@ == s@.subrange(0, i as int),
        decreases n - i,
    {
        r.push(s.get_char(i));
        i = i + 1;
        assert(r@ =~= s@.subrange(0, i as int));
    }
    assert(r@ =~= s@);
    r
}

proof fn lemma_first_pos_found(s: Seq<char>, c: char)
    requires
        crate::anagram::count_of(s, c) > 0,
    ensures
        0 <= first_pos(s, c) < s.len(),
        s[first_pos(s, c)] == c,
    decreases s.len(),
{
    if crate::anagram::count_of(s.drop_last(), c) > 0 {
        lemma_first_pos_found(s.drop_last(), c);
    } else {
        lemma_first_pos_absent(s.drop_last(), c);
    }
}

proof fn lemma_first_pos_absent(s: Seq<char>, c: char)
    requires
        crate::anagram::count_of(s, c) == 0,
    ensures
        first_pos(s, c) == -1,
    decreases s.len(),
{
    if s.len() > 0 {
        lemma_first_pos_absent(s.drop_last(), c);
    }
}

/// The place of the first `c` in `v`.
pub(crate) fn find_first(v: &Vec<char>, c: char) -> (r: Option<usize>)
    ensures
        match r {
            Some(j) => first_pos(v@, c) == j,
            None => first_pos(v@, c) == -1,
        },
{
    let mut i: usize = 0;
    while i < v.len()
        invariant
            i <= v@.len(),
            first_pos(v@.subrange(0, i as int), c) == -1,
        decreases v@.len() - i,
    {
        assert(v@.subrange(0, i as int + 1).drop_last() =~= v@.subrange(0, i as int));
        if v[i] == c {
            proof {
                lemma_first_pos_prefix(v@, i as int + 1, c);
            }
            return Some(i);
        }
        i = i + 1;
    }
    assert(v@.subrange(0, v@.len() as int) =~= v@);
    None
}

proof fn lemma_first_pos_prefix(s: Seq<char>, k: int, c: char)
    requires
        0 <= k <= s.len(),
        first_pos(s.subrange(0, k), c) >= 0,
    ensures
        first_pos(s, c) == first_pos(s.subrange(0, k), c),
    decreases s.len() - k,
{
    if k < s.len() {
        assert(s.subrange(0, k + 1).drop_last() =~= s.subrange(0, k));
        lemma_first_pos_prefix(s, k + 1, c);
    } else {
        assert(s.subrange(0, k) =~= s);
    }
}

/// Reads a base written as `str::parse::<u32>` reads it.
pub(crate) fn parse_base(s: &str) -> (r: Option<u32>)
    ensures
        match parse_u32(s@) {
            Some(b) => r == Some(b as u32),
            None => r is None,
        },
{
    let n = s.unicode_len();
    let d = if n > 0 && s.get_char(0) == '+' {
        s.substring_char(1, n)
    } else {
        s
    };
    proof {
        if n > 0 && s@[0] == '+' {
            assert(d@ =~= s@.drop_first());
        }
    }
    if d.unicode_len() == 0 {
        return None;
    }
    match read_digits(d, 10, false) {
        Ok(v) => if v <= u32::MAX as u64 {
            Some(v as u32)
        } else {
            None
        },
        Err(_) => None,
    }
}

/// Splits `value(base)rest` into the digits and the base, read as a decimal `u32`.
pub fn parse_input(s: &str) -> (r: Result<(&str, u32), FormatError>)
    ensures
        match parse_input_spec(s@) {
            Ok((v, b)) => r matches Ok((x, y)) && x@ == v && y == b,
            Err(e) => r == Err::<(&str, u32), FormatError>(e),
        },
{
    let v = chars_of(s);
    if crate::anagram::count_in(&v, ')') != 1 {
        return Err(FormatError::InvalidFormat);
    }
    proof {
        lemma_first_pos_found(v@, ')');
    }
    let k = match find_first(&v, ')') {
        Some(k) => k,
        None => {
            return Err(FormatError::InvalidFormat);
        },
    };
    let head = s.substring_char(0, k);
    let hv = chars_of(head);
    let j = match find_first(&hv, '(') {
        Some(j) => j,
        None => {
            return Err(FormatError::InvalidFormat);
        },
    };
    proof {
        assert(0 <= first_pos(hv@, '(') < hv@.len()) by {
            lemma_first_pos_bound(hv@, '(');
        }
    }
    let value = head.substring_char(0, j);
    let rest = head.substring_char(j + 1, k);
    match parse_base(rest) {
        Some(b) => Ok((value, b)),
        None => Err(FormatError::InvalidBase),
    }
}

pub(crate) proof fn lemma_first_pos_bound(s: Seq<char>, c: char)
    ensures
        -1 <= first_pos(s, c) < s.len(),
    decreases s.len(),
{
    if s.len() > 0 {
        lemma_first_pos_bound(s.drop_last(), c);
    }
}

/// The character for a digit below 16.
fn digit_to_char(d: u32) -> (r: char)
    requires
        d < 16,
    ensures
        r == digit_char(d as nat),
{
    if d < 10 {
        ((d as u8) + 48u8) as char
    } else {
        ((d as u8) + 87u8) as char
    }
}

/// The digits of `n` in base `base`, lower-case letters for 10 and up.
pub fn from_decimal(n: u64, base: u32) -> (r: String)
    requires
        2 <= base <= 16,
    ensures
        r@ == digits_in_base(n as nat, base as nat),
{
    let b = base as u64;
    let mut low: Vec<char> = Vec::new();
    let mut m: u64 = n;
    if n == 0 {
        low.push(digit_to_char(0));
        return string_from_chars(&low);
    }
    while m > 0
        invariant
            2 <= b <= 16,
            b == base,
            m > 0 ==> digits_in_base(n as nat, b as nat) =~= digits_in_base(m as nat, b as nat) + low@.reverse(),
            m == 0 ==> digits_in_base(n as nat, b as nat) =~= low@.reverse(),
        decreases m,
    {
        let d = (m % b) as u32;
        let ghost old_low = low@;
        let ghost old_m = m;
        low.push(digit_to_char(d));
        m = m / b;
        proof {
            assert(low@.reverse() =~= seq![digit_char(d as nat)] + old_low.reverse());
            if old_m < b {
                assert(old_m % b == old_m) by (nonlinear_arith)
                    requires
                        old_m < b,
                ;
                assert(old_m / b == 0) by (nonlinear_arith)
                    requires
                        old_m < b,
                ;
                assert(old_m % 16 == old_m);
            } else {
                assert(digits_in_base(old_m as nat, b as nat) == digits_in_base((old_m / b) as nat, b as nat).push(digit_char((old_m % b) as nat)));
                assert(m > 0) by (nonlinear_arith)
                    requires
                        old_m >= b,
                        m == old_m / b,
                        b >= 2,
                ;
            }
        }
    }
    let len = low.len();
    let mut out: Vec<char> = Vec::new();
    let mut i: usize = 0;
    while i < len
        invariant
            len == low@.len(),
            i <= len,
            out@ =~= low@.reverse().subrange(0, i as int),
        decreases len - i,
    {
        out.push(low[len - 1 - i]);
        i = i + 1;
    }
    string_from_chars(&out)
}

/// `num_str` is `value(base)`: the value, written in `base`, is written again in
/// `to_base`. Both bases lie in 2 to 16; any other input gives the empty string.
pub fn convert_base(num_str: &str, to_base: u32) -> (r: String)
    ensures
        r@ == convert_spec(num_str@, to_base as nat),
{
    let (value, base_from) = match parse_input(num_str) {
        Ok(p) => p,
        Err(_) => {
            return String::new();
        },
    };
    if !(2 <= base_from && base_from <= 16) || !(2 <= to_base && to_base <= 16) {
        return String::new();
    }
    let decimal = match to_decimal(value, base_from) {
        Ok(d) => d,
        Err(_) => {
            return String::new();
        },
    };
    from_decimal(decimal, to_base)
}

} // verus!
