//! Decimal integers: parsing as `str::parse` does for the integer types, and printing.
use vstd::prelude::*;

verus! {

pub open spec fn is_digit(c: char) -> bool {
    48 <= (c as u32) <= 57
}

pub open spec fn all_digits(s: Seq<char>) -> bool {
    forall|i: int| 0 <= i < s.len() ==> is_digit(#[trigger] s[i])
}

pub open spec fn digit_value(c: char) -> nat {
    ((c as u32) - 48) as nat
}

/// The number a run of decimal digits denotes.
pub open spec fn digits_value(s: Seq<char>) -> nat
    decreases s.len(),
{
    if s.len() == 0 {
        0
    } else {
        digits_value(s.drop_last()) * 10 + digit_value(s.last())
    }
}

/// What `str::parse` accepts for an integer type, before the range check: an optional
/// `+` (or `-` when `signed`) followed by at least one ASCII digit.
pub open spec fn int_text_value(s: Seq<char>, signed: bool) -> Option<int> {
    if s.len() == 0 {
        None
    } else if s.len() == 1 && (s[0] == '+' || s[0] == '-') {
        None
    } else if s[0] == '+' {
        if all_digits(s.drop_first()) {
            Some(digits_value(s.drop_first()) as int)
        } else {
            None
        }
    } else if s[0] == '-' && signed {
        if all_digits(s.drop_first()) {
            Some(-(digits_value(s.drop_first()) as int))
        } else {
            None
        }
    } else if all_digits(s) {
        Some(digits_value(s) as int)
    } else {
        None
    }
}

/// `str::parse` for an integer type whose values are `lo..=hi`.
pub open spec fn parse_in_range(s: Seq<char>, signed: bool, lo: int, hi: int) -> Option<int> {
    match int_text_value(s, signed) {
        Some(v) => if lo <= v <= hi {
            Some(v)
        } else {
            None
        },
        None => None,
    }
}

pub open spec fn parse_i32_spec(s: Seq<char>) -> Option<int> {
    parse_in_range(s, true, i32::MIN as int, i32::MAX as int)
}

pub open spec fn parse_i64_spec(s: Seq<char>) -> Option<int> {
    parse_in_range(s, true, i64::MIN as int, i64::MAX as int)
}

pub open spec fn parse_u64_spec(s: Seq<char>) -> Option<int> {
    parse_in_range(s, false, 0, u64::MAX as int)
}

pub open spec fn parse_u16_spec(s: Seq<char>) -> Option<int> {
    parse_in_range(s, false, 0, u16::MAX as int)
}

pub proof fn lemma_digits_value_mono(s: Seq<char>, i: int)
    requires
        0 <= i <= s.len(),
    ensures
        digits_value(s.take(i)) <= digits_value(s),
    decreases s.len() - i,
{
    if i < s.len() {
        lemma_digits_value_mono(s, i + 1);
        assert(s.take(i + 1).drop_last() == s.take(i));
    } else {
        assert(s.take(i) == s);
    }
}

pub fn is_digit_char(c: char) -> (b: bool)
    ensures
        b == is_digit(c),
{
    let u = c as u32;
    48 <= u && u <= 57
}

/// Value of the digit run `v[from..]`, or `None` when it is empty, holds a non-digit,
/// or exceeds `cap`.
fn digits_in(v: &Vec<char>, from: usize, cap: u128) -> (r: Option<u128>)
    requires
        from <= v.len(),
        cap <= u64::MAX as u128 * 4,
    ensures
        r matches Some(n) ==> v@.len() > from && all_digits(v@.skip(from as int)) && n
            == digits_value(v@.skip(from as int)) && n <= cap,
        r is None ==> v@.len() == from || !all_digits(v@.skip(from as int)) || digits_value(
            v@.skip(from as int),
        ) > cap,
{
    if from == v.len() {
        return None;
    }
    let ghost s = v@.skip(from as int);
    let mut acc: u128 = 0;
    let mut i = from;
    assert(s.take(0) =~= Seq::<char>::empty());
    while i < v.len()
        invariant
            from <= i <= v.len(),
            s == v@.skip(from as int),
            cap <= u64::MAX as u128 * 4,
            all_digits(s.take(i - from)),
            acc == digits_value(s.take(i - from)),
            acc <= cap,
        decreases v.len() - i,
    {
        let c = v[i];
        if !is_digit_char(c) {
            assert(s[i - from] == c);
            return None;
        }
        let d = (c as u32 - 48) as u128;
        assert(s.take(i - from + 1).drop_last() == s.take(i - from));
        assert(s.take(i - from + 1).last() == c);
        let next = acc * 10 + d;
        i += 1;
        if next > cap {
            proof {
                lemma_digits_value_mono(s, i - from);
            }
            return None;
        }
        acc = next;
    }
    assert(s.take(i - from) == s);
    Some(acc)
}

/// `str::parse` for an integer type whose values are `lo..=hi`, on characters.
pub fn parse_int_chars(v: &Vec<char>, signed: bool, lo: i128, hi: i128) -> (r: Option<i128>)
    requires
        -(u64::MAX as int) <= lo <= 0 <= hi <= u64::MAX,
    ensures
        r matches Some(n) ==> parse_in_range(v@, signed, lo as int, hi as int) == Some(n as int),
        r is None ==> parse_in_range(v@, signed, lo as int, hi as int) is None,
{
    if v.len() == 0 {
        return None;
    }
    if v.len() == 1 && (v[0] == '+' || v[0] == '-') {
        return None;
    }
    if v[0] == '+' || (v[0] == '-' && signed) {
        let neg = v[0] == '-';
        let cap: u128 = if neg { (-lo) as u128 } else { hi as u128 };
        match digits_in(v, 1, cap) {
            Some(n) => {
                assert(v@.skip(1) == v@.drop_first());
                if neg {
                    Some(-(n as i128))
                } else {
                    Some(n as i128)
                }
            },
            None => {
                assert(v@.skip(1) == v@.drop_first());
                None
            },
        }
    } else {
        let cap: u128 = hi as u128;
        match digits_in(v, 0, cap) {
            Some(n) => {
                assert(v@.skip(0) == v@);
                Some(n as i128)
            },
            None => {
                assert(v@.skip(0) == v@);
                if v[0] == '-' {
                    assert(!is_digit(v@[0]));
                }
                None
            },
        }
    }
}

pub fn parse_i32_chars(v: &Vec<char>) -> (r: Option<i32>)
    ensures
        r matches Some(n) ==> parse_i32_spec(v@) == Some(n as int),
        r is None ==> parse_i32_spec(v@) is None,
{
    match parse_int_chars(v, true, i32::MIN as i128, i32::MAX as i128) {
        Some(n) => Some(n as i32),
        None => None,
    }
}

pub fn parse_i64_chars(v: &Vec<char>) -> (r: Option<i64>)
    ensures
        r matches Some(n) ==> parse_i64_spec(v@) == Some(n as int),
        r is None ==> parse_i64_spec(v@) is None,
{
    match parse_int_chars(v, true, i64::MIN as i128, i64::MAX as i128) {
        Some(n) => Some(n as i64),
        None => None,
    }
}

pub fn parse_u64_chars(v: &Vec<char>) -> (r: Option<u64>)
    ensures
        r matches Some(n) ==> parse_u64_spec(v@) == Some(n as int),
        r is None ==> parse_u64_spec(v@) is None,
{
    match parse_int_chars(v, false, 0, u64::MAX as i128) {
        Some(n) => Some(n as u64),
        None => None,
    }
}

pub fn parse_u16_chars(v: &Vec<char>) -> (r: Option<u16>)
    ensures
        r matches Some(n) ==> parse_u16_spec(v@) == Some(n as int),
        r is None ==> parse_u16_spec(v@) is None,
{
    match parse_int_chars(v, false, 0, u16::MAX as i128) {
        Some(n) => Some(n as u16),
        None => None,
    }
}

} // verus!

verus! {

pub open spec fn digit_char(d: nat) -> char {
    ((48 + d) as u32) as char
}

/// Decimal digits of `n`, without leading zeros.
pub open spec fn decimal(n: nat) -> Seq<char>
    decreases n,
{
    if n < 10 {
        seq![digit_char(n)]
    } else {
        decimal(n / 10).push(digit_char(n % 10))
    }
}

/// What `to_string` gives for an integer: a `-` before the digits of a negative number.
pub open spec fn signed_decimal(v: int) -> Seq<char> {
    if v < 0 {
        seq!['-'] + decimal((-v) as nat)
    } else {
        decimal(v as nat)
    }
}

/// `n` written with at least two digits, as `{:02}` formats it.
pub open spec fn pad2(n: nat) -> Seq<char> {
    if n < 10 {
        seq!['0', digit_char(n)]
    } else {
        decimal(n)
    }
}

pub fn digit_to_char(d: u64) -> (c: char)
    requires
        d < 10,
    ensures
        c == digit_char(d as nat),
{
    let b: u8 = 48 + (d as u8);
    b as char
}

/// Appends the decimal digits of `n`.
pub fn push_decimal(out: &mut Vec<char>, n: u64)
    ensures
        final(out)@ == old(out)@ + decimal(n as nat),
    decreases n,
{
    if n < 10 {
        out.push(digit_to_char(n));
        assert(final(out)@ =~= old(out)@ + decimal(n as nat));
    } else {
        push_decimal(out, n / 10);
        out.push(digit_to_char(n % 10));
        assert(final(out)@ =~= old(out)@ + decimal(n as nat));
    }
}

/// Appends `v` as `to_string` writes it.
pub fn push_signed_decimal(out: &mut Vec<char>, v: i64)
    ensures
        final(out)@ == old(out)@ + signed_decimal(v as int),
{
    if v < 0 {
        out.push('-');
        let m: u64 = if v == i64::MIN {
            9223372036854775808u64
        } else {
            (-v) as u64
        };
        push_decimal(out, m);
        assert(final(out)@ =~= old(out)@ + signed_decimal(v as int));
    } else {
        push_decimal(out, v as u64);
    }
}

/// Appends `n` with at least two digits.
pub fn push_pad2(out: &mut Vec<char>, n: u64)
    ensures
        final(out)@ == old(out)@ + pad2(n as nat),
{
    if n < 10 {
        out.push('0');
        out.push(digit_to_char(n));
        assert(final(out)@ =~= old(out)@ + pad2(n as nat));
    } else {
        push_decimal(out, n);
    }
}

pub proof fn lemma_decimal_digits(n: nat)
    ensures
        all_digits(decimal(n)),
        decimal(n).len() >= 1,
        digits_value(decimal(n)) == n,
    decreases n,
{
    if n >= 10 {
        lemma_decimal_digits(n / 10);
        let d = decimal(n);
        assert(d.drop_last() =~= decimal(n / 10));
        assert(digit_value(digit_char(n % 10)) == n % 10);
        assert((n / 10) * 10 + n % 10 == n) by (nonlinear_arith);
        assert forall|i: int| 0 <= i < d.len() implies is_digit(#[trigger] d[i]) by {
            if i < d.len() - 1 {
                assert(d[i] == decimal(n / 10)[i]);
            }
        }
    } else {
        assert(digit_value(digit_char(n)) == n);
        assert(decimal(n).drop_last() =~= Seq::<char>::empty());
        reveal_with_fuel(digits_value, 2);
    }
}

pub proof fn lemma_pad2_digits(n: nat)
    ensures
        all_digits(pad2(n)),
        pad2(n).len() >= 1,
        digits_value(pad2(n)) == n,
{
    lemma_decimal_digits(n);
    if n < 10 {
        let p = pad2(n);
        assert(p.drop_last() =~= seq!['0']);
        assert(seq!['0'].drop_last() =~= Seq::<char>::empty());
        assert(digit_value(digit_char(n)) == n);
        assert(digit_value('0') == 0);
        reveal_with_fuel(digits_value, 3);
    }
}

/// The text of a decimal number is read back as that number.
pub proof fn lemma_parse_signed_decimal(v: int, lo: int, hi: int)
    requires
        lo <= v <= hi,
    ensures
        parse_in_range(signed_decimal(v), true, lo, hi) == Some(v),
{
    if v < 0 {
        let m = (-v) as nat;
        lemma_decimal_digits(m);
        let s = signed_decimal(v);
        assert(s.drop_first() =~= decimal(m));
        assert(s[0] == '-');
        assert(s.len() >= 2);
    } else {
        lemma_decimal_digits(v as nat);
        let s = decimal(v as nat);
        assert(is_digit(s[0]));
    }
}

} // verus!
