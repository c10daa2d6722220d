//! Decimal and hexadecimal digit arithmetic: the spec-level value of digit
//! runs, and verified parsing and rendering of integers.

use vstd::prelude::*;

verus! {

/// Whether a byte is an ASCII decimal digit.
pub open spec fn is_digit(b: u8) -> bool {
    48 <= b <= 57
}

/// Whether a character is an ASCII decimal digit.
pub open spec fn is_digit_char(c: char) -> bool {
    '0' <= c <= '9'
}

/// Whether every byte of `s` is an ASCII decimal digit.
pub open spec fn all_digits(s: Seq<u8>) -> bool {
    forall|i: int| 0 <= i < s.len() ==> is_digit(s[i])
}

/// Whether every character of `s` is an ASCII decimal digit.
pub open spec fn all_digits_chars(s: Seq<char>) -> bool {
    forall|i: int| 0 <= i < s.len() ==> is_digit_char(s[i])
}

/// The value of a run of ASCII decimal digit bytes, most significant first.
pub open spec fn dec_value(s: Seq<u8>) -> int
    decreases s.len(),
{
    if s.len() == 0 {
        0
    } else {
        dec_value(s.drop_last()) * 10 + (s.last() - 48)
    }
}

/// The value of a run of ASCII decimal digit characters, most significant
/// first.
pub open spec fn dec_value_chars(s: Seq<char>) -> int
    decreases s.len(),
{
    if s.len() == 0 {
        0
    } else {
        dec_value_chars(s.drop_last()) * 10 + (s.last() as int - 48)
    }
}

/// The value of a digit run is never negative.
pub broadcast proof fn lemma_dec_value_nonneg(s: Seq<u8>)
    requires
        all_digits(s),
    ensures
        #[trigger] dec_value(s) >= 0,
    decreases s.len(),
{
    if s.len() > 0 {
        assert(all_digits(s.drop_last()));
        lemma_dec_value_nonneg(s.drop_last());
    }
}

/// The value of a digit run is never negative.
pub broadcast proof fn lemma_dec_value_chars_nonneg(s: Seq<char>)
    requires
        all_digits_chars(s),
    ensures
        #[trigger] dec_value_chars(s) >= 0,
    decreases s.len(),
{
    if s.len() > 0 {
        assert(all_digits_chars(s.drop_last()));
        lemma_dec_value_chars_nonneg(s.drop_last());
    }
}

/// Extending a digit run to the right can only grow its value.
pub proof fn lemma_dec_value_prefix(s: Seq<u8>, k: int)
    requires
        all_digits(s),
        0 <= k <= s.len(),
    ensures
        dec_value(s) >= dec_value(s.take(k)),
    decreases s.len() - k,
{
    broadcast use lemma_dec_value_nonneg;

    if k < s.len() {
        lemma_dec_value_prefix(s, k + 1);
        let t = s.take(k + 1);
        assert(t.drop_last() =~= s.take(k));
        assert(all_digits(t.drop_last()));
        assert(all_digits(s.take(k + 1)));
        assert(dec_value(s.take(k + 1)) == dec_value(s.take(k)) * 10 + (s[k] - 48));
        assert(dec_value(s.take(k)) >= 0);
    } else {
        assert(s.take(k) =~= s);
    }
}

/// Extending a digit run to the right can only grow its value.
pub proof fn lemma_dec_value_chars_prefix(s: Seq<char>, k: int)
    requires
        all_digits_chars(s),
        0 <= k <= s.len(),
    ensures
        dec_value_chars(s) >= dec_value_chars(s.take(k)),
    decreases s.len() - k,
{
    broadcast use lemma_dec_value_chars_nonneg;

    if k < s.len() {
        lemma_dec_value_chars_prefix(s, k + 1);
        let t = s.take(k + 1);
        assert(t.drop_last() =~= s.take(k));
        assert(all_digits_chars(t.drop_last()));
        assert(all_digits_chars(s.take(k + 1)));
        assert(dec_value_chars(s.take(k + 1)) == dec_value_chars(s.take(k)) * 10 + (s[k] as int
            - 48));
        assert(dec_value_chars(s.take(k)) >= 0);
    } else {
        assert(s.take(k) =~= s);
    }
}

/// Parses the decimal digit bytes `data[start..end]` as a 64-bit signed
/// integer; `None` exactly when the value exceeds the range.
pub fn parse_i64_digits(data: &[u8], start: usize, end: usize) -> (r: Option<i64>)
    requires
        start <= end <= data@.len(),
        all_digits(data@.subrange(start as int, end as int)),
    ensures
        ({
            let s = data@.subrange(start as int, end as int);
            match r {
                Some(n) => n as int == dec_value(s),
                None => dec_value(s) > i64::MAX,
            }
        }),
{
    let ghost s = data@.subrange(start as int, end as int);
    let mut acc: i64 = 0;
    let mut i: usize = start;
    while i < end
        invariant
            start <= i <= end <= data@.len(),
            s == data@.subrange(start as int, end as int),
            all_digits(s),
            0 <= acc,
            acc as int == dec_value(s.take(i - start)),
        decreases end - i,
    {
        proof {
            assert(s[i - start] == data@[i as int]);
            assert(is_digit(s[i - start]));
        }
        let d = data[i] - 48;
        if acc > (i64::MAX - d as i64) / 10 {
            proof {
                assert(s.take(i + 1 - start).drop_last() =~= s.take(i - start));
                assert(dec_value(s.take(i + 1 - start)) == acc * 10 + d);
                assert(acc * 10 + d > i64::MAX) by {
                    assert(acc >= (i64::MAX - d) / 10 + 1);
                    assert(((i64::MAX - d) / 10 + 1) * 10 >= i64::MAX - d + 1) by (nonlinear_arith);
                    assert(acc * 10 >= ((i64::MAX - d) / 10 + 1) * 10) by (nonlinear_arith)
                        requires
                            acc >= (i64::MAX - d) / 10 + 1,
                    ;
                }
                lemma_dec_value_prefix(s, i + 1 - start);
            }
            return None;
        }
        proof {
            assert(acc <= (i64::MAX - d) / 10);
            assert(acc * 10 <= ((i64::MAX - d) / 10) * 10) by (nonlinear_arith)
                requires
                    acc <= (i64::MAX - d) / 10,
            ;
            assert(((i64::MAX - d) / 10) * 10 <= i64::MAX - d);
            assert(s.take(i + 1 - start).drop_last() =~= s.take(i - start));
        }
        acc = acc * 10 + d as i64;
        i = i + 1;
    }
    proof {
        assert(s.take(end - start) =~= s);
    }
    Some(acc)
}

/// Parses the decimal digit characters `data[start..end]` as an unsigned
/// machine-word value; `None` exactly when the value exceeds the range.
pub fn parse_usize_digits(data: &[char], start: usize, end: usize) -> (r: Option<usize>)
    requires
        start <= end <= data@.len(),
        all_digits_chars(data@.subrange(start as int, end as int)),
    ensures
        ({
            let s = data@.subrange(start as int, end as int);
            match r {
                Some(n) => n as int == dec_value_chars(s),
                None => dec_value_chars(s) > usize::MAX,
            }
        }),
{
    let ghost s = data@.subrange(start as int, end as int);
    let mut acc: usize = 0;
    let mut i: usize = start;
    while i < end
        invariant
            start <= i <= end <= data@.len(),
            s == data@.subrange(start as int, end as int),
            all_digits_chars(s),
            acc as int == dec_value_chars(s.take(i - start)),
        decreases end - i,
    {
        let c = data[i];
        proof {
            assert(s[i - start] == data@[i as int]);
            assert(is_digit_char(s[i - start]));
        }
        let d: usize = (c as u32 as usize) - 48;
        if acc > (usize::MAX - d) / 10 {
            proof {
                assert(s.take(i + 1 - start).drop_last() =~= s.take(i - start));
                assert(dec_value_chars(s.take(i + 1 - start)) == acc * 10 + d);
                assert(acc * 10 + d > usize::MAX) by {
                    assert(acc >= (usize::MAX - d) / 10 + 1);
                    assert(((usize::MAX - d) / 10 + 1) * 10 >= usize::MAX - d + 1)
                        by (nonlinear_arith);
                    assert(acc * 10 >= ((usize::MAX - d) / 10 + 1) * 10) by (nonlinear_arith)
                        requires
                            acc >= (usize::MAX - d) / 10 + 1,
                    ;
                }
                lemma_dec_value_chars_prefix(s, i + 1 - start);
            }
            return None;
        }
        proof {
            assert(acc <= (usize::MAX - d) / 10);
            assert(acc * 10 <= ((usize::MAX - d) / 10) * 10) by (nonlinear_arith)
                requires
                    acc <= (usize::MAX - d) / 10,
            ;
            assert(((usize::MAX - d) / 10) * 10 <= usize::MAX - d);
            assert(s.take(i + 1 - start).drop_last() =~= s.take(i - start));
        }
        acc = acc * 10 + d;
        i = i + 1;
    }
    proof {
        assert(s.take(end - start) =~= s);
    }
    Some(acc)
}

/// The decimal text of a non-negative integer, most significant digit
/// first.
pub open spec fn dec_str(n: int) -> Seq<char>
    recommends
        n >= 0,
    decreases n,
{
    if n < 10 {
        seq![(48 + n) as char]
    } else {
        dec_str(n / 10).push((48 + n % 10) as char)
    }
}

/// The decimal text of an integer: a leading `-` for negative values.
pub open spec fn dec_str_signed(n: int) -> Seq<char> {
    if n < 0 {
        seq!['-'] + dec_str(-n)
    } else {
        dec_str(n)
    }
}

/// Renders a 64-bit unsigned magnitude as decimal text.
pub fn render_u64(m: u64) -> (r: Vec<char>)
    ensures
        r@ == dec_str(m as int),
    decreases m,
{
    if m < 10 {
        let mut v: Vec<char> = Vec::new();
        v.push((48 + m as u8) as char);
        proof {
            assert(v@ =~= dec_str(m as int));
        }
        v
    } else {
        let mut v = render_u64(m / 10);
        v.push((48 + (m % 10) as u8) as char);
        proof {
            assert((48 + (m % 10) as u8) as char == (48 + (m as int) % 10) as char);
            assert(v@ =~= dec_str(m as int));
        }
        v
    }
}

/// Renders a 64-bit signed integer as decimal text, with a leading `-` for
/// negative values.
pub fn render_i64(n: i64) -> (r: Vec<char>)
    ensures
        r@ == dec_str_signed(n as int),
{
    if n >= 0 {
        render_u64(n as u64)
    } else {
        let mag: u64 = ((-(n + 1)) as u64) + 1;
        let digits = render_u64(mag);
        let mut v: Vec<char> = Vec::new();
        v.push('-');
        let mut i: usize = 0;
        while i < digits.len()
            invariant
                i <= digits@.len(),
                digits@ == dec_str(mag as int),
                mag as int == -(n as int),
                v@ == seq!['-'] + digits@.take(i as int),
            decreases digits@.len() - i,
        {
            let c = digits[i];
            v.push(c);
            proof {
                assert(v@ =~= seq!['-'] + digits@.take(i + 1));
            }
            i = i + 1;
        }
        proof {
            assert(digits@.take(digits@.len() as int) =~= digits@);
        }
        v
    }
}

/// The value of a hexadecimal digit byte, digits before letters, upper and
/// lower case alike.
pub open spec fn hex_val(b: u8) -> int {
    if 48 <= b <= 57 {
        b - 48
    } else if 65 <= b <= 70 {
        b - 55
    } else {
        b - 87
    }
}

/// Whether a byte is an ASCII hexadecimal digit.
pub open spec fn is_hex_digit(b: u8) -> bool {
    48 <= b <= 57 || 65 <= b <= 70 || 97 <= b <= 102
}

/// The value of four hexadecimal digit bytes, most significant first.
pub open spec fn hex4_value(a: u8, b: u8, c: u8, d: u8) -> int {
    ((hex_val(a) * 16 + hex_val(b)) * 16 + hex_val(c)) * 16 + hex_val(d)
}

/// Whether a byte is an ASCII hexadecimal digit.
pub fn hex_digit(b: u8) -> (r: bool)
    ensures
        r == is_hex_digit(b),
{
    (48 <= b && b <= 57) || (65 <= b && b <= 70) || (97 <= b && b <= 102)
}

/// The value of a hexadecimal digit byte.
pub fn hex_digit_val(b: u8) -> (r: u32)
    requires
        is_hex_digit(b),
    ensures
        r as int == hex_val(b),
        r < 16,
{
    if 48 <= b && b <= 57 {
        (b - 48) as u32
    } else if 65 <= b && b <= 70 {
        (b - 55) as u32
    } else {
        (b - 87) as u32
    }
}

/// Parses the decimal digit characters `data[start..end]` as a 16-bit
/// unsigned value; `None` exactly when the value exceeds the range.
pub fn parse_u16_digits(data: &[char], start: usize, end: usize) -> (r: Option<u16>)
    requires
        start <= end <= data@.len(),
        all_digits_chars(data@.subrange(start as int, end as int)),
    ensures
        ({
            let s = data@.subrange(start as int, end as int);
            match r {
                Some(n) => n as int == dec_value_chars(s),
                None => dec_value_chars(s) > u16::MAX,
            }
        }),
{
    let ghost s = data@.subrange(start as int, end as int);
    let mut acc: u16 = 0;
    let mut i: usize = start;
    while i < end
        invariant
            start <= i <= end <= data@.len(),
            s == data@.subrange(start as int, end as int),
            all_digits_chars(s),
            acc as int == dec_value_chars(s.take(i - start)),
        decreases end - i,
    {
        let c = data[i];
        proof {
            assert(s[i - start] == data@[i as int]);
            assert(is_digit_char(s[i - start]));
        }
        let du: u32 = (c as u32) - 48;
        proof {
            assert(du < 10);
            assert(du as u16 as u32 == du) by (bit_vector)
                requires
                    du < 10,
            ;
        }
        let d: u16 = du as u16;
        if acc > (u16::MAX - d) / 10 {
            proof {
                assert(s.take(i + 1 - start).drop_last() =~= s.take(i - start));
                assert(dec_value_chars(s.take(i + 1 - start)) == acc * 10 + d);
                assert(acc * 10 + d > u16::MAX) by {
                    assert(acc >= (u16::MAX - d) / 10 + 1);
                    assert(((u16::MAX - d) / 10 + 1) * 10 >= u16::MAX - d + 1) by (nonlinear_arith);
                    assert(acc * 10 >= ((u16::MAX - d) / 10 + 1) * 10) by (nonlinear_arith)
                        requires
                            acc >= (u16::MAX - d) / 10 + 1,
                    ;
                }
                lemma_dec_value_chars_prefix(s, i + 1 - start);
            }
            return None;
        }
        proof {
            assert(acc <= (u16::MAX - d) / 10);
            assert(acc * 10 <= ((u16::MAX - d) / 10) * 10) by (nonlinear_arith)
                requires
                    acc <= (u16::MAX - d) / 10,
            ;
            assert(((u16::MAX - d) / 10) * 10 <= u16::MAX - d);
            assert(s.take(i + 1 - start).drop_last() =~= s.take(i - start));
        }
        acc = acc * 10 + d;
        i = i + 1;
    }
    proof {
        assert(s.take(end - start) =~= s);
    }
    Some(acc)
}

} // verus!
