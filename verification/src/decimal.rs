//! Decimal text of integers, as the serial protocols carry them: writing an `i32`
//! the way `Display` does, and reading one back the way `str::parse` does.
use vstd::prelude::*;

verus! {

broadcast use vstd::seq::group_seq_axioms;

/// An ASCII decimal digit.
pub open spec fn is_digit(b: u8) -> bool {
    48 <= b <= 57
}

/// Every byte of `s` is a decimal digit.
pub open spec fn all_digits(s: Seq<u8>) -> bool {
    forall|i: int| 0 <= i < s.len() ==> is_digit(#[trigger] s[i])
}

/// The number written by the digit string `s`, most significant digit first.
pub open spec fn digits_value(s: Seq<u8>) -> int
    decreases s.len(),
{
    if s.len() == 0 {
        0
    } else {
        digits_value(s.drop_last()) * 10 + (s.last() - 48)
    }
}

/// The integer that `s` writes in decimal: an optional `+` or `-` followed by one or
/// more digits, nothing else (the grammar of `FromStr` for the integer types).
pub open spec fn decimal_value(s: Seq<u8>) -> Option<int> {
    if s.len() > 0 && (s[0] == 43 || s[0] == 45) {
        let d = s.drop_first();
        if d.len() > 0 && all_digits(d) {
            Some(
                if s[0] == 45 {
                    -digits_value(d)
                } else {
                    digits_value(d)
                },
            )
        } else {
            None
        }
    } else if s.len() > 0 && all_digits(s) {
        Some(digits_value(s))
    } else {
        None
    }
}

/// What `str::parse::<i32>` gives for the text `s`: its decimal value when that fits.
pub open spec fn parsed_i32(s: Seq<u8>) -> Option<i32> {
    match decimal_value(s) {
        Some(v) => if i32::MIN <= v <= i32::MAX {
            Some(v as i32)
        } else {
            None
        },
        None => None,
    }
}

/// What `str::parse::<i8>` gives for the text `s`: its decimal value when that fits.
pub open spec fn parsed_i8(s: Seq<u8>) -> Option<i8> {
    match decimal_value(s) {
        Some(v) => if i8::MIN <= v <= i8::MAX {
            Some(v as i8)
        } else {
            None
        },
        None => None,
    }
}

/// The decimal digits of `n`, without leading zeros.
pub open spec fn natural_text(n: nat) -> Seq<u8>
    decreases n,
{
    if n < 10 {
        seq![(48 + n) as u8]
    } else {
        natural_text(n / 10).push((48 + n % 10) as u8)
    }
}

/// The decimal text of `v`, with a leading `-` when it is negative (as `Display` writes it).
pub open spec fn integer_text(v: int) -> Seq<u8> {
    if v < 0 {
        seq![45u8] + natural_text((-v) as nat)
    } else {
        natural_text(v as nat)
    }
}

/// A digit string has a value of at least zero.
pub proof fn lemma_digits_value_nonneg(s: Seq<u8>)
    requires
        all_digits(s),
    ensures
        digits_value(s) >= 0,
    decreases s.len(),
{
    if s.len() > 0 {
        assert(all_digits(s.drop_last())) by {
            assert forall|i: int| 0 <= i < s.drop_last().len() implies is_digit(
                #[trigger] s.drop_last()[i],
            ) by {
                assert(s.drop_last()[i] == s[i]);
            }
        }
        lemma_digits_value_nonneg(s.drop_last());
        assert(is_digit(s[s.len() - 1]));
    }
}

/// The digits of `n` are a nonempty digit string whose value is `n`.
pub proof fn lemma_natural_text(n: nat)
    ensures
        natural_text(n).len() >= 1,
        all_digits(natural_text(n)),
        digits_value(natural_text(n)) == n,
    decreases n,
{
    if n >= 10 {
        lemma_natural_text(n / 10);
        let t = natural_text(n);
        let init = natural_text(n / 10);
        assert(t.drop_last() =~= init);
        assert(n % 10 < 10);
        assert(t.last() == 48 + n % 10);
        assert(digits_value(t) == digits_value(init) * 10 + n % 10);
        assert(n == 10 * (n / 10) + n % 10) by {
            vstd::arithmetic::div_mod::lemma_fundamental_div_mod(n as int, 10);
        }
        assert(digits_value(init) * 10 == 10 * (n / 10));
        assert forall|i: int| 0 <= i < t.len() implies is_digit(#[trigger] t[i]) by {
            if i < init.len() {
                assert(t[i] == init[i]);
            }
        }
    } else {
        let t = natural_text(n);
        assert(t.drop_last() =~= Seq::<u8>::empty());
        assert(t.last() == 48 + n);
        assert(digits_value(t.drop_last()) == 0);
    }
}

/// Decimal text is canonical, as `Display` writes it: a nonempty digit string with the
/// value `n` and no leading zero; zero alone is written `0`.
pub proof fn law_decimal_text_canonical(n: nat)
    ensures
        all_digits(natural_text(n)),
        digits_value(natural_text(n)) == n,
        n == 0 ==> natural_text(n) == seq![48u8],
        n > 0 ==> natural_text(n).len() >= 1 && natural_text(n)[0] != 48,
    decreases n,
{
    lemma_natural_text(n);
    if n >= 10 {
        law_decimal_text_canonical(n / 10);
        let t = natural_text(n);
        assert(t[0] == natural_text(n / 10)[0]);
    } else {
        assert(natural_text(n) =~= seq![(48 + n) as u8]);
    }
}

/// The text of a negative integer is `-` followed by the canonical text of its magnitude;
/// that of any other integer is its canonical text.
pub proof fn law_integer_text_sign(v: int)
    ensures
        v < 0 ==> integer_text(v)[0] == 45 && integer_text(v).drop_first() == natural_text(
            (-v) as nat,
        ),
        v >= 0 ==> integer_text(v) == natural_text(v as nat) && integer_text(v)[0] != 45,
{
    if v < 0 {
        assert(integer_text(v).drop_first() =~= natural_text((-v) as nat));
    } else {
        lemma_natural_text(v as nat);
        assert(is_digit(natural_text(v as nat)[0]));
    }
}

/// Ten to the power `k`.
pub open spec fn pow10(k: nat) -> nat
    decreases k,
{
    if k == 0 {
        1
    } else {
        10 * pow10((k - 1) as nat)
    }
}

/// A number below `10^k` has at most `k` digits.
pub proof fn lemma_natural_text_len(n: nat, k: nat)
    requires
        k >= 1,
        n < pow10(k),
    ensures
        natural_text(n).len() <= k,
    decreases k,
{
    if n >= 10 {
        if k == 1 {
            assert(pow10(1) == 10 * pow10(0));
        }
        assert(k >= 2);
        assert(n == 10 * (n / 10) + n % 10) by {
            vstd::arithmetic::div_mod::lemma_fundamental_div_mod(n as int, 10);
        }
        assert(pow10(k) == 10 * pow10((k - 1) as nat));
        lemma_natural_text_len(n / 10, (k - 1) as nat);
    }
}

/// The decimal text of an `i32` has at most eleven bytes.
pub proof fn lemma_i32_text_len(v: i32)
    ensures
        integer_text(v as int).len() <= 11,
{
    reveal_with_fuel(pow10, 11);
    assert(pow10(10) == 10000000000);
    let n: nat = if v < 0 {
        (-v) as nat
    } else {
        v as nat
    };
    lemma_natural_text_len(n, 10);
}

/// Every byte of the decimal text of an integer is a digit or the minus sign.
pub proof fn lemma_integer_text_bytes(v: int)
    ensures
        integer_text(v).len() >= 1,
        forall|i: int|
            0 <= i < integer_text(v).len() ==> is_digit(#[trigger] integer_text(v)[i])
                || integer_text(v)[i] == 45,
{
    lemma_natural_text(if v < 0 {
        (-v) as nat
    } else {
        v as nat
    });
    if v < 0 {
        let d = natural_text((-v) as nat);
        assert forall|i: int| 0 <= i < integer_text(v).len() implies is_digit(
            #[trigger] integer_text(v)[i],
        ) || integer_text(v)[i] == 45 by {
            if i > 0 {
                assert(integer_text(v)[i] == d[i - 1]);
            }
        }
    }
}

/// Reading back the decimal text of an integer gives that integer.
pub proof fn lemma_decimal_value_of_text(v: int)
    ensures
        decimal_value(integer_text(v)) == Some(v),
{
    if v < 0 {
        let d = natural_text((-v) as nat);
        lemma_natural_text((-v) as nat);
        assert(integer_text(v).drop_first() =~= d);
    } else {
        lemma_natural_text(v as nat);
        let t = natural_text(v as nat);
        assert(is_digit(t[0]));
    }
}

/// Decimal round trip: parsing the text that `format_i32` writes gives the value back.
pub proof fn lemma_parse_format_i32(v: i32)
    ensures
        parsed_i32(integer_text(v as int)) == Some(v),
{
    lemma_decimal_value_of_text(v as int);
}

/// Decimal round trip for the narrow type: the text of `v` reads back as an `i8` exactly
/// when `v` lies in the range of `i8`.
pub proof fn lemma_parse_i8_of_text(v: int)
    ensures
        parsed_i8(integer_text(v)) == (if i8::MIN <= v <= i8::MAX {
            Some(v as i8)
        } else {
            None
        }),
{
    lemma_decimal_value_of_text(v);
}

/// One past the largest magnitude that an `i32` can carry.
pub const BEYOND_I32: u64 = 2147483649;

/// `v`, or `BEYOND_I32` when `v` is at least that large.
pub open spec fn capped(v: int) -> int {
    if v < BEYOND_I32 {
        v
    } else {
        BEYOND_I32 as int
    }
}

/// Reads `text` as a decimal `i32`, as `str::parse::<i32>` does: `None` when it is not an
/// optional sign followed by digits, or when the value does not fit.
pub fn parse_i32(text: &[u8]) -> (res: Option<i32>)
    ensures
        res == parsed_i32(text@),
{
    let n = text.len();
    if n == 0 {
        return None;
    }
    let first = text[0];
    let negative = first == 45;
    let start: usize = if first == 43 || first == 45 {
        1
    } else {
        0
    };
    if start == n {
        return None;
    }
    let ghost digits = text@.subrange(start as int, n as int);
    assert(start == 1 ==> digits =~= text@.drop_first());
    assert(start == 0 ==> digits =~= text@);
    let mut acc: u64 = 0;
    let mut i: usize = start;
    assert(text@.subrange(start as int, start as int) =~= Seq::<u8>::empty());
    while i < n
        invariant
            n == text@.len(),
            n > 0,
            start <= 1,
            start == 1 <==> (text@[0] == 43 || text@[0] == 45),
            start <= i <= n,
            digits == text@.subrange(start as int, n as int),
            all_digits(text@.subrange(start as int, i as int)),
            acc == capped(digits_value(text@.subrange(start as int, i as int))),
        decreases n - i,
    {
        let b = text[i];
        let ghost prefix = text@.subrange(start as int, i as int);
        let ghost next = text@.subrange(start as int, i + 1);
        if b < 48 || b > 57 {
            assert(digits[i - start] == b);
            assert(!all_digits(digits));
            if start == 1 {
                assert(digits =~= text@.drop_first());
            } else {
                assert(digits =~= text@);
            }
            assert(decimal_value(text@) is None);
            return None;
        }
        assert(next.drop_last() =~= prefix);
        assert(next.last() == b);
        assert(all_digits(next)) by {
            assert forall|k: int| 0 <= k < next.len() implies is_digit(#[trigger] next[k]) by {
                if k < prefix.len() {
                    assert(next[k] == prefix[k]);
                }
            }
        }
        proof {
            lemma_digits_value_nonneg(prefix);
        }
        let d = (b - 48) as u64;
        if acc >= BEYOND_I32 {
            acc = BEYOND_I32;
        } else {
            let t = acc * 10 + d;
            if t >= BEYOND_I32 {
                acc = BEYOND_I32;
            } else {
                acc = t;
            }
        }
        i = i + 1;
    }
    assert(text@.subrange(start as int, n as int) =~= digits);
    proof {
        lemma_digits_value_nonneg(digits);
    }
    if negative {
        if acc <= 2147483648 {
            Some((0i64 - acc as i64) as i32)
        } else {
            None
        }
    } else {
        if acc <= 2147483647 {
            Some(acc as i32)
        } else {
            None
        }
    }
}

/// Reads `text` as a decimal `i8`, as `str::parse::<i8>` does.
pub fn parse_i8(text: &[u8]) -> (res: Option<i8>)
    ensures
        res == parsed_i8(text@),
{
    match parse_i32(text) {
        Some(v) => if -128 <= v && v <= 127 {
            Some(v as i8)
        } else {
            None
        },
        None => None,
    }
}

/// The digits of `n`.
fn natural_digits(n: u32) -> (t: Vec<u8>)
    ensures
        t@ == natural_text(n as nat),
    decreases n,
{
    if n < 10 {
        let mut t: Vec<u8> = Vec::new();
        t.push((48 + n) as u8);
        t
    } else {
        let mut t = natural_digits(n / 10);
        t.push((48 + n % 10) as u8);
        t
    }
}

/// Appends the decimal text of `v` to `out`, as `write!(out, "{}", v)` does.
pub fn push_i32(out: &mut Vec<u8>, v: i32)
    ensures
        final(out)@ == old(out)@ + integer_text(v as int),
{
    let mut digits = if v < 0 {
        out.push(45);
        natural_digits((0i64 - v as i64) as u32)
    } else {
        natural_digits(v as u32)
    };
    out.append(&mut digits);
    assert(v < 0 ==> integer_text(v as int) =~= seq![45u8] + natural_text((-v) as nat));
}

/// The decimal text of `v`, as `v.to_string()` writes it.
pub fn format_i32(v: i32) -> (t: Vec<u8>)
    ensures
        t@ == integer_text(v as int),
{
    let mut t: Vec<u8> = Vec::new();
    push_i32(&mut t, v);
    t
}

} // verus!
