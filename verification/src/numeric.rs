//! Decimal text for the integer column type: a verified parser matching the
//! grammar accepted by the engine (optional sign, one or more digits, value
//! within the 64-bit signed range) and a verified formatter producing the
//! canonical representation, with a round-trip law connecting the two.

use vstd::prelude::*;
use vstd::string::StringExecFns;
use vstd::string::StrSliceExecFns;

verus! {

pub open spec fn is_digit_char(c: char) -> bool {
    c == '0' || c == '1' || c == '2' || c == '3' || c == '4' || c == '5' || c == '6' || c == '7'
        || c == '8' || c == '9'
}

/// Numeric value of a digit character.
pub open spec fn digit_val(c: char) -> int {
    if c == '0' {
        0
    } else if c == '1' {
        1
    } else if c == '2' {
        2
    } else if c == '3' {
        3
    } else if c == '4' {
        4
    } else if c == '5' {
        5
    } else if c == '6' {
        6
    } else if c == '7' {
        7
    } else if c == '8' {
        8
    } else {
        9
    }
}

/// Digit character for a value below ten.
pub open spec fn digit_char(d: int) -> char {
    if d == 0 {
        '0'
    } else if d == 1 {
        '1'
    } else if d == 2 {
        '2'
    } else if d == 3 {
        '3'
    } else if d == 4 {
        '4'
    } else if d == 5 {
        '5'
    } else if d == 6 {
        '6'
    } else if d == 7 {
        '7'
    } else if d == 8 {
        '8'
    } else {
        '9'
    }
}

pub open spec fn all_digits(s: Seq<char>) -> bool {
    forall|i: int| 0 <= i < s.len() ==> is_digit_char(#[trigger] s[i])
}

/// Value of a digit string, most significant digit first.
pub open spec fn digits_val(s: Seq<char>) -> int
    decreases s.len(),
{
    if s.len() == 0 {
        0
    } else {
        digits_val(s.drop_last()) * 10 + digit_val(s.last())
    }
}

/// The value denoted by decimal text: an optional single `+` or `-` sign,
/// then one or more digits, and the result must fit in `i64`. Exactly the
/// texts rejected here draw a type-mismatch error on insert.
pub open spec fn spec_parse_i64(s: Seq<char>) -> Option<i64> {
    let signed = s.len() > 0 && (s[0] == '-' || s[0] == '+');
    let neg = s.len() > 0 && s[0] == '-';
    let ds = if signed {
        s.drop_first()
    } else {
        s
    };
    if ds.len() > 0 && all_digits(ds) {
        let v = if neg {
            -digits_val(ds)
        } else {
            digits_val(ds)
        };
        if i64::MIN <= v <= i64::MAX {
            Some(v as i64)
        } else {
            None
        }
    } else {
        None
    }
}

/// Canonical digit string of a natural number.
pub open spec fn spec_digits(n: int) -> Seq<char>
    decreases n,
{
    if n < 10 {
        seq![digit_char(n)]
    } else {
        spec_digits(n / 10).push(digit_char(n % 10))
    }
}

/// Canonical decimal text of an integer.
pub open spec fn spec_i64_text(v: int) -> Seq<char> {
    if v >= 0 {
        spec_digits(v)
    } else {
        seq!['-'] + spec_digits(-v)
    }
}

/// Decimal text that formatting maps back to itself: the form the engine
/// itself produces when it renders a stored integer.
pub open spec fn canonical_i64_text(s: Seq<char>) -> bool {
    &&& spec_parse_i64(s) is Some
    &&& spec_i64_text(spec_parse_i64(s)->0 as int) == s
}

proof fn lemma_digits_val_nonneg(s: Seq<char>)
    ensures
        digits_val(s) >= 0,
    decreases s.len(),
{
    if s.len() > 0 {
        lemma_digits_val_nonneg(s.drop_last());
    }
}

/// Extending a digit string multiplies its value by ten and adds the digit,
/// so a prefix that is already too large cannot come back into range.
proof fn lemma_digits_val_grows(s: Seq<char>, k: int)
    requires
        0 <= k < s.len(),
    ensures
        digits_val(s.take(k + 1)) == digits_val(s.take(k)) * 10 + digit_val(s[k]),
    decreases s.len(),
{
    assert(s.take(k + 1).drop_last() =~= s.take(k));
    assert(s.take(k + 1).last() == s[k]);
}

proof fn lemma_digits_val_monotone(s: Seq<char>, k: int)
    requires
        0 <= k <= s.len(),
    ensures
        digits_val(s.take(k)) <= digits_val(s),
    decreases s.len() - k,
{
    if k < s.len() {
        lemma_digits_val_grows(s, k);
        lemma_digits_val_nonneg(s.take(k));
        assert(digit_val(s[k]) >= 0);
        lemma_digits_val_monotone(s, k + 1);
        assert(digits_val(s.take(k)) <= digits_val(s.take(k)) * 10) by (nonlinear_arith)
            requires
                digits_val(s.take(k)) >= 0,
        ;
    } else {
        assert(s.take(k) =~= s);
    }
}

/// Parse decimal text as a 64-bit signed integer, exactly as
/// [`spec_parse_i64`] describes.
pub fn parse_i64(s: &str) -> (r: Option<i64>)
    ensures
        r == spec_parse_i64(s@),
{
    let n = s.unicode_len();
    if n == 0 {
        return None;
    }
    let c0 = s.get_char(0);
    let signed = c0 == '-' || c0 == '+';
    let neg = c0 == '-';
    let start: usize = if signed {
        1
    } else {
        0
    };
    let ghost ds: Seq<char> = if signed {
        s@.drop_first()
    } else {
        s@
    };
    assert(ds =~= s@.subrange(start as int, n as int));
    if start == n {
        return None;
    }
    // Magnitude limit of the result: one more for a negative number.
    let limit: u64 = if neg {
        9223372036854775808
    } else {
        9223372036854775807
    };
    let mut acc: u64 = 0;
    let mut i: usize = start;
    while i < n
        invariant
            start <= i <= n,
            start < n,
            n == s@.len(),
            start + ds.len() == n,
            ds == (if signed {
                s@.drop_first()
            } else {
                s@
            }),
            signed == (s@.len() > 0 && (s@[0] == '-' || s@[0] == '+')),
            neg == (s@.len() > 0 && s@[0] == '-'),
            start == (if signed {
                1int
            } else {
                0int
            }),
            ds =~= s@.subrange(start as int, n as int),
            all_digits(ds.take(i - start)),
            acc == digits_val(ds.take(i - start)),
            acc <= limit,
            limit == (if neg {
                9223372036854775808u64
            } else {
                9223372036854775807u64
            }),
        decreases n - i,
    {
        let c = s.get_char(i);
        let d: u64 = if c == '0' {
            0
        } else if c == '1' {
            1
        } else if c == '2' {
            2
        } else if c == '3' {
            3
        } else if c == '4' {
            4
        } else if c == '5' {
            5
        } else if c == '6' {
            6
        } else if c == '7' {
            7
        } else if c == '8' {
            8
        } else if c == '9' {
            9
        } else {
            proof {
                assert(ds[i - start] == c);
                assert(!is_digit_char(ds[i - start]));
                assert(!all_digits(ds));
            }
            return None;
        };
        proof {
            assert(ds[i - start] == c);
            assert(is_digit_char(c) && digit_val(c) == d);
            lemma_digits_val_grows(ds, i - start);
        }
        let next: u128 = acc as u128 * 10 + d as u128;
        if next > limit as u128 {
            proof {
                lemma_digits_val_monotone(ds, i - start + 1);
                lemma_digits_val_nonneg(ds);
                assert(digits_val(ds.take(i - start + 1)) == acc * 10 + d);
                assert(digits_val(ds) >= acc * 10 + d);
                assert(digits_val(ds) > limit);
                if neg {
                    assert(-digits_val(ds) < i64::MIN);
                } else {
                    assert(digits_val(ds) > i64::MAX);
                }
            }
            return None;
        }
        acc = next as u64;
        i = i + 1;
        proof {
            assert(ds.take(i - start).drop_last() =~= ds.take(i - start - 1));
            assert(all_digits(ds.take(i - start)));
        }
    }
    proof {
        assert(ds.take(n - start) =~= ds);
    }
    if neg {
        if acc == 9223372036854775808 {
            Some(i64::MIN)
        } else {
            Some(-(acc as i64))
        }
    } else {
        Some(acc as i64)
    }
}

fn digit_str(d: u64) -> (r: &'static str)
    requires
        d < 10,
    ensures
        r@ =~= seq![digit_char(d as int)],
        r.is_ascii(),
{
    proof {
        reveal_strlit("0");
        reveal_strlit("1");
        reveal_strlit("2");
        reveal_strlit("3");
        reveal_strlit("4");
        reveal_strlit("5");
        reveal_strlit("6");
        reveal_strlit("7");
        reveal_strlit("8");
        reveal_strlit("9");
    }
    if d == 0 {
        "0"
    } else if d == 1 {
        "1"
    } else if d == 2 {
        "2"
    } else if d == 3 {
        "3"
    } else if d == 4 {
        "4"
    } else if d == 5 {
        "5"
    } else if d == 6 {
        "6"
    } else if d == 7 {
        "7"
    } else if d == 8 {
        "8"
    } else {
        "9"
    }
}

/// Render a magnitude as its canonical digit string.
fn format_magnitude(m: u64) -> (r: String)
    ensures
        r@ == spec_digits(m as int),
{
    let mut rest: u64 = m;
    let mut r: String = String::new();
    let d0: u64 = rest % 10;
    r = String::from_str(digit_str(d0)).concat(r.as_str());
    rest = rest / 10;
    proof {
        assert(r@ =~= seq![digit_char((m as int) % 10)]);
        if m < 10 {
            assert(spec_digits(m as int) =~= seq![digit_char(m as int)]);
            assert(r@ =~= spec_digits(m as int));
        } else {
            assert(spec_digits(m as int) == spec_digits(m as int / 10).push(
                digit_char(m as int % 10),
            ));
            assert(spec_digits(m as int) =~= spec_digits(rest as int) + r@);
        }
    }
    while rest > 0
        invariant
            rest > 0 ==> spec_digits(m as int) =~= spec_digits(rest as int) + r@,
            rest == 0 ==> r@ =~= spec_digits(m as int),
        decreases rest,
    {
        let d: u64 = rest % 10;
        let ghost prev = rest as int;
        let ghost old_r = r@;
        r = String::from_str(digit_str(d)).concat(r.as_str());
        rest = rest / 10;
        proof {
            assert(r@ =~= seq![digit_char(prev % 10)] + old_r);
            if prev >= 10 {
                assert(spec_digits(prev) == spec_digits(prev / 10).push(digit_char(prev % 10)));
                assert(spec_digits(prev) =~= spec_digits(rest as int) + seq![digit_char(prev % 10)]);
                assert(spec_digits(m as int) =~= spec_digits(rest as int) + r@);
            } else {
                assert(spec_digits(prev) =~= seq![digit_char(prev % 10)]);
                assert(r@ =~= spec_digits(m as int));
            }
        }
    }
    r
}

/// Render a 64-bit signed integer as its canonical decimal text.
pub fn format_i64(v: i64) -> (r: String)
    ensures
        r@ == spec_i64_text(v as int),
{
    if v >= 0 {
        format_magnitude(v as u64)
    } else {
        let m: u64 = if v == i64::MIN {
            9223372036854775808
        } else {
            (-v) as u64
        };
        assert(m == -(v as int));
        let minus = String::from_str(sign_str());
        let digits = format_magnitude(m);
        let r = minus.concat(digits.as_str());
        proof {
            assert(r@ =~= seq!['-'] + spec_digits(-(v as int)));
        }
        r
    }
}

fn sign_str() -> (r: &'static str)
    ensures
        r@ =~= seq!['-'],
{
    proof {
        reveal_strlit("-");
    }
    "-"
}

proof fn lemma_spec_digits_all_digits(n: int)
    requires
        n >= 0,
    ensures
        all_digits(spec_digits(n)),
        spec_digits(n).len() >= 1,
        is_digit_char(spec_digits(n)[0]),
    decreases n,
{
    if n < 10 {
        assert(spec_digits(n) =~= seq![digit_char(n)]);
    } else {
        lemma_spec_digits_all_digits(n / 10);
        assert(spec_digits(n) == spec_digits(n / 10).push(digit_char(n % 10)));
        assert forall|i: int| 0 <= i < spec_digits(n).len() implies is_digit_char(
            #[trigger] spec_digits(n)[i],
        ) by {
            if i < spec_digits(n / 10).len() {
                assert(spec_digits(n)[i] == spec_digits(n / 10)[i]);
            }
        }
    }
}

proof fn lemma_digits_val_of_spec_digits(n: int)
    requires
        n >= 0,
    ensures
        digits_val(spec_digits(n)) == n,
    decreases n,
{
    if n < 10 {
        assert(spec_digits(n) =~= seq![digit_char(n)]);
        assert(spec_digits(n).drop_last() =~= Seq::<char>::empty());
        assert(digits_val(Seq::<char>::empty()) == 0);
        assert(spec_digits(n).last() == digit_char(n));
        assert(digit_val(digit_char(n)) == n);
        assert(digits_val(spec_digits(n)) == digits_val(spec_digits(n).drop_last()) * 10
            + digit_val(spec_digits(n).last()));
    } else {
        lemma_digits_val_of_spec_digits(n / 10);
        assert(spec_digits(n) == spec_digits(n / 10).push(digit_char(n % 10)));
        assert(spec_digits(n).drop_last() =~= spec_digits(n / 10));
        assert(spec_digits(n).last() == digit_char(n % 10));
        assert(digit_val(digit_char(n % 10)) == n % 10);
        assert(digits_val(spec_digits(n)) == (n / 10) * 10 + n % 10);
        vstd::arithmetic::div_mod::lemma_fundamental_div_mod(n, 10);
    }
}

/// Round-trip law: parsing the canonical text of an integer yields that
/// integer back, so every value the engine renders is canonical text.
pub proof fn lemma_parse_format_round_trip(v: i64)
    ensures
        spec_parse_i64(spec_i64_text(v as int)) == Some(v),
        canonical_i64_text(spec_i64_text(v as int)),
{
    if v >= 0 {
        lemma_spec_digits_all_digits(v as int);
        lemma_digits_val_of_spec_digits(v as int);
        let s = spec_i64_text(v as int);
        assert(s[0] != '-' && s[0] != '+');
        assert(digits_val(s) == v as int);
    } else {
        let m = -(v as int);
        lemma_spec_digits_all_digits(m);
        lemma_digits_val_of_spec_digits(m);
        let s = spec_i64_text(v as int);
        assert(s[0] == '-');
        assert(s.drop_first() =~= spec_digits(m));
        assert(-digits_val(s.drop_first()) == v as int);
    }
}

} // verus!
