//! Decimal integers as text: `i64` parsing as `str::parse` does it, and the
//! zero-padded decimal forms used in iCalendar date/time values.

use vstd::prelude::*;
use crate::text::push_char;

verus! {

pub open spec fn is_digit(c: char) -> bool {
    '0' <= c && c <= '9'
}

pub open spec fn digit_val(c: char) -> nat {
    ((c as u32) - ('0' as u32)) as nat
}

pub open spec fn digit_char(d: nat) -> char {
    ((d + ('0' as u32)) as u32) as char
}

pub open spec fn all_digits(s: Seq<char>) -> bool {
    forall|i: int| 0 <= i < s.len() ==> is_digit(s[i])
}

/// Value of a run of decimal digits.
pub open spec fn digits_value(s: Seq<char>) -> nat
    decreases s.len(),
{
    if s.len() == 0 {
        0
    } else {
        digits_value(s.drop_last()) * 10 + digit_val(s.last())
    }
}

/// Decimal digits of `n` without leading zeros (`"0"` for zero).
pub open spec fn digits(n: nat) -> Seq<char>
    decreases n,
{
    if n < 10 {
        seq![digit_char(n)]
    } else {
        digits(n / 10).push(digit_char(n % 10))
    }
}

/// `s` left-padded with `0` to at least `w` characters.
pub open spec fn zero_pad(s: Seq<char>, w: int) -> Seq<char> {
    if s.len() >= w {
        s
    } else {
        Seq::new((w - s.len()) as nat, |i: int| '0') + s
    }
}

/// `str::parse::<i64>`: an optional `+` or `-` followed by at least one ASCII
/// digit, with the value in range.
pub open spec fn parse_i64_spec(s: Seq<char>) -> Option<i64> {
    if s.len() == 0 {
        None
    } else {
        let neg = s[0] == '-';
        let ds = if s[0] == '-' || s[0] == '+' {
            s.drop_first()
        } else {
            s
        };
        if ds.len() == 0 || !all_digits(ds) {
            None
        } else {
            let v: int = if neg {
                -(digits_value(ds) as int)
            } else {
                digits_value(ds) as int
            };
            if i64::MIN <= v <= i64::MAX {
                Some(v as i64)
            } else {
                None
            }
        }
    }
}

/// `i64::to_string`.
pub open spec fn i64_text(v: int) -> Seq<char> {
    if v < 0 {
        seq!['-'] + digits((-v) as nat)
    } else {
        digits(v as nat)
    }
}

pub open spec fn pow10(n: nat) -> nat
    decreases n,
{
    if n == 0 {
        1
    } else {
        10 * pow10((n - 1) as nat)
    }
}

/// Parse a decimal `i64` the way `str::parse::<i64>` does.
pub fn parse_i64(text: &str) -> (r: Option<i64>)
    ensures
        r == parse_i64_spec(text@),
{
    let v = crate::text::chars_of(text);
    if v.len() == 0 {
        return None;
    }
    let neg = v[0] == '-';
    let start: usize = if v[0] == '-' || v[0] == '+' { 1 } else { 0 };
    let ghost ds = v@.skip(start as int);
    proof {
        if start == 1 {
            assert(ds =~= v@.drop_first());
        } else {
            assert(ds =~= v@);
        }
    }
    if start >= v.len() {
        return None;
    }
    // Accumulate the magnitude; 2^63 is the largest one that can fit (as i64::MIN).
    let limit: u64 = 9223372036854775808;
    let mut acc: u64 = 0;
    let mut i = start;
    let mut overflow = false;
    proof {
        assert(v@.subrange(start as int, start as int) =~= Seq::<char>::empty());
    }
    while i < v.len()
        invariant
            start <= i <= v@.len(),
            limit == 9223372036854775808u64,
            v@ == text@,
            v@.len() > 0,
            start == (if v@[0] == '-' || v@[0] == '+' { 1int } else { 0int }),
            neg == (v@[0] == '-'),
            ds == v@.skip(start as int),
            forall|k: int| start <= k < i ==> is_digit(v@[k]),
            !overflow ==> acc as int == digits_value(v@.subrange(start as int, i as int)) && acc <= limit,
            overflow ==> digits_value(v@.subrange(start as int, i as int)) > limit,
        decreases v.len() - i,
    {
        let c = v[i];
        if !('0' <= c && c <= '9') {
            proof {
                assert(ds[i - start] == c);
                assert(!is_digit(ds[i - start]));
                assert(!all_digits(ds));
                assert(v@ == text@);
                if v@[0] == '-' || v@[0] == '+' {
                    assert(ds == text@.drop_first());
                } else {
                    assert(ds == text@);
                }
                assert(parse_i64_spec(text@) is None);
            }
            return None;
        }
        let d = (c as u32 - '0' as u32) as u64;
        proof {
            assert(v@.subrange(start as int, i + 1).drop_last() =~= v@.subrange(start as int, i as int));
            assert(v@.subrange(start as int, i + 1).last() == c);
            assert(digit_val(c) == d);
        }
        if !overflow {
            if acc > (limit - d) / 10 {
                overflow = true;
                proof {
                    assert(acc * 10 + d > limit) by (nonlinear_arith)
                        requires
                            acc > (limit - d) / 10,
                            0 <= d <= 9,
                            limit == 9223372036854775808u64,
                    ;
                }
            } else {
                proof {
                    assert(acc * 10 + d <= limit) by (nonlinear_arith)
                        requires
                            acc <= (limit - d) / 10,
                            0 <= d <= 9,
                            limit == 9223372036854775808u64,
                    ;
                }
                acc = acc * 10 + d;
            }
        } else {
            proof {
                let pv = digits_value(v@.subrange(start as int, i as int));
                assert(pv * 10 + d > limit) by (nonlinear_arith)
                    requires
                        pv > limit,
                        0 <= d,
                ;
            }
        }
        i = i + 1;
    }
    proof {
        assert(v@.subrange(start as int, v@.len() as int) =~= ds);
        assert(all_digits(ds)) by {
            assert forall|k: int| 0 <= k < ds.len() implies is_digit(ds[k]) by {
                assert(ds[k] == v@[start + k]);
            }
        }
    }
    if overflow {
        return None;
    }
    if neg {
        if acc == limit {
            Some(i64::MIN)
        } else {
            Some(-(acc as i64))
        }
    } else {
        if acc >= limit {
            None
        } else {
            Some(acc as i64)
        }
    }
}

/// The decimal digits of `n` read back give `n`.
pub proof fn lemma_digits_value(n: nat)
    ensures
        digits_value(digits(n)) == n,
    decreases n,
{
    if n < 10 {
        let d = digits(n);
        assert(d.drop_last() =~= Seq::<char>::empty());
        assert(digit_val(digit_char(n)) == n) by {
            assert((n + 48) < 0xD800);
        }
        assert(digits_value(d) == digits_value(d.drop_last()) * 10 + digit_val(d.last()));
    } else {
        lemma_digits_value(n / 10);
        let d = digits(n);
        assert(d.drop_last() =~= digits(n / 10));
        assert(d.last() == digit_char(n % 10));
        assert(digit_val(digit_char(n % 10)) == n % 10) by {
            assert((n % 10 + 48) < 0xD800);
        }
        assert(digits_value(d) == digits_value(d.drop_last()) * 10 + digit_val(d.last()));
        assert((n / 10) * 10 + n % 10 == n);
    }
}

/// Different numbers have different decimal digits.
pub proof fn lemma_digits_injective(a: nat, b: nat)
    requires
        a != b,
    ensures
        digits(a) != digits(b),
{
    lemma_digits_value(a);
    lemma_digits_value(b);
}

pub(crate) proof fn lemma_digits_len(n: nat)
    ensures
        digits(n).len() >= 1,
        forall|i: int| 0 <= i < digits(n).len() ==> is_digit(#[trigger] digits(n)[i]),
    decreases n,
{
    if n >= 10 {
        lemma_digits_len(n / 10);
    }
}

/// Decimal digits of `n`.
pub fn u64_digits(n: u64) -> (r: String)
    ensures
        r@ == digits(n as nat),
{
    // Collect digits least-significant first, then emit in reverse.
    let mut rev: Vec<char> = Vec::new();
    let mut m = n;
    while m >= 10
        invariant
            digits(n as nat) == digits(m as nat) + rev_seq(rev@),
        decreases m,
    {
        let c = char_of_digit((m % 10) as u32);
        proof {
            assert(digits(m as nat) == digits((m / 10) as nat).push(digit_char((m % 10) as nat)));
            assert(rev_seq(rev@.push(c)) == seq![c] + rev_seq(rev@)) by {
                assert(rev@.push(c).drop_last() =~= rev@);
            }
            assert(digits(m as nat) + rev_seq(rev@) =~= digits((m / 10) as nat) + rev_seq(rev@.push(c)));
        }
        rev.push(c);
        m = m / 10;
    }
    let c = char_of_digit(m as u32);
    proof {
        assert(rev_seq(rev@.push(c)) == seq![c] + rev_seq(rev@)) by {
            assert(rev@.push(c).drop_last() =~= rev@);
        }
        assert(digits(m as nat) == seq![digit_char(m as nat)]);
    }
    rev.push(c);
    let mut out = String::new();
    let mut k = rev.len();
    proof {
        assert(rev@.take(k as int) =~= rev@);
        assert(digits(n as nat) =~= out@ + rev_seq(rev@.take(k as int)));
    }
    while k > 0
        invariant
            k <= rev@.len(),
            digits(n as nat) == out@ + rev_seq(rev@.take(k as int)),
        decreases k,
    {
        let ghost before = out@;
        proof {
            assert(rev@.take(k as int).drop_last() =~= rev@.take(k - 1));
            assert(rev@.take(k as int).last() == rev@[k - 1]);
        }
        push_char(&mut out, rev[k - 1]);
        proof {
            assert(out@ + rev_seq(rev@.take(k - 1)) =~= before + rev_seq(rev@.take(k as int)));
        }
        k = k - 1;
    }
    proof {
        assert(rev@.take(0) =~= Seq::<char>::empty());
        assert(out@ =~= out@ + rev_seq(rev@.take(0)));
    }
    out
}

/// Reverse of a sequence.
pub open spec fn rev_seq(s: Seq<char>) -> Seq<char>
    decreases s.len(),
{
    if s.len() == 0 {
        Seq::empty()
    } else {
        seq![s.last()] + rev_seq(s.drop_last())
    }
}

fn char_of_digit(d: u32) -> (c: char)
    requires
        d < 10,
    ensures
        c == digit_char(d as nat),
{
    let b = (d as u8) + 48;
    b as char
}

/// `i64::to_string`.
pub fn i64_string(v: i64) -> (r: String)
    ensures
        r@ == i64_text(v as int),
{
    if v < 0 {
        let mag: u64 = if v == i64::MIN {
            9223372036854775808u64
        } else {
            (-v) as u64
        };
        let ds = u64_digits(mag);
        let mut r = String::new();
        push_char(&mut r, '-');
        r.append(ds.as_str());
        r
    } else {
        u64_digits(v as u64)
    }
}

/// `str::parse::<u64>`: an optional `+` followed by at least one ASCII digit,
/// with the value in range.
pub open spec fn parse_u64_spec(s: Seq<char>) -> Option<u64> {
    let ds = if s.len() > 0 && s[0] == '+' {
        s.drop_first()
    } else {
        s
    };
    if ds.len() == 0 || !all_digits(ds) || digits_value(ds) > u64::MAX {
        None
    } else {
        Some(digits_value(ds) as u64)
    }
}

/// Parse a decimal `u64` the way `str::parse::<u64>` does.
pub fn parse_u64(text: &str) -> (r: Option<u64>)
    ensures
        r == parse_u64_spec(text@),
{
    let v = crate::text::chars_of(text);
    let start: usize = if v.len() > 0 && v[0] == '+' { 1 } else { 0 };
    let ghost ds = v@.skip(start as int);
    proof {
        if start == 1 {
            assert(ds =~= v@.drop_first());
        } else {
            assert(ds =~= v@);
        }
    }
    if start >= v.len() {
        return None;
    }
    let mut acc: u64 = 0;
    let mut i = start;
    let mut overflow = false;
    proof {
        assert(v@.subrange(start as int, start as int) =~= Seq::<char>::empty());
    }
    while i < v.len()
        invariant
            start <= i <= v@.len(),
            v@ == text@,
            start == (if v@.len() > 0 && v@[0] == '+' { 1int } else { 0int }),
            ds == v@.skip(start as int),
            forall|k: int| start <= k < i ==> is_digit(v@[k]),
            !overflow ==> acc as int == digits_value(v@.subrange(start as int, i as int)),
            overflow ==> digits_value(v@.subrange(start as int, i as int)) > u64::MAX,
        decreases v.len() - i,
    {
        let c = v[i];
        if !('0' <= c && c <= '9') {
            proof {
                assert(ds[i - start] == c);
                assert(!is_digit(ds[i - start]));
                assert(!all_digits(ds));
                assert(parse_u64_spec(text@) is None);
            }
            return None;
        }
        let d = (c as u32 - '0' as u32) as u64;
        proof {
            assert(v@.subrange(start as int, i + 1).drop_last() =~= v@.subrange(start as int, i as int));
            assert(v@.subrange(start as int, i + 1).last() == c);
            assert(digit_val(c) == d);
        }
        if !overflow {
            if acc > (u64::MAX - d) / 10 {
                overflow = true;
                proof {
                    assert(acc * 10 + d > u64::MAX) by (nonlinear_arith)
                        requires
                            acc > (u64::MAX - d) / 10,
                            0 <= d <= 9,
                    ;
                }
            } else {
                proof {
                    assert(acc * 10 + d <= u64::MAX) by (nonlinear_arith)
                        requires
                            acc <= (u64::MAX - d) / 10,
                            0 <= d <= 9,
                    ;
                }
                acc = acc * 10 + d;
            }
        } else {
            proof {
                let pv = digits_value(v@.subrange(start as int, i as int));
                assert(pv * 10 + d > u64::MAX) by (nonlinear_arith)
                    requires
                        pv > u64::MAX,
                        0 <= d,
                ;
            }
        }
        i = i + 1;
    }
    proof {
        assert(v@.subrange(start as int, v@.len() as int) =~= ds);
        assert(all_digits(ds)) by {
            assert forall|k: int| 0 <= k < ds.len() implies is_digit(ds[k]) by {
                assert(ds[k] == v@[start + k]);
            }
        }
    }
    if overflow {
        None
    } else {
        Some(acc)
    }
}

} // verus!
