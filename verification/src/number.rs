use vstd::prelude::*;

use crate::chars::{chars_of, push_char};

verus! {

/// The character of the decimal digit `d` (`0 <= d < 10`).
pub open spec fn digit_char(d: int) -> char {
    (d + 48) as char
}

/// Whether `c` is one of the ASCII digits `0`..`9`.
pub open spec fn is_digit(c: char) -> bool {
    '0' <= c && c <= '9'
}

/// The value of the ASCII digit `c`.
pub open spec fn digit_value(c: char) -> int {
    c as int - 48
}

/// The decimal text of the natural number `n`, without leading zeros.
pub open spec fn nat_text(n: nat) -> Seq<char>
    decreases n,
{
    if n < 10 {
        seq![digit_char(n as int)]
    } else {
        nat_text(n / 10).push(digit_char((n % 10) as int))
    }
}

/// The decimal text of `n`, with a `-` before a negative one (as `Display` writes an integer).
pub open spec fn int_text(n: int) -> Seq<char> {
    if n < 0 {
        seq!['-'] + nat_text((-n) as nat)
    } else {
        nat_text(n as nat)
    }
}

/// The character of a digit.
fn digit_to_char(d: u64) -> (c: char)
    requires
        d < 10,
    ensures
        c == digit_char(d as int),
{
    let b: u8 = (d as u8) + 48;
    b as char
}

/// Appends the decimal text of `n`.
fn push_nat_text(out: &mut String, n: u64)
    ensures
        final(out)@ == old(out)@ + nat_text(n as nat),
    decreases n,
{
    let ghost start = out@;
    if n >= 10 {
        push_nat_text(out, n / 10);
    }
    push_char(out, digit_to_char(n % 10));
    assert(out@ =~= start + nat_text(n as nat));
}

/// Appends the decimal text of `n`.
pub fn push_int_text(out: &mut String, n: i64)
    ensures
        final(out)@ == old(out)@ + int_text(n as int),
{
    let ghost start = out@;
    if n < 0 {
        push_char(out, '-');
        let m: i128 = -(n as i128);
        push_nat_text(out, m as u64);
        assert(out@ =~= start + int_text(n as int));
    } else {
        push_nat_text(out, n as u64);
    }
}

/// Whether every character of `s` is an ASCII digit.
pub open spec fn all_digits(s: Seq<char>) -> bool {
    forall|i: int| 0 <= i < s.len() ==> is_digit(#[trigger] s[i])
}

/// The value of the digit string `s`, read in base ten.
pub open spec fn digits_value(s: Seq<char>) -> int
    decreases s.len(),
{
    if s.len() == 0 {
        0
    } else {
        10 * digits_value(s.drop_last()) + digit_value(s.last())
    }
}

/// Whether `s` starts with a sign character.
pub open spec fn has_sign(s: Seq<char>) -> bool {
    s.len() > 0 && (s[0] == '-' || s[0] == '+')
}

/// The digits of `s` after an optional sign.
pub open spec fn unsigned_part(s: Seq<char>) -> Seq<char> {
    if has_sign(s) {
        s.drop_first()
    } else {
        s
    }
}

/// The integer that `s` denotes as `i64::from_str` reads it, before the range check:
/// an optional `+` or `-`, then one or more ASCII digits and nothing else.
pub open spec fn integer_of(s: Seq<char>) -> Option<int> {
    let body = unsigned_part(s);
    if body.len() > 0 && all_digits(body) {
        Some(
            if s[0] == '-' {
                -digits_value(body)
            } else {
                digits_value(body)
            },
        )
    } else {
        None
    }
}

/// What `s.parse::<i64>()` gives, as an `Option`.
pub open spec fn i64_of(s: Seq<char>) -> Option<i64> {
    match integer_of(s) {
        Some(v) => if i64::MIN <= v <= i64::MAX {
            Some(v as i64)
        } else {
            None
        },
        None => None,
    }
}

/// What `s.parse::<i32>()` gives, as an `Option`.
pub open spec fn i32_of(s: Seq<char>) -> Option<i32> {
    match integer_of(s) {
        Some(v) => if i32::MIN <= v <= i32::MAX {
            Some(v as i32)
        } else {
            None
        },
        None => None,
    }
}

/// A digit string's value grows as digits are added at its end.
proof fn lemma_digits_value_prefix(s: Seq<char>, k: int)
    requires
        all_digits(s),
        0 <= k <= s.len(),
    ensures
        0 <= digits_value(s.take(k)) <= digits_value(s),
    decreases s.len(),
{
    if s.len() == 0 {
        assert(s.take(k) =~= s);
    } else if k == s.len() {
        assert(s.take(k) =~= s);
        lemma_digits_value_prefix(s.drop_last(), s.len() - 1);
        assert(s.drop_last().take(s.len() - 1) =~= s.drop_last());
    } else {
        lemma_digits_value_prefix(s.drop_last(), k);
        assert(s.drop_last().take(k) =~= s.take(k));
        lemma_digits_value_prefix(s.drop_last(), s.len() - 1);
        assert(s.drop_last().take(s.len() - 1) =~= s.drop_last());
    }
}

/// The integer `s` denotes, as `str::parse::<i64>` reads it.
pub fn parse_i64(s: &str) -> (res: Option<i64>)
    ensures
        res == i64_of(s@),
{
    let chars = chars_of(s);
    let n = chars.len();
    if n == 0 {
        return None;
    }
    let negative = chars[0] == '-';
    let start: usize = if chars[0] == '-' || chars[0] == '+' {
        1
    } else {
        0
    };
    let ghost body = unsigned_part(s@);
    assert(body =~= chars@.subrange(start as int, n as int));
    if start == n {
        return None;
    }
    let mut acc: i64 = 0;
    let mut i = start;
    while i < n
        invariant
            start <= i <= n == chars.len(),
            start < n,
            chars@ == s@,
            body == chars@.subrange(start as int, n as int),
            body == unsigned_part(s@),
            negative == (s@[0] == '-'),
            all_digits(chars@.subrange(start as int, i as int)),
            acc == (if negative {
                -digits_value(chars@.subrange(start as int, i as int))
            } else {
                digits_value(chars@.subrange(start as int, i as int))
            }),
        decreases n - i,
    {
        let c = chars[i];
        let ghost prefix = chars@.subrange(start as int, i as int);
        let ghost next = chars@.subrange(start as int, i + 1);
        if c < '0' || c > '9' {
            assert(!is_digit(body[i - start]));
            assert(!all_digits(body));
            assert(integer_of(s@).is_none());
            assert(i64_of(s@).is_none());
            return None;
        }
        assert(next.drop_last() =~= prefix);
        assert(next.last() == c);
        let d: i128 = (c as u32 - 48) as i128;
        assert(d == digit_value(c));
        assert(all_digits(next)) by {
            assert forall|k: int| 0 <= k < next.len() implies is_digit(#[trigger] next[k]) by {
                if k < next.len() - 1 {
                    assert(next[k] == prefix[k]);
                }
            }
        }
        let step: i128 = if negative {
            acc as i128 * 10 - d
        } else {
            acc as i128 * 10 + d
        };
        if step < i64::MIN as i128 || step > i64::MAX as i128 {
            proof {
                assert(digits_value(next) == 10 * digits_value(prefix) + d);
                if all_digits(body) {
                    lemma_digits_value_prefix(body, i + 1 - start);
                    assert(body.take(i + 1 - start) =~= next);
                    assert(integer_of(s@) == Some(
                        if negative {
                            -digits_value(body)
                        } else {
                            digits_value(body)
                        },
                    ));
                }
            }
            return None;
        }
        acc = step as i64;
        i = i + 1;
    }
    assert(chars@.subrange(start as int, n as int) == body);
    Some(acc)
}

/// The integer `s` denotes, as `str::parse::<i32>` reads it.
pub fn parse_i32(s: &str) -> (res: Option<i32>)
    ensures
        res == i32_of(s@),
{
    match parse_i64(s) {
        Some(v) => if i32::MIN as i64 <= v && v <= i32::MAX as i64 {
            Some(v as i32)
        } else {
            None
        },
        None => None,
    }
}

/// What `s.parse::<bool>()` gives, as an `Option`: only `true` and `false` are read.
pub open spec fn bool_of(s: Seq<char>) -> Option<bool> {
    if s == seq!['t', 'r', 'u', 'e'] {
        Some(true)
    } else if s == seq!['f', 'a', 'l', 's', 'e'] {
        Some(false)
    } else {
        None
    }
}

/// The boolean `s` denotes, as `str::parse::<bool>` reads it.
pub fn parse_bool(s: &str) -> (res: Option<bool>)
    ensures
        res == bool_of(s@),
{
    let c = chars_of(s);
    if c.len() == 4 && c[0] == 't' && c[1] == 'r' && c[2] == 'u' && c[3] == 'e' {
        assert(c@ =~= seq!['t', 'r', 'u', 'e']);
        Some(true)
    } else if c.len() == 5 && c[0] == 'f' && c[1] == 'a' && c[2] == 'l' && c[3] == 's' && c[4]
        == 'e' {
        assert(c@ =~= seq!['f', 'a', 'l', 's', 'e']);
        Some(false)
    } else {
        None
    }
}

proof fn lemma_digit_char(d: int)
    requires
        0 <= d < 10,
    ensures
        is_digit(digit_char(d)),
        digit_value(digit_char(d)) == d,
{
    assert((d + 48) as char as int == d + 48);
}

proof fn lemma_nat_text(n: nat)
    ensures
        nat_text(n).len() > 0,
        all_digits(nat_text(n)),
        digits_value(nat_text(n)) == n,
    decreases n,
{
    lemma_digit_char((n % 10) as int);
    if n < 10 {
        assert(nat_text(n).drop_last() =~= Seq::<char>::empty());
        assert(digits_value(nat_text(n).drop_last()) == 0);
        assert(digit_value(nat_text(n).last()) == n);
    } else {
        lemma_nat_text(n / 10);
        let t = nat_text(n);
        assert(t.drop_last() =~= nat_text(n / 10));
        assert(t.last() == digit_char((n % 10) as int));
        assert(digits_value(t) == 10 * digits_value(nat_text(n / 10)) + digit_value(t.last()));
        assert(10 * (n / 10) + n % 10 == n);
        assert forall|i: int| 0 <= i < t.len() implies is_digit(#[trigger] t[i]) by {
            if i < t.len() - 1 {
                assert(t[i] == nat_text(n / 10)[i]);
            }
        }
    }
}

/// An integer written in decimal is read back as itself: `n.to_string().parse::<i64>()`
/// gives `n`.
pub proof fn lemma_written_integer_reads_back(n: i64)
    ensures
        i64_of(int_text(n as int)) == Some(n),
{
    let m: nat = if n < 0 { (-n) as nat } else { n as nat };
    lemma_nat_text(m);
    let t = int_text(n as int);
    if n < 0 {
        assert(t.drop_first() =~= nat_text(m));
        assert(unsigned_part(t) =~= nat_text(m));
    } else {
        assert(is_digit(nat_text(m)[0]));
        assert(!has_sign(t));
    }
}

} // verus!
