//! Decimal text to integers: unsigned counts and fixed-point amounts.
use vstd::prelude::*;
use vstd::string::*;

verus! {

/// Amounts (modifier magnitudes, prices) are held in thousandths.
pub const FIXED_SCALE: i64 = 1000;

/// Largest magnitude of an amount, in thousandths.
pub const MAX_AMOUNT: i64 = 100_000_000_000_000;

pub open spec fn is_digit(c: char) -> bool {
    '0' <= c && c <= '9'
}

pub open spec fn digit_value(c: char) -> nat {
    ((c as u32) - ('0' as u32)) as nat
}

pub open spec fn all_digits(s: Seq<char>) -> bool {
    forall|i: int| 0 <= i < s.len() ==> is_digit(#[trigger] s[i])
}

/// The number that a string of decimal digits denotes.
pub open spec fn digits_value(s: Seq<char>) -> nat
    decreases s.len(),
{
    if s.len() == 0 {
        0
    } else {
        digits_value(s.drop_last()) * 10 + digit_value(s.last())
    }
}

pub open spec fn pow10(n: nat) -> nat
    decreases n,
{
    if n == 0 {
        1
    } else {
        10 * pow10((n - 1) as nat)
    }
}

/// The digits of an unsigned numeral: a leading `+` is allowed.
pub open spec fn unsigned_body(s: Seq<char>) -> Seq<char> {
    if s.len() > 0 && s[0] == '+' {
        s.drop_first()
    } else {
        s
    }
}

/// What parsing `s` as a `u32` gives: an optional `+`, one or more digits, in range.
pub open spec fn u32_of_text(s: Seq<char>) -> Option<u32> {
    let d = unsigned_body(s);
    if d.len() > 0 && all_digits(d) && digits_value(d) <= u32::MAX {
        Some(digits_value(d) as u32)
    } else {
        None
    }
}

/// A sign, `-` or `+`, may open a fixed-point numeral.
pub open spec fn signed_body(s: Seq<char>) -> Seq<char> {
    if s.len() > 0 && (s[0] == '+' || s[0] == '-') {
        s.drop_first()
    } else {
        s
    }
}

pub open spec fn is_negative_text(s: Seq<char>) -> bool {
    s.len() > 0 && s[0] == '-'
}

/// Index of the first `.` in `s`, or its length when there is none.
pub open spec fn point_index(s: Seq<char>) -> nat
    decreases s.len(),
{
    if s.len() == 0 {
        0
    } else if s[0] == '.' {
        0
    } else {
        1 + point_index(s.drop_first())
    }
}

pub open spec fn whole_digits(b: Seq<char>) -> Seq<char> {
    b.take(point_index(b) as int)
}

pub open spec fn fraction_digits(b: Seq<char>) -> Seq<char> {
    if point_index(b) < b.len() {
        b.skip(point_index(b) as int + 1)
    } else {
        Seq::empty()
    }
}

/// The magnitude, in thousandths, of a numeral body `w[.f]`; further fractional
/// digits round it to the nearest thousandth, halves away from zero.
pub open spec fn body_thousandths(b: Seq<char>) -> nat {
    let f = fraction_digits(b);
    if f.len() <= 3 {
        digits_value(whole_digits(b)) * 1000 + digits_value(f) * pow10((3 - f.len()) as nat)
    } else {
        digits_value(whole_digits(b)) * 1000 + digits_value(f.take(3)) + if '5' <= f[3] { 1nat } else { 0nat }
    }
}

/// A decimal numeral with an optional sign and at least one digit, whose
/// magnitude is at most `MAX_AMOUNT` thousandths.
pub open spec fn is_amount_text(s: Seq<char>) -> bool {
    let b = signed_body(s);
    let w = whole_digits(b);
    let f = fraction_digits(b);
    &&& all_digits(w)
    &&& all_digits(f)
    &&& w.len() + f.len() >= 1
    &&& body_thousandths(b) <= MAX_AMOUNT
}

/// The amount, in thousandths, that a numeral denotes.
pub open spec fn amount_of_text(s: Seq<char>) -> Option<i64> {
    if is_amount_text(s) {
        let m = body_thousandths(signed_body(s));
        Some(if is_negative_text(s) { -(m as int) } else { m as int } as i64)
    } else {
        None
    }
}

/// What parsing `s` as an `i32` gives: an optional sign, one or more digits, in range.
pub open spec fn i32_of_text(s: Seq<char>) -> Option<i32> {
    let d = signed_body(s);
    let m = digits_value(d);
    if d.len() > 0 && all_digits(d) && (if is_negative_text(s) { m <= 0x8000_0000 } else { m <= 0x7fff_ffff }) {
        Some((if is_negative_text(s) { -(m as int) } else { m as int }) as i32)
    } else {
        None
    }
}

proof fn lemma_digits_value_grows(x: Seq<char>, y: Seq<char>)
    ensures
        digits_value(x + y) >= digits_value(x),
    decreases y.len(),
{
    if y.len() > 0 {
        assert((x + y).drop_last() =~= x + y.drop_last());
        lemma_digits_value_grows(x, y.drop_last());
    } else {
        assert(x + y =~= x);
    }
}

/// The digits `s[from..to]` as a number, when they are all digits and the number
/// is at most `limit`.
fn digits_in(s: &str, from: usize, to: usize, limit: u64) -> (r: Option<u64>)
    requires
        from <= to <= s@.len(),
    ensures
        r == (if all_digits(s@.subrange(from as int, to as int)) && digits_value(
            s@.subrange(from as int, to as int),
        ) <= limit {
            Some(digits_value(s@.subrange(from as int, to as int)) as u64)
        } else {
            None::<u64>
        }),
{
    let ghost whole = s@.subrange(from as int, to as int);
    let mut i: usize = from;
    let mut acc: u64 = 0;
    while i < to
        invariant
            from <= i <= to <= s@.len(),
            whole == s@.subrange(from as int, to as int),
            all_digits(s@.subrange(from as int, i as int)),
            acc == digits_value(s@.subrange(from as int, i as int)),
            acc <= limit,
        decreases to - i,
    {
        let c = s.get_char(i);
        let ghost before = s@.subrange(from as int, i as int);
        let ghost after = s@.subrange(from as int, i as int + 1);
        assert(after.drop_last() =~= before);
        if !('0' <= c && c <= '9') {
            assert(!all_digits(whole)) by {
                assert(whole[i - from] == c);
            }
            return None;
        }
        let d: u64 = (c as u32 - '0' as u32) as u64;
        if d > limit {
            proof {
                assert(whole =~= after + s@.subrange(i as int + 1, to as int));
                lemma_digits_value_grows(after, s@.subrange(i as int + 1, to as int));
            }
            return None;
        }
        if acc > (limit - d) / 10 {
            proof {
                assert(digits_value(after) > limit) by (nonlinear_arith)
                    requires
                        digits_value(after) == acc * 10 + d,
                        acc > (limit - d) / 10,
                        d <= limit,
                ;
                assert(whole =~= after + s@.subrange(i as int + 1, to as int));
                lemma_digits_value_grows(after, s@.subrange(i as int + 1, to as int));
            }
            return None;
        }
        assert(acc * 10 + d <= limit) by (nonlinear_arith)
            requires
                acc <= (limit - d) / 10,
                d <= limit,
        ;
        acc = acc * 10 + d;
        i = i + 1;
    }
    assert(s@.subrange(from as int, i as int) =~= whole);
    Some(acc)
}

/// Whether two texts hold the same characters.
pub fn same_text(a: &str, b: &str) -> (r: bool)
    ensures
        r == (a@ == b@),
{
    let n = a.unicode_len();
    if n != b.unicode_len() {
        return false;
    }
    let mut i: usize = 0;
    while i < n
        invariant
            i <= n,
            n == a@.len(),
            n == b@.len(),
            forall|k: int| 0 <= k < i ==> a@[k] == b@[k],
        decreases n - i,
    {
        if a.get_char(i) != b.get_char(i) {
            return false;
        }
        i = i + 1;
    }
    assert(a@ =~= b@);
    true
}

/// Parses a signed 32-bit integer: an optional sign and one or more decimal digits.
pub fn parse_i32(s: &str) -> (r: Option<i32>)
    ensures
        r == i32_of_text(s@),
{
    let n = s.unicode_len();
    let first = if n > 0 {
        s.get_char(0)
    } else {
        ' '
    };
    let negative = n > 0 && first == '-';
    let start: usize = if n > 0 && (first == '+' || first == '-') {
        1
    } else {
        0
    };
    assert(signed_body(s@) =~= s@.subrange(start as int, n as int));
    if start >= n {
        return None;
    }
    let limit: u64 = if negative {
        0x8000_0000
    } else {
        0x7fff_ffff
    };
    match digits_in(s, start, n, limit) {
        Some(v) => {
            if negative {
                Some((-(v as i64)) as i32)
            } else {
                Some(v as i32)
            }
        },
        None => None,
    }
}

/// Parses an unsigned 32-bit integer: an optional `+` and one or more decimal digits.
pub fn parse_u32(s: &str) -> (r: Option<u32>)
    ensures
        r == u32_of_text(s@),
{
    let n = s.unicode_len();
    let start: usize = if n > 0 && s.get_char(0) == '+' {
        1
    } else {
        0
    };
    assert(unsigned_body(s@) =~= s@.subrange(start as int, n as int));
    if start >= n {
        return None;
    }
    match digits_in(s, start, n, u32::MAX as u64) {
        Some(v) => Some(v as u32),
        None => None,
    }
}

proof fn lemma_point_index_at(b: Seq<char>, q: int)
    requires
        0 <= q <= b.len(),
        forall|k: int| 0 <= k < q ==> b[k] != '.',
        q < b.len() ==> b[q] == '.',
    ensures
        point_index(b) == q,
    decreases q,
{
    if q > 0 {
        let t = b.drop_first();
        assert forall|k: int| 0 <= k < q - 1 implies t[k] != '.' by {
            assert(t[k] == b[k + 1]);
        }
        if q < b.len() {
            assert(t[q - 1] == b[q]);
        }
        lemma_point_index_at(t, q - 1);
    }
}

proof fn lemma_digits_value_below(s: Seq<char>)
    requires
        all_digits(s),
    ensures
        digits_value(s) < pow10(s.len()),
    decreases s.len(),
{
    if s.len() > 0 {
        let t = s.drop_last();
        assert(all_digits(t)) by {
            assert forall|i: int| 0 <= i < t.len() implies is_digit(#[trigger] t[i]) by {
                assert(t[i] == s[i]);
            }
        }
        lemma_digits_value_below(t);
        assert(is_digit(s[s.len() - 1]));
        assert(digits_value(s) == digits_value(t) * 10 + digit_value(s.last()));
        assert(pow10(s.len()) == 10 * pow10(t.len()));
        assert(digits_value(t) * 10 + digit_value(s.last()) < 10 * pow10(t.len())) by (nonlinear_arith)
            requires
                digits_value(t) < pow10(t.len()),
                digit_value(s.last()) < 10,
        ;
    }
}

/// Whether `s[from..to]` is all digits.
fn all_digits_in(s: &str, from: usize, to: usize) -> (r: bool)
    requires
        from <= to <= s@.len(),
    ensures
        r == all_digits(s@.subrange(from as int, to as int)),
{
    let mut i: usize = from;
    while i < to
        invariant
            from <= i <= to <= s@.len(),
            all_digits(s@.subrange(from as int, i as int)),
        decreases to - i,
    {
        let c = s.get_char(i);
        if !('0' <= c && c <= '9') {
            assert(s@.subrange(from as int, to as int)[i - from] == c);
            return false;
        }
        assert forall|k: int| 0 <= k < i + 1 - from implies is_digit(#[trigger] s@.subrange(from as int, i as int + 1)[k]) by {
            if k < i - from {
                assert(s@.subrange(from as int, i as int + 1)[k] == s@.subrange(from as int, i as int)[k]);
            }
        }
        i = i + 1;
    }
    true
}

/// Parses a decimal amount into thousandths: an optional sign and digits with an
/// optional point, rounded to the nearest thousandth (halves away from zero), of a
/// magnitude of at most `MAX_AMOUNT` thousandths.
#[verifier::rlimit(40)]
pub fn parse_amount(s: &str) -> (r: Option<i64>)
    ensures
        r == amount_of_text(s@),
{
    let n = s.unicode_len();
    let first = if n > 0 {
        s.get_char(0)
    } else {
        ' '
    };
    let negative = n > 0 && first == '-';
    let start: usize = if n > 0 && (first == '+' || first == '-') {
        1
    } else {
        0
    };
    let ghost b = signed_body(s@);
    assert(b =~= s@.subrange(start as int, n as int));
    let mut p: usize = start;
    while p < n && s.get_char(p) != '.'
        invariant
            start <= p <= n,
            n == s@.len(),
            forall|k: int| start <= k < p ==> s@[k] != '.',
        decreases n - p,
    {
        p = p + 1;
    }
    proof {
        assert forall|k: int| 0 <= k < p - start implies b[k] != '.' by {
            assert(b[k] == s@[k + start]);
        }
        if p < n {
            assert(b[p - start] == s@[p as int]);
        }
        lemma_point_index_at(b, p - start);
    }
    let frac_from: usize = if p < n {
        p + 1
    } else {
        n
    };
    assert(whole_digits(b) =~= s@.subrange(start as int, p as int));
    assert(fraction_digits(b) =~= s@.subrange(frac_from as int, n as int));
    let ghost w = whole_digits(b);
    let ghost f = fraction_digits(b);
    if (p - start) + (n - frac_from) == 0 {
        return None;
    }
    let whole = match digits_in(s, start, p, 100_000_000_000) {
        Some(v) => v,
        None => {
            return None;
        },
    };
    let magnitude: u64 = if n - frac_from <= 3 {
        let frac = match digits_in(s, frac_from, n, 1000) {
            Some(v) => v,
            None => {
                proof {
                    if all_digits(f) {
                        lemma_digits_value_below(f);
                        assert(pow10(f.len()) <= 1000) by {
                            reveal_with_fuel(pow10, 4);
                        }
                    }
                }
                return None;
            },
        };
        let scale: u64 = if n - frac_from == 0 {
            1000
        } else if n - frac_from == 1 {
            100
        } else if n - frac_from == 2 {
            10
        } else {
            1
        };
        assert(scale == pow10((3 - f.len()) as nat)) by {
            reveal_with_fuel(pow10, 4);
        }
        assert(frac * scale <= 1_000_000) by (nonlinear_arith)
            requires
                frac <= 1000,
                scale <= 1000,
        ;
        whole * 1000 + frac * scale
    } else {
        let ghost f3 = f.take(3);
        assert(f3 =~= s@.subrange(frac_from as int, frac_from as int + 3));
        let head_ok = all_digits_in(s, frac_from, frac_from + 3);
        let rest_ok = all_digits_in(s, frac_from + 3, n);
        proof {
            let rest = s@.subrange(frac_from as int + 3, n as int);
            assert(f =~= f3 + rest);
            if all_digits(f) {
                assert forall|k: int| 0 <= k < 3 implies is_digit(#[trigger] f3[k]) by {
                    assert(f3[k] == f[k]);
                }
                assert forall|k: int| 0 <= k < rest.len() implies is_digit(#[trigger] rest[k]) by {
                    assert(rest[k] == f[k + 3]);
                }
            }
            if head_ok && rest_ok {
                assert forall|k: int| 0 <= k < f.len() implies is_digit(#[trigger] f[k]) by {
                    if k < 3 {
                        assert(f[k] == f3[k]);
                    } else {
                        assert(f[k] == rest[k - 3]);
                    }
                }
            }
        }
        if !(head_ok && rest_ok) {
            return None;
        }
        let head = match digits_in(s, frac_from, frac_from + 3, 1000) {
            Some(v) => v,
            None => {
                proof {
                    lemma_digits_value_below(f3);
                    assert(pow10(3) == 1000) by {
                        reveal_with_fuel(pow10, 4);
                    }
                }
                return None;
            },
        };
        let round_up: u64 = if '5' <= s.get_char(frac_from + 3) {
            1
        } else {
            0
        };
        assert(f[3] == s@[frac_from + 3]);
        whole * 1000 + head + round_up
    };
    if magnitude > MAX_AMOUNT as u64 {
        return None;
    }
    if negative {
        Some(-(magnitude as i64))
    } else {
        Some(magnitude as i64)
    }
}

} // verus!
