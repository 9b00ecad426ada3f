//! Decimal numbers written as text, read as fixed-point integers in
//! millionths.
//!
//! Accepted: an optional sign, then digits with an optional fraction after a
//! point, at least one digit in all, then an optional exponent: `e` or `E`,
//! an optional sign and digits (`42`, `-3.6`, `+.5`, `7.`, `1e3`, `2.5E-2`).
//! Digits below a millionth are dropped.
use crate::document::chars_of;
use vstd::prelude::*;

verus! {

/// The largest magnitude that an `i64` value can have: 2⁶³.
pub const MAGNITUDE_MAX: u64 = 9223372036854775808;

pub open spec fn is_digit(c: char) -> bool {
    '0' <= c <= '9'
}

pub open spec fn digit_value(c: char) -> int {
    c as int - '0' as int
}

pub open spec fn all_digits(s: Seq<char>) -> bool {
    forall|i: int| 0 <= i < s.len() ==> is_digit(#[trigger] s[i])
}

/// The value of a run of decimal digits.
pub open spec fn digits_value(s: Seq<char>) -> int
    decreases s.len(),
{
    if s.len() == 0 {
        0
    } else {
        digits_value(s.drop_last()) * 10 + digit_value(s.last())
    }
}

pub open spec fn pow10(k: nat) -> int
    decreases k,
{
    if k == 0 {
        1
    } else {
        10 * pow10((k - 1) as nat)
    }
}

/// Position of the first character of `s`, from `i` on, that is not a
/// digit, or the length of `s`.
pub open spec fn digits_end(s: Seq<char>, i: int) -> int
    decreases s.len() - i,
{
    if i < 0 || i >= s.len() {
        s.len() as int
    } else if !is_digit(s[i]) {
        i
    } else {
        digits_end(s, i + 1)
    }
}

pub open spec fn unsigned_part(s: Seq<char>) -> Seq<char> {
    if s.len() > 0 && (s[0] == '-' || s[0] == '+') {
        s.drop_first()
    } else {
        s
    }
}

/// The exponent that `rest` writes: zero for no text, else `e` or `E`, an
/// optional sign and at least one digit.
pub open spec fn exponent_of(rest: Seq<char>) -> Option<int> {
    if rest.len() == 0 {
        Some(0)
    } else if rest[0] == 'e' || rest[0] == 'E' {
        let t = rest.drop_first();
        let u = unsigned_part(t);
        if u.len() > 0 && all_digits(u) {
            Some(
                if t[0] == '-' {
                    -digits_value(u)
                } else {
                    digits_value(u)
                },
            )
        } else {
            None
        }
    } else {
        None
    }
}

/// The digits `d` read as a whole number times `10^k`, with the digits
/// that fall below one dropped.
pub open spec fn scaled(d: Seq<char>, k: int) -> int {
    if k >= 0 {
        digits_value(d) * pow10(k as nat)
    } else if d.len() + k <= 0 {
        0
    } else {
        digits_value(d.subrange(0, d.len() + k))
    }
}

/// The value of a decimal in millionths, or `None` where the text is not a
/// decimal or its value does not fit an `i64`.
pub open spec fn decimal_micros(s: Seq<char>) -> Option<i64> {
    let negative = s.len() > 0 && s[0] == '-';
    let body = unsigned_part(s);
    let end = digits_end(body, 0);
    let point = end < body.len() && body[end] == '.';
    let fstart = if point {
        end + 1
    } else {
        end
    };
    let fend = if point {
        digits_end(body, end + 1)
    } else {
        end
    };
    let digits = body.subrange(0, end) + body.subrange(fstart, fend);
    match exponent_of(body.subrange(fend, body.len() as int)) {
        None => None,
        Some(e) => {
            let m = scaled(digits, 6 + e - (fend - fstart));
            let value = if negative {
                -m
            } else {
                m
            };
            if digits.len() > 0 && i64::MIN <= value <= i64::MAX {
                Some(value as i64)
            } else {
                None
            }
        },
    }
}

proof fn lemma_digits_end_from(s: Seq<char>, i: int)
    requires
        0 <= i <= s.len(),
    ensures
        i <= digits_end(s, i) <= s.len(),
        all_digits(s.subrange(i, digits_end(s, i))),
    decreases s.len() - i,
{
    if i < s.len() && is_digit(s[i]) {
        lemma_digits_end_from(s, i + 1);
        let e = digits_end(s, i);
        assert forall|k: int| 0 <= k < e - i implies is_digit(#[trigger] s.subrange(i, e)[k]) by {
            if k > 0 {
                assert(s.subrange(i, e)[k] == s.subrange(i + 1, e)[k - 1]);
            }
        }
    }
}

proof fn lemma_digits_grow(s: Seq<char>, i: int)
    requires
        0 <= i <= s.len(),
        all_digits(s),
    ensures
        0 <= digits_value(s.subrange(0, i)) <= digits_value(s),
    decreases s.len(),
{
    if s.len() > 0 {
        assert(is_digit(s[s.len() - 1]));
        let t = s.drop_last();
        assert(all_digits(t)) by {
            assert forall|k: int| 0 <= k < t.len() implies is_digit(#[trigger] t[k]) by {
                assert(t[k] == s[k]);
            }
        }
        if i < s.len() {
            assert(t.subrange(0, i) =~= s.subrange(0, i));
            lemma_digits_grow(t, i);
        } else {
            assert(s.subrange(0, i) =~= s);
            lemma_digits_grow(t, t.len() as int);
            assert(t.subrange(0, t.len() as int) =~= t);
        }
    }
}

proof fn lemma_pow10_pos(k: nat)
    ensures
        pow10(k) >= 1,
    decreases k,
{
    if k > 0 {
        lemma_pow10_pos((k - 1) as nat);
    }
}

proof fn lemma_pow10_mono(a: nat, b: nat)
    requires
        a <= b,
    ensures
        1 <= pow10(a) <= pow10(b),
    decreases b,
{
    lemma_pow10_pos(a);
    if b > a {
        lemma_pow10_mono(a, (b - 1) as nat);
    }
}

proof fn lemma_pow10_big(k: nat)
    requires
        k >= 19,
    ensures
        pow10(k) > MAGNITUDE_MAX,
{
    reveal_with_fuel(pow10, 20);
    assert(pow10(19) == 10000000000000000000);
    lemma_pow10_mono(19, k);
}

/// Position of the first non-digit of `s` from `from` on.
fn scan_digits(s: &Vec<char>, from: usize) -> (r: usize)
    requires
        from <= s@.len(),
    ensures
        r == digits_end(s@, from as int),
        from <= r <= s@.len(),
        all_digits(s@.subrange(from as int, r as int)),
{
    let mut i = from;
    while i < s.len() && '0' <= s[i] && s[i] <= '9'
        invariant
            from <= i <= s@.len(),
            digits_end(s@, from as int) == digits_end(s@, i as int),
        decreases s@.len() - i,
    {
        i = i + 1;
    }
    proof {
        lemma_digits_end_from(s@, from as int);
    }
    i
}

/// `s` from position `from` on.
fn tail(s: &Vec<char>, from: usize) -> (r: Vec<char>)
    requires
        from <= s@.len(),
    ensures
        r@ == s@.subrange(from as int, s@.len() as int),
{
    let mut r: Vec<char> = Vec::new();
    let mut i = from;
    while i < s.len()
        invariant
            from <= i <= s@.len(),
            r@ == s@.subrange(from as int, i as int),
        decreases s@.len() - i,
    {
        r.push(s[i]);
        i = i + 1;
        assert(r@ =~= s@.subrange(from as int, i as int));
    }
    r
}

/// Appends `s[from..to]` to `d`.
fn append_range(d: &mut Vec<char>, s: &Vec<char>, from: usize, to: usize)
    requires
        from <= to <= s@.len(),
    ensures
        final(d)@ == old(d)@ + s@.subrange(from as int, to as int),
{
    let ghost start = d@;
    let mut i = from;
    while i < to
        invariant
            from <= i <= to,
            to <= s@.len(),
            d@ == start + s@.subrange(from as int, i as int),
        decreases to - i,
    {
        d.push(s[i]);
        i = i + 1;
        assert(d@ =~= start + s@.subrange(from as int, i as int));
    }
}

/// The value of the first `len` digits of `d`, where it is at most
/// [`MAGNITUDE_MAX`].
fn prefix_value(d: &Vec<char>, len: usize) -> (r: Option<u64>)
    requires
        all_digits(d@),
        len <= d@.len(),
    ensures
        match r {
            Some(v) => v == digits_value(d@.subrange(0, len as int)) && v <= MAGNITUDE_MAX,
            None => digits_value(d@.subrange(0, len as int)) > MAGNITUDE_MAX,
        },
{
    let ghost p = d@.subrange(0, len as int);
    assert(all_digits(p)) by {
        assert forall|k: int| 0 <= k < p.len() implies is_digit(#[trigger] p[k]) by {
            assert(p[k] == d@[k]);
        }
    }
    let mut acc: u64 = 0;
    let mut i: usize = 0;
    while i < len
        invariant
            i <= len,
            len <= d@.len(),
            p == d@.subrange(0, len as int),
            all_digits(p),
            acc == digits_value(p.subrange(0, i as int)),
            acc <= MAGNITUDE_MAX,
        decreases len - i,
    {
        assert(p.subrange(0, i + 1).drop_last() =~= p.subrange(0, i as int));
        assert(is_digit(p[i as int]));
        assert(p[i as int] == d@[i as int]);
        let c = d[i];
        let dv = (c as u32 - '0' as u32) as u64;
        if acc > (MAGNITUDE_MAX - dv) / 10 {
            proof {
                lemma_digits_grow(p, i + 1);
            }
            return None;
        }
        acc = acc * 10 + dv;
        i = i + 1;
    }
    assert(p.subrange(0, len as int) =~= p);
    Some(acc)
}

/// `m × 10^k`, where it is at most [`MAGNITUDE_MAX`].
fn scale_up(m: u64, k: u128) -> (r: Option<u64>)
    requires
        m <= MAGNITUDE_MAX,
    ensures
        match r {
            Some(v) => v == m * pow10(k as nat) && v <= MAGNITUDE_MAX,
            None => m * pow10(k as nat) > MAGNITUDE_MAX,
        },
{
    if m == 0 {
        assert(0 * pow10(k as nat) == 0);
        return Some(0);
    }
    let mut acc: u64 = m;
    let mut i: u128 = 0;
    while i < k
        invariant
            i <= k,
            1 <= m <= MAGNITUDE_MAX,
            acc == m * pow10(i as nat),
            acc <= MAGNITUDE_MAX,
        decreases k - i,
    {
        assert(pow10((i + 1) as nat) == 10 * pow10(i as nat));
        assert(m * pow10((i + 1) as nat) == acc * 10) by (nonlinear_arith)
            requires
                pow10((i + 1) as nat) == 10 * pow10(i as nat),
                acc == m * pow10(i as nat),
        ;
        if acc > MAGNITUDE_MAX / 10 {
            proof {
                lemma_pow10_mono((i + 1) as nat, k as nat);
                assert(m * pow10((i + 1) as nat) <= m * pow10(k as nat)) by (nonlinear_arith)
                    requires
                        pow10((i + 1) as nat) <= pow10(k as nat),
                        m >= 1,
                ;
            }
            return None;
        }
        acc = acc * 10;
        i = i + 1;
    }
    Some(acc)
}

/// The exponent after the mantissa, from position `from` of `s` on: its
/// sign, and its magnitude where that is at most `s.len() + 64`; `huge`
/// marks a larger one.
fn read_exponent(s: &Vec<char>, from: usize) -> (r: Option<(bool, u128, bool)>)
    requires
        from <= s@.len(),
    ensures
        match r {
            None => exponent_of(s@.subrange(from as int, s@.len() as int)) is None,
            Some((neg, e, huge)) => {
                let v = exponent_of(s@.subrange(from as int, s@.len() as int))->0;
                let cap = s@.len() + 64;
                &&& e <= cap
                &&& exponent_of(s@.subrange(from as int, s@.len() as int)) is Some
                &&& !huge ==> v == if neg {
                    -(e as int)
                } else {
                    e as int
                }
                &&& huge && neg ==> v < -cap
                &&& huge && !neg ==> v > cap
            },
        },
{
    let ghost rest = s@.subrange(from as int, s@.len() as int);
    if from == s.len() {
        return Some((false, 0, false));
    }
    assert(rest[0] == s@[from as int]);
    if s[from] != 'e' && s[from] != 'E' {
        return None;
    }
    let ghost t = rest.drop_first();
    assert(t =~= s@.subrange(from + 1, s@.len() as int));
    let mut i = from + 1;
    if i < s.len() {
        assert(t[0] == s@[i as int]);
    }
    let neg = i < s.len() && s[i] == '-';
    if i < s.len() && (s[i] == '-' || s[i] == '+') {
        i = i + 1;
    }
    let ustart = i;
    let ghost u = unsigned_part(t);
    assert(u =~= s@.subrange(ustart as int, s@.len() as int));
    if ustart == s.len() {
        return None;
    }
    let cap: u128 = s.len() as u128 + 64;
    let mut acc: u128 = 0;
    let mut huge = false;
    while i < s.len()
        invariant
            ustart <= i <= s@.len(),
            cap == s@.len() + 64,
            rest == s@.subrange(from as int, s@.len() as int),
            rest.len() > 0,
            rest[0] == 'e' || rest[0] == 'E',
            t == rest.drop_first(),
            u == unsigned_part(t),
            u == s@.subrange(ustart as int, s@.len() as int),
            all_digits(s@.subrange(ustart as int, i as int)),
            huge == (digits_value(s@.subrange(ustart as int, i as int)) > cap),
            !huge ==> acc == digits_value(s@.subrange(ustart as int, i as int)),
            acc <= cap,
        decreases s@.len() - i,
    {
        let c = s[i];
        assert(u[i - ustart] == c);
        if !('0' <= c && c <= '9') {
            assert(!is_digit(u[i - ustart]));
            return None;
        }
        let ghost before = s@.subrange(ustart as int, i as int);
        let ghost after = s@.subrange(ustart as int, i + 1);
        assert(after.drop_last() =~= before);
        assert(all_digits(after)) by {
            assert forall|k: int| 0 <= k < after.len() implies is_digit(#[trigger] after[k]) by {
                if k < before.len() {
                    assert(after[k] == before[k]);
                }
            }
        }
        let d = (c as u32 - '0' as u32) as u128;
        if !huge {
            let na = acc * 10 + d;
            if na > cap {
                huge = true;
            } else {
                acc = na;
            }
        }
        i = i + 1;
    }
    assert(u =~= s@.subrange(ustart as int, i as int));
    assert(t.len() > 0 && (t[0] == '-') == neg);
    Some((neg, acc, huge))
}

/// `scaled(d, k)` for an exponent of at least 19: zero where every digit
/// is zero, and beyond [`MAGNITUDE_MAX`] otherwise.
fn huge_scaled(d: &Vec<char>) -> (r: Option<u64>)
    requires
        all_digits(d@),
    ensures
        forall|k: int|
            k >= 19 ==> match r {
                Some(v) => v == #[trigger] scaled(d@, k) && v <= MAGNITUDE_MAX,
                None => scaled(d@, k) > MAGNITUDE_MAX,
            },
{
    proof {
        lemma_digits_grow(d@, d@.len() as int);
        assert(d@.subrange(0, d@.len() as int) =~= d@);
    }
    match prefix_value(d, d.len()) {
        Some(m) => {
            if m == 0 {
                assert forall|k: int| k >= 19 implies #[trigger] scaled(d@, k) == 0 by {
                    assert(0 * pow10(k as nat) == 0);
                }
                Some(0)
            } else {
                assert forall|k: int| k >= 19 implies #[trigger] scaled(d@, k) > MAGNITUDE_MAX by {
                    lemma_pow10_big(k as nat);
                    assert(m * pow10(k as nat) >= pow10(k as nat)) by (nonlinear_arith)
                        requires
                            m >= 1,
                            pow10(k as nat) >= 1,
                    ;
                }
                None
            }
        },
        None => {
            assert forall|k: int| k >= 19 implies #[trigger] scaled(d@, k) > MAGNITUDE_MAX by {
                lemma_pow10_mono(0, k as nat);
                assert(digits_value(d@) * pow10(k as nat) >= digits_value(d@)) by (nonlinear_arith)
                    requires
                        digits_value(d@) >= 0,
                        pow10(k as nat) >= 1,
                ;
            }
            None
        },
    }
}

/// `scaled(d, k)`, where it is at most [`MAGNITUDE_MAX`].
fn scaled_exec(d: &Vec<char>, k: i128) -> (r: Option<u64>)
    requires
        all_digits(d@),
    ensures
        match r {
            Some(v) => v == scaled(d@, k as int) && v <= MAGNITUDE_MAX,
            None => scaled(d@, k as int) > MAGNITUDE_MAX,
        },
{
    let n = d.len();
    if k >= 0 {
        proof {
            lemma_digits_grow(d@, n as int);
            assert(d@.subrange(0, n as int) =~= d@);
        }
        match prefix_value(d, n) {
            Some(m) => scale_up(m, k as u128),
            None => {
                proof {
                    lemma_pow10_mono(0, k as nat);
                    assert(digits_value(d@) * pow10(k as nat) >= digits_value(d@)) by (nonlinear_arith)
                        requires
                            digits_value(d@) >= 0,
                            pow10(k as nat) >= 1,
                    ;
                }
                None
            },
        }
    } else if (n as i128) + k <= 0 {
        Some(0)
    } else {
        prefix_value(d, ((n as i128) + k) as usize)
    }
}

/// Reads a decimal as a fixed-point number in millionths (see
/// [`decimal_micros`]).
pub fn parse_micros(text: &str) -> (r: Option<i64>)
    ensures
        r == decimal_micros(text@),
{
    let s = chars_of(text);
    micros_of_chars(&s)
}

/// Reads a decimal, given as characters, as a fixed-point number in
/// millionths (see [`decimal_micros`]).
pub fn micros_of_chars(s: &Vec<char>) -> (r: Option<i64>)
    ensures
        r == decimal_micros(s@),
{
    let negative = s.len() > 0 && s[0] == '-';
    let start: usize = if s.len() > 0 && (s[0] == '-' || s[0] == '+') {
        1
    } else {
        0
    };
    let b = tail(s, start);
    assert(b@ =~= unsigned_part(s@));
    let end = scan_digits(&b, 0);
    let point = end < b.len() && b[end] == '.';
    let fstart = if point {
        end + 1
    } else {
        end
    };
    let fend = if point {
        scan_digits(&b, end + 1)
    } else {
        end
    };
    let mut d: Vec<char> = Vec::new();
    append_range(&mut d, &b, 0, end);
    append_range(&mut d, &b, fstart, fend);
    assert(d@ =~= b@.subrange(0, end as int) + b@.subrange(fstart as int, fend as int));
    assert(all_digits(d@)) by {
        let w = b@.subrange(0, end as int);
        let f = b@.subrange(fstart as int, fend as int);
        assert(all_digits(w));
        assert(all_digits(f)) by {
            if point {
                assert(all_digits(b@.subrange(end + 1, fend as int)));
            }
        }
        assert forall|k: int| 0 <= k < d@.len() implies is_digit(#[trigger] d@[k]) by {
            if k < w.len() {
                assert(d@[k] == w[k]);
            } else {
                assert(d@[k] == f[k - w.len()]);
            }
        }
    }
    let n = d.len();
    let frac_len = fend - fstart;
    if n == 0 {
        return None;
    }
    let (eneg, e, huge) = match read_exponent(&b, fend) {
        Some(x) => x,
        None => {
            return None;
        },
    };
    let ghost ev = exponent_of(b@.subrange(fend as int, b@.len() as int))->0;
    let ghost k = 6 + ev - frac_len;
    let magnitude: u64 = if huge {
        if eneg {
            assert(n + k <= 0);
            0
        } else {
            assert(k >= 19);
            match huge_scaled(&d) {
                Some(v) => v,
                None => {
                    return None;
                },
            }
        }
    } else {
        let kk: i128 = if eneg {
            6 - (e as i128) - frac_len as i128
        } else {
            6 + (e as i128) - frac_len as i128
        };
        assert(kk == k);
        match scaled_exec(&d, kk) {
            Some(v) => v,
            None => {
                return None;
            },
        }
    };
    assert(magnitude == scaled(d@, k));
    if negative {
        Some((0 - (magnitude as i128)) as i64)
    } else if magnitude > 9223372036854775807 {
        None
    } else {
        Some(magnitude as i64)
    }
}

} // verus!
