//! Reading the settings of a run from text: the grouping, written
//! `{duration|distance},{length|count},<value>`, and the format of a dump.
use crate::decimal::{all_digits, decimal_micros, digit_value, digits_value, is_digit, micros_of_chars};
use crate::document::chars_of;
use crate::window::{GroupBy, Grouping};
use vstd::prelude::*;

verus! {

/// Why a grouping text was refused.
#[derive(Clone, Copy, PartialEq, Eq, Debug, Structural)]
pub enum GroupingError {
    /// The text does not have exactly three comma-separated parts.
    Shape,
    /// The first part is neither `duration` nor `distance`.
    GroupBy,
    /// The second part is neither `length` nor `count`.
    Mode,
    /// The third part is not a non-negative decimal (for a length) or a
    /// whole number (for a count) that fits.
    Value,
}

/// Position of the first `c` in `s` from `i` on, or the length of `s`.
pub open spec fn find_from(s: Seq<char>, c: char, i: int) -> int
    decreases s.len() - i,
{
    if i < 0 || i >= s.len() {
        s.len() as int
    } else if s[i] == c {
        i
    } else {
        find_from(s, c, i + 1)
    }
}

/// Whether `a` is the lower-case letter or digit `b`, in either case.
pub open spec fn same_letter(a: char, b: char) -> bool {
    a == b || (65 <= (a as u32) <= 90 && (a as u32) + 32 == (b as u32))
}

/// Whether `p` spells the lower-case word `w`, ignoring ASCII case.
pub open spec fn matches_word(p: Seq<char>, w: Seq<char>) -> bool {
    p.len() == w.len() && forall|i: int| 0 <= i < p.len() ==> #[trigger] same_letter(p[i], w[i])
}

/// The whole number that `v` spells, where it fits a `u64`.
pub open spec fn count_value(v: Seq<char>) -> Option<u64> {
    if v.len() > 0 && all_digits(v) && digits_value(v) <= u64::MAX {
        Some(digits_value(v) as u64)
    } else {
        None
    }
}

/// What reading a grouping text gives. A length is a decimal in the group
/// metric's unit (seconds or metres), kept in millionths of it.
pub open spec fn grouping_spec(s: Seq<char>) -> Result<Grouping, GroupingError> {
    let c1 = find_from(s, ',', 0);
    let c2 = find_from(s, ',', c1 + 1);
    let c3 = find_from(s, ',', c2 + 1);
    if !(c1 < s.len() && c2 < s.len() && c3 == s.len()) {
        Err(GroupingError::Shape)
    } else {
        let g = s.subrange(0, c1);
        let m = s.subrange(c1 + 1, c2);
        let v = s.subrange(c2 + 1, s.len() as int);
        if !matches_word(g, "duration"@) && !matches_word(g, "distance"@) {
            Err(GroupingError::GroupBy)
        } else {
            let by = if matches_word(g, "duration"@) {
                GroupBy::Duration
            } else {
                GroupBy::Distance
            };
            if matches_word(m, "length"@) {
                match decimal_micros(v) {
                    Some(x) => if x >= 0 {
                        Ok(Grouping::Length(by, x as u64))
                    } else {
                        Err(GroupingError::Value)
                    },
                    None => Err(GroupingError::Value),
                }
            } else if matches_word(m, "count"@) {
                match count_value(v) {
                    Some(n) => Ok(Grouping::Count(by, n)),
                    None => Err(GroupingError::Value),
                }
            } else {
                Err(GroupingError::Mode)
            }
        }
    }
}

/// The format of a dump of every sample.
#[derive(Clone, Copy, PartialEq, Eq, Debug, Structural)]
pub enum Debug {
    Json,
    Csv,
}

/// What reading a dump format gives: `json` or `csv`, in any ASCII case.
pub open spec fn debug_spec(s: Seq<char>) -> Option<Debug> {
    if matches_word(s, "json"@) {
        Some(Debug::Json)
    } else if matches_word(s, "csv"@) {
        Some(Debug::Csv)
    } else {
        None
    }
}

fn find_exec(s: &Vec<char>, c: char, from: usize) -> (r: usize)
    requires
        from <= s@.len(),
    ensures
        r == find_from(s@, c, from as int),
        from <= r <= s@.len(),
{
    let mut i = from;
    while i < s.len()
        invariant
            from <= i <= s@.len(),
            find_from(s@, c, from as int) == find_from(s@, c, i as int),
        decreases s@.len() - i,
    {
        if s[i] == c {
            return i;
        }
        i = i + 1;
    }
    i
}

fn part(s: &Vec<char>, from: usize, to: usize) -> (r: Vec<char>)
    requires
        from <= to <= s@.len(),
    ensures
        r@ == s@.subrange(from as int, to as int),
{
    let mut r: Vec<char> = Vec::new();
    let mut i = from;
    while i < to
        invariant
            from <= i <= to,
            to <= s@.len(),
            r@ == s@.subrange(from as int, i as int),
        decreases to - i,
    {
        r.push(s[i]);
        i = i + 1;
        assert(r@ =~= s@.subrange(from as int, i as int));
    }
    r
}

fn matches_word_exec(p: &Vec<char>, w: &str) -> (r: bool)
    ensures
        r == matches_word(p@, w@),
{
    let wc = chars_of(w);
    if p.len() != wc.len() {
        return false;
    }
    let mut i: usize = 0;
    while i < p.len()
        invariant
            i <= p@.len(),
            wc@ == w@,
            p@.len() == wc@.len(),
            forall|j: int| 0 <= j < i ==> #[trigger] same_letter(p@[j], wc@[j]),
        decreases p@.len() - i,
    {
        let a = p[i];
        let b = wc[i];
        let au = a as u32;
        let bu = b as u32;
        if !(a == b || (65 <= au && au <= 90 && au + 32 == bu)) {
            assert(!same_letter(p@[i as int], wc@[i as int]));
            return false;
        }
        i = i + 1;
    }
    true
}

fn count_exec(v: &Vec<char>) -> (r: Option<u64>)
    ensures
        r == count_value(v@),
{
    if v.len() == 0 {
        return None;
    }
    let mut n: u64 = 0;
    let mut i: usize = 0;
    while i < v.len()
        invariant
            i <= v@.len(),
            all_digits(v@.subrange(0, i as int)),
            n == digits_value(v@.subrange(0, i as int)),
        decreases v@.len() - i,
    {
        let c = v[i];
        proof {
            assert(v@.subrange(0, i + 1).drop_last() =~= v@.subrange(0, i as int));
        }
        if !('0' <= c && c <= '9') {
            proof {
                assert(!is_digit(v@[i as int]));
            }
            return None;
        }
        let d = (c as u32 - '0' as u32) as u64;
        if n > (u64::MAX - d) / 10 {
            proof {
                lemma_count_too_large(v@, i as int);
            }
            return None;
        }
        n = n * 10 + d;
        i = i + 1;
        proof {
            let t = v@.subrange(0, i as int);
            assert forall|k: int| 0 <= k < t.len() implies is_digit(#[trigger] t[k]) by {
                if k < t.len() - 1 {
                    assert(t[k] == v@.subrange(0, i - 1)[k]);
                }
            }
        }
    }
    assert(v@.subrange(0, v@.len() as int) =~= v@);
    Some(n)
}

proof fn lemma_digits_prefix(v: Seq<char>, i: int)
    requires
        0 <= i <= v.len(),
        all_digits(v),
    ensures
        digits_value(v.subrange(0, i)) <= digits_value(v),
        0 <= digits_value(v.subrange(0, i)),
    decreases v.len() - i,
{
    lemma_digits_nonneg(v.subrange(0, i));
    if i < v.len() {
        let t = v.subrange(0, i + 1);
        assert(t.drop_last() =~= v.subrange(0, i));
        assert(is_digit(v[i]));
        assert(all_digits(v.subrange(0, i + 1))) by {
            assert forall|k: int| 0 <= k < i + 1 implies is_digit(#[trigger] v.subrange(0, i + 1)[k]) by {
                assert(v.subrange(0, i + 1)[k] == v[k]);
            }
        }
        lemma_digits_nonneg(t);
        lemma_digits_prefix(v, i + 1);
    } else {
        assert(v.subrange(0, i) =~= v);
    }
}

proof fn lemma_digits_nonneg(v: Seq<char>)
    requires
        all_digits(v),
    ensures
        0 <= digits_value(v),
    decreases v.len(),
{
    if v.len() > 0 {
        let t = v.drop_last();
        assert(all_digits(t)) by {
            assert forall|k: int| 0 <= k < t.len() implies is_digit(#[trigger] t[k]) by {
                assert(t[k] == v[k]);
            }
        }
        assert(is_digit(v[v.len() - 1]));
        lemma_digits_nonneg(t);
    }
}

proof fn lemma_count_too_large(v: Seq<char>, i: int)
    requires
        0 <= i < v.len(),
        all_digits(v.subrange(0, i)),
        is_digit(v[i]) ==> digits_value(v.subrange(0, i)) * 10 + digit_value(v[i]) > u64::MAX,
        is_digit(v[i]),
    ensures
        count_value(v) is None,
{
    if all_digits(v) {
        let t = v.subrange(0, i + 1);
        assert(t.drop_last() =~= v.subrange(0, i));
        lemma_digits_prefix(v, i + 1);
    }
}

impl Grouping {
    /// Reads a grouping written `{duration|distance},{length|count},<value>`
    /// (see [`grouping_spec`]).
    pub fn from_str(text: &str) -> (r: Result<Grouping, GroupingError>)
        ensures
            r == grouping_spec(text@),
    {
        let s = chars_of(text);
        let c1 = find_exec(&s, ',', 0);
        if c1 == s.len() {
            return Err(GroupingError::Shape);
        }
        let c2 = find_exec(&s, ',', c1 + 1);
        if c2 == s.len() {
            return Err(GroupingError::Shape);
        }
        let c3 = find_exec(&s, ',', c2 + 1);
        if c3 != s.len() {
            return Err(GroupingError::Shape);
        }
        let g = part(&s, 0, c1);
        let m = part(&s, c1 + 1, c2);
        let v = part(&s, c2 + 1, s.len());
        let by = if matches_word_exec(&g, "duration") {
            GroupBy::Duration
        } else if matches_word_exec(&g, "distance") {
            GroupBy::Distance
        } else {
            return Err(GroupingError::GroupBy);
        };
        if matches_word_exec(&m, "length") {
            match micros_of_chars(&v) {
                Some(x) => if x >= 0 {
                    Ok(Grouping::Length(by, x as u64))
                } else {
                    Err(GroupingError::Value)
                },
                None => Err(GroupingError::Value),
            }
        } else if matches_word_exec(&m, "count") {
            match count_exec(&v) {
                Some(n) => Ok(Grouping::Count(by, n)),
                None => Err(GroupingError::Value),
            }
        } else {
            Err(GroupingError::Mode)
        }
    }

    /// The group metric.
    pub fn group_by(&self) -> (r: GroupBy)
        ensures
            r == crate::window::group_by_of(*self),
    {
        match self {
            Grouping::Length(by, _) => *by,
            Grouping::Count(by, _) => *by,
        }
    }
}

impl Debug {
    /// Reads a dump format: `json` or `csv`, in any ASCII case.
    pub fn from_str(text: &str) -> (r: Option<Debug>)
        ensures
            r == debug_spec(text@),
    {
        let s = chars_of(text);
        if matches_word_exec(&s, "json") {
            Some(Debug::Json)
        } else if matches_word_exec(&s, "csv") {
            Some(Debug::Csv)
        } else {
            None
        }
    }
}

} // verus!
