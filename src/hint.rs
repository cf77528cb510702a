//! Reading the retry range that a provider suggests in a "max results" error message.

use vstd::prelude::*;
use vstd::string::StringSliceAdditionalSpecFns;

verus! {

pub const DIGIT_ZERO: u8 = 48;

pub const DIGIT_NINE: u8 = 57;

pub const DASH: u8 = 45;

/// `p` stands in `s` at byte offset `i`.
pub open spec fn occurs_at(s: Seq<u8>, p: Seq<u8>, i: int) -> bool {
    0 <= i && i + p.len() <= s.len() && s.subrange(i, i + p.len()) == p
}

/// The first offset at or after `i` where `p` stands in `s`.
pub open spec fn find_from(s: Seq<u8>, p: Seq<u8>, i: int) -> Option<int>
    decreases s.len() - i,
{
    if i < 0 || i >= s.len() || i + p.len() > s.len() {
        None
    } else if occurs_at(s, p, i) {
        Some(i)
    } else {
        find_from(s, p, i + 1)
    }
}

pub open spec fn is_digit(b: u8) -> bool {
    DIGIT_ZERO <= b <= DIGIT_NINE
}

pub open spec fn is_digit_or_dash(b: u8) -> bool {
    is_digit(b) || b == DASH
}

/// The first offset at or after `i` whose byte is neither a digit nor a dash, or the end.
pub open spec fn span_end(s: Seq<u8>, i: int) -> int
    decreases s.len() - i,
{
    if i < 0 || i >= s.len() {
        s.len() as int
    } else if is_digit_or_dash(s[i]) {
        span_end(s, i + 1)
    } else {
        i
    }
}

/// The first offset in `[i, end)` holding a dash, or `end`.
pub open spec fn next_dash(s: Seq<u8>, i: int, end: int) -> int
    decreases end - i,
{
    if i < 0 || i >= end || i >= s.len() {
        end
    } else if s[i] == DASH {
        i
    } else {
        next_dash(s, i + 1, end)
    }
}

/// The number written by the decimal digits `s`.
pub open spec fn digits_value(s: Seq<u8>) -> nat
    decreases s.len(),
{
    if s.len() == 0 {
        0
    } else {
        digits_value(s.drop_last()) * 10 + (s.last() - DIGIT_ZERO) as nat
    }
}

/// `s` read as an unsigned 64-bit decimal: one digit at least, digits only, no overflow.
pub open spec fn decimal_of(s: Seq<u8>) -> Option<u64> {
    if s.len() > 0 && (forall|k: int| 0 <= k < s.len() ==> is_digit(#[trigger] s[k]))
        && digits_value(s) <= u64::MAX {
        Some(digits_value(s) as u64)
    } else {
        None
    }
}

/// The bytes of `max results`.
pub open spec fn max_results_marker() -> Seq<u8> {
    seq![109u8, 97, 120, 32, 114, 101, 115, 117, 108, 116, 115]
}

/// The bytes of `range `.
pub open spec fn range_marker() -> Seq<u8> {
    seq![114u8, 97, 110, 103, 101, 32]
}

/// The two numbers of the span `FROM-TO` that starts at `start`: the span runs up to the
/// first byte that is neither a digit nor a dash; `FROM` is what precedes its first dash and
/// `TO` what follows it, up to the next dash.
pub open spec fn span_numbers(m: Seq<u8>, start: int) -> Option<(u64, u64)> {
    let end = span_end(m, start);
    let d1 = next_dash(m, start, end);
    if d1 >= end {
        None
    } else {
        let d2 = next_dash(m, d1 + 1, end);
        match (decimal_of(m.subrange(start, d1)), decimal_of(m.subrange(d1 + 1, d2))) {
            (Some(f), Some(t)) => Some((f, t)),
            _ => None,
        }
    }
}

/// The suggested range in a message: `max results`, then somewhere after it `range `,
/// directly followed by `FROM-TO`.
pub open spec fn hint_of(m: Seq<u8>) -> Option<(u64, u64)> {
    match find_from(m, max_results_marker(), 0) {
        None => None,
        Some(a) => match find_from(m, range_marker(), a + max_results_marker().len()) {
            None => None,
            Some(r) => span_numbers(m, r + range_marker().len()),
        },
    }
}

fn occurs_here(s: &[u8], p: &Vec<u8>, i: usize) -> (r: bool)
    ensures
        r == occurs_at(s@, p@, i as int),
{
    if i > s.len() || p.len() > s.len() - i {
        return false;
    }
    let n = s.len();
    let mut j: usize = 0;
    while j < p.len()
        invariant
            n == s@.len(),
            i + p@.len() <= s@.len(),
            j <= p@.len(),
            forall|k: int| 0 <= k < j ==> s@[i + k] == p@[k],
        decreases p@.len() - j,
    {
        assert(i + j < s@.len());
        if s[i + j] != p[j] {
            assert(s@.subrange(i as int, i + p@.len())[j as int] != p@[j as int]);
            return false;
        }
        j = j + 1;
    }
    assert(s@.subrange(i as int, i + p@.len()) =~= p@);
    true
}

/// Finds the first occurrence of `p` in `s` at or after `start`.
fn find_bytes(s: &[u8], p: &Vec<u8>, start: usize) -> (r: Option<usize>)
    ensures
        match find_from(s@, p@, start as int) {
            None => r is None,
            Some(k) => r == Some(k as usize),
        },
{
    let mut i: usize = start;
    while i < s.len()
        invariant
            start <= i,
            find_from(s@, p@, start as int) == find_from(s@, p@, i as int),
        decreases s@.len() - i,
    {
        if p.len() > s.len() - i {
            return None;
        }
        if occurs_here(s, p, i) {
            return Some(i);
        }
        i = i + 1;
    }
    None
}

proof fn lemma_find_from_occurs(s: Seq<u8>, p: Seq<u8>, i: int)
    ensures
        match find_from(s, p, i) {
            None => true,
            Some(k) => i <= k && occurs_at(s, p, k),
        },
    decreases s.len() - i,
{
    if !(i < 0 || i >= s.len() || i + p.len() > s.len()) && !occurs_at(s, p, i) {
        lemma_find_from_occurs(s, p, i + 1);
    }
}

fn span_end_exec(s: &[u8], start: usize) -> (r: usize)
    requires
        start <= s@.len(),
    ensures
        r as int == span_end(s@, start as int),
        start <= r <= s@.len(),
        forall|k: int| start <= k < r ==> is_digit_or_dash(#[trigger] s@[k]),
{
    let mut i: usize = start;
    while i < s.len()
        invariant
            start <= i <= s@.len(),
            span_end(s@, start as int) == span_end(s@, i as int),
            forall|k: int| start <= k < i ==> is_digit_or_dash(#[trigger] s@[k]),
        decreases s@.len() - i,
    {
        if !((DIGIT_ZERO <= s[i] && s[i] <= DIGIT_NINE) || s[i] == DASH) {
            return i;
        }
        i = i + 1;
    }
    s.len()
}

fn next_dash_exec(s: &[u8], start: usize, end: usize) -> (r: usize)
    requires
        start <= end <= s@.len(),
    ensures
        r as int == next_dash(s@, start as int, end as int),
        start <= r <= end,
{
    let mut i: usize = start;
    while i < end
        invariant
            start <= i <= end,
            end <= s@.len(),
            next_dash(s@, start as int, end as int) == next_dash(s@, i as int, end as int),
        decreases end - i,
    {
        if s[i] == DASH {
            return i;
        }
        i = i + 1;
    }
    end
}

proof fn lemma_digits_value_grows(s: Seq<u8>, i: int)
    requires
        0 <= i <= s.len(),
        forall|k: int| 0 <= k < s.len() ==> is_digit(#[trigger] s[k]),
    ensures
        digits_value(s.subrange(0, i)) <= digits_value(s),
    decreases s.len() - i,
{
    if i < s.len() {
        assert(s.subrange(0, i + 1).drop_last() =~= s.subrange(0, i));
        lemma_digits_value_grows(s, i + 1);
    } else {
        assert(s.subrange(0, i) =~= s);
    }
}

/// Reads the digits `s[lo..hi]` as an unsigned 64-bit decimal.
fn parse_decimal(s: &[u8], lo: usize, hi: usize) -> (r: Option<u64>)
    requires
        lo <= hi <= s@.len(),
        forall|k: int| lo <= k < hi ==> is_digit_or_dash(#[trigger] s@[k]),
    ensures
        r == decimal_of(s@.subrange(lo as int, hi as int)),
{
    let ghost d = s@.subrange(lo as int, hi as int);
    let mut k: usize = lo;
    while k < hi
        invariant
            lo <= k <= hi <= s@.len(),
            d == s@.subrange(lo as int, hi as int),
            forall|j: int| lo <= j < hi ==> is_digit_or_dash(#[trigger] s@[j]),
            forall|j: int| lo <= j < k ==> is_digit(#[trigger] s@[j]),
        decreases hi - k,
    {
        assert(is_digit_or_dash(s@[k as int]));
        if s[k] == DASH {
            assert(!is_digit(d[k - lo]));
            return None;
        }
        k = k + 1;
    }
    assert forall|j: int| 0 <= j < d.len() implies is_digit(#[trigger] d[j]) by {
        assert(d[j] == s@[lo + j]);
    }
    if lo == hi {
        return None;
    }
    let mut v: u64 = 0;
    let mut i: usize = lo;
    while i < hi
        invariant
            lo <= i <= hi <= s@.len(),
            d == s@.subrange(lo as int, hi as int),
            forall|j: int| 0 <= j < d.len() ==> is_digit(#[trigger] d[j]),
            v as nat == digits_value(d.subrange(0, i - lo)),
        decreases hi - i,
    {
        assert(d.subrange(0, i - lo + 1).drop_last() =~= d.subrange(0, i - lo));
        assert(d[i - lo] == s@[i as int]);
        let digit: u64 = (s[i] - DIGIT_ZERO) as u64;
        proof {
            lemma_digits_value_grows(d, i - lo + 1);
        }
        match v.checked_mul(10) {
            None => {
                return None;
            },
            Some(t) => match t.checked_add(digit) {
                None => {
                    return None;
                },
                Some(w) => {
                    v = w;
                },
            },
        }
        i = i + 1;
    }
    assert(d.subrange(0, hi - lo) =~= d);
    Some(v)
}

/// Reads the suggested retry range `(FROM, TO)` out of a provider's error message.
///
/// The message must hold `max results`, and after it `range ` directly followed by two
/// unsigned decimals joined by a dash; the span ends at the first byte that is neither a
/// digit nor a dash. Any other shape gives `None`.
pub fn parse_max_results_error(msg: &str) -> (r: Option<(u64, u64)>)
    ensures
        r == hint_of(msg.spec_bytes()),
{
    let m = msg.as_bytes();
    let len = m.len();
    let marker: Vec<u8> = vec![109u8, 97, 120, 32, 114, 101, 115, 117, 108, 116, 115];
    let range: Vec<u8> = vec![114u8, 97, 110, 103, 101, 32];
    assert(marker@ =~= max_results_marker());
    assert(range@ =~= range_marker());
    proof {
        lemma_find_from_occurs(m@, max_results_marker(), 0);
    }
    let a = match find_bytes(m, &marker, 0) {
        None => {
            return None;
        },
        Some(a) => a,
    };
    let after = a + marker.len();
    assert(after <= len);
    proof {
        lemma_find_from_occurs(m@, range_marker(), after as int);
    }
    let r = match find_bytes(m, &range, after) {
        None => {
            return None;
        },
        Some(r) => r,
    };
    let start = r + range.len();
    let end = span_end_exec(m, start);
    let d1 = next_dash_exec(m, start, end);
    if d1 >= end {
        return None;
    }
    let d2 = next_dash_exec(m, d1 + 1, end);
    let from = match parse_decimal(m, start, d1) {
        None => {
            return None;
        },
        Some(f) => f,
    };
    let to = match parse_decimal(m, d1 + 1, d2) {
        None => {
            return None;
        },
        Some(t) => t,
    };
    Some((from, to))
}

} // verus!
