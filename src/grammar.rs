use vstd::prelude::*;

use crate::file_info::is_digit;
use crate::path::chars_of;

verus! {

/// `w` stands in `s` at position `i`.
pub open spec fn has_word(s: Seq<char>, i: int, w: Seq<char>) -> bool {
    0 <= i && i + w.len() <= s.len() && s.subrange(i, i + w.len()) == w
}

/// The first position at or after `k` that holds no digit, or the end.
pub open spec fn digit_run_end(s: Seq<char>, k: int) -> int
    decreases s.len() - k,
{
    if k < 0 || k >= s.len() || !is_digit(s[k]) {
        k
    } else {
        digit_run_end(s, k + 1)
    }
}

/// The first line break at or after `k`, or the end.
pub open spec fn line_end(s: Seq<char>, k: int) -> int
    decreases s.len() - k,
{
    if k < 0 || k >= s.len() || s[k] == '\n' {
        k
    } else {
        line_end(s, k + 1)
    }
}

/// At `k` stands a date `DDDD-DD-DD` followed by a dot.
pub open spec fn date_shape_at(s: Seq<char>, k: int) -> bool {
    &&& 0 <= k
    &&& k + 11 <= s.len()
    &&& forall|m: int|
        k <= m < k + 10 && m != k + 4 && m != k + 7 ==> is_digit(#[trigger] s[m])
    &&& s[k + 4] == '-'
    &&& s[k + 7] == '-'
    &&& s[k + 10] == '.'
}

/// Whether `w` stands in `cs` at `i`.
pub fn word_at(cs: &Vec<char>, i: usize, w: &Vec<char>) -> (r: bool)
    ensures
        r == has_word(cs@, i as int, w@),
{
    if i > cs.len() || w.len() > cs.len() - i {
        return false;
    }
    let mut k: usize = 0;
    while k < w.len()
        invariant
            i + w@.len() <= cs@.len(),
            cs@.len() == cs.len(),
            k <= w@.len(),
            forall|m: int| 0 <= m < k ==> cs@[i + m] == w@[m],
        decreases w@.len() - k,
    {
        if cs[i + k] != w[k] {
            assert(cs@.subrange(i as int, i + w@.len())[k as int] != w@[k as int]);
            return false;
        }
        k = k + 1;
    }
    assert(cs@.subrange(i as int, i + w@.len()) =~= w@);
    true
}

/// The end of the run of digits that starts at `k`.
pub fn digits_end(cs: &Vec<char>, k: usize) -> (r: usize)
    requires
        k <= cs@.len(),
    ensures
        r == digit_run_end(cs@, k as int),
        k <= r <= cs@.len(),
{
    let mut e: usize = k;
    while e < cs.len() && '0' <= cs[e] && cs[e] <= '9'
        invariant
            k <= e <= cs@.len(),
            digit_run_end(cs@, k as int) == digit_run_end(cs@, e as int),
        decreases cs@.len() - e,
    {
        e = e + 1;
    }
    e
}

/// The first line break at or after `k`, or the end.
pub fn line_end_from(cs: &Vec<char>, k: usize) -> (r: usize)
    requires
        k <= cs@.len(),
    ensures
        r == line_end(cs@, k as int),
        k <= r <= cs@.len(),
{
    let mut e: usize = k;
    while e < cs.len() && cs[e] != '\n'
        invariant
            k <= e <= cs@.len(),
            line_end(cs@, k as int) == line_end(cs@, e as int),
        decreases cs@.len() - e,
    {
        e = e + 1;
    }
    e
}

/// Whether a date `DDDD-DD-DD.` stands at `k`.
pub fn date_at(cs: &Vec<char>, k: usize) -> (r: bool)
    ensures
        r == date_shape_at(cs@, k as int),
{
    if k > cs.len() || 11 > cs.len() - k {
        return false;
    }
    if cs[k + 4] != '-' || cs[k + 7] != '-' || cs[k + 10] != '.' {
        return false;
    }
    let mut m: usize = k;
    let end: usize = k + 10;
    while m < end
        invariant
            end == k + 10,
            k + 11 <= cs@.len(),
            k <= m <= k + 10,
            forall|j: int| k <= j < m && j != k + 4 && j != k + 7 ==> is_digit(#[trigger] cs@[j]),
        decreases k + 10 - m,
    {
        if m != k + 4 && m != k + 7 && !('0' <= cs[m] && cs[m] <= '9') {
            return false;
        }
        m = m + 1;
    }
    true
}

/// The characters of a literal.
pub fn word(w: &str) -> (r: Vec<char>)
    ensures
        r@ == w@,
{
    chars_of(w)
}

} // verus!
