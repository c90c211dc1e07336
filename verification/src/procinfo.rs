//! Pure decisions behind process enumeration: which directory entries of
//! the process-info tree name a process, which executable paths match
//! the requested pattern, and which resolved descriptor targets are real
//! filesystem paths.

use vstd::prelude::*;
use vstd::string::StrSliceExecFns;

verus! {

/// Whether `c` is an ASCII decimal digit.
pub open spec fn is_digit_char(c: char) -> bool {
    48 <= c as int <= 57
}

/// Whether every character of `s` is an ASCII decimal digit.
pub open spec fn all_digits(s: Seq<char>) -> bool {
    forall|i: int| 0 <= i < s.len() ==> is_digit_char(#[trigger] s[i])
}

/// The numeric value of a digit character.
pub open spec fn digit_val(c: char) -> int {
    c as int - 48
}

/// The number written by the digit string `s`, read in base ten.
pub open spec fn digits_val(s: Seq<char>) -> int
    decreases s.len(),
{
    if s.len() == 0 {
        0
    } else {
        digits_val(s.drop_last()) * 10 + digit_val(s.last())
    }
}

proof fn lemma_digits_val_nonneg(s: Seq<char>)
    requires
        all_digits(s),
    ensures
        digits_val(s) >= 0,
    decreases s.len(),
{
    if s.len() > 0 {
        lemma_digits_val_nonneg(s.drop_last());
    }
}

/// Reading further digits never makes the value smaller.
proof fn lemma_digits_val_extend_ge(s: Seq<char>, j: int)
    requires
        all_digits(s),
        0 <= j <= s.len(),
    ensures
        digits_val(s) >= digits_val(s.take(j)),
    decreases s.len() - j,
{
    if j == s.len() {
        assert(s.take(j) =~= s);
    } else {
        assert(s.take(j + 1).drop_last() =~= s.take(j));
        assert(s.take(j + 1).last() == s[j]);
        lemma_digits_val_nonneg(s.take(j));
        lemma_digits_val_extend_ge(s, j + 1);
    }
}

/// Decide whether a directory-entry name names a process: non-empty,
/// all digits, and small enough for the PID type.  Returns the value.
pub fn parse_pid(s: &str) -> (r: Option<u32>)
    ensures
        match r {
            Some(v) => s@.len() > 0 && all_digits(s@) && digits_val(s@) == v as int,
            None => s@.len() == 0 || !all_digits(s@) || digits_val(s@) > u32::MAX,
        },
{
    let n = s.unicode_len();
    if n == 0 {
        return None;
    }
    let mut acc: u64 = 0;
    let mut i: usize = 0;
    proof {
        assert(s@.take(0) =~= Seq::<char>::empty());
    }
    while i < n
        invariant
            i <= n,
            n == s@.len(),
            forall|j: int| 0 <= j < i ==> is_digit_char(#[trigger] s@[j]),
            acc as int == digits_val(s@.take(i as int)),
            acc <= u32::MAX,
        decreases n - i,
    {
        let c = s.get_char(i);
        let cu = c as u32;
        if cu < 48 || cu > 57 {
            assert(!is_digit_char(s@[i as int]));
            return None;
        }
        let d = cu - 48;
        proof {
            assert(s@.take(i + 1).drop_last() =~= s@.take(i as int));
            assert(s@.take(i + 1).last() == c);
        }
        let next: u64 = acc * 10 + (d as u64);
        assert(next as int == digits_val(s@.take(i + 1)));
        if next > 0xffff_ffffu64 {
            proof {
                if all_digits(s@) {
                    lemma_digits_val_extend_ge(s@, i + 1);
                }
            }
            return None;
        }
        acc = next;
        i = i + 1;
    }
    proof {
        assert(s@.take(n as int) =~= s@);
    }
    Some(acc as u32)
}

/// `needle` occurs as a contiguous run of characters inside `hay`.
pub open spec fn spec_contains(hay: Seq<char>, needle: Seq<char>) -> bool {
    exists|i: int|
        0 <= i <= hay.len() - needle.len() && #[trigger] hay.subrange(i, i + needle.len() as int)
            == needle
}

/// Whether `pattern` starts at position `i` of `hay`.
fn match_at(hay: &str, pattern: &str, i: usize) -> (r: bool)
    requires
        i + pattern@.len() <= hay@.len(),
    ensures
        r == (hay@.subrange(i as int, i + pattern@.len() as int) == pattern@),
{
    let n = hay.unicode_len();
    let m = pattern.unicode_len();
    let mut j: usize = 0;
    while j < m
        invariant
            j <= m,
            n == hay@.len(),
            m == pattern@.len(),
            i + m <= n,
            forall|l: int| 0 <= l < j ==> hay@[i + l] == pattern@[l],
        decreases m - j,
    {
        if hay.get_char(i + j) != pattern.get_char(j) {
            assert(hay@.subrange(i as int, i + m as int)[j as int] != pattern@[j as int]);
            return false;
        }
        j = j + 1;
    }
    proof {
        assert(hay@.subrange(i as int, i + m as int) =~= pattern@);
    }
    true
}

/// Whether the resolved executable path contains the requested pattern,
/// the test that keeps or drops a process during enumeration.
pub fn exe_matches(hay: &str, pattern: &str) -> (r: bool)
    ensures
        r == spec_contains(hay@, pattern@),
{
    let n = hay.unicode_len();
    let m = pattern.unicode_len();
    if m > n {
        return false;
    }
    if m == 0 {
        proof {
            assert(hay@.subrange(0, 0 + pattern@.len() as int) =~= pattern@);
        }
        return true;
    }
    let mut i: usize = 0;
    while i <= n - m
        invariant
            1 <= m <= n,
            n == hay@.len(),
            m == pattern@.len(),
            i <= n - m + 1,
            forall|i2: int|
                0 <= i2 < i ==> #[trigger] hay@.subrange(i2, i2 + m as int) != pattern@,
        decreases n - i,
    {
        if match_at(hay, pattern, i) {
            return true;
        }
        i = i + 1;
    }
    false
}

/// Whether a resolved descriptor target is an absolute filesystem path,
/// the test that keeps or drops a descriptor entry.
pub fn is_rooted(s: &str) -> (r: bool)
    ensures
        r == (s@.len() > 0 && s@[0] == '/'),
{
    s.unicode_len() > 0 && s.get_char(0) == '/'
}

} // verus!
