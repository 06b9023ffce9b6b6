//! Character-level utilities shared by the line classifier: whitespace
//! trimming, digit detection, substring search, and trailing-slash
//! stripping, each with a spec-level counterpart over `Seq<char>`.

use vstd::prelude::*;

verus! {

/// Whitespace as this crate understands it: the ASCII whitespace characters.
pub open spec fn is_space(c: char) -> bool {
    c == ' ' || c == '\t' || c == '\n' || c == '\r'
}

pub open spec fn is_digit(c: char) -> bool {
    48 <= (c as u32) && (c as u32) <= 57
}

/// Number of leading whitespace characters of `s`.
pub open spec fn leading_spaces(s: Seq<char>) -> int
    decreases s.len(),
{
    if s.len() == 0 || !is_space(s[0]) {
        0
    } else {
        1 + leading_spaces(s.drop_first())
    }
}

/// Number of trailing whitespace characters of `s`.
pub open spec fn trailing_spaces(s: Seq<char>) -> int
    decreases s.len(),
{
    if s.len() == 0 || !is_space(s.last()) {
        0
    } else {
        1 + trailing_spaces(s.drop_last())
    }
}

/// `s` with leading and trailing whitespace removed.
pub open spec fn trimmed(s: Seq<char>) -> Seq<char> {
    if leading_spaces(s) == s.len() {
        Seq::empty()
    } else {
        s.subrange(leading_spaces(s), s.len() - trailing_spaces(s))
    }
}

pub proof fn lemma_leading_spaces(s: Seq<char>)
    ensures
        0 <= leading_spaces(s) <= s.len(),
        forall|j: int| 0 <= j < leading_spaces(s) ==> is_space(s[j]),
        leading_spaces(s) < s.len() ==> !is_space(s[leading_spaces(s)]),
    decreases s.len(),
{
    if s.len() == 0 || !is_space(s[0]) {
    } else {
        lemma_leading_spaces(s.drop_first());
        assert forall|j: int| 0 <= j < leading_spaces(s) implies is_space(s[j]) by {
            if j > 0 {
                assert(s.drop_first()[j - 1] == s[j]);
            }
        }
        if leading_spaces(s) < s.len() {
            assert(s.drop_first()[leading_spaces(s) - 1] == s[leading_spaces(s)]);
        }
    }
}

/// `leading_spaces` is the unique cut point with spaces before it and a
/// non-space (or the end) at it.
pub proof fn lemma_leading_spaces_is(s: Seq<char>, i: int)
    requires
        0 <= i <= s.len(),
        forall|j: int| 0 <= j < i ==> is_space(s[j]),
        i < s.len() ==> !is_space(s[i]),
    ensures
        leading_spaces(s) == i,
    decreases s.len(),
{
    if s.len() == 0 {
    } else if i == 0 {
        lemma_leading_spaces(s);
    } else {
        assert(is_space(s[0]));
        assert forall|j: int| 0 <= j < i - 1 implies is_space(s.drop_first()[j]) by {
            assert(s.drop_first()[j] == s[j + 1]);
        }
        if i - 1 < s.drop_first().len() {
            assert(s.drop_first()[i - 1] == s[i]);
        }
        lemma_leading_spaces_is(s.drop_first(), i - 1);
    }
}

pub proof fn lemma_trailing_spaces(s: Seq<char>)
    ensures
        0 <= trailing_spaces(s) <= s.len(),
        forall|j: int| s.len() - trailing_spaces(s) <= j < s.len() ==> is_space(s[j]),
        trailing_spaces(s) < s.len() ==> !is_space(s[s.len() - trailing_spaces(s) - 1]),
    decreases s.len(),
{
    if s.len() == 0 || !is_space(s.last()) {
    } else {
        lemma_trailing_spaces(s.drop_last());
        assert forall|j: int| s.len() - trailing_spaces(s) <= j < s.len() implies is_space(
            s[j],
        ) by {
            if j < s.len() - 1 {
                assert(s.drop_last()[j] == s[j]);
            }
        }
        if trailing_spaces(s) < s.len() {
            assert(s.drop_last()[s.len() - trailing_spaces(s) - 1] == s[s.len() - trailing_spaces(
                s,
            ) - 1]);
        }
    }
}

pub proof fn lemma_trailing_spaces_is(s: Seq<char>, t: int)
    requires
        0 <= t <= s.len(),
        forall|j: int| s.len() - t <= j < s.len() ==> is_space(s[j]),
        t < s.len() ==> !is_space(s[s.len() - t - 1]),
    ensures
        trailing_spaces(s) == t,
    decreases s.len(),
{
    if s.len() == 0 {
    } else if t == 0 {
        lemma_trailing_spaces(s);
    } else {
        assert(is_space(s.last()));
        assert forall|j: int| s.drop_last().len() - (t - 1) <= j < s.drop_last().len()
            implies is_space(s.drop_last()[j]) by {
            assert(s.drop_last()[j] == s[j]);
        }
        if t - 1 < s.drop_last().len() {
            assert(s.drop_last()[s.drop_last().len() - (t - 1) - 1] == s[s.len() - t - 1]);
        }
        lemma_trailing_spaces_is(s.drop_last(), t - 1);
    }
}

/// When `s` holds some non-space character, the trim bounds are ordered.
pub proof fn lemma_trim_bounds(s: Seq<char>)
    requires
        leading_spaces(s) < s.len(),
    ensures
        leading_spaces(s) + trailing_spaces(s) < s.len(),
        trimmed(s).len() > 0,
        !is_space(trimmed(s)[0]),
        !is_space(trimmed(s).last()),
{
    lemma_leading_spaces(s);
    lemma_trailing_spaces(s);
    let l = leading_spaces(s);
    if l >= s.len() - trailing_spaces(s) {
        assert(is_space(s[l]));
    }
    assert(trimmed(s)[0] == s[l]);
    assert(trimmed(s).last() == s[s.len() - trailing_spaces(s) - 1]);
}

/// `pat` occurs in `s` starting at character position `i`.
pub open spec fn occurs_at(s: Seq<char>, pat: Seq<char>, i: int) -> bool {
    0 <= i && i + pat.len() <= s.len() && s.subrange(i, i + pat.len()) == pat
}

/// `pat` occurs somewhere in `s`.
pub open spec fn contains_seq(s: Seq<char>, pat: Seq<char>) -> bool {
    exists|i: int| occurs_at(s, pat, i)
}

pub open spec fn has_digit(s: Seq<char>) -> bool {
    exists|i: int| 0 <= i < s.len() && is_digit(s[i])
}

/// `s` with every trailing `/` removed.
pub open spec fn strip_slashes(s: Seq<char>) -> Seq<char>
    decreases s.len(),
{
    if s.len() > 0 && s.last() == '/' {
        strip_slashes(s.drop_last())
    } else {
        s
    }
}

/// Number of trailing `/` characters, mirroring `strip_slashes`.
pub open spec fn trailing_slashes(s: Seq<char>) -> int
    decreases s.len(),
{
    if s.len() > 0 && s.last() == '/' {
        1 + trailing_slashes(s.drop_last())
    } else {
        0
    }
}

pub proof fn lemma_strip_slashes(s: Seq<char>)
    ensures
        0 <= trailing_slashes(s) <= s.len(),
        strip_slashes(s) == s.subrange(0, s.len() - trailing_slashes(s)),
        forall|j: int| s.len() - trailing_slashes(s) <= j < s.len() ==> s[j] == '/',
        trailing_slashes(s) < s.len() ==> s[s.len() - trailing_slashes(s) - 1] != '/',
    decreases s.len(),
{
    if s.len() > 0 && s.last() == '/' {
        lemma_strip_slashes(s.drop_last());
        assert(strip_slashes(s) =~= s.subrange(0, s.len() - trailing_slashes(s)));
        assert forall|j: int| s.len() - trailing_slashes(s) <= j < s.len() implies s[j] == '/' by {
            if j < s.len() - 1 {
                assert(s.drop_last()[j] == s[j]);
            }
        }
    } else {
        assert(strip_slashes(s) =~= s.subrange(0, s.len() - trailing_slashes(s)));
    }
}

/// Exec test for the crate's whitespace set.
pub fn is_space_char(c: char) -> (r: bool)
    ensures
        r == is_space(c),
{
    c == ' ' || c == '\t' || c == '\n' || c == '\r'
}

/// First index of `s` holding a non-whitespace character, or the length.
pub fn find_leading_spaces(s: &str) -> (n: usize)
    ensures
        n as int == leading_spaces(s@),
{
    let len = s.unicode_len();
    let mut i: usize = 0;
    while i < len
        invariant
            0 <= i <= len,
            len as int == s@.len(),
            forall|j: int| 0 <= j < i ==> is_space(s@[j]),
        decreases len - i,
    {
        if !is_space_char(s.get_char(i)) {
            proof {
                lemma_leading_spaces_is(s@, i as int);
            }
            return i;
        }
        i = i + 1;
    }
    proof {
        lemma_leading_spaces_is(s@, len as int);
    }
    len
}

/// Number of trailing whitespace characters of `s`.
pub fn find_trailing_spaces(s: &str) -> (n: usize)
    ensures
        n as int == trailing_spaces(s@),
{
    let len = s.unicode_len();
    let mut t: usize = 0;
    while t < len
        invariant
            0 <= t <= len,
            len as int == s@.len(),
            forall|j: int| len - t <= j < len ==> is_space(s@[j]),
        decreases len - t,
    {
        if !is_space_char(s.get_char(len - t - 1)) {
            proof {
                lemma_trailing_spaces_is(s@, t as int);
            }
            return t;
        }
        t = t + 1;
    }
    proof {
        lemma_trailing_spaces_is(s@, len as int);
    }
    len
}

/// Copy of `s` with leading and trailing whitespace removed.
pub fn trim_to_string(s: &str) -> (r: String)
    ensures
        r@ == trimmed(s@),
{
    let len = s.unicode_len();
    let lead = find_leading_spaces(s);
    proof {
        lemma_leading_spaces(s@);
    }
    if lead == len {
        String::new()
    } else {
        proof {
            lemma_trim_bounds(s@);
        }
        let trail = find_trailing_spaces(s);
        let sub = s.substring_char(lead, len - trail);
        String::from_str(sub)
    }
}

/// Copy of `s` with every trailing `/` removed.
pub fn strip_trailing_slashes(s: &str) -> (r: String)
    ensures
        r@ == strip_slashes(s@),
{
    let len = s.unicode_len();
    let mut end: usize = len;
    loop
        invariant
            0 <= end <= len,
            len as int == s@.len(),
            forall|j: int| end <= j < len ==> s@[j] == '/',
        ensures
            0 <= end <= len,
            len as int == s@.len(),
            forall|j: int| end <= j < len ==> s@[j] == '/',
            end > 0 ==> s@[end - 1] != '/',
        decreases end,
    {
        if end == 0 {
            break;
        }
        if s.get_char(end - 1) != '/' {
            break;
        }
        end = end - 1;
    }
    proof {
        lemma_strip_slashes(s@);
        let ts = trailing_slashes(s@);
        if s@.len() - ts < end {
            assert(s@[end - 1] == '/');
        }
        if s@.len() - ts > end {
            assert(s@[s@.len() - ts - 1] == '/');
        }
        assert(s@.len() - ts == end);
    }
    let sub = s.substring_char(0, end);
    String::from_str(sub)
}

/// Whether `pat` occurs in `s` at position `i`.
fn occurs_at_exec(s: &str, pat: &str, i: usize) -> (r: bool)
    requires
        i + pat@.len() <= s@.len(),
        s@.len() <= usize::MAX,
    ensures
        r == occurs_at(s@, pat@, i as int),
{
    let m = pat.unicode_len();
    let mut j: usize = 0;
    while j < m
        invariant
            0 <= j <= m,
            m as int == pat@.len(),
            i + m <= s@.len(),
            s@.len() <= usize::MAX,
            forall|k: int| 0 <= k < j ==> s@[i + k] == pat@[k],
        decreases m - j,
    {
        if s.get_char(i + j) != pat.get_char(j) {
            assert(s@.subrange(i as int, i + m) != pat@) by {
                assert(s@.subrange(i as int, i + m)[j as int] == s@[i + j]);
            }
            return false;
        }
        j = j + 1;
    }
    assert(s@.subrange(i as int, i + m) =~= pat@);
    true
}

/// Whether `s` begins with `pat`.
pub fn str_starts_with(s: &str, pat: &str) -> (r: bool)
    ensures
        r == occurs_at(s@, pat@, 0),
{
    let n = s.unicode_len();
    let m = pat.unicode_len();
    if m > n {
        return false;
    }
    occurs_at_exec(s, pat, 0)
}

/// Naive substring search.
pub fn str_contains(s: &str, pat: &str) -> (r: bool)
    ensures
        r == contains_seq(s@, pat@),
{
    let n = s.unicode_len();
    let m = pat.unicode_len();
    if m > n {
        assert(!contains_seq(s@, pat@)) by {
            assert(forall|i: int| !occurs_at(s@, pat@, i));
        }
        return false;
    }
    if m == 0 {
        assert(s@.subrange(0, 0) =~= pat@);
        assert(occurs_at(s@, pat@, 0));
        return true;
    }
    let mut i: usize = 0;
    while i <= n - m
        invariant
            0 <= i <= n - m + 1,
            0 < m <= n,
            n as int == s@.len(),
            m as int == pat@.len(),
            forall|k: int| 0 <= k < i ==> !occurs_at(s@, pat@, k),
        decreases n - i,
    {
        if occurs_at_exec(s, pat, i) {
            assert(occurs_at(s@, pat@, i as int));
            return true;
        }
        i = i + 1;
    }
    assert(forall|k: int| !occurs_at(s@, pat@, k));
    false
}

/// Whether `s` holds an ASCII digit.
pub fn str_has_digit(s: &str) -> (r: bool)
    ensures
        r == has_digit(s@),
{
    let n = s.unicode_len();
    let mut i: usize = 0;
    while i < n
        invariant
            0 <= i <= n,
            n as int == s@.len(),
            forall|j: int| 0 <= j < i ==> !is_digit(s@[j]),
        decreases n - i,
    {
        let c = s.get_char(i) as u32;
        if 48 <= c && c <= 57 {
            return true;
        }
        i = i + 1;
    }
    false
}

} // verus!
