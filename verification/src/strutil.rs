//! Verified character-level string utilities shared by the diagram parsers.
//!
//! All executable functions are proved against spec functions over `Seq<char>`
//! views; the parsers' own specifications are stated in terms of these spec
//! functions.

use vstd::prelude::*;

verus! {

/// The whitespace characters the parsers treat as blank space.
pub open spec fn is_space(c: char) -> bool {
    c == ' ' || c == '\t' || c == '\r' || c == '\n'
}

/// Decimal digit test.
pub open spec fn is_digit(c: char) -> bool {
    '0' <= c && c <= '9'
}

pub open spec fn digit_val(c: char) -> nat {
    (c as nat - '0' as nat) as nat
}

pub open spec fn all_digits(s: Seq<char>) -> bool {
    forall|i: int| 0 <= i < s.len() ==> is_digit(#[trigger] s[i])
}

/// Value of a sequence of decimal digits, most significant first.
pub open spec fn digits_val(s: Seq<char>) -> nat
    decreases s.len(),
{
    if s.len() == 0 {
        0
    } else {
        digits_val(s.drop_last()) * 10 + digit_val(s.last())
    }
}

/// The number denoted by `s`, when `s` is a non-empty run of decimal digits
/// whose value fits in `u32`; `None` otherwise.
pub open spec fn parse_u32_spec(s: Seq<char>) -> Option<u32> {
    if s.len() > 0 && all_digits(s) && digits_val(s) <= u32::MAX {
        Some(digits_val(s) as u32)
    } else {
        None
    }
}

pub open spec fn trim_start_spec(s: Seq<char>) -> Seq<char>
    decreases s.len(),
{
    if s.len() > 0 && is_space(s[0]) {
        trim_start_spec(s.drop_first())
    } else {
        s
    }
}

pub open spec fn trim_end_spec(s: Seq<char>) -> Seq<char>
    decreases s.len(),
{
    if s.len() > 0 && is_space(s.last()) {
        trim_end_spec(s.drop_last())
    } else {
        s
    }
}

/// `s` with leading and trailing whitespace removed.
pub open spec fn trim_spec(s: Seq<char>) -> Seq<char> {
    trim_end_spec(trim_start_spec(s))
}

pub open spec fn trim_char_start_spec(s: Seq<char>, c: char) -> Seq<char>
    decreases s.len(),
{
    if s.len() > 0 && s[0] == c {
        trim_char_start_spec(s.drop_first(), c)
    } else {
        s
    }
}

pub open spec fn trim_char_end_spec(s: Seq<char>, c: char) -> Seq<char>
    decreases s.len(),
{
    if s.len() > 0 && s.last() == c {
        trim_char_end_spec(s.drop_last(), c)
    } else {
        s
    }
}

/// `s` with every leading and trailing occurrence of `c` removed.
pub open spec fn trim_char_spec(s: Seq<char>, c: char) -> Seq<char> {
    trim_char_end_spec(trim_char_start_spec(s, c), c)
}

/// The pattern `pat` occurs in `s` at position `i`.
pub open spec fn match_at(s: Seq<char>, pat: Seq<char>, i: int) -> bool {
    0 <= i && i + pat.len() <= s.len() && s.subrange(i, i + pat.len()) == pat
}

pub open spec fn contains_sub(s: Seq<char>, pat: Seq<char>) -> bool {
    exists|i: int| match_at(s, pat, i)
}

/// Position of the first occurrence of `pat` in `s`.
pub open spec fn find_sub_spec(s: Seq<char>, pat: Seq<char>) -> Option<int>
    decreases s.len(),
{
    if match_at(s, pat, 0) {
        Some(0)
    } else if s.len() == 0 {
        None
    } else {
        match find_sub_spec(s.drop_first(), pat) {
            Some(j) => Some(j + 1),
            None => None,
        }
    }
}

/// Position of the first occurrence of the character `c` in `s`.
pub open spec fn find_char_spec(s: Seq<char>, c: char) -> Option<int>
    decreases s.len(),
{
    if s.len() == 0 {
        None
    } else if s[0] == c {
        Some(0)
    } else {
        match find_char_spec(s.drop_first(), c) {
            Some(j) => Some(j + 1),
            None => None,
        }
    }
}

/// Position of the last occurrence of the character `c` in `s`.
pub open spec fn rfind_char_spec(s: Seq<char>, c: char) -> Option<int>
    decreases s.len(),
{
    if s.len() == 0 {
        None
    } else if s.last() == c {
        Some(s.len() - 1)
    } else {
        rfind_char_spec(s.drop_last(), c)
    }
}

/// `s` split on the character `c`; the separators are not part of the
/// segments, and a trailing separator yields a trailing empty segment.
pub open spec fn split_char_spec(s: Seq<char>, c: char) -> Seq<Seq<char>>
    decreases s.len(),
{
    match find_char_spec(s, c) {
        Some(i) => if 0 <= i < s.len() {
            seq![s.subrange(0, i)] + split_char_spec(s.subrange(i + 1, s.len() as int), c)
        } else {
            seq![s]
        },
        None => seq![s],
    }
}

/// ASCII-lower-cased code point of one character.
pub open spec fn lower_code(c: char) -> u32 {
    if 'A' <= c && c <= 'Z' {
        (c as u32 + 32) as u32
    } else {
        c as u32
    }
}

/// ASCII-lower-cased code points of a string.
pub open spec fn lower_codes(s: Seq<char>) -> Seq<u32> {
    s.map(|_i: int, c: char| lower_code(c))
}

// ---------------------------------------------------------------------------
// Executable functions
// ---------------------------------------------------------------------------

pub(crate) fn is_space_at(s: &str, i: usize) -> (r: bool)
    requires
        i < s@.len(),
    ensures
        r == is_space(s@[i as int]),
{
    let c = s.get_char(i);
    c == ' ' || c == '\t' || c == '\r' || c == '\n'
}

fn is_char_at(s: &str, i: usize, c: char) -> (r: bool)
    requires
        i < s@.len(),
    ensures
        r == (s@[i as int] == c),
{
    s.get_char(i) == c
}

/// Character-wise string equality, proved equivalent to view equality.
pub fn str_eq(a: &str, b: &str) -> (r: bool)
    ensures
        r == (a@ == b@),
{
    let n: usize = a.unicode_len();
    let m: usize = b.unicode_len();
    if n != m {
        proof {
            assert(a@ != b@) by {
                if a@ == b@ {
                    assert(a@.len() == b@.len());
                }
            }
        }
        return false;
    }
    let mut i: usize = 0;
    while i < n
        invariant
            n == a@.len(),
            n == b@.len(),
            i <= n,
            forall|j: int| 0 <= j < i ==> a@[j] == b@[j],
        decreases n - i,
    {
        if a.get_char(i) != b.get_char(i) {
            proof {
                assert(a@ != b@) by {
                    if a@ == b@ {
                        assert(a@[i as int] == b@[i as int]);
                    }
                }
            }
            return false;
        }
        i += 1;
    }
    proof {
        assert(a@ =~= b@);
    }
    true
}

/// ASCII case-insensitive string equality.
pub fn str_eq_ignore_case(a: &str, b: &str) -> (r: bool)
    ensures
        r == (lower_codes(a@) == lower_codes(b@)),
{
    let n: usize = a.unicode_len();
    let m: usize = b.unicode_len();
    if n != m {
        proof {
            assert(lower_codes(a@) != lower_codes(b@)) by {
                if lower_codes(a@) == lower_codes(b@) {
                    assert(lower_codes(a@).len() == lower_codes(b@).len());
                }
            }
        }
        return false;
    }
    let mut i: usize = 0;
    while i < n
        invariant
            n == a@.len(),
            n == b@.len(),
            i <= n,
            forall|j: int| 0 <= j < i ==> lower_code(a@[j]) == lower_code(b@[j]),
        decreases n - i,
    {
        let ca = a.get_char(i);
        let cb = b.get_char(i);
        let la: u32 = if 'A' <= ca && ca <= 'Z' {
            ca as u32 + 32
        } else {
            ca as u32
        };
        let lb: u32 = if 'A' <= cb && cb <= 'Z' {
            cb as u32 + 32
        } else {
            cb as u32
        };
        if la != lb {
            proof {
                assert(lower_codes(a@) != lower_codes(b@)) by {
                    if lower_codes(a@) == lower_codes(b@) {
                        assert(lower_codes(a@)[i as int] == lower_codes(b@)[i as int]);
                    }
                }
            }
            return false;
        }
        i += 1;
    }
    proof {
        assert(lower_codes(a@) =~= lower_codes(b@));
    }
    true
}

proof fn lemma_trim_start_skip(s: Seq<char>, a: int)
    requires
        0 <= a <= s.len(),
        forall|i: int| 0 <= i < a ==> is_space(#[trigger] s[i]),
        a < s.len() ==> !is_space(s[a]),
    ensures
        trim_start_spec(s) == s.skip(a),
    decreases a,
{
    if a == 0 {
        assert(s.skip(0) =~= s);
    } else {
        assert(is_space(s[0]));
        lemma_trim_start_skip(s.drop_first(), a - 1);
        assert(s.drop_first().skip(a - 1) =~= s.skip(a));
    }
}

proof fn lemma_trim_end_take(s: Seq<char>, b: int)
    requires
        0 <= b <= s.len(),
        forall|i: int| b <= i < s.len() ==> is_space(#[trigger] s[i]),
        b > 0 ==> !is_space(s[b - 1]),
    ensures
        trim_end_spec(s) == s.take(b),
    decreases s.len() - b,
{
    if b == s.len() {
        assert(s.take(b) =~= s);
    } else {
        assert(is_space(s.last()));
        lemma_trim_end_take(s.drop_last(), b);
        assert(s.drop_last().take(b) =~= s.take(b));
    }
}

/// Whitespace trimming, proved equal to `trim_spec`.
pub fn trim(s: &str) -> (r: &str)
    ensures
        r@ == trim_spec(s@),
{
    let n: usize = s.unicode_len();
    let mut a: usize = 0;
    while a < n && is_space_at(s, a)
        invariant
            n == s@.len(),
            a <= n,
            forall|i: int| 0 <= i < a ==> is_space(#[trigger] s@[i]),
        decreases n - a,
    {
        a += 1;
    }
    let mut b: usize = n;
    while b > a && is_space_at(s, b - 1)
        invariant
            n == s@.len(),
            a <= b <= n,
            forall|i: int| 0 <= i < a ==> is_space(#[trigger] s@[i]),
            a < n ==> !is_space(s@[a as int]),
            forall|i: int| b <= i < n ==> is_space(#[trigger] s@[i]),
        decreases b,
    {
        b -= 1;
    }
    proof {
        lemma_trim_start_skip(s@, a as int);
        let t = s@.skip(a as int);
        lemma_trim_end_take(t, b - a);
        assert(t.take(b - a) =~= s@.subrange(a as int, b as int));
    }
    s.substring_char(a, b)
}

proof fn lemma_trim_char_start_skip(s: Seq<char>, c: char, a: int)
    requires
        0 <= a <= s.len(),
        forall|i: int| 0 <= i < a ==> #[trigger] s[i] == c,
        a < s.len() ==> s[a] != c,
    ensures
        trim_char_start_spec(s, c) == s.skip(a),
    decreases a,
{
    if a == 0 {
        assert(s.skip(0) =~= s);
    } else {
        lemma_trim_char_start_skip(s.drop_first(), c, a - 1);
        assert(s.drop_first().skip(a - 1) =~= s.skip(a));
    }
}

proof fn lemma_trim_char_end_take(s: Seq<char>, c: char, b: int)
    requires
        0 <= b <= s.len(),
        forall|i: int| b <= i < s.len() ==> #[trigger] s[i] == c,
        b > 0 ==> s[b - 1] != c,
    ensures
        trim_char_end_spec(s, c) == s.take(b),
    decreases s.len() - b,
{
    if b == s.len() {
        assert(s.take(b) =~= s);
    } else {
        lemma_trim_char_end_take(s.drop_last(), c, b);
        assert(s.drop_last().take(b) =~= s.take(b));
    }
}

/// Removes every leading and trailing occurrence of `c`, proved equal to
/// `trim_char_spec`.
pub fn trim_char<'a>(s: &'a str, c: char) -> (r: &'a str)
    ensures
        r@ == trim_char_spec(s@, c),
{
    let n: usize = s.unicode_len();
    let mut a: usize = 0;
    while a < n && is_char_at(s, a, c)
        invariant
            n == s@.len(),
            a <= n,
            forall|i: int| 0 <= i < a ==> #[trigger] s@[i] == c,
        decreases n - a,
    {
        a += 1;
    }
    let mut b: usize = n;
    while b > a && is_char_at(s, b - 1, c)
        invariant
            n == s@.len(),
            a <= b <= n,
            forall|i: int| 0 <= i < a ==> #[trigger] s@[i] == c,
            a < n ==> s@[a as int] != c,
            forall|i: int| b <= i < n ==> #[trigger] s@[i] == c,
        decreases b,
    {
        b -= 1;
    }
    proof {
        lemma_trim_char_start_skip(s@, c, a as int);
        let t = s@.skip(a as int);
        lemma_trim_char_end_take(t, c, b - a);
        assert(t.take(b - a) =~= s@.subrange(a as int, b as int));
    }
    s.substring_char(a, b)
}

/// Whether `pat` occurs in `s` at position `i`.
pub fn match_at_exec(s: &str, pat: &str, i: usize) -> (r: bool)
    requires
        i + pat@.len() <= s@.len(),
    ensures
        r == match_at(s@, pat@, i as int),
{
    let n: usize = s.unicode_len();
    let m: usize = pat.unicode_len();
    let mut j: usize = 0;
    while j < m
        invariant
            n == s@.len(),
            m == pat@.len(),
            i + m <= n,
            j <= m,
            forall|k: int| 0 <= k < j ==> s@[i + k] == pat@[k],
        decreases m - j,
    {
        if s.get_char(i + j) != pat.get_char(j) {
            proof {
                assert(!match_at(s@, pat@, i as int)) by {
                    if match_at(s@, pat@, i as int) {
                        assert(s@.subrange(i as int, i + m)[j as int] == pat@[j as int]);
                    }
                }
            }
            return false;
        }
        j += 1;
    }
    proof {
        assert(s@.subrange(i as int, i + m) =~= pat@);
    }
    true
}

/// Whether `pat` occurs in `s` at position `i`, with no bounds demanded of
/// the caller.
pub fn match_at_safe(s: &str, pat: &str, i: usize) -> (r: bool)
    ensures
        r == match_at(s@, pat@, i as int),
{
    let n: usize = s.unicode_len();
    let m: usize = pat.unicode_len();
    if i > n || m > n - i {
        proof {
            assert(!match_at(s@, pat@, i as int));
        }
        return false;
    }
    match_at_exec(s, pat, i)
}

proof fn lemma_find_char_at(s: Seq<char>, c: char, k: int)
    requires
        0 <= k < s.len(),
        s[k] == c,
        forall|j: int| 0 <= j < k ==> s[j] != c,
    ensures
        find_char_spec(s, c) == Some(k),
    decreases k,
{
    if k == 0 {
    } else {
        assert(s[0] != c);
        lemma_find_char_at(s.drop_first(), c, k - 1);
    }
}

proof fn lemma_find_char_none(s: Seq<char>, c: char)
    requires
        forall|j: int| 0 <= j < s.len() ==> s[j] != c,
    ensures
        find_char_spec(s, c) is None,
    decreases s.len(),
{
    if s.len() > 0 {
        lemma_find_char_none(s.drop_first(), c);
    }
}

/// First occurrence of the character `c` in `s`.
pub fn find_char(s: &str, c: char) -> (r: Option<usize>)
    ensures
        match r {
            Some(i) => find_char_spec(s@, c) == Some(i as int),
            None => find_char_spec(s@, c) is None,
        },
{
    let n: usize = s.unicode_len();
    let mut i: usize = 0;
    while i < n
        invariant
            n == s@.len(),
            i <= n,
            forall|j: int| 0 <= j < i ==> s@[j] != c,
        decreases n - i,
    {
        if s.get_char(i) == c {
            proof {
                lemma_find_char_at(s@, c, i as int);
            }
            return Some(i);
        }
        i += 1;
    }
    proof {
        lemma_find_char_none(s@, c);
    }
    None
}

proof fn lemma_rfind_char_at(s: Seq<char>, c: char, k: int)
    requires
        0 <= k < s.len(),
        s[k] == c,
        forall|j: int| k < j < s.len() ==> s[j] != c,
    ensures
        rfind_char_spec(s, c) == Some(k),
    decreases s.len(),
{
    if k == s.len() - 1 {
    } else {
        assert(s.last() != c);
        lemma_rfind_char_at(s.drop_last(), c, k);
    }
}

proof fn lemma_rfind_char_none(s: Seq<char>, c: char)
    requires
        forall|j: int| 0 <= j < s.len() ==> s[j] != c,
    ensures
        rfind_char_spec(s, c) is None,
    decreases s.len(),
{
    if s.len() > 0 {
        lemma_rfind_char_none(s.drop_last(), c);
    }
}

/// Last occurrence of the character `c` in `s`.
pub fn rfind_char(s: &str, c: char) -> (r: Option<usize>)
    ensures
        match r {
            Some(i) => rfind_char_spec(s@, c) == Some(i as int),
            None => rfind_char_spec(s@, c) is None,
        },
{
    let n: usize = s.unicode_len();
    let mut i: usize = n;
    while i > 0
        invariant
            n == s@.len(),
            i <= n,
            forall|j: int| i <= j < n ==> s@[j] != c,
        decreases i,
    {
        i -= 1;
        if s.get_char(i) == c {
            proof {
                lemma_rfind_char_at(s@, c, i as int);
            }
            return Some(i);
        }
    }
    proof {
        lemma_rfind_char_none(s@, c);
    }
    None
}

proof fn lemma_find_sub_at(s: Seq<char>, pat: Seq<char>, k: int)
    requires
        match_at(s, pat, k),
        forall|j: int| 0 <= j < k ==> !match_at(s, pat, j),
    ensures
        find_sub_spec(s, pat) == Some(k),
    decreases k,
{
    if k == 0 {
    } else {
        assert(!match_at(s, pat, 0));
        assert(s.len() > 0);
        let t = s.drop_first();
        assert(match_at(t, pat, k - 1)) by {
            assert(t.subrange(k - 1, k - 1 + pat.len()) =~= s.subrange(k, k + pat.len()));
        }
        assert forall|j: int| 0 <= j < k - 1 implies !match_at(t, pat, j) by {
            if match_at(t, pat, j) {
                assert(match_at(s, pat, j + 1)) by {
                    assert(s.subrange(j + 1, j + 1 + pat.len()) =~= t.subrange(j, j + pat.len()));
                }
            }
        }
        lemma_find_sub_at(t, pat, k - 1);
    }
}

proof fn lemma_find_sub_none(s: Seq<char>, pat: Seq<char>)
    requires
        forall|j: int| !match_at(s, pat, j),
    ensures
        find_sub_spec(s, pat) is None,
    decreases s.len(),
{
    if s.len() > 0 {
        let t = s.drop_first();
        assert forall|j: int| !match_at(t, pat, j) by {
            if match_at(t, pat, j) {
                assert(match_at(s, pat, j + 1)) by {
                    assert(s.subrange(j + 1, j + 1 + pat.len()) =~= t.subrange(j, j + pat.len()));
                }
            }
        }
        lemma_find_sub_none(t, pat);
    }
}

/// First occurrence of the pattern `pat` in `s`.
pub fn find_sub(s: &str, pat: &str) -> (r: Option<usize>)
    ensures
        match r {
            Some(i) => find_sub_spec(s@, pat@) == Some(i as int),
            None => find_sub_spec(s@, pat@) is None,
        },
{
    let n: usize = s.unicode_len();
    let m: usize = pat.unicode_len();
    if m > n {
        proof {
            assert forall|j: int| !match_at(s@, pat@, j) by {
                if match_at(s@, pat@, j) {
                    assert(j >= 0 && j + m <= n);
                }
            }
            lemma_find_sub_none(s@, pat@);
        }
        return None;
    }
    if match_at_exec(s, pat, 0) {
        proof {
            lemma_find_sub_at(s@, pat@, 0);
        }
        return Some(0);
    }
    proof {
        assert(m >= 1) by {
            if m == 0 {
                assert(s@.subrange(0, 0) =~= pat@);
            }
        }
    }
    let mut i: usize = 1;
    while i <= n - m
        invariant
            n == s@.len(),
            m == pat@.len(),
            1 <= m <= n,
            1 <= i <= n - m + 1,
            !match_at(s@, pat@, 0),
            forall|j: int| 0 <= j < i ==> !match_at(s@, pat@, j),
        decreases n - m + 1 - i,
    {
        if match_at_exec(s, pat, i) {
            proof {
                lemma_find_sub_at(s@, pat@, i as int);
            }
            return Some(i);
        }
        i += 1;
    }
    proof {
        assert forall|j: int| !match_at(s@, pat@, j) by {
            if match_at(s@, pat@, j) {
                assert(0 <= j && j + m <= n);
            }
        }
        lemma_find_sub_none(s@, pat@);
    }
    None
}

proof fn lemma_find_sub_sound(s: Seq<char>, pat: Seq<char>)
    ensures
        find_sub_spec(s, pat) is Some ==> match_at(s, pat, find_sub_spec(s, pat).unwrap()),
    decreases s.len(),
{
    if match_at(s, pat, 0) {
    } else if s.len() == 0 {
    } else {
        let t = s.drop_first();
        lemma_find_sub_sound(t, pat);
        if find_sub_spec(s, pat) is Some {
            let j = find_sub_spec(t, pat).unwrap();
            assert(match_at(t, pat, j));
            assert(match_at(s, pat, j + 1)) by {
                assert(s.subrange(j + 1, j + 1 + pat.len()) =~= t.subrange(j, j + pat.len()));
            }
        }
    }
}

/// A found pattern position is in range and marks a match.
pub proof fn lemma_find_sub_in_range(s: Seq<char>, pat: Seq<char>, p: int)
    requires
        find_sub_spec(s, pat) == Some(p),
    ensures
        0 <= p,
        p + pat.len() <= s.len(),
        match_at(s, pat, p),
{
    lemma_find_sub_sound(s, pat);
}

/// A found character position is in range and carries the character.
pub proof fn lemma_find_char_in_range(s: Seq<char>, c: char, p: int)
    requires
        find_char_spec(s, c) == Some(p),
    ensures
        0 <= p < s.len(),
        s[p] == c,
    decreases s.len(),
{
    if s.len() > 0 && s[0] != c {
        lemma_find_char_in_range(s.drop_first(), c, p - 1);
    }
}

/// A found last-occurrence position is in range and carries the character.
pub proof fn lemma_rfind_char_in_range(s: Seq<char>, c: char, p: int)
    requires
        rfind_char_spec(s, c) == Some(p),
    ensures
        0 <= p < s.len(),
        s[p] == c,
    decreases s.len(),
{
    if s.len() > 0 && s.last() != c {
        lemma_rfind_char_in_range(s.drop_last(), c, p);
    }
}

/// The first-occurrence search succeeds exactly when the pattern occurs.
pub proof fn lemma_find_sub_spec_contains(s: Seq<char>, pat: Seq<char>)
    ensures
        (find_sub_spec(s, pat) is Some) == contains_sub(s, pat),
    decreases s.len(),
{
    lemma_find_sub_sound(s, pat);
    if find_sub_spec(s, pat) is Some {
        assert(match_at(s, pat, find_sub_spec(s, pat).unwrap()));
        assert(contains_sub(s, pat));
    }
    if contains_sub(s, pat) {
        if match_at(s, pat, 0) {
        } else if s.len() == 0 {
            let i = choose|i: int| match_at(s, pat, i);
            assert(i == 0 && pat.len() == 0);
            assert(false);
        } else {
            let t = s.drop_first();
            let i = choose|i: int| match_at(s, pat, i);
            assert(i >= 1);
            assert(match_at(t, pat, i - 1)) by {
                assert(t.subrange(i - 1, i - 1 + pat.len()) =~= s.subrange(i, i + pat.len()));
            }
            assert(contains_sub(t, pat));
            lemma_find_sub_spec_contains(t, pat);
        }
    }
}

/// Whether `pat` occurs anywhere in `s`.
pub fn contains_str(s: &str, pat: &str) -> (r: bool)
    ensures
        r == contains_sub(s@, pat@),
{
    let r = find_sub(s, pat);
    proof {
        lemma_find_sub_spec_contains(s@, pat@);
    }
    r.is_some()
}

/// Whether the character `c` occurs anywhere in `s`.
pub fn contains_char(s: &str, c: char) -> (r: bool)
    ensures
        r == (find_char_spec(s@, c) is Some),
{
    find_char(s, c).is_some()
}

proof fn lemma_digits_val_grows(s: Seq<char>, i: int)
    requires
        0 <= i <= s.len(),
    ensures
        digits_val(s) >= digits_val(s.take(i)),
    decreases s.len() - i,
{
    if i == s.len() {
        assert(s.take(i) =~= s);
    } else {
        lemma_digits_val_grows(s, i + 1);
        assert(s.take(i + 1).drop_last() =~= s.take(i));
        assert(digits_val(s.take(i + 1)) == digits_val(s.take(i)) * 10 + digit_val(s[i]));
    }
}

/// Parses a non-empty run of decimal digits as a `u32`; proved equal to
/// `parse_u32_spec`.
pub fn parse_u32(s: &str) -> (r: Option<u32>)
    ensures
        r == parse_u32_spec(s@),
{
    let n: usize = s.unicode_len();
    if n == 0 {
        return None;
    }
    let mut val: u64 = 0;
    let mut i: usize = 0;
    while i < n
        invariant
            n == s@.len(),
            n > 0,
            i <= n,
            forall|j: int| 0 <= j < i ==> is_digit(#[trigger] s@[j]),
            val == digits_val(s@.take(i as int)),
            val <= u32::MAX,
        decreases n - i,
    {
        let c = s.get_char(i);
        if !('0' <= c && c <= '9') {
            proof {
                assert(!all_digits(s@)) by {
                    assert(!is_digit(s@[i as int]));
                }
            }
            return None;
        }
        let d: u32 = (c as u32) - ('0' as u32);
        let next: u64 = val * 10 + (d as u64);
        proof {
            assert(s@.take(i + 1).drop_last() =~= s@.take(i as int));
            assert(digits_val(s@.take(i + 1)) == digits_val(s@.take(i as int)) * 10 + digit_val(
                s@[i as int],
            ));
        }
        if next > 0xffff_ffff {
            proof {
                lemma_digits_val_grows(s@, i + 1);
            }
            return None;
        }
        val = next;
        i += 1;
    }
    proof {
        assert(s@.take(n as int) =~= s@);
        assert(all_digits(s@));
    }
    Some(val as u32)
}

proof fn lemma_split_char_step(s: Seq<char>, c: char, start: int, i: int)
    requires
        0 <= start <= i < s.len(),
        forall|j: int| start <= j < i ==> s[j] != c,
        s[i] == c,
    ensures
        split_char_spec(s.skip(start), c) == seq![s.subrange(start, i)] + split_char_spec(
            s.skip(i + 1),
            c,
        ),
{
    let t = s.skip(start);
    assert forall|j: int| 0 <= j < i - start implies t[j] != c by {
        assert(t[j] == s[start + j]);
    }
    assert(t[i - start] == c);
    lemma_find_char_at(t, c, i - start);
    assert(t.subrange(0, i - start) =~= s.subrange(start, i));
    assert(t.subrange(i - start + 1, t.len() as int) =~= s.skip(i + 1));
}

proof fn lemma_split_char_rest(s: Seq<char>, c: char, start: int)
    requires
        0 <= start <= s.len(),
        forall|j: int| start <= j < s.len() ==> s[j] != c,
    ensures
        split_char_spec(s.skip(start), c) == seq![s.subrange(start, s.len() as int)],
{
    let t = s.skip(start);
    assert forall|j: int| 0 <= j < t.len() implies t[j] != c by {
        assert(t[j] == s[start + j]);
    }
    lemma_find_char_none(t, c);
    assert(t =~= s.subrange(start, s.len() as int));
}

/// Splits `s` on the character `c`; proved equal to `split_char_spec`.
pub fn split_char(s: &str, c: char) -> (r: Vec<String>)
    ensures
        r.deep_view() == split_char_spec(s@, c),
{
    let n: usize = s.unicode_len();
    let mut out: Vec<String> = Vec::new();
    let mut start: usize = 0;
    let mut i: usize = 0;
    proof {
        assert(out.deep_view() =~= Seq::<Seq<char>>::empty());
        assert(split_char_spec(s@, c) == out.deep_view() + split_char_spec(
            s@.skip(start as int),
            c,
        )) by {
            assert(s@.skip(0) =~= s@);
            assert(Seq::<Seq<char>>::empty() + split_char_spec(s@, c) =~= split_char_spec(s@, c));
        }
    }
    while i < n
        invariant
            n == s@.len(),
            start <= i <= n,
            forall|j: int| start <= j < i ==> s@[j] != c,
            split_char_spec(s@, c) == out.deep_view() + split_char_spec(s@.skip(start as int), c),
        decreases n - i,
    {
        if s.get_char(i) == c {
            let seg = s.substring_char(start, i).to_owned();
            let ghost pre = out.deep_view();
            out.push(seg);
            proof {
                assert(out.deep_view() =~= pre.push(seg@));
                lemma_split_char_step(s@, c, start as int, i as int);
                assert(pre + (seq![s@.subrange(start as int, i as int)] + split_char_spec(
                    s@.skip(i + 1),
                    c,
                )) =~= pre.push(seg@) + split_char_spec(s@.skip(i + 1), c));
            }
            start = i + 1;
        }
        i += 1;
    }
    let seg = s.substring_char(start, n).to_owned();
    let ghost pre = out.deep_view();
    out.push(seg);
    proof {
        lemma_split_char_rest(s@, c, start as int);
        assert(out.deep_view() =~= pre.push(seg@));
        assert(pre + seq![s@.subrange(start as int, n as int)] =~= pre.push(seg@));
    }
    out
}

} // verus!
