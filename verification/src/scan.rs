//! Text scanning for the parser: trimming, searching and splitting, stated
//! over character sequences and carried out on ranges of one character
//! vector, so that every piece found is a range of the input.
use vstd::prelude::*;
use crate::text::{ascii_upper, to_ascii_upper, upper};

verus! {

/// Unicode White_Space (what `char::is_whitespace` accepts).
pub open spec fn is_ws(c: char) -> bool {
    ||| '\u{9}' <= c <= '\u{d}'
    ||| c == ' '
    ||| c == '\u{85}'
    ||| c == '\u{a0}'
    ||| c == '\u{1680}'
    ||| '\u{2000}' <= c <= '\u{200a}'
    ||| c == '\u{2028}'
    ||| c == '\u{2029}'
    ||| c == '\u{202f}'
    ||| c == '\u{205f}'
    ||| c == '\u{3000}'
}

pub fn is_whitespace(c: char) -> (b: bool)
    ensures
        b == is_ws(c),
{
    ('\u{9}' <= c && c <= '\u{d}') || c == ' ' || c == '\u{85}' || c == '\u{a0}' || c == '\u{1680}'
        || ('\u{2000}' <= c && c <= '\u{200a}') || c == '\u{2028}' || c == '\u{2029}' || c == '\u{202f}'
        || c == '\u{205f}' || c == '\u{3000}'
}

/// `s` without its leading whitespace.
pub open spec fn trim_start(s: Seq<char>) -> Seq<char>
    decreases s.len(),
{
    if s.len() > 0 && is_ws(s[0]) {
        trim_start(s.drop_first())
    } else {
        s
    }
}

/// `s` without its trailing whitespace.
pub open spec fn trim_end(s: Seq<char>) -> Seq<char>
    decreases s.len(),
{
    if s.len() > 0 && is_ws(s.last()) {
        trim_end(s.drop_last())
    } else {
        s
    }
}

/// `s` without leading and trailing whitespace.
pub open spec fn trim(s: Seq<char>) -> Seq<char> {
    trim_end(trim_start(s))
}

/// `s` without the leading and trailing characters equal to `c`.
pub open spec fn trim_char(s: Seq<char>, c: char) -> Seq<char> {
    trim_char_end(trim_char_start(s, c), c)
}

pub open spec fn trim_char_start(s: Seq<char>, c: char) -> Seq<char>
    decreases s.len(),
{
    if s.len() > 0 && s[0] == c {
        trim_char_start(s.drop_first(), c)
    } else {
        s
    }
}

pub open spec fn trim_char_end(s: Seq<char>, c: char) -> Seq<char>
    decreases s.len(),
{
    if s.len() > 0 && s.last() == c {
        trim_char_end(s.drop_last(), c)
    } else {
        s
    }
}

/// The first position, from `i` on, holding character `c`.
pub open spec fn first_index(s: Seq<char>, c: char, i: nat) -> Option<nat>
    decreases s.len() - i,
{
    if i >= s.len() {
        None
    } else if s[i as int] == c {
        Some(i)
    } else {
        first_index(s, c, i + 1)
    }
}

/// The last position before `k` holding character `c`.
pub open spec fn last_index(s: Seq<char>, c: char, k: nat) -> Option<nat>
    decreases k,
{
    if k == 0 {
        None
    } else if (k - 1) < s.len() && s[k - 1] == c {
        Some((k - 1) as nat)
    } else {
        last_index(s, c, (k - 1) as nat)
    }
}

/// The first position, from `i` on, where `pat` occurs in `s`.
pub open spec fn find_from(s: Seq<char>, pat: Seq<char>, i: nat) -> Option<nat>
    decreases s.len() + 1 - i,
{
    if i + pat.len() > s.len() {
        None
    } else if s.subrange(i as int, (i + pat.len()) as int) == pat {
        Some(i)
    } else {
        find_from(s, pat, i + 1)
    }
}

/// The first position where `pat` occurs in `s`.
pub open spec fn find(s: Seq<char>, pat: Seq<char>) -> Option<nat> {
    find_from(s, pat, 0)
}

/// A position found, or the length of `s`.
pub open spec fn or_len(r: Option<nat>, s: Seq<char>) -> nat {
    match r {
        Some(i) => i,
        None => s.len(),
    }
}

/// The pieces of `s` between occurrences of `c` (at least one piece).
pub open spec fn split(s: Seq<char>, c: char) -> Seq<Seq<char>>
    decreases s.len(),
{
    match first_index(s, c, 0) {
        None => seq![s],
        Some(i) => {
            proof {
                lemma_first_index_bound(s, c, 0);
            }
            seq![s.take(i as int)] + split(s.skip((i + 1) as int), c)
        },
    }
}

/// Whether `s` begins with `pat`.
pub open spec fn starts_with(s: Seq<char>, pat: Seq<char>) -> bool {
    pat.len() <= s.len() && s.take(pat.len() as int) == pat
}

pub proof fn lemma_first_index_bound(s: Seq<char>, c: char, i: nat)
    ensures
        first_index(s, c, i) matches Some(k) ==> i <= k < s.len() && s[k as int] == c,
    decreases s.len() - i,
{
    if i < s.len() && s[i as int] != c {
        lemma_first_index_bound(s, c, i + 1);
    }
}

pub proof fn lemma_last_index_bound(s: Seq<char>, c: char, k: nat)
    ensures
        last_index(s, c, k) matches Some(j) ==> j < k && j < s.len() && s[j as int] == c,
    decreases k,
{
    if k > 0 {
        lemma_last_index_bound(s, c, (k - 1) as nat);
    }
}

pub proof fn lemma_find_bound(s: Seq<char>, pat: Seq<char>, i: nat)
    ensures
        find_from(s, pat, i) matches Some(k) ==> i <= k && k + pat.len() <= s.len(),
    decreases s.len() + 1 - i,
{
    if i + pat.len() <= s.len() && s.subrange(i as int, (i + pat.len()) as int) != pat {
        lemma_find_bound(s, pat, i + 1);
    }
}

// ---------------------------------------------------------------------------
// The same, carried out on ranges [lo, hi) of a character vector.
// ---------------------------------------------------------------------------

/// The range of `cs[lo..hi]` without leading and trailing whitespace.
pub fn trim_range(cs: &Vec<char>, lo: usize, hi: usize) -> (r: (usize, usize))
    requires
        lo <= hi <= cs@.len(),
    ensures
        lo <= r.0 <= r.1 <= hi,
        cs@.subrange(r.0 as int, r.1 as int) == trim(cs@.subrange(lo as int, hi as int)),
{
    let mut a = lo;
    while a < hi && is_whitespace(cs[a])
        invariant
            lo <= a <= hi <= cs@.len(),
            trim_start(cs@.subrange(lo as int, hi as int)) == trim_start(cs@.subrange(a as int, hi as int)),
        decreases hi - a,
    {
        assert(cs@.subrange(a as int, hi as int).drop_first() =~= cs@.subrange(a + 1, hi as int));
        a = a + 1;
    }
    assert(trim_start(cs@.subrange(a as int, hi as int)) == cs@.subrange(a as int, hi as int));
    let mut b = hi;
    while b > a && is_whitespace(cs[b - 1])
        invariant
            lo <= a <= b <= hi <= cs@.len(),
            trim(cs@.subrange(lo as int, hi as int)) == trim_end(cs@.subrange(a as int, b as int)),
        decreases b - a,
    {
        assert(cs@.subrange(a as int, b as int).drop_last() =~= cs@.subrange(a as int, b - 1));
        b = b - 1;
    }
    (a, b)
}

/// The range of `cs[lo..hi]` without leading and trailing characters `c`.
pub fn trim_char_range(cs: &Vec<char>, lo: usize, hi: usize, c: char) -> (r: (usize, usize))
    requires
        lo <= hi <= cs@.len(),
    ensures
        lo <= r.0 <= r.1 <= hi,
        cs@.subrange(r.0 as int, r.1 as int) == trim_char(cs@.subrange(lo as int, hi as int), c),
{
    let mut a = lo;
    while a < hi && cs[a] == c
        invariant
            lo <= a <= hi <= cs@.len(),
            trim_char_start(cs@.subrange(lo as int, hi as int), c) == trim_char_start(
                cs@.subrange(a as int, hi as int),
                c,
            ),
        decreases hi - a,
    {
        assert(cs@.subrange(a as int, hi as int).drop_first() =~= cs@.subrange(a + 1, hi as int));
        a = a + 1;
    }
    assert(trim_char_start(cs@.subrange(a as int, hi as int), c) == cs@.subrange(a as int, hi as int));
    let mut b = hi;
    while b > a && cs[b - 1] == c
        invariant
            lo <= a <= b <= hi <= cs@.len(),
            trim_char(cs@.subrange(lo as int, hi as int), c) == trim_char_end(cs@.subrange(a as int, b as int), c),
        decreases b - a,
    {
        assert(cs@.subrange(a as int, b as int).drop_last() =~= cs@.subrange(a as int, b - 1));
        b = b - 1;
    }
    (a, b)
}

/// The first position of `c` in `cs[lo..hi]`, relative to `lo`.
pub fn first_index_range(cs: &Vec<char>, lo: usize, hi: usize, c: char) -> (r: Option<usize>)
    requires
        lo <= hi <= cs@.len(),
    ensures
        match r {
            Some(i) => first_index(cs@.subrange(lo as int, hi as int), c, 0) == Some(i as nat) && lo + i < hi,
            None => first_index(cs@.subrange(lo as int, hi as int), c, 0) is None,
        },
{
    let ghost s = cs@.subrange(lo as int, hi as int);
    let mut i: usize = 0;
    while lo + i < hi
        invariant
            lo <= hi <= cs@.len(),
            s == cs@.subrange(lo as int, hi as int),
            lo + i <= hi,
            first_index(s, c, 0) == first_index(s, c, i as nat),
        decreases hi - lo - i,
    {
        assert(s[i as int] == cs@[lo + i]);
        if cs[lo + i] == c {
            return Some(i);
        }
        i = i + 1;
    }
    None
}

/// The last position of `c` in `cs[lo..hi]`, relative to `lo`.
pub fn last_index_range(cs: &Vec<char>, lo: usize, hi: usize, c: char) -> (r: Option<usize>)
    requires
        lo <= hi <= cs@.len(),
    ensures
        match r {
            Some(i) => last_index(cs@.subrange(lo as int, hi as int), c, (hi - lo) as nat) == Some(i as nat) && lo
                + i < hi,
            None => last_index(cs@.subrange(lo as int, hi as int), c, (hi - lo) as nat) is None,
        },
{
    let ghost s = cs@.subrange(lo as int, hi as int);
    let mut k: usize = hi - lo;
    while k > 0
        invariant
            lo <= hi <= cs@.len(),
            s == cs@.subrange(lo as int, hi as int),
            k <= hi - lo,
            last_index(s, c, (hi - lo) as nat) == last_index(s, c, k as nat),
        decreases k,
    {
        assert(s[k - 1] == cs@[lo + k - 1]);
        if cs[lo + k - 1] == c {
            return Some(k - 1);
        }
        k = k - 1;
    }
    None
}

/// The first position where `pat` occurs in the ASCII upper case of
/// `cs[lo..hi]`, relative to `lo`.
pub fn find_upper_range(cs: &Vec<char>, lo: usize, hi: usize, pat: &Vec<char>) -> (r: Option<usize>)
    requires
        lo <= hi <= cs@.len(),
    ensures
        match r {
            Some(i) => find(upper(cs@.subrange(lo as int, hi as int)), pat@) == Some(i as nat) && lo + i + pat@.len()
                <= hi,
            None => find(upper(cs@.subrange(lo as int, hi as int)), pat@) is None,
        },
{
    let ghost s = upper(cs@.subrange(lo as int, hi as int));
    let m = pat.len();
    let mut i: usize = 0;
    while m <= hi - lo - i
        invariant
            lo <= hi <= cs@.len(),
            s == upper(cs@.subrange(lo as int, hi as int)),
            m == pat@.len(),
            lo + i <= hi,
            find(s, pat@) == find_from(s, pat@, i as nat),
        decreases hi - lo - i,
    {
        let mut j: usize = 0;
        let mut same = true;
        while j < m
            invariant
                lo + i + m <= hi <= cs@.len(),
                s == upper(cs@.subrange(lo as int, hi as int)),
                m == pat@.len(),
                j <= m,
                same == (forall|k: int| 0 <= k < j ==> #[trigger] s[i + k] == pat@[k]),
            decreases m - j,
        {
            assert(s[i + j] == ascii_upper(cs@[lo + i + j]));
            if to_ascii_upper(cs[lo + i + j]) != pat[j] {
                same = false;
            }
            j = j + 1;
        }
        if same {
            assert forall|k: int| 0 <= k < m implies #[trigger] s.subrange(i as int, i + m)[k] == pat@[k] by {
                assert(s[i + k] == pat@[k]);
            }
            assert(s.subrange(i as int, i + m) =~= pat@);
            return Some(i);
        } else {
            assert(s.subrange(i as int, i + m) != pat@) by {
                let k = choose|k: int| 0 <= k < m && !(#[trigger] s[i + k] == pat@[k]);
                assert(s.subrange(i as int, i + m)[k] == s[i + k]);
            }
        }
        i = i + 1;
    }
    None
}

/// Whether the ASCII upper case of `cs[lo..hi]` begins with `pat`.
pub fn starts_with_upper(cs: &Vec<char>, lo: usize, hi: usize, pat: &Vec<char>) -> (b: bool)
    requires
        lo <= hi <= cs@.len(),
    ensures
        b == starts_with(upper(cs@.subrange(lo as int, hi as int)), pat@),
{
    let ghost s = upper(cs@.subrange(lo as int, hi as int));
    let m = pat.len();
    if m > hi - lo {
        return false;
    }
    let mut j: usize = 0;
    while j < m
        invariant
            lo + m <= hi <= cs@.len(),
            s == upper(cs@.subrange(lo as int, hi as int)),
            m == pat@.len(),
            j <= m,
            forall|k: int| 0 <= k < j ==> #[trigger] s[k] == pat@[k],
        decreases m - j,
    {
        assert(s[j as int] == ascii_upper(cs@[lo + j]));
        if to_ascii_upper(cs[lo + j]) != pat[j] {
            assert(s.take(m as int)[j as int] != pat@[j as int]);
            return false;
        }
        j = j + 1;
    }
    assert(s.take(m as int) =~= pat@);
    true
}

/// Whether the ASCII upper case of `cs[lo..hi]` is `pat`.
pub fn equals_upper(cs: &Vec<char>, lo: usize, hi: usize, pat: &Vec<char>) -> (b: bool)
    requires
        lo <= hi <= cs@.len(),
    ensures
        b == (upper(cs@.subrange(lo as int, hi as int)) == pat@),
{
    if hi - lo != pat.len() {
        return false;
    }
    let b = starts_with_upper(cs, lo, hi, pat);
    proof {
        let s = upper(cs@.subrange(lo as int, hi as int));
        assert(s.take(pat@.len() as int) =~= s);
    }
    b
}

} // verus!

verus! {

/// A letter of ASCII, in either case.
pub open spec fn is_ascii_letter(c: char) -> bool {
    ('a' <= c <= 'z') || ('A' <= c <= 'Z')
}

/// Two characters with the same ASCII upper case are equal, or are both
/// ASCII letters.
pub proof fn lemma_fold_char(a: char, b: char)
    requires
        ascii_upper(a) == ascii_upper(b),
    ensures
        a == b || (is_ascii_letter(a) && is_ascii_letter(b)),
{
    if 'a' <= a <= 'z' {
        assert('A' <= ascii_upper(a) <= 'Z');
    }
    if 'a' <= b <= 'z' {
        assert('A' <= ascii_upper(b) <= 'Z');
    }
    if 'a' <= a <= 'z' && 'a' <= b <= 'z' {
        assert(a == b);
    }
}

/// Texts equal up to ASCII case have the same length, and equal upper case
/// at each position.
pub proof fn lemma_fold_at(x: Seq<char>, y: Seq<char>)
    requires
        upper(x) == upper(y),
    ensures
        x.len() == y.len(),
        forall|i: int| 0 <= i < x.len() ==> ascii_upper(#[trigger] x[i]) == ascii_upper(y[i]),
{
    assert(upper(x).len() == x.len());
    assert(upper(y).len() == y.len());
    assert forall|i: int| 0 <= i < x.len() implies ascii_upper(#[trigger] x[i]) == ascii_upper(y[i]) by {
        assert(upper(x)[i] == ascii_upper(x[i]));
        assert(upper(y)[i] == ascii_upper(y[i]));
        assert(upper(x)[i] == upper(y)[i]);
    }
}

/// Equal length and equal upper case at each position give equal upper case.
pub proof fn lemma_fold_from_chars(x: Seq<char>, y: Seq<char>)
    requires
        x.len() == y.len(),
        forall|i: int| 0 <= i < x.len() ==> ascii_upper(#[trigger] x[i]) == ascii_upper(y[i]),
    ensures
        upper(x) == upper(y),
{
    assert(upper(x) =~= upper(y));
}

/// Equality up to ASCII case holds of the same range of two texts.
pub proof fn lemma_fold_range(x: Seq<char>, y: Seq<char>, lo: int, hi: int)
    requires
        upper(x) == upper(y),
        0 <= lo <= hi <= x.len(),
    ensures
        upper(x.subrange(lo, hi)) == upper(y.subrange(lo, hi)),
        upper(x.take(hi)) == upper(y.take(hi)),
        upper(x.skip(lo)) == upper(y.skip(lo)),
{
    lemma_fold_at(x, y);
    lemma_fold_from_chars(x.subrange(lo, hi), y.subrange(lo, hi));
    lemma_fold_from_chars(x.take(hi), y.take(hi));
    lemma_fold_from_chars(x.skip(lo), y.skip(lo));
}

/// Whitespace is the same in texts equal up to ASCII case, so trimming
/// keeps them equal up to case.
pub proof fn lemma_fold_trim(x: Seq<char>, y: Seq<char>)
    requires
        upper(x) == upper(y),
    ensures
        upper(trim(x)) == upper(trim(y)),
{
    lemma_fold_trim_start(x, y);
    lemma_fold_trim_end(trim_start(x), trim_start(y));
}

proof fn lemma_fold_trim_start(x: Seq<char>, y: Seq<char>)
    requires
        upper(x) == upper(y),
    ensures
        upper(trim_start(x)) == upper(trim_start(y)),
    decreases x.len(),
{
    lemma_fold_at(x, y);
    if x.len() > 0 {
        lemma_fold_char(x[0], y[0]);
        if is_ws(x[0]) {
            lemma_fold_range(x, y, 1, x.len() as int);
            assert(x.drop_first() == x.skip(1));
            assert(y.drop_first() == y.skip(1));
            lemma_fold_trim_start(x.drop_first(), y.drop_first());
        }
    }
}

proof fn lemma_fold_trim_end(x: Seq<char>, y: Seq<char>)
    requires
        upper(x) == upper(y),
    ensures
        upper(trim_end(x)) == upper(trim_end(y)),
    decreases x.len(),
{
    lemma_fold_at(x, y);
    if x.len() > 0 {
        lemma_fold_char(x.last(), y.last());
        if is_ws(x.last()) {
            lemma_fold_range(x, y, 0, x.len() - 1);
            assert(x.drop_last() == x.take(x.len() - 1));
            assert(y.drop_last() == y.take(y.len() - 1));
            lemma_fold_trim_end(x.drop_last(), y.drop_last());
        }
    }
}

/// A character that is not an ASCII letter stands at the same positions
/// of two texts equal up to ASCII case.
pub proof fn lemma_fold_first_index(x: Seq<char>, y: Seq<char>, c: char, i: nat)
    requires
        upper(x) == upper(y),
        !is_ascii_letter(c),
    ensures
        first_index(x, c, i) == first_index(y, c, i),
    decreases x.len() - i,
{
    lemma_fold_at(x, y);
    if i < x.len() {
        lemma_fold_char(x[i as int], y[i as int]);
        lemma_fold_first_index(x, y, c, i + 1);
    }
}

/// Trimming a character that is not an ASCII letter keeps texts equal up to
/// ASCII case.
pub proof fn lemma_fold_trim_char(x: Seq<char>, y: Seq<char>, c: char)
    requires
        upper(x) == upper(y),
        !is_ascii_letter(c),
    ensures
        upper(trim_char(x, c)) == upper(trim_char(y, c)),
{
    lemma_fold_trim_char_start(x, y, c);
    lemma_fold_trim_char_end(trim_char_start(x, c), trim_char_start(y, c), c);
}

proof fn lemma_fold_trim_char_start(x: Seq<char>, y: Seq<char>, c: char)
    requires
        upper(x) == upper(y),
        !is_ascii_letter(c),
    ensures
        upper(trim_char_start(x, c)) == upper(trim_char_start(y, c)),
    decreases x.len(),
{
    lemma_fold_at(x, y);
    if x.len() > 0 {
        lemma_fold_char(x[0], y[0]);
        if x[0] == c {
            lemma_fold_range(x, y, 1, x.len() as int);
            assert(x.drop_first() == x.skip(1));
            assert(y.drop_first() == y.skip(1));
            lemma_fold_trim_char_start(x.drop_first(), y.drop_first(), c);
        }
    }
}

proof fn lemma_fold_trim_char_end(x: Seq<char>, y: Seq<char>, c: char)
    requires
        upper(x) == upper(y),
        !is_ascii_letter(c),
    ensures
        upper(trim_char_end(x, c)) == upper(trim_char_end(y, c)),
    decreases x.len(),
{
    lemma_fold_at(x, y);
    if x.len() > 0 {
        lemma_fold_char(x.last(), y.last());
        if x.last() == c {
            lemma_fold_range(x, y, 0, x.len() - 1);
            assert(x.drop_last() == x.take(x.len() - 1));
            assert(y.drop_last() == y.take(y.len() - 1));
            lemma_fold_trim_char_end(x.drop_last(), y.drop_last(), c);
        }
    }
}

} // verus!
