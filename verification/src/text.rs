//! Verified text utilities: character classes, string equality, substring
//! search and whitespace trimming over `Seq<char>` views.

use vstd::prelude::*;
use vstd::string::StrSliceExecFns;

verus! {

/// True when `c` is an ASCII letter.
pub open spec fn is_alpha(c: char) -> bool {
    (('a' as u32) <= (c as u32) && (c as u32) <= ('z' as u32)) || (('A' as u32) <= (c as u32)
        && (c as u32) <= ('Z' as u32))
}

/// True when `c` is an ASCII decimal digit.
pub open spec fn is_digit(c: char) -> bool {
    ('0' as u32) <= (c as u32) && (c as u32) <= ('9' as u32)
}

/// Whitespace characters recognized when fragments are trimmed.
pub open spec fn is_space(c: char) -> bool {
    c == ' ' || c == '\t' || c == '\r' || c == '\n'
}

pub fn char_is_alpha(c: char) -> (r: bool)
    ensures
        r == is_alpha(c),
{
    (('a' as u32) <= (c as u32) && (c as u32) <= ('z' as u32)) || (('A' as u32) <= (c as u32)
        && (c as u32) <= ('Z' as u32))
}

pub fn char_is_digit(c: char) -> (r: bool)
    ensures
        r == is_digit(c),
{
    ('0' as u32) <= (c as u32) && (c as u32) <= ('9' as u32)
}

pub fn char_is_space(c: char) -> (r: bool)
    ensures
        r == is_space(c),
{
    c == ' ' || c == '\t' || c == '\r' || c == '\n'
}

/// Character-for-character equality of two string slices.
pub fn str_eq(a: &str, b: &str) -> (r: bool)
    ensures
        r == (a@ == b@),
{
    let alen = a.unicode_len();
    let blen = b.unicode_len();
    if alen != blen {
        return false;
    }
    let mut i: usize = 0;
    while i < alen
        invariant
            alen == a@.len(),
            blen == b@.len(),
            alen == blen,
            i <= alen,
            forall|j: int| 0 <= j < i ==> a@[j] == b@[j],
        decreases alen - i,
    {
        if a.get_char(i) != b.get_char(i) {
            return false;
        }
        i += 1;
    }
    proof {
        assert(a@ =~= b@);
    }
    true
}

/// The literal `pat` occurs in `s` starting at position `i`.
pub open spec fn lit_at(s: Seq<char>, pat: Seq<char>, i: int) -> bool {
    0 <= i && i + pat.len() <= s.len() && s.subrange(i, i + pat.len()) == pat
}

/// The literal `pat` occurs somewhere in `s`.
pub open spec fn contains_lit(s: Seq<char>, pat: Seq<char>) -> bool {
    exists|i: int| lit_at(s, pat, i)
}

/// Least position at or after `from` where `pat` occurs in `s`, if any.
pub open spec fn find_lit_from(s: Seq<char>, pat: Seq<char>, from: int) -> Option<int>
    recommends
        0 <= from,
    decreases s.len() + 1 - from,
{
    if from + pat.len() > s.len() {
        None
    } else if lit_at(s, pat, from) {
        Some(from)
    } else {
        find_lit_from(s, pat, from + 1)
    }
}

/// What `find_lit_from` returns: the least occurrence at or after `from`,
/// or `None` when there is none.
pub proof fn lemma_find_lit_from(s: Seq<char>, pat: Seq<char>, from: int)
    requires
        0 <= from,
    ensures
        match find_lit_from(s, pat, from) {
            Some(i) => from <= i && lit_at(s, pat, i) && (forall|j: int|
                from <= j < i ==> !lit_at(s, pat, j)),
            None => forall|j: int| from <= j ==> !lit_at(s, pat, j),
        },
    decreases s.len() + 1 - from,
{
    if from + pat.len() > s.len() {
    } else if lit_at(s, pat, from) {
    } else {
        lemma_find_lit_from(s, pat, from + 1);
    }
}

pub(crate) fn lit_match_at(s: &str, pat: &str, i: usize) -> (r: bool)
    requires
        i + pat@.len() <= s@.len(),
        s@.len() <= usize::MAX,
    ensures
        r == lit_at(s@, pat@, i as int),
{
    let plen = pat.unicode_len();
    let mut j: usize = 0;
    while j < plen
        invariant
            plen == pat@.len(),
            i + plen <= s@.len(),
            s@.len() <= usize::MAX,
            j <= plen,
            forall|k: int| 0 <= k < j ==> s@[i + k] == pat@[k],
        decreases plen - j,
    {
        if s.get_char(i + j) != pat.get_char(j) {
            proof {
                assert(!lit_at(s@, pat@, i as int)) by {
                    if lit_at(s@, pat@, i as int) {
                        assert(s@.subrange(i as int, i + pat@.len())[j as int] == pat@[j as int]);
                    }
                }
            }
            return false;
        }
        j += 1;
    }
    proof {
        assert(s@.subrange(i as int, i + pat@.len()) =~= pat@);
    }
    true
}

/// Find the least occurrence of `pat` in `s` at or after position `from`.
pub fn find_sub_from(s: &str, pat: &str, from: usize) -> (r: Option<usize>)
    requires
        from <= s@.len(),
    ensures
        match r {
            Some(i) => find_lit_from(s@, pat@, from as int) == Some(i as int),
            None => find_lit_from(s@, pat@, from as int) is None,
        },
{
    let slen = s.unicode_len();
    let plen = pat.unicode_len();
    if plen > slen {
        return None;
    }
    if plen == 0 {
        proof {
            assert(s@.subrange(from as int, from as int) =~= pat@);
        }
        return Some(from);
    }
    let mut i: usize = from;
    while i <= slen - plen
        invariant
            slen == s@.len(),
            plen == pat@.len(),
            1 <= plen <= slen,
            from <= i,
            i <= slen,
            find_lit_from(s@, pat@, from as int) == find_lit_from(s@, pat@, i as int),
        decreases slen - i,
    {
        if lit_match_at(s, pat, i) {
            return Some(i);
        }
        i += 1;
    }
    None
}

/// True when `pat` occurs somewhere in `s`.
pub fn contains_sub(s: &str, pat: &str) -> (r: bool)
    ensures
        r == contains_lit(s@, pat@),
{
    let r = find_sub_from(s, pat, 0);
    proof {
        lemma_find_lit_from(s@, pat@, 0);
    }
    r.is_some()
}

/// Least position at or after `from` holding character `c`, if any.
pub open spec fn find_char_from(s: Seq<char>, c: char, from: int) -> Option<int>
    recommends
        0 <= from,
    decreases s.len() - from,
{
    if from >= s.len() {
        None
    } else if s[from] == c {
        Some(from)
    } else {
        find_char_from(s, c, from + 1)
    }
}

/// What `find_char_from` returns: the least occurrence at or after `from`,
/// or `None` when there is none.
pub proof fn lemma_find_char_from(s: Seq<char>, c: char, from: int)
    requires
        0 <= from,
    ensures
        match find_char_from(s, c, from) {
            Some(i) => from <= i < s.len() && s[i] == c && (forall|j: int|
                from <= j < i ==> s[j] != c),
            None => forall|j: int| from <= j < s.len() ==> s[j] != c,
        },
    decreases s.len() - from,
{
    if from >= s.len() {
    } else if s[from] == c {
    } else {
        lemma_find_char_from(s, c, from + 1);
    }
}

/// Find the least occurrence of character `c` in `s` at or after `from`.
pub fn find_char_at(s: &str, c: char, from: usize) -> (r: Option<usize>)
    requires
        from <= s@.len(),
    ensures
        match r {
            Some(i) => find_char_from(s@, c, from as int) == Some(i as int),
            None => find_char_from(s@, c, from as int) is None,
        },
{
    let slen = s.unicode_len();
    let mut i: usize = from;
    while i < slen
        invariant
            slen == s@.len(),
            from <= i,
            i <= slen,
            find_char_from(s@, c, from as int) == find_char_from(s@, c, i as int),
        decreases slen - i,
    {
        if s.get_char(i) == c {
            return Some(i);
        }
        i += 1;
    }
    None
}

/// Least index at or after `from` whose character is not whitespace;
/// `s.len()` when all of the rest is whitespace.
pub open spec fn first_non_space(s: Seq<char>, from: int) -> int
    recommends
        0 <= from,
    decreases s.len() - from,
{
    if from >= s.len() {
        s.len() as int
    } else if !is_space(s[from]) {
        from
    } else {
        first_non_space(s, from + 1)
    }
}

/// Greatest end bound at or below `upto` whose last character is not
/// whitespace; `0` when all of `s` up to `upto` is whitespace.
pub open spec fn last_non_space_end(s: Seq<char>, upto: int) -> int
    recommends
        upto <= s.len(),
    decreases upto,
{
    if upto <= 0 {
        0
    } else if !is_space(s[upto - 1]) {
        upto
    } else {
        last_non_space_end(s, upto - 1)
    }
}

/// Least index at or after `from` whose character is not an ASCII letter;
/// `s.len()` when all of the rest is letters.
pub open spec fn first_non_alpha(s: Seq<char>, from: int) -> int
    recommends
        0 <= from,
    decreases s.len() - from,
{
    if from >= s.len() {
        s.len() as int
    } else if !is_alpha(s[from]) {
        from
    } else {
        first_non_alpha(s, from + 1)
    }
}

/// Scan forward from `from` past ASCII letters.
pub fn scan_alpha_end(s: &str, from: usize) -> (r: usize)
    requires
        from <= s@.len(),
    ensures
        r == first_non_alpha(s@, from as int),
        from <= r <= s@.len(),
{
    let slen = s.unicode_len();
    let mut i: usize = from;
    loop
        invariant
            slen == s@.len(),
            from <= i <= slen,
            first_non_alpha(s@, from as int) == first_non_alpha(s@, i as int),
        ensures
            from <= i <= slen,
            i == first_non_alpha(s@, from as int),
        decreases slen - i,
    {
        if i < slen {
            if char_is_alpha(s.get_char(i)) {
                i += 1;
            } else {
                break;
            }
        } else {
            break;
        }
    }
    i
}

/// Scan forward from `from` past whitespace.
pub fn scan_space_end(s: &str, from: usize) -> (r: usize)
    requires
        from <= s@.len(),
    ensures
        r == first_non_space(s@, from as int),
        from <= r <= s@.len(),
{
    let slen = s.unicode_len();
    let mut i: usize = from;
    loop
        invariant
            slen == s@.len(),
            from <= i <= slen,
            first_non_space(s@, from as int) == first_non_space(s@, i as int),
        ensures
            from <= i <= slen,
            i == first_non_space(s@, from as int),
        decreases slen - i,
    {
        if i < slen {
            if char_is_space(s.get_char(i)) {
                i += 1;
            } else {
                break;
            }
        } else {
            break;
        }
    }
    i
}

/// `s` with leading and trailing whitespace removed.
pub open spec fn trim_spec(s: Seq<char>) -> Seq<char> {
    let a = first_non_space(s, 0);
    let b = last_non_space_end(s, s.len() as int);
    if a <= b {
        s.subrange(a, b)
    } else {
        Seq::empty()
    }
}

proof fn lemma_first_non_space_spaces(s: Seq<char>, from: int)
    requires
        0 <= from <= s.len(),
    ensures
        from <= first_non_space(s, from) <= s.len(),
        forall|j: int| from <= j < first_non_space(s, from) ==> is_space(s[j]),
    decreases s.len() - from,
{
    if from >= s.len() {
    } else if !is_space(s[from]) {
    } else {
        lemma_first_non_space_spaces(s, from + 1);
    }
}

proof fn lemma_last_non_space_all_space(s: Seq<char>, upto: int)
    requires
        0 <= upto <= s.len(),
        forall|j: int| 0 <= j < upto ==> is_space(s[j]),
    ensures
        last_non_space_end(s, upto) == 0,
    decreases upto,
{
    if upto <= 0 {
    } else {
        lemma_last_non_space_all_space(s, upto - 1);
    }
}

/// Copy of `s` with leading and trailing whitespace removed.
pub fn trim(s: &str) -> (r: String)
    ensures
        r@ == trim_spec(s@),
{
    let slen = s.unicode_len();
    let mut a: usize = 0;
    loop
        invariant
            slen == s@.len(),
            a <= slen,
            first_non_space(s@, 0) == first_non_space(s@, a as int),
        ensures
            a == first_non_space(s@, 0),
        decreases slen - a,
    {
        if a < slen {
            if char_is_space(s.get_char(a)) {
                a += 1;
            } else {
                break;
            }
        } else {
            break;
        }
    }
    let mut b: usize = slen;
    loop
        invariant
            slen == s@.len(),
            a <= b <= slen,
            a == first_non_space(s@, 0),
            last_non_space_end(s@, slen as int) == last_non_space_end(s@, b as int),
        ensures
            a <= b <= slen,
            last_non_space_end(s@, slen as int) == last_non_space_end(s@, b as int),
            b == a || (b > a && !is_space(s@[b - 1])),
        decreases b,
    {
        if b > a {
            if char_is_space(s.get_char(b - 1)) {
                b -= 1;
            } else {
                break;
            }
        } else {
            break;
        }
    }
    proof {
        lemma_first_non_space_spaces(s@, 0);
        let lb = last_non_space_end(s@, s@.len() as int);
        if b == a {
            // everything below `a` is whitespace, so the spec end bound
            // collapses to 0 and the trimmed text is empty either way
            lemma_last_non_space_all_space(s@, a as int);
            assert(lb == 0);
            assert(trim_spec(s@) =~= s@.subrange(a as int, b as int));
        } else {
            assert(lb == b);
        }
    }
    let piece = s.substring_char(a, b);
    piece.to_owned()
}

} // verus!
