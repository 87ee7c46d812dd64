//! Character-level text helpers: ASCII case folding, string equality,
//! substring search, and ASCII whitespace trimming.

use vstd::prelude::*;

verus! {

/// ASCII lowercase of one character; every other character is unchanged.
pub open spec fn lower_char(c: char) -> char {
    match c {
        'A' => 'a',
        'B' => 'b',
        'C' => 'c',
        'D' => 'd',
        'E' => 'e',
        'F' => 'f',
        'G' => 'g',
        'H' => 'h',
        'I' => 'i',
        'J' => 'j',
        'K' => 'k',
        'L' => 'l',
        'M' => 'm',
        'N' => 'n',
        'O' => 'o',
        'P' => 'p',
        'Q' => 'q',
        'R' => 'r',
        'S' => 's',
        'T' => 't',
        'U' => 'u',
        'V' => 'v',
        'W' => 'w',
        'X' => 'x',
        'Y' => 'y',
        'Z' => 'z',
        _ => c,
    }
}

/// ASCII lowercase applied to every character of a string.
pub open spec fn lower_seq(s: Seq<char>) -> Seq<char> {
    s.map_values(|c: char| lower_char(c))
}

/// Executable ASCII lowercase of one character.
pub fn lower_char_exec(c: char) -> (r: char)
    ensures
        r == lower_char(c),
{
    match c {
        'A' => 'a',
        'B' => 'b',
        'C' => 'c',
        'D' => 'd',
        'E' => 'e',
        'F' => 'f',
        'G' => 'g',
        'H' => 'h',
        'I' => 'i',
        'J' => 'j',
        'K' => 'k',
        'L' => 'l',
        'M' => 'm',
        'N' => 'n',
        'O' => 'o',
        'P' => 'p',
        'Q' => 'q',
        'R' => 'r',
        'S' => 's',
        'T' => 't',
        'U' => 'u',
        'V' => 'v',
        'W' => 'w',
        'X' => 'x',
        'Y' => 'y',
        'Z' => 'z',
        _ => c,
    }
}

/// Exact string equality at the character level.
pub fn str_eq(a: &str, b: &str) -> (r: bool)
    ensures
        r == (a@ == b@),
{
    String::from_str(a) == String::from_str(b)
}

/// Whether the ASCII-lowercased `a` reads exactly as `b`.
pub fn eq_lowercase(a: &str, b: &str) -> (r: bool)
    ensures
        r == (lower_seq(a@) == b@),
{
    let alen = a.unicode_len();
    let blen = b.unicode_len();
    if alen != blen {
        return false;
    }
    let mut i: usize = 0;
    while i < alen
        invariant
            i <= alen,
            forall|j: int| 0 <= j < i ==> lower_char(a@[j]) == b@[j],
        decreases alen - i,
    {
        let ca = lower_char_exec(a.get_char(i));
        let cb = b.get_char(i);
        if ca != cb {
            return false;
        }
        i += 1;
    }
    proof {
        assert(lower_seq(a@) =~= b@);
    }
    true
}

/// Whether `n` occurs as a contiguous run of characters inside `h`.
pub open spec fn contains_seq(h: Seq<char>, n: Seq<char>) -> bool {
    exists|i: int| 0 <= i && i + n.len() <= h.len() && #[trigger] h.subrange(i, i + n.len() as int) == n
}

/// Executable substring search.
pub fn contains_str(h: &str, n: &str) -> (r: bool)
    ensures
        r == contains_seq(h@, n@),
{
    let hlen = h.unicode_len();
    let nlen = n.unicode_len();
    if nlen > hlen {
        return false;
    }
    let bound = hlen - nlen;
    let mut i: usize = 0;
    while i <= bound
        invariant
            i <= bound,
            forall|k: int| 0 <= k < i ==> #[trigger] h@.subrange(k, k + n@.len() as int) != n@,
        decreases bound - i,
    {
        let mut j: usize = 0;
        let mut mismatch = false;
        while j < nlen && !mismatch
            invariant
                j <= nlen,
                !mismatch ==> forall|t: int| 0 <= t < j ==> h@[i + t] == n@[t],
                mismatch ==> h@.subrange(i as int, i + n@.len() as int) != n@,
            decreases nlen - j + (if mismatch { 0int } else { 1int }),
        {
            if h.get_char(i + j) != n.get_char(j) {
                proof {
                    assert(h@.subrange(i as int, i + n@.len() as int)[j as int] == h@[i + j]);
                }
                mismatch = true;
            } else {
                j += 1;
            }
        }
        if !mismatch {
            proof {
                assert(h@.subrange(i as int, i + n@.len() as int) =~= n@);
            }
            return true;
        }
        if i == bound {
            proof {
                assert(!contains_seq(h@, n@));
            }
            return false;
        }
        i += 1;
    }
    proof {
        assert(false);
    }
    false
}

/// Executable substring search on the ASCII-lowercased haystack.
pub fn contains_lowercase(h: &str, n: &str) -> (r: bool)
    ensures
        r == contains_seq(lower_seq(h@), n@),
{
    let hlen = h.unicode_len();
    let nlen = n.unicode_len();
    if nlen > hlen {
        return false;
    }
    let bound = hlen - nlen;
    let mut i: usize = 0;
    while i <= bound
        invariant
            i <= bound,
            forall|k: int| 0 <= k < i ==> #[trigger] lower_seq(h@).subrange(k, k + n@.len() as int)
                != n@,
        decreases bound - i,
    {
        let mut j: usize = 0;
        let mut mismatch = false;
        while j < nlen && !mismatch
            invariant
                j <= nlen,
                !mismatch ==> forall|t: int| 0 <= t < j ==> lower_char(h@[i + t]) == n@[t],
                mismatch ==> lower_seq(h@).subrange(i as int, i + n@.len() as int) != n@,
            decreases nlen - j + (if mismatch { 0int } else { 1int }),
        {
            if lower_char_exec(h.get_char(i + j)) != n.get_char(j) {
                proof {
                    assert(lower_seq(h@).subrange(i as int, i + n@.len() as int)[j as int]
                        == lower_char(h@[i + j]));
                }
                mismatch = true;
            } else {
                j += 1;
            }
        }
        if !mismatch {
            proof {
                assert(lower_seq(h@).subrange(i as int, i + n@.len() as int) =~= n@);
            }
            return true;
        }
        if i == bound {
            proof {
                assert(!contains_seq(lower_seq(h@), n@));
            }
            return false;
        }
        i += 1;
    }
    proof {
        assert(false);
    }
    false
}

/// ASCII whitespace: space, tab, carriage return, line feed.
pub open spec fn is_space(c: char) -> bool {
    c == ' ' || c == '\t' || c == '\n' || c == '\r'
}

/// The string with its leading ASCII whitespace removed.
pub open spec fn trim_front(s: Seq<char>) -> Seq<char>
    decreases s.len(),
{
    if s.len() > 0 && is_space(s[0]) {
        trim_front(s.drop_first())
    } else {
        s
    }
}

/// The string with its trailing ASCII whitespace removed.
pub open spec fn trim_back(s: Seq<char>) -> Seq<char>
    decreases s.len(),
{
    if s.len() > 0 && is_space(s.last()) {
        trim_back(s.drop_last())
    } else {
        s
    }
}

/// The string with leading and trailing ASCII whitespace removed.
pub open spec fn trim_of(s: Seq<char>) -> Seq<char> {
    trim_back(trim_front(s))
}

proof fn lemma_trim_front_at(s: Seq<char>, a: int)
    requires
        0 <= a <= s.len(),
        forall|j: int| 0 <= j < a ==> is_space(s[j]),
        a < s.len() ==> !is_space(s[a]),
    ensures
        trim_front(s) == s.subrange(a, s.len() as int),
    decreases a,
{
    if a == 0 {
        assert(trim_front(s) =~= s.subrange(0, s.len() as int));
    } else {
        lemma_trim_front_at(s.drop_first(), a - 1);
        assert(s.drop_first() =~= s.subrange(1, s.len() as int));
        assert(s.drop_first().subrange(a - 1, s.drop_first().len() as int)
            =~= s.subrange(a, s.len() as int));
    }
}

proof fn lemma_trim_back_at(s: Seq<char>, b: int)
    requires
        0 <= b <= s.len(),
        forall|j: int| b <= j < s.len() ==> is_space(s[j]),
        b > 0 ==> !is_space(s[b - 1]),
    ensures
        trim_back(s) == s.subrange(0, b),
    decreases s.len() - b,
{
    if b == s.len() {
        assert(trim_back(s) =~= s.subrange(0, b));
    } else {
        lemma_trim_back_at(s.drop_last(), b);
        assert(s.drop_last() =~= s.subrange(0, s.len() - 1));
        assert(s.drop_last().subrange(0, b) =~= s.subrange(0, b));
    }
}

/// Executable ASCII whitespace test.
pub fn is_space_exec(c: char) -> (r: bool)
    ensures
        r == is_space(c),
{
    c == ' ' || c == '\t' || c == '\n' || c == '\r'
}

/// Removes leading and trailing ASCII whitespace.
pub fn trim_ascii<'a>(s: &'a str) -> (r: &'a str)
    ensures
        r@ == trim_of(s@),
{
    let len = s.unicode_len();
    let mut a: usize = 0;
    while a < len && is_space_exec(s.get_char(a))
        invariant
            a <= len,
            forall|j: int| 0 <= j < a ==> is_space(s@[j]),
        decreases len - a,
    {
        a += 1;
    }
    let mut b: usize = len;
    while b > a && is_space_exec(s.get_char(b - 1))
        invariant
            a <= b <= len,
            forall|j: int| b <= j < len ==> is_space(s@[j]),
        decreases b,
    {
        b -= 1;
    }
    proof {
        lemma_trim_front_at(s@, a as int);
        let t = s@.subrange(a as int, s@.len() as int);
        lemma_trim_back_at(t, b - a);
        assert(t.subrange(0, b - a) =~= s@.subrange(a as int, b as int));
    }
    s.substring_char(a, b)
}

} // verus!
