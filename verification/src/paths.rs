//! Dissection of path strings: file-name component, extension, and parent
//! directory. A `/` or `\` character separates path components; the extension
//! is what follows the last `.` of the file name, where a dot that starts the
//! file name (a hidden file) does not begin an extension.

use vstd::prelude::*;

verus! {

/// Whether a character separates path components.
pub open spec fn is_sep(c: char) -> bool {
    c == '/' || c == '\\'
}

/// Index of the last separator in `p`, or `-1` if there is none.
pub open spec fn last_sep_of(p: Seq<char>) -> int
    decreases p.len(),
{
    if p.len() == 0 {
        -1
    } else if is_sep(p[p.len() - 1]) {
        p.len() - 1
    } else {
        last_sep_of(p.drop_last())
    }
}

pub proof fn lemma_last_sep_of(p: Seq<char>)
    ensures
        -1 <= last_sep_of(p) < p.len(),
        last_sep_of(p) >= 0 ==> is_sep(p[last_sep_of(p)]),
        forall|j: int| last_sep_of(p) < j < p.len() ==> !is_sep(p[j]),
    decreases p.len(),
{
    if p.len() > 0 && !is_sep(p[p.len() - 1]) {
        lemma_last_sep_of(p.drop_last());
        assert forall|j: int| last_sep_of(p) < j < p.len() implies !is_sep(p[j]) by {
            if j < p.len() - 1 {
                assert(p.drop_last()[j] == p[j]);
            }
        }
    }
}

/// Index of the last `.` in `n`, or `-1` if there is none.
pub open spec fn last_dot_of(n: Seq<char>) -> int
    decreases n.len(),
{
    if n.len() == 0 {
        -1
    } else if n[n.len() - 1] == '.' {
        n.len() - 1
    } else {
        last_dot_of(n.drop_last())
    }
}

pub proof fn lemma_last_dot_of(n: Seq<char>)
    ensures
        -1 <= last_dot_of(n) < n.len(),
        last_dot_of(n) >= 0 ==> n[last_dot_of(n)] == '.',
        forall|j: int| last_dot_of(n) < j < n.len() ==> n[j] != '.',
    decreases n.len(),
{
    if n.len() > 0 && n[n.len() - 1] != '.' {
        lemma_last_dot_of(n.drop_last());
        assert forall|j: int| last_dot_of(n) < j < n.len() implies n[j] != '.' by {
            if j < n.len() - 1 {
                assert(n.drop_last()[j] == n[j]);
            }
        }
    }
}

/// The file-name component of a path: everything after the last separator,
/// or the whole path when it has no separator.
pub open spec fn file_name_of(p: Seq<char>) -> Seq<char> {
    p.subrange(last_sep_of(p) + 1, p.len() as int)
}

/// The extension of a file name: everything after its last dot. A name
/// without a dot, and a name whose only dot is its first character, have the
/// empty extension.
pub open spec fn ext_of(n: Seq<char>) -> Seq<char> {
    if last_dot_of(n) <= 0 {
        Seq::empty()
    } else {
        n.subrange(last_dot_of(n) + 1, n.len() as int)
    }
}

/// The parent directory of a path: everything before the last separator,
/// where a path whose only separator is its first character has the parent
/// consisting of that separator alone, and a path without a separator has
/// no parent.
pub open spec fn parent_of_spec(p: Seq<char>) -> Option<Seq<char>> {
    if last_sep_of(p) == -1 {
        None
    } else if last_sep_of(p) == 0 {
        Some(p.subrange(0, 1))
    } else {
        Some(p.subrange(0, last_sep_of(p)))
    }
}

/// Finds the index of the last separator in `p`.
pub fn last_sep_index(p: &str) -> (r: Option<usize>)
    ensures
        match r {
            Some(i) => i < p@.len() && last_sep_of(p@) == i as int,
            None => last_sep_of(p@) == -1,
        },
{
    proof {
        lemma_last_sep_of(p@);
    }
    let len = p.unicode_len();
    let mut k: usize = len;
    while k > 0
        invariant
            k <= len,
            forall|j: int| k <= j < len ==> !is_sep(p@[j]),
        decreases k,
    {
        let c = p.get_char(k - 1);
        if c == '/' || c == '\\' {
            return Some(k - 1);
        }
        k -= 1;
    }
    None
}

/// Finds the index of the last dot in `n`.
pub fn last_dot_index(n: &str) -> (r: Option<usize>)
    ensures
        match r {
            Some(i) => i < n@.len() && last_dot_of(n@) == i as int,
            None => last_dot_of(n@) == -1,
        },
{
    proof {
        lemma_last_dot_of(n@);
    }
    let len = n.unicode_len();
    let mut k: usize = len;
    while k > 0
        invariant
            k <= len,
            forall|j: int| k <= j < len ==> n@[j] != '.',
        decreases k,
    {
        let c = n.get_char(k - 1);
        if c == '.' {
            return Some(k - 1);
        }
        k -= 1;
    }
    None
}

/// The file-name component of a path.
pub fn file_name<'a>(p: &'a str) -> (r: &'a str)
    ensures
        r@ == file_name_of(p@),
{
    let len = p.unicode_len();
    match last_sep_index(p) {
        Some(i) => p.substring_char(i + 1, len),
        None => p.substring_char(0, len),
    }
}

/// The parent directory of a path, or `None` when the path names no
/// directory.
pub fn parent_of(p: &str) -> (r: Option<String>)
    ensures
        r.deep_view() == parent_of_spec(p@),
{
    match last_sep_index(p) {
        None => None,
        Some(i) => {
            if i == 0 {
                Some(String::from_str(p.substring_char(0, 1)))
            } else {
                Some(String::from_str(p.substring_char(0, i)))
            }
        },
    }
}

} // verus!
