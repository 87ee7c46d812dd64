//! Circular next/previous navigation over the image index of a folder,
//! gated by a caller-supplied enable flag.

use vstd::prelude::*;

use crate::index::{list_folder_images, list_folder_images_spec, DirEntry};
use vstd::arithmetic::div_mod::{
    lemma_fundamental_div_mod, lemma_mod_add_multiples_vanish, lemma_mod_bound,
    lemma_mod_multiples_vanish, lemma_mod_self_0, lemma_small_mod,
};
use vstd::arithmetic::mul::lemma_mul_unary_negation;

verus! {

/// Index of the first occurrence of `p` in `s`, or `-1` if `p` is absent.
pub open spec fn first_index_of(s: Seq<Seq<char>>, p: Seq<char>) -> int
    decreases s.len(),
{
    if s.len() == 0 {
        -1
    } else if s[0] == p {
        0
    } else {
        let r = first_index_of(s.drop_first(), p);
        if r == -1 {
            -1
        } else {
            r + 1
        }
    }
}

pub proof fn lemma_first_index_of(s: Seq<Seq<char>>, p: Seq<char>)
    ensures
        -1 <= first_index_of(s, p) < s.len(),
        first_index_of(s, p) >= 0 ==> s[first_index_of(s, p)] == p,
        forall|j: int| 0 <= j < first_index_of(s, p) ==> s[j] != p,
        first_index_of(s, p) == -1 ==> forall|j: int| 0 <= j < s.len() ==> s[j] != p,
    decreases s.len(),
{
    if s.len() > 0 && s[0] != p {
        lemma_first_index_of(s.drop_first(), p);
        let r = first_index_of(s.drop_first(), p);
        if r == -1 {
            assert forall|j: int| 0 <= j < s.len() implies s[j] != p by {
                if j > 0 {
                    assert(s.drop_first()[j - 1] == s[j]);
                }
            }
        } else {
            assert forall|j: int| 0 <= j < r + 1 implies s[j] != p by {
                if j > 0 {
                    assert(s.drop_first()[j - 1] == s[j]);
                }
            }
        }
    }
}

/// The first occurrence is at `j` exactly when `p` stands at `j` and nowhere
/// earlier.
pub proof fn lemma_first_index_of_at(s: Seq<Seq<char>>, p: Seq<char>, j: int)
    requires
        0 <= j < s.len(),
        s[j] == p,
        forall|a: int| 0 <= a < j ==> s[a] != p,
    ensures
        first_index_of(s, p) == j,
{
    lemma_first_index_of(s, p);
}

/// The successor of `cur` in the index, wrapping from the last entry to the
/// first; absent when `cur` is not in the index.
pub open spec fn next_path_spec(idx: Seq<Seq<char>>, cur: Seq<char>) -> Option<Seq<char>> {
    let i = first_index_of(idx, cur);
    if i < 0 {
        None
    } else {
        Some(idx[(i + 1) % (idx.len() as int)])
    }
}

/// The predecessor of `cur` in the index, wrapping from the first entry to
/// the last; absent when `cur` is not in the index.
pub open spec fn prev_path_spec(idx: Seq<Seq<char>>, cur: Seq<char>) -> Option<Seq<char>> {
    let i = first_index_of(idx, cur);
    if i < 0 {
        None
    } else if i == 0 {
        Some(idx[idx.len() - 1])
    } else {
        Some(idx[i - 1])
    }
}

/// What a forward step returns: absence when navigation is disabled, when
/// the folder has no index, and when the current path is not in the index;
/// the neighbouring image path otherwise.
pub open spec fn next_image_spec(
    cur: Seq<char>,
    enabled: bool,
    snapshot: Option<Vec<DirEntry>>,
) -> Option<Seq<char>> {
    if !enabled {
        None
    } else {
        match list_folder_images_spec(snapshot) {
            None => None,
            Some(idx) => next_path_spec(idx, cur),
        }
    }
}

pub open spec fn previous_image_spec(
    cur: Seq<char>,
    enabled: bool,
    snapshot: Option<Vec<DirEntry>>,
) -> Option<Seq<char>> {
    if !enabled {
        None
    } else {
        match list_folder_images_spec(snapshot) {
            None => None,
            Some(idx) => prev_path_spec(idx, cur),
        }
    }
}

/// The path one step forward from `current_path` in its folder's index, built
/// from the given snapshot of that folder; `None` when navigation is
/// disabled, the index is absent, or the path is not in the index.
pub fn next_image(current_path: &String, enabled: bool, snapshot: &Option<Vec<DirEntry>>) -> (r:
    Option<String>)
    ensures
        r.deep_view() == next_image_spec(current_path@, enabled, *snapshot),
        !enabled ==> r is None,
{
    if !enabled {
        return None;
    }
    let imgs = match list_folder_images(snapshot) {
        Some(v) => v,
        None => {
            return None;
        },
    };
    let n = imgs.len();
    let mut i: usize = 0;
    while i < n
        invariant
            i <= n,
            forall|j: int| 0 <= j < i ==> imgs@[j]@ != current_path@,
        decreases n - i,
    {
        if imgs[i] == *current_path {
            proof {
                lemma_first_index_of_at(imgs.deep_view(), current_path@, i as int);
                if i + 1 == n {
                    lemma_mod_self_0(n as int);
                } else {
                    lemma_small_mod((i + 1) as nat, n as nat);
                }
            }
            let k = if i + 1 == n {
                0
            } else {
                i + 1
            };
            return Some(imgs[k].clone());
        }
        i += 1;
    }
    proof {
        lemma_first_index_of(imgs.deep_view(), current_path@);
    }
    None
}

/// The path one step backward from `current_path` in its folder's index,
/// built from the given snapshot of that folder; `None` when navigation is
/// disabled, the index is absent, or the path is not in the index.
pub fn previous_image(current_path: &String, enabled: bool, snapshot: &Option<Vec<DirEntry>>) -> (r:
    Option<String>)
    ensures
        r.deep_view() == previous_image_spec(current_path@, enabled, *snapshot),
        !enabled ==> r is None,
{
    if !enabled {
        return None;
    }
    let imgs = match list_folder_images(snapshot) {
        Some(v) => v,
        None => {
            return None;
        },
    };
    let n = imgs.len();
    let mut i: usize = 0;
    while i < n
        invariant
            i <= n,
            forall|j: int| 0 <= j < i ==> imgs@[j]@ != current_path@,
        decreases n - i,
    {
        if imgs[i] == *current_path {
            proof {
                lemma_first_index_of_at(imgs.deep_view(), current_path@, i as int);
            }
            let k = if i == 0 {
                n - 1
            } else {
                i - 1
            };
            return Some(imgs[k].clone());
        }
        i += 1;
    }
    proof {
        lemma_first_index_of(imgs.deep_view(), current_path@);
    }
    None
}

/// No two entries of the index are the same path.
pub open spec fn distinct_paths(s: Seq<Seq<char>>) -> bool {
    forall|a: int, b: int| 0 <= a < b < s.len() ==> s[a] != s[b]
}

/// `k` forward navigation steps, starting from `p`.
pub open spec fn iterate_next(idx: Seq<Seq<char>>, p: Seq<char>, k: nat) -> Option<Seq<char>>
    decreases k,
{
    if k == 0 {
        Some(p)
    } else {
        match next_path_spec(idx, p) {
            None => None,
            Some(q) => iterate_next(idx, q, (k - 1) as nat),
        }
    }
}

/// `k` backward navigation steps, starting from `p`.
pub open spec fn iterate_prev(idx: Seq<Seq<char>>, p: Seq<char>, k: nat) -> Option<Seq<char>>
    decreases k,
{
    if k == 0 {
        Some(p)
    } else {
        match prev_path_spec(idx, p) {
            None => None,
            Some(q) => iterate_prev(idx, q, (k - 1) as nat),
        }
    }
}

/// Folding a remainder into the left summand leaves a sum's remainder alone.
proof fn lemma_mod_add_noop_left(x: int, y: int, m: int)
    requires
        0 < m,
    ensures
        ((x % m) + y) % m == (x + y) % m,
{
    lemma_fundamental_div_mod(x, m);
    let q = x / m;
    lemma_mul_unary_negation(m, q);
    assert(x % m + y == m * (-q) + (x + y));
    lemma_mod_multiples_vanish(-q, x + y, m);
}

/// In an index of distinct paths, the entry at `j` is first found at `j`.
proof fn lemma_first_index_distinct(idx: Seq<Seq<char>>, j: int)
    requires
        distinct_paths(idx),
        0 <= j < idx.len(),
    ensures
        first_index_of(idx, idx[j]) == j,
{
    lemma_first_index_of_at(idx, idx[j], j);
}

/// One forward step from the entry at `j` lands on the entry at
/// `(j + 1) % len`.
proof fn lemma_next_from(idx: Seq<Seq<char>>, j: int)
    requires
        distinct_paths(idx),
        0 <= j < idx.len(),
    ensures
        next_path_spec(idx, idx[j]) == Some(idx[(j + 1) % (idx.len() as int)]),
{
    lemma_first_index_distinct(idx, j);
}

/// One backward step from the entry at `j` lands on the entry at
/// `(j - 1) % len`.
proof fn lemma_prev_from(idx: Seq<Seq<char>>, j: int)
    requires
        distinct_paths(idx),
        0 <= j < idx.len(),
    ensures
        prev_path_spec(idx, idx[j]) == Some(idx[(j - 1) % (idx.len() as int)]),
{
    lemma_first_index_distinct(idx, j);
    let len = idx.len() as int;
    if j == 0 {
        lemma_mod_add_multiples_vanish(-1, len);
        lemma_small_mod((len - 1) as nat, len as nat);
    } else {
        lemma_small_mod((j - 1) as nat, len as nat);
    }
}

/// `k` forward steps from the entry at `j` land on the entry at
/// `(j + k) % len`.
proof fn lemma_iterate_next_from(idx: Seq<Seq<char>>, j: int, k: nat)
    requires
        distinct_paths(idx),
        0 <= j < idx.len(),
    ensures
        iterate_next(idx, idx[j], k) == Some(idx[(j + k) % (idx.len() as int)]),
    decreases k,
{
    let len = idx.len() as int;
    if k == 0 {
        lemma_small_mod(j as nat, len as nat);
    } else {
        lemma_next_from(idx, j);
        let j2 = (j + 1) % len;
        lemma_mod_bound(j + 1, len);
        lemma_iterate_next_from(idx, j2, (k - 1) as nat);
        lemma_mod_add_noop_left(j + 1, k - 1, len);
    }
}

/// `k` backward steps from the entry at `j` land on the entry at
/// `(j - k) % len`.
proof fn lemma_iterate_prev_from(idx: Seq<Seq<char>>, j: int, k: nat)
    requires
        distinct_paths(idx),
        0 <= j < idx.len(),
    ensures
        iterate_prev(idx, idx[j], k) == Some(idx[(j - k) % (idx.len() as int)]),
    decreases k,
{
    let len = idx.len() as int;
    if k == 0 {
        lemma_small_mod(j as nat, len as nat);
    } else {
        lemma_prev_from(idx, j);
        let j2 = (j - 1) % len;
        lemma_mod_bound(j - 1, len);
        lemma_iterate_prev_from(idx, j2, (k - 1) as nat);
        lemma_mod_add_noop_left(j - 1, -(k - 1), len);
    }
}

/// Circularity, forward: in an index of distinct paths that contains `p`,
/// as many forward steps as the index has entries lead back to `p`.
pub proof fn lemma_next_circular(idx: Seq<Seq<char>>, p: Seq<char>)
    requires
        distinct_paths(idx),
        idx.contains(p),
    ensures
        iterate_next(idx, p, idx.len()) == Some(p),
{
    let j = choose|j: int| 0 <= j < idx.len() && idx[j] == p;
    let len = idx.len() as int;
    lemma_iterate_next_from(idx, j, idx.len());
    lemma_mod_add_multiples_vanish(j, len);
    lemma_small_mod(j as nat, len as nat);
}

/// Circularity, backward: in an index of distinct paths that contains `p`,
/// as many backward steps as the index has entries lead back to `p`.
pub proof fn lemma_previous_circular(idx: Seq<Seq<char>>, p: Seq<char>)
    requires
        distinct_paths(idx),
        idx.contains(p),
    ensures
        iterate_prev(idx, p, idx.len()) == Some(p),
{
    let j = choose|j: int| 0 <= j < idx.len() && idx[j] == p;
    let len = idx.len() as int;
    lemma_iterate_prev_from(idx, j, idx.len());
    lemma_mod_add_multiples_vanish(j - len, len);
    assert(j - len + len == j);
    lemma_small_mod(j as nat, len as nat);
}

/// Inverse relation: in an index of distinct paths with more than one entry,
/// stepping backward from `p` and then forward returns to `p`.
pub proof fn lemma_next_of_previous(idx: Seq<Seq<char>>, p: Seq<char>)
    requires
        distinct_paths(idx),
        idx.contains(p),
        idx.len() > 1,
    ensures
        prev_path_spec(idx, p) matches Some(q) && next_path_spec(idx, q) == Some(p),
{
    let j = choose|j: int| 0 <= j < idx.len() && idx[j] == p;
    let len = idx.len() as int;
    lemma_first_index_distinct(idx, j);
    lemma_prev_from(idx, j);
    let j2 = (j - 1) % len;
    lemma_mod_bound(j - 1, len);
    lemma_next_from(idx, j2);
    lemma_mod_add_noop_left(j - 1, 1, len);
    lemma_small_mod(j as nat, len as nat);
}

} // verus!
