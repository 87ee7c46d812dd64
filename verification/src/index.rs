//! The folder image index: which directory entries qualify as images, and the
//! chronologically ordered list of their paths.

use vstd::prelude::*;

use crate::paths::{ext_of, file_name_of};
use crate::text::lower_seq;

verus! {

/// One directory entry as the shell observed it: the entry's full path,
/// whether it is a regular file, and its creation timestamp, absent when the
/// filesystem could not report one.
pub struct DirEntry {
    pub path: String,
    pub is_file: bool,
    pub created: Option<u64>,
}

/// An image file together with the creation timestamp it is ordered by.
pub struct ImageEntry {
    pub path: String,
    pub created_at: u64,
}

/// The recognized image extensions, compared after ASCII case folding.
pub open spec fn is_image_ext(e: Seq<char>) -> bool {
    ||| lower_seq(e) == "jpg"@
    ||| lower_seq(e) == "jpeg"@
    ||| lower_seq(e) == "png"@
    ||| lower_seq(e) == "gif"@
    ||| lower_seq(e) == "bmp"@
    ||| lower_seq(e) == "webp"@
    ||| lower_seq(e) == "tiff"@
    ||| lower_seq(e) == "tif"@
}

/// Whether a path names an image file, judged by the extension of its
/// file-name component.
pub open spec fn is_image_path_spec(p: Seq<char>) -> bool {
    is_image_ext(ext_of(file_name_of(p)))
}

/// A directory entry qualifies for the index when it is a regular file with a
/// recognized image extension and a readable creation timestamp.
pub open spec fn qualifies(e: DirEntry) -> bool {
    e.is_file && e.created is Some && is_image_path_spec(e.path@)
}

/// The timestamp of a qualifying entry.
pub open spec fn created_of(e: DirEntry) -> u64 {
    match e.created {
        Some(t) => t,
        None => 0,
    }
}

/// The image record a qualifying entry contributes to the index.
pub open spec fn image_of(e: DirEntry) -> ImageEntry {
    ImageEntry { path: e.path, created_at: created_of(e) }
}

/// The qualifying entries of a directory snapshot, in enumeration order.
pub open spec fn collect_images(es: Seq<DirEntry>) -> Seq<ImageEntry>
    decreases es.len(),
{
    if es.len() == 0 {
        Seq::empty()
    } else {
        let rest = collect_images(es.drop_last());
        if qualifies(es.last()) {
            rest.push(image_of(es.last()))
        } else {
            rest
        }
    }
}

/// Insertion of one image behind every already-placed image whose timestamp
/// is not greater: the insertion step of a stable sort.
pub open spec fn insert_image(s: Seq<ImageEntry>, e: ImageEntry) -> Seq<ImageEntry>
    decreases s.len(),
{
    if s.len() == 0 {
        seq![e]
    } else if s.last().created_at <= e.created_at {
        s.push(e)
    } else {
        insert_image(s.drop_last(), e).push(s.last())
    }
}

/// Stable sort by creation timestamp, ascending: ties keep their enumeration
/// order.
pub open spec fn sort_images(s: Seq<ImageEntry>) -> Seq<ImageEntry>
    decreases s.len(),
{
    if s.len() == 0 {
        Seq::empty()
    } else {
        insert_image(sort_images(s.drop_last()), s.last())
    }
}

/// The ordered image records of a directory snapshot.
pub open spec fn image_list_of(es: Seq<DirEntry>) -> Seq<ImageEntry> {
    sort_images(collect_images(es))
}

/// The ordered image paths of a directory snapshot.
pub open spec fn index_paths_of(es: Seq<DirEntry>) -> Seq<Seq<char>> {
    image_list_of(es).map_values(|e: ImageEntry| e.path@)
}

/// What listing a folder returns: absence for a missing directory and for a
/// directory without qualifying files, the ordered paths otherwise.
pub open spec fn list_folder_images_spec(snapshot: Option<Vec<DirEntry>>) -> Option<
    Seq<Seq<char>>,
> {
    match snapshot {
        None => None,
        Some(v) => {
            if index_paths_of(v@).len() == 0 {
                None
            } else {
                Some(index_paths_of(v@))
            }
        },
    }
}

/// Whether a path names an image file.
pub fn is_image_path(p: &str) -> (b: bool)
    ensures
        b == is_image_path_spec(p@),
{
    let name = crate::paths::file_name(p);
    match crate::paths::last_dot_index(name) {
        None => {
            proof {
                lemma_empty_ext_not_image();
            }
            false
        },
        Some(0) => {
            proof {
                lemma_empty_ext_not_image();
            }
            false
        },
        Some(d) => {
            let nlen = name.unicode_len();
            let e = name.substring_char(d + 1, nlen);
            ext_matches(e)
        },
    }
}

/// No extension at all is never a recognized image extension.
proof fn lemma_empty_ext_not_image()
    ensures
        !is_image_ext(Seq::<char>::empty()),
{
    reveal_strlit("jpg");
    reveal_strlit("jpeg");
    reveal_strlit("png");
    reveal_strlit("gif");
    reveal_strlit("bmp");
    reveal_strlit("webp");
    reveal_strlit("tiff");
    reveal_strlit("tif");
    assert(lower_seq(Seq::<char>::empty()).len() == 0);
}

/// Whether an extension, case folded, is recognized.
fn ext_matches(e: &str) -> (b: bool)
    ensures
        b == is_image_ext(e@),
{
    if crate::text::eq_lowercase(e, "jpg") {
        return true;
    }
    if crate::text::eq_lowercase(e, "jpeg") {
        return true;
    }
    if crate::text::eq_lowercase(e, "png") {
        return true;
    }
    if crate::text::eq_lowercase(e, "gif") {
        return true;
    }
    if crate::text::eq_lowercase(e, "bmp") {
        return true;
    }
    if crate::text::eq_lowercase(e, "webp") {
        return true;
    }
    if crate::text::eq_lowercase(e, "tiff") {
        return true;
    }
    if crate::text::eq_lowercase(e, "tif") {
        return true;
    }
    false
}

/// Splicing one image into a sorted run at the position the insertion step
/// chooses: before the run of strictly later images, after everything else.
proof fn lemma_insert_image_at(s: Seq<ImageEntry>, e: ImageEntry, j: int)
    requires
        0 <= j <= s.len(),
        forall|m: int| j <= m < s.len() ==> s[m].created_at > e.created_at,
        j > 0 ==> s[j - 1].created_at <= e.created_at,
    ensures
        insert_image(s, e) == s.subrange(0, j).push(e) + s.subrange(j, s.len() as int),
    decreases s.len(),
{
    if j == s.len() {
        if s.len() == 0 {
            assert(insert_image(s, e) =~= s.subrange(0, j).push(e) + s.subrange(j, j));
        } else {
            assert(insert_image(s, e) =~= s.subrange(0, j).push(e) + s.subrange(j, j));
        }
    } else {
        lemma_insert_image_at(s.drop_last(), e, j);
        assert(s.drop_last().subrange(0, j) =~= s.subrange(0, j));
        assert(insert_image(s, e) =~= s.subrange(0, j).push(e) + s.subrange(j, s.len() as int));
    }
}

/// Produces the qualifying entries of a snapshot, in enumeration order.
fn collect_images_exec(entries: &Vec<DirEntry>) -> (r: Vec<ImageEntry>)
    ensures
        r@ == collect_images(entries@),
{
    let mut images: Vec<ImageEntry> = Vec::new();
    let mut i: usize = 0;
    while i < entries.len()
        invariant
            i <= entries.len(),
            images@ == collect_images(entries@.subrange(0, i as int)),
        decreases entries.len() - i,
    {
        proof {
            assert(entries@.subrange(0, i + 1).drop_last() =~= entries@.subrange(0, i as int));
            assert(entries@.subrange(0, i + 1).last() == entries@[i as int]);
        }
        let e = &entries[i];
        if e.is_file {
            if let Some(t) = e.created {
                if is_image_path(e.path.as_str()) {
                    images.push(ImageEntry { path: e.path.clone(), created_at: t });
                }
            }
        }
        i += 1;
    }
    proof {
        assert(entries@.subrange(0, entries@.len() as int) =~= entries@);
    }
    images
}

/// Stable insertion sort by creation timestamp.
fn sort_images_exec(v: &Vec<ImageEntry>) -> (r: Vec<ImageEntry>)
    ensures
        r@ == sort_images(v@),
{
    let mut out: Vec<ImageEntry> = Vec::new();
    let mut i: usize = 0;
    while i < v.len()
        invariant
            i <= v.len(),
            out@ == sort_images(v@.subrange(0, i as int)),
        decreases v.len() - i,
    {
        let e = ImageEntry { path: v[i].path.clone(), created_at: v[i].created_at };
        proof {
            assert(e == v@[i as int]);
        }
        let mut j: usize = out.len();
        while j > 0 && out[j - 1].created_at > e.created_at
            invariant
                j <= out.len(),
                forall|m: int| j <= m < out@.len() ==> out@[m].created_at > e.created_at,
            decreases j,
        {
            j -= 1;
        }
        proof {
            lemma_insert_image_at(out@, e, j as int);
            assert(out@.insert(j as int, e) =~= out@.subrange(0, j as int).push(e) + out@.subrange(
                j as int,
                out@.len() as int,
            ));
            assert(v@.subrange(0, i + 1).drop_last() =~= v@.subrange(0, i as int));
            assert(v@.subrange(0, i + 1).last() == v@[i as int]);
        }
        out.insert(j, e);
        i += 1;
    }
    proof {
        assert(v@.subrange(0, v@.len() as int) =~= v@);
    }
    out
}

/// Non-decreasing creation timestamps.
pub open spec fn sorted_by_created(s: Seq<ImageEntry>) -> bool {
    forall|a: int, b: int| 0 <= a < b < s.len() ==> s[a].created_at <= s[b].created_at
}

/// The insertion step adds exactly the new image.
proof fn lemma_insert_image_multiset(s: Seq<ImageEntry>, e: ImageEntry)
    ensures
        insert_image(s, e).to_multiset() == s.to_multiset().insert(e),
        insert_image(s, e).len() == s.len() + 1,
    decreases s.len(),
{
    broadcast use vstd::seq_lib::group_to_multiset_ensures;

    if s.len() == 0 {
        assert(insert_image(s, e) =~= Seq::<ImageEntry>::empty().push(e));
        assert(Seq::<ImageEntry>::empty().push(e).to_multiset() =~= s.to_multiset().insert(e));
    } else if s.last().created_at <= e.created_at {
    } else {
        let t = s.drop_last();
        lemma_insert_image_multiset(t, e);
        let t0 = insert_image(t, e);
        assert(s.to_multiset() =~= t.to_multiset().insert(s.last())) by {
            assert(t.push(s.last()) =~= s);
        }
        assert(t0.push(s.last()).to_multiset() =~= s.to_multiset().insert(e));
    }
}

/// The insertion step keeps the run sorted.
proof fn lemma_insert_image_sorted(s: Seq<ImageEntry>, e: ImageEntry)
    requires
        sorted_by_created(s),
    ensures
        sorted_by_created(insert_image(s, e)),
    decreases s.len(),
{
    broadcast use vstd::seq_lib::group_to_multiset_ensures;

    if s.len() == 0 {
    } else if s.last().created_at <= e.created_at {
        assert forall|a: int, b: int|
            0 <= a < b < s.push(e).len() implies s.push(e)[a].created_at
            <= s.push(e)[b].created_at by {
            if b == s.len() && a < s.len() - 1 {
                assert(s[a].created_at <= s[s.len() - 1].created_at);
            }
        }
    } else {
        let t = s.drop_last();
        assert(sorted_by_created(t));
        lemma_insert_image_sorted(t, e);
        lemma_insert_image_multiset(t, e);
        let t0 = insert_image(t, e);
        assert forall|a: int, b: int|
            0 <= a < b < t0.push(s.last()).len() implies t0.push(s.last())[a].created_at
            <= t0.push(s.last())[b].created_at by {
            if b == t0.len() {
                let x = t0[a];
                assert(t0.contains(x));
                assert(t0.to_multiset().count(x) > 0);
                assert(t.to_multiset().insert(e).count(x) > 0);
                if x != e {
                    assert(t.to_multiset().count(x) > 0);
                    assert(t.contains(x));
                    let w = choose|w: int| 0 <= w < t.len() && t[w] == x;
                    assert(s[w].created_at <= s.last().created_at);
                }
            }
        }
    }
}

/// Sorting keeps exactly the collected images and orders them by timestamp.
proof fn lemma_sort_images_props(s: Seq<ImageEntry>)
    ensures
        sorted_by_created(sort_images(s)),
        sort_images(s).to_multiset() == s.to_multiset(),
        sort_images(s).len() == s.len(),
    decreases s.len(),
{
    broadcast use vstd::seq_lib::group_to_multiset_ensures;

    if s.len() > 0 {
        let t = s.drop_last();
        lemma_sort_images_props(t);
        lemma_insert_image_sorted(sort_images(t), s.last());
        lemma_insert_image_multiset(sort_images(t), s.last());
        assert(s.to_multiset() =~= t.to_multiset().insert(s.last())) by {
            assert(t.push(s.last()) =~= s);
        }
    }
}

/// The collected images are empty exactly when no entry qualifies, and each
/// comes from a qualifying entry of the snapshot.
proof fn lemma_collect_images_props(es: Seq<DirEntry>)
    ensures
        (collect_images(es).len() == 0 <==> forall|i: int|
            0 <= i < es.len() ==> !qualifies(es[i])),
        forall|x: ImageEntry| #[trigger] collect_images(es).contains(x) ==> exists|i: int|
            0 <= i < es.len() && #[trigger] qualifies(es[i]) && x == image_of(es[i]),
    decreases es.len(),
{
    if es.len() > 0 {
        let t = es.drop_last();
        lemma_collect_images_props(t);
        let c = collect_images(es);
        let rest = collect_images(t);
        if qualifies(es.last()) {
            assert(c.len() > 0);
            assert(qualifies(es[es.len() - 1]));
        } else {
            if rest.len() == 0 {
                assert forall|i: int| 0 <= i < es.len() implies !qualifies(es[i]) by {
                    if i < es.len() - 1 {
                        assert(t[i] == es[i]);
                    }
                }
            } else {
                let w = choose|w: int| 0 <= w < t.len() && qualifies(t[w]);
                assert(qualifies(es[w]));
            }
        }
        assert forall|x: ImageEntry| #[trigger] c.contains(x) implies exists|i: int|
            0 <= i < es.len() && #[trigger] qualifies(es[i]) && x == image_of(es[i]) by {
            let idx = choose|k: int| 0 <= k < c.len() && c[k] == x;
            if qualifies(es.last()) && idx == c.len() - 1 {
                assert(qualifies(es[es.len() - 1]) && x == image_of(es[es.len() - 1]));
            } else {
                assert(rest[idx] == x);
                assert(rest.contains(x));
                let i = choose|i: int|
                    0 <= i < t.len() && #[trigger] qualifies(t[i]) && x == image_of(t[i]);
                assert(es[i] == t[i]);
                assert(qualifies(es[i]) && x == image_of(es[i]));
            }
        }
    }
}

/// A folder's listing is absent exactly when no entry of its snapshot
/// qualifies: a directory with no images never yields an empty list.
pub proof fn lemma_absent_iff_no_qualifying(v: Vec<DirEntry>)
    ensures
        list_folder_images_spec(Some(v)) is None <==> (forall|i: int|
            0 <= i < v@.len() ==> !qualifies(v@[i])),
{
    lemma_collect_images_props(v@);
    lemma_sort_images_props(collect_images(v@));
}

/// A present listing is sorted non-decreasing by creation time, and every
/// image in it comes from a qualifying entry: files with unrecognized
/// extensions and non-file entries are excluded.
pub proof fn lemma_index_ordered_and_qualifying(v: Vec<DirEntry>)
    ensures
        sorted_by_created(image_list_of(v@)),
        index_paths_of(v@) == image_list_of(v@).map_values(|e: ImageEntry| e.path@),
        forall|x: ImageEntry| #[trigger] image_list_of(v@).contains(x) ==> exists|i: int|
            0 <= i < v@.len() && #[trigger] qualifies(v@[i]) && x == image_of(v@[i]),
{
    broadcast use vstd::seq_lib::group_to_multiset_ensures;

    lemma_collect_images_props(v@);
    lemma_sort_images_props(collect_images(v@));
    let sorted = image_list_of(v@);
    let collected = collect_images(v@);
    assert forall|x: ImageEntry| #[trigger] sorted.contains(x) implies exists|i: int|
        0 <= i < v@.len() && #[trigger] qualifies(v@[i]) && x == image_of(v@[i]) by {
        assert(sorted.to_multiset().count(x) > 0);
        assert(collected.to_multiset().count(x) > 0);
        assert(collected.contains(x));
    }
}

/// Pairwise distinct path views.
pub open spec fn entries_have_distinct_paths(es: Seq<DirEntry>) -> bool {
    forall|a: int, b: int| 0 <= a < b < es.len() ==> es[a].path@ != es[b].path@
}

/// Pairwise distinct image paths.
pub open spec fn images_have_distinct_paths(s: Seq<ImageEntry>) -> bool {
    forall|a: int, b: int| 0 <= a < b < s.len() ==> s[a].path@ != s[b].path@
}

/// Collecting from entries with distinct paths yields images with distinct
/// paths.
proof fn lemma_collect_images_distinct(es: Seq<DirEntry>)
    requires
        entries_have_distinct_paths(es),
    ensures
        images_have_distinct_paths(collect_images(es)),
    decreases es.len(),
{
    if es.len() > 0 {
        let t = es.drop_last();
        assert(entries_have_distinct_paths(t)) by {
            assert(forall|a: int| 0 <= a < t.len() ==> t[a] == es[a]);
        }
        lemma_collect_images_distinct(t);
        lemma_collect_images_props(t);
        let rest = collect_images(t);
        if qualifies(es.last()) {
            let c = rest.push(image_of(es.last()));
            assert forall|a: int, b: int| 0 <= a < b < c.len() implies c[a].path@
                != c[b].path@ by {
                if b == c.len() - 1 {
                    assert(rest.contains(rest[a]));
                    let i = choose|i: int|
                        0 <= i < t.len() && #[trigger] qualifies(t[i]) && rest[a] == image_of(t[i]);
                    assert(es[i].path@ != es[es.len() - 1].path@);
                }
            }
        }
    }
}

/// The insertion step keeps image paths distinct, given the new image's path
/// stands nowhere in the run.
proof fn lemma_insert_image_distinct(s: Seq<ImageEntry>, e: ImageEntry)
    requires
        images_have_distinct_paths(s),
        forall|a: int| 0 <= a < s.len() ==> s[a].path@ != e.path@,
    ensures
        images_have_distinct_paths(insert_image(s, e)),
    decreases s.len(),
{
    broadcast use vstd::seq_lib::group_to_multiset_ensures;

    if s.len() == 0 {
    } else if s.last().created_at <= e.created_at {
        let c = s.push(e);
        assert forall|a: int, b: int| 0 <= a < b < c.len() implies c[a].path@ != c[b].path@ by {}
    } else {
        let t = s.drop_last();
        assert(forall|a: int| 0 <= a < t.len() ==> t[a] == s[a]);
        lemma_insert_image_distinct(t, e);
        lemma_insert_image_multiset(t, e);
        let t0 = insert_image(t, e);
        let c = t0.push(s.last());
        assert forall|a: int, b: int| 0 <= a < b < c.len() implies c[a].path@ != c[b].path@ by {
            if b == c.len() - 1 {
                let x = t0[a];
                assert(t0.contains(x));
                assert(t0.to_multiset().count(x) > 0);
                assert(t.to_multiset().insert(e).count(x) > 0);
                if x != e {
                    assert(t.to_multiset().count(x) > 0);
                    assert(t.contains(x));
                    let w = choose|w: int| 0 <= w < t.len() && t[w] == x;
                    assert(s[w].path@ != s[s.len() - 1].path@);
                } else {
                    assert(s[s.len() - 1].path@ != e.path@);
                }
            }
        }
    }
}


/// Sorting keeps image paths distinct.
proof fn lemma_sort_images_distinct(s: Seq<ImageEntry>)
    requires
        images_have_distinct_paths(s),
    ensures
        images_have_distinct_paths(sort_images(s)),
    decreases s.len(),
{
    broadcast use vstd::seq_lib::group_to_multiset_ensures;

    if s.len() > 0 {
        let t = s.drop_last();
        assert(forall|a: int| 0 <= a < t.len() ==> t[a] == s[a]);
        lemma_sort_images_distinct(t);
        lemma_sort_images_props(t);
        let st = sort_images(t);
        assert forall|a: int| 0 <= a < st.len() implies st[a].path@ != s.last().path@ by {
            let x = st[a];
            assert(st.contains(x));
            assert(st.to_multiset().count(x) > 0);
            assert(t.to_multiset().count(x) > 0);
            assert(t.contains(x));
            let w = choose|w: int| 0 <= w < t.len() && t[w] == x;
            assert(s[w].path@ != s[s.len() - 1].path@);
        }
        lemma_insert_image_distinct(st, s.last());
    }
}

/// A snapshot whose entries carry pairwise distinct paths — as the entries of
/// one directory always do — yields an index of pairwise distinct paths.
pub proof fn lemma_index_paths_distinct(v: Vec<DirEntry>)
    requires
        entries_have_distinct_paths(v@),
    ensures
        forall|a: int, b: int|
            0 <= a < b < index_paths_of(v@).len() ==> index_paths_of(v@)[a] != index_paths_of(
                v@,
            )[b],
{
    lemma_collect_images_distinct(v@);
    lemma_sort_images_distinct(collect_images(v@));
}

/// Listing is a function of the snapshot alone: two listings of an unchanged
/// directory are identical.
pub proof fn lemma_list_idempotent(s1: Option<Vec<DirEntry>>, s2: Option<Vec<DirEntry>>)
    requires
        s1 == s2,
    ensures
        list_folder_images_spec(s1) == list_folder_images_spec(s2),
{
}

/// Lists the image paths of one directory snapshot, ordered by creation time
/// ascending, ties in enumeration order. Returns `None` when the snapshot is
/// absent (no such directory) and when no entry qualifies.
pub fn list_folder_images(snapshot: &Option<Vec<DirEntry>>) -> (r: Option<Vec<String>>)
    ensures
        r.deep_view() == list_folder_images_spec(*snapshot),
        *snapshot is None ==> r is None,
{
    let entries = match snapshot {
        Some(v) => v,
        None => {
            return None;
        },
    };
    let images = collect_images_exec(entries);
    let sorted = sort_images_exec(&images);
    if sorted.len() == 0 {
        proof {
            assert(index_paths_of(entries@).len() == 0);
        }
        return None;
    }
    let mut out: Vec<String> = Vec::new();
    let mut i: usize = 0;
    while i < sorted.len()
        invariant
            i <= sorted.len(),
            out@.len() == i,
            forall|k: int| 0 <= k < i ==> out@[k]@ == sorted@[k].path@,
        decreases sorted.len() - i,
    {
        out.push(sorted[i].path.clone());
        i += 1;
    }
    proof {
        assert(out.deep_view() =~= index_paths_of(entries@));
    }
    Some(out)
}

} // verus!
