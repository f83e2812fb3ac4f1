//! Files found in a collection, and the choices made about them.

use vstd::prelude::*;
use crate::text::{strs_view, chars_of, string_of, file_name_of, parent_of, name_start, lemma_name_start_bounds, find_name_start};

verus! {

/// A photo or video file found on disk.
#[derive(Clone, Debug, PartialEq, Eq)]
pub struct Photo {
    /// Path relative to the collection root.
    pub relative_path: String,
}

impl View for Photo {
    type V = Seq<char>;

    open spec fn view(&self) -> Seq<char> {
        self.relative_path@
    }
}

/// The relative paths of a sequence of photos.
pub open spec fn photos_view(v: Seq<Photo>) -> Seq<Seq<char>> {
    v.map_values(|p: Photo| p@)
}

/// The relative paths of `photos`, in order.
pub fn photo_paths(photos: &Vec<Photo>) -> (r: Vec<String>)
    ensures
        strs_view(r@) == photos_view(photos@),
{
    let mut r: Vec<String> = Vec::new();
    for i in 0..photos.len()
        invariant
            r@.len() == i,
            strs_view(r@) == photos_view(photos@).subrange(0, i as int),
    {
        let p = photos[i].relative_path.clone();
        let ghost prev = r@;
        r.push(p);
        assert(strs_view(r@) =~= photos_view(photos@).subrange(0, i + 1)) by {
            assert(r@ == prev.push(p));
            assert(strs_view(prev) == photos_view(photos@).subrange(0, i as int));
            assert forall|j: int| 0 <= j < i + 1 implies #[trigger] strs_view(r@)[j]
                == photos_view(photos@)[j] by {
                if j < i {
                    assert(strs_view(prev)[j] == photos_view(photos@).subrange(0, i as int)[j]);
                }
            }
        }
    }
    assert(photos_view(photos@).subrange(0, photos@.len() as int) =~= photos_view(photos@));
    r
}

/// Whether `path` lies in the directory `subdir`: anywhere below it when
/// `recursive`, else directly in it. The empty `subdir` is the collection root.
pub open spec fn in_subdir(path: Seq<char>, subdir: Seq<char>, recursive: bool) -> bool {
    if recursive {
        ||| subdir.len() == 0
        ||| path == subdir
        ||| (path.len() > subdir.len() && path.subrange(0, subdir.len() as int) == subdir
            && path[subdir.len() as int] == '/')
    } else {
        parent_of(path) == subdir
    }
}

/// The photos of `v` that lie in `subdir`, in order.
pub open spec fn photos_in_subdir(v: Seq<Seq<char>>, subdir: Seq<char>, recursive: bool) -> Seq<Seq<char>>
    decreases v.len(),
{
    if v.len() == 0 {
        Seq::empty()
    } else {
        let prev = photos_in_subdir(v.drop_last(), subdir, recursive);
        if in_subdir(v.last(), subdir, recursive) {
            prev.push(v.last())
        } else {
            prev
        }
    }
}

/// Whether the characters `p` equal `q`.
fn chars_equal(p: &[char], q: &[char]) -> (r: bool)
    ensures
        r == (p@ == q@),
{
    if p.len() != q.len() {
        return false;
    }
    let mut i: usize = 0;
    while i < p.len()
        invariant
            p@.len() == q@.len(),
            i <= p@.len(),
            forall|k: int| 0 <= k < i ==> p@[k] == q@[k],
        decreases p@.len() - i,
    {
        if p[i] != q[i] {
            return false;
        }
        i = i + 1;
    }
    assert(p@ =~= q@);
    true
}

/// Whether `path` lies in `subdir` (see `in_subdir`).
pub fn is_in_subdir(path: &str, subdir: &str, recursive: bool) -> (r: bool)
    ensures
        r == in_subdir(path@, subdir@, recursive),
{
    let p = chars_of(path);
    let d = chars_of(subdir);
    if recursive {
        if d.len() == 0 {
            return true;
        }
        if p.len() < d.len() {
            return false;
        }
        let head = p.as_slice().split_at(d.len()).0;
        assert(head@ == p@.subrange(0, d@.len() as int));
        if !chars_equal(head, d.as_slice()) {
            assert(p@ != d@) by {
                if p@ == d@ {
                    assert(p@.subrange(0, d@.len() as int) =~= p@);
                }
            }
            return false;
        }
        if p.len() == d.len() {
            assert(p@ =~= head@);
        } else {
            assert(p@ != d@);
        }
        p.len() == d.len() || p[d.len()] == '/'
    } else {
        let start = find_name_start(&p);
        proof {
            lemma_name_start_bounds(p@);
        }
        if start == 0 {
            assert(d@.len() == 0 ==> d@ =~= Seq::<char>::empty());
            d.len() == 0
        } else {
            let dir = p.as_slice().split_at(start - 1).0;
            chars_equal(dir, d.as_slice())
        }
    }
}

/// The photos that lie in the directory `subdir` (below it too when
/// `recursive`), in order.
pub fn get_photos_in_subdir(photos: &Vec<Photo>, subdir: &str, recursive: bool) -> (r: Vec<Photo>)
    ensures
        photos_view(r@) == photos_in_subdir(photos_view(photos@), subdir@, recursive),
{
    let ghost pv = photos_view(photos@);
    let mut r: Vec<Photo> = Vec::new();
    for i in 0..photos.len()
        invariant
            pv == photos_view(photos@),
            pv.len() == photos@.len(),
            photos_view(r@) == photos_in_subdir(pv.subrange(0, i as int), subdir@, recursive),
    {
        assert(pv.subrange(0, i + 1).drop_last() =~= pv.subrange(0, i as int));
        assert(pv.subrange(0, i + 1).last() == photos@[i as int]@);
        if is_in_subdir(photos[i].relative_path.as_str(), subdir, recursive) {
            let ghost prev = r@;
            let p = Photo { relative_path: photos[i].relative_path.clone() };
            r.push(p);
            assert(photos_view(r@) =~= photos_view(prev).push(p@));
        }
    }
    assert(pv.subrange(0, pv.len() as int) =~= pv);
    r
}

/// The path `p` with its last component replaced by `name`.
pub open spec fn with_file_name(p: Seq<char>, name: Seq<char>) -> Seq<char> {
    p.subrange(0, name_start(p)) + name
}

/// Where a file at `filepath` goes when renamed to `canonical`: the same
/// directory. `None` when the file already has that name.
pub fn rename_target(filepath: &str, canonical: &str) -> (r: Option<String>)
    ensures
        file_name_of(filepath@) == canonical@ ==> r is None,
        file_name_of(filepath@) != canonical@ ==> (r matches Some(t) && t@ == with_file_name(
            filepath@,
            canonical@,
        )),
{
    let p = chars_of(filepath);
    let c = chars_of(canonical);
    let start = find_name_start(&p);
    proof {
        lemma_name_start_bounds(p@);
    }
    let name = p.as_slice().split_at(start).1;
    if chars_equal(name, c.as_slice()) {
        return None;
    }
    let mut out: Vec<char> = Vec::new();
    let mut i: usize = 0;
    while i < start
        invariant
            i <= start,
            start == name_start(p@),
            start <= p@.len(),
            out@ == p@.subrange(0, i as int),
        decreases start - i,
    {
        out.push(p[i]);
        assert(out@ =~= p@.subrange(0, i + 1));
        i = i + 1;
    }
    let mut k: usize = 0;
    while k < c.len()
        invariant
            k <= c@.len(),
            start <= p@.len(),
            start == name_start(p@),
            out@ == p@.subrange(0, start as int) + c@.subrange(0, k as int),
        decreases c@.len() - k,
    {
        out.push(c[k]);
        assert(out@ =~= p@.subrange(0, start as int) + c@.subrange(0, k + 1));
        k = k + 1;
    }
    assert(c@.subrange(0, c@.len() as int) =~= c@);
    Some(string_of(out.as_slice()))
}

/// What to do about a file whose name differs from its canonical name.
#[derive(Clone, Copy, Debug, PartialEq, Eq, Structural)]
pub enum RenameDecision {
    /// Only report the rename that would be made.
    ReportOnly,
    /// Leave the file alone: a file already occupies the target path.
    SkipTargetExists,
    /// Rename the file.
    Rename,
}

/// Whether to rename a file to its target path, given whether something
/// already occupies that path. An occupied target is never replaced: the
/// rename is skipped and the file stays where it is.
pub fn rename_decision(dry_run: bool, target_exists: bool) -> (r: RenameDecision)
    ensures
        dry_run ==> r == RenameDecision::ReportOnly,
        !dry_run && target_exists ==> r == RenameDecision::SkipTargetExists,
        !dry_run && !target_exists ==> r == RenameDecision::Rename,
        target_exists ==> r != RenameDecision::Rename,
{
    if dry_run {
        RenameDecision::ReportOnly
    } else if target_exists {
        RenameDecision::SkipTargetExists
    } else {
        RenameDecision::Rename
    }
}

} // verus!
