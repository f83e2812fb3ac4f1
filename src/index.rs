//! The persisted index of a photo collection: its naming configuration and
//! one entry per tracked file.

use vstd::prelude::*;
use vstd::slice::slice_to_vec;
use crate::text::{strs_view, chars_of, string_of, name_start, lemma_name_start_bounds, find_name_start};

verus! {

/// Name of the index file kept in the root directory of a collection.
pub const INDEX_FILE_NAME: &'static str = "photo_organizer_index.json";

/// A logical file type (such as `IMG`) and the file extensions that belong to it.
#[derive(Clone, Debug, PartialEq, Eq)]
pub struct FileType {
    pub name: String,
    pub extensions: Vec<String>,
}

/// The user-adjustable part of the index.
#[derive(Clone, Debug, PartialEq, Eq)]
pub struct UserConfig {
    /// Template of canonical file names: `%{type}` and `%{fileextension}`
    /// placeholders, everything else date/time format directives.
    pub file_naming_scheme: String,
    /// The recognised file types, one per name.
    pub file_types: Vec<FileType>,
}

/// One tracked file.
#[derive(Clone, Debug, PartialEq, Eq)]
pub struct IndexEntry {
    /// Path relative to the collection root; unique within the index.
    pub filepath: String,
    /// File name at the time the file was first indexed.
    pub orig_filename: String,
    /// Hex-encoded content digest at the last (re)hash.
    pub filehash: String,
}

/// The whole persisted state of one collection.
#[derive(Clone, Debug, PartialEq, Eq)]
pub struct Index {
    pub user_config: UserConfig,
    pub photos: Vec<IndexEntry>,
}

/// What an index entry stands for.
pub struct EntryModel {
    pub path: Seq<char>,
    pub orig_filename: Seq<char>,
    pub hash: Seq<char>,
}

impl View for IndexEntry {
    type V = EntryModel;

    open spec fn view(&self) -> EntryModel {
        EntryModel { path: self.filepath@, orig_filename: self.orig_filename@, hash: self.filehash@ }
    }
}

/// The models of a sequence of entries.
pub open spec fn entries_view(v: Seq<IndexEntry>) -> Seq<EntryModel> {
    v.map_values(|e: IndexEntry| e@)
}

/// The paths of a sequence of entry models.
pub open spec fn paths_of(s: Seq<EntryModel>) -> Seq<Seq<char>> {
    s.map_values(|e: EntryModel| e.path)
}

/// No two entries share a path.
pub open spec fn paths_unique(s: Seq<EntryModel>) -> bool {
    forall|i: int, j: int| 0 <= i < j < s.len() ==> s[i].path != s[j].path
}

/// What a file type stands for: its name and its extensions.
pub open spec fn file_type_view(t: FileType) -> (Seq<char>, Seq<Seq<char>>) {
    (t.name@, strs_view(t.extensions@))
}

impl UserConfig {
    /// The file types as names and extension lists.
    pub open spec fn types_view(&self) -> Seq<(Seq<char>, Seq<Seq<char>>)> {
        self.file_types@.map_values(|t: FileType| file_type_view(t))
    }

    /// No two file types share a name.
    pub open spec fn wf(&self) -> bool {
        forall|i: int, j: int|
            0 <= i < j < self.file_types@.len() ==> self.file_types@[i].name@
                != self.file_types@[j].name@
    }
}

impl Index {
    /// The entries as models, in index order.
    pub open spec fn entries(&self) -> Seq<EntryModel> {
        entries_view(self.photos@)
    }

    /// Paths are unique and file type names are unique.
    pub open spec fn wf(&self) -> bool {
        &&& paths_unique(self.entries())
        &&& self.user_config.wf()
    }
}

/// The characters of `s`.
pub(crate) fn owned(s: &str) -> (r: String)
    ensures
        r@ == s@,
{
    s.to_owned()
}

impl Default for Index {
    /// An empty index with the default naming scheme and file types.
    fn default() -> (r: Index)
        ensures
            r.wf(),
            r.photos@.len() == 0,
            r.user_config.file_naming_scheme@ == "%Y%m%d_%H%M%S_%{type}.%{fileextension}"@,
            r.user_config.types_view() == seq![
                ("IMG"@, seq!["jpg"@, "jpeg"@, "png"@]),
                ("VID"@, seq!["mp4"@]),
            ],
    {
        let img = FileType {
            name: owned("IMG"),
            extensions: vec![owned("jpg"), owned("jpeg"), owned("png")],
        };
        let vid = FileType { name: owned("VID"), extensions: vec![owned("mp4")] };
        let r = Index {
            user_config: UserConfig {
                file_naming_scheme: owned("%Y%m%d_%H%M%S_%{type}.%{fileextension}"),
                file_types: vec![img, vid],
            },
            photos: Vec::new(),
        };
        proof {
            reveal_strlit("IMG");
            reveal_strlit("VID");
            assert(r.user_config.file_types@[0].name@[0] != r.user_config.file_types@[1].name@[0]);
            assert(strs_view(r.user_config.file_types@[0].extensions@) =~= seq![
                "jpg"@,
                "jpeg"@,
                "png"@,
            ]);
            assert(strs_view(r.user_config.file_types@[1].extensions@) =~= seq!["mp4"@]);
            assert(r.user_config.types_view() =~= seq![
                ("IMG"@, seq!["jpg"@, "jpeg"@, "png"@]),
                ("VID"@, seq!["mp4"@]),
            ]);
        }
        r
    }
}

/// The original file name recorded for the entry at `path`, if any.
pub fn lookup_orig_filename(index: &Index, path: &String) -> (r: Option<String>)
    ensures
        r is None <==> !paths_of(index.entries()).contains(path@),
        r matches Some(o) ==> exists|i: int|
            0 <= i < index.entries().len() && index.entries()[i].path == path@ && o@
                == index.entries()[i].orig_filename,
{
    let ghost s = index.entries();
    let mut i: usize = 0;
    while i < index.photos.len()
        invariant
            s == index.entries(),
            s.len() == index.photos@.len(),
            i <= s.len(),
            forall|j: int| 0 <= j < i ==> s[j].path != path@,
        decreases s.len() - i,
    {
        if index.photos[i].filepath == *path {
            assert(s[i as int].path == path@);
            assert(paths_of(s)[i as int] == path@);
            return Some(index.photos[i].orig_filename.clone());
        }
        i = i + 1;
    }
    assert forall|j: int| 0 <= j < paths_of(s).len() implies paths_of(s)[j] != path@ by {
        assert(paths_of(s)[j] == s[j].path);
    }
    None
}

/// Whether `listing`, the output of `git ls-files` in the root directory,
/// names the index file and nothing else.
pub fn lists_only_index_file(listing: &str) -> (r: bool)
    ensures
        r == (listing@ == INDEX_FILE_NAME@ + seq!['\n']),
{
    let expected = chars_of(INDEX_FILE_NAME);
    let actual = chars_of(listing);
    if actual.len() == 0 || actual.len() - 1 != expected.len() {
        assert(actual@.len() != (expected@ + seq!['\n']).len());
        return false;
    }
    let mut i: usize = 0;
    while i < expected.len()
        invariant
            expected@ == INDEX_FILE_NAME@,
            actual@ == listing@,
            actual@.len() == expected@.len() + 1,
            i <= expected@.len(),
            forall|k: int| 0 <= k < i ==> actual@[k] == expected@[k],
        decreases expected@.len() - i,
    {
        if actual[i] != expected[i] {
            assert((expected@ + seq!['\n'])[i as int] == expected@[i as int]);
            assert(actual@[i as int] != (expected@ + seq!['\n'])[i as int]);
            return false;
        }
        i = i + 1;
    }
    let last = actual[expected.len()];
    if last != '\n' {
        assert((expected@ + seq!['\n'])[expected@.len() as int] == '\n');
        assert(actual@[expected@.len() as int] != (expected@ + seq!['\n'])[expected@.len() as int]);
        return false;
    }
    assert(actual@ =~= expected@ + seq!['\n']);
    true
}

/// The directory that contains `p`: `None` for the root `/` and for the
/// empty path; the empty path for a single relative component.
pub open spec fn dir_parent(p: Seq<char>) -> Option<Seq<char>> {
    if p.len() == 0 || (p.len() == 1 && p[0] == '/') {
        None
    } else if name_start(p) == 0 {
        Some(Seq::empty())
    } else if name_start(p) == 1 {
        Some(seq!['/'])
    } else {
        Some(p.subrange(0, name_start(p) - 1))
    }
}

/// `p` and each directory above it, `p` first.
pub open spec fn ancestors_of(p: Seq<char>) -> Seq<Seq<char>>
    decreases p.len(),
{
    match dir_parent(p) {
        None => seq![p],
        Some(q) => {
            proof {
                lemma_name_start_bounds(p);
            }
            seq![p] + ancestors_of(q)
        },
    }
}

/// The path of `dir` relative to its ancestor `root`.
pub open spec fn relative_to(dir: Seq<char>, root: Seq<char>) -> Seq<char> {
    if dir.len() <= root.len() {
        Seq::empty()
    } else if root.len() == 0 {
        dir
    } else if root == seq!['/'] {
        dir.subrange(1, dir.len() as int)
    } else {
        dir.subrange(root.len() + 1int, dir.len() as int)
    }
}

/// The directory above `p` (see `dir_parent`).
fn parent_dir(p: &Vec<char>) -> (r: Option<Vec<char>>)
    ensures
        match r {
            Some(q) => dir_parent(p@) == Some(q@),
            None => dir_parent(p@) is None,
        },
{
    if p.len() == 0 {
        return None;
    }
    if p.len() == 1 && p[0] == '/' {
        return None;
    }
    let i = find_name_start(p);
    proof {
        lemma_name_start_bounds(p@);
    }
    if i == 0 {
        return Some(Vec::new());
    }
    if i == 1 {
        let root = vec!['/'];
        assert(root@ =~= seq!['/']);
        return Some(root);
    }
    let q = p.as_slice().split_at(i - 1).0;
    Some(slice_to_vec(q))
}

/// `dir` and each directory above it, `dir` first.
pub fn path_ancestors(dir: &str) -> (r: Vec<String>)
    ensures
        strs_view(r@) == ancestors_of(dir@),
{
    let mut cur = chars_of(dir);
    let mut r: Vec<String> = Vec::new();
    loop
        invariant
            ancestors_of(dir@) == strs_view(r@) + ancestors_of(cur@),
        decreases cur@.len(),
    {
        let ghost prev = r@;
        let s = string_of(cur.as_slice());
        r.push(s);
        assert(strs_view(r@) =~= strs_view(prev) + seq![cur@]);
        proof {
            lemma_name_start_bounds(cur@);
        }
        match parent_dir(&cur) {
            None => {
                assert(ancestors_of(cur@) == seq![cur@]);
                return r;
            },
            Some(q) => {
                assert(ancestors_of(cur@) == seq![cur@] + ancestors_of(q@));
                assert(strs_view(prev) + ancestors_of(cur@) =~= strs_view(r@) + ancestors_of(q@));
                cur = q;
            },
        }
    }
}

/// Find the collection that `dir` belongs to: the nearest of the
/// directories that `path_ancestors(dir)` lists whose `has_index` flag is
/// set (the one that holds the index file). Gives that root and the path of
/// `dir` relative to it, or `None` when no flag is set.
pub fn get_index_root_and_subdir(dir: &str, has_index: &Vec<bool>) -> (r: Option<(String, String)>)
    requires
        has_index@.len() == ancestors_of(dir@).len(),
    ensures
        r is None <==> forall|k: int| 0 <= k < has_index@.len() ==> !has_index@[k],
        r matches Some(found) ==> exists|k: int|
            0 <= k < has_index@.len() && has_index@[k] && (forall|j: int|
                0 <= j < k ==> !has_index@[j]) && found.0@ == ancestors_of(dir@)[k] && found.1@
                == relative_to(dir@, ancestors_of(dir@)[k]),
{
    let ancestors = path_ancestors(dir);
    assert(strs_view(ancestors@).len() == ancestors@.len());
    let mut k: usize = 0;
    while k < has_index.len()
        invariant
            k <= has_index@.len(),
            has_index@.len() == ancestors@.len(),
            strs_view(ancestors@) == ancestors_of(dir@),
            forall|j: int| 0 <= j < k ==> !has_index@[j],
        decreases has_index@.len() - k,
    {
        if has_index[k] {
            let root = ancestors[k].clone();
            assert(root@ == ancestors_of(dir@)[k as int]);
            let d = chars_of(dir);
            let rv = chars_of(root.as_str());
            let sub: Vec<char> = if d.len() <= rv.len() {
                Vec::new()
            } else if rv.len() == 0 {
                d
            } else if rv.len() == 1 && rv[0] == '/' {
                assert(rv@ =~= seq!['/']);
                slice_to_vec(d.as_slice().split_at(1).1)
            } else {
                assert(rv@ != seq!['/']) by {
                    if rv@ == seq!['/'] {
                        assert(rv@.len() == 1 && rv@[0] == '/');
                    }
                }
                slice_to_vec(d.as_slice().split_at(rv.len() + 1).1)
            };
            assert(sub@ =~= relative_to(dir@, root@));
            return Some((root, string_of(sub.as_slice())));
        }
        k = k + 1;
    }
    None
}

} // verus!
