//! Read-only checks over an index: duplicates, content drift, naming.

use vstd::prelude::*;
use vstd::hash_map::StringHashMap;
use vstd::hash_set::StringHashSet;
use crate::index::{Index, EntryModel, paths_of};
use crate::naming::{PhotoMetaData, NamingError, get_canonical_photo_filename, canonical_name_of_path};
use crate::text::{strs_view, file_name, file_name_of};

verus! {

/// The paths of the entries with hash `h`, in index order.
pub open spec fn paths_with_hash(s: Seq<EntryModel>, h: Seq<char>) -> Seq<Seq<char>>
    decreases s.len(),
{
    if s.len() == 0 {
        Seq::empty()
    } else {
        let p = paths_with_hash(s.drop_last(), h);
        if s.last().hash == h {
            p.push(s.last().path)
        } else {
            p
        }
    }
}

/// Entry `i` is the first with its hash, and a later entry has the same hash.
pub open spec fn starts_group(s: Seq<EntryModel>, i: int) -> bool {
    &&& forall|j: int| 0 <= j < i ==> s[j].hash != s[i].hash
    &&& exists|j: int| i < j < s.len() && s[j].hash == s[i].hash
}

/// Positions below `n` of entries that start a group of duplicates, in order.
pub open spec fn group_starts(s: Seq<EntryModel>, n: nat) -> Seq<int>
    decreases n,
{
    if n == 0 {
        Seq::empty()
    } else {
        let g = group_starts(s, (n - 1) as nat);
        if starts_group(s, n - 1) {
            g.push(n - 1)
        } else {
            g
        }
    }
}

/// The hashes held by more than one entry, in the order in which they first
/// occur, each with the paths of all its entries in index order.
pub open spec fn duplicate_groups(s: Seq<EntryModel>) -> Seq<(Seq<char>, Seq<Seq<char>>)> {
    group_starts(s, s.len()).map_values(|i: int| (s[i].hash, paths_with_hash(s, s[i].hash)))
}

/// An entry has hash `h` exactly when some path is listed for `h`, and
/// there are never more paths than entries.
pub proof fn lemma_some_with_hash(s: Seq<EntryModel>, h: Seq<char>)
    ensures
        paths_with_hash(s, h).len() <= s.len(),
        paths_with_hash(s, h).len() >= 1 <==> exists|j: int| 0 <= j < s.len() && #[trigger] s[j].hash == h,
    decreases s.len(),
{
    if s.len() > 0 {
        let d = s.drop_last();
        lemma_some_with_hash(d, h);
        if exists|j: int| 0 <= j < d.len() && #[trigger] d[j].hash == h {
            let j = choose|j: int| 0 <= j < d.len() && #[trigger] d[j].hash == h;
            assert(s[j].hash == h);
        }
        if exists|j: int| 0 <= j < s.len() && #[trigger] s[j].hash == h {
            let j = choose|j: int| 0 <= j < s.len() && #[trigger] s[j].hash == h;
            if j < d.len() {
                assert(d[j].hash == h);
            }
        }
    }
}

/// At least two paths are listed for `h` exactly when two entries have hash `h`.
pub proof fn lemma_two_with_hash(s: Seq<EntryModel>, h: Seq<char>)
    ensures
        paths_with_hash(s, h).len() >= 2 <==> exists|j1: int, j2: int|
            0 <= j1 < j2 < s.len() && #[trigger] s[j1].hash == h && #[trigger] s[j2].hash == h,
    decreases s.len(),
{
    if s.len() > 0 {
        let d = s.drop_last();
        lemma_two_with_hash(d, h);
        lemma_some_with_hash(d, h);
        if paths_with_hash(s, h).len() >= 2 {
            if s.last().hash == h {
                let j1 = choose|j: int| 0 <= j < d.len() && #[trigger] d[j].hash == h;
                assert(s[j1].hash == h && s[s.len() - 1].hash == h);
            } else {
                let (j1, j2) = choose|j1: int, j2: int|
                    0 <= j1 < j2 < d.len() && #[trigger] d[j1].hash == h && #[trigger] d[j2].hash == h;
                assert(s[j1].hash == h && s[j2].hash == h);
            }
        }
        if exists|j1: int, j2: int|
            0 <= j1 < j2 < s.len() && #[trigger] s[j1].hash == h && #[trigger] s[j2].hash == h {
            let (j1, j2) = choose|j1: int, j2: int|
                0 <= j1 < j2 < s.len() && #[trigger] s[j1].hash == h && #[trigger] s[j2].hash == h;
            assert(d[j1].hash == h);
            if j2 < d.len() {
                assert(d[j2].hash == h);
            }
        }
    }
}

/// Of three entries where two share a hash and the third has another, in
/// any order, exactly one group is reported: the shared hash, with the paths
/// of both its entries in index order. The third entry is in no group.
pub proof fn lemma_duplicates_of_three(s: Seq<EntryModel>, odd: int, h1: Seq<char>, h2: Seq<char>)
    requires
        s.len() == 3,
        0 <= odd < 3,
        h1 != h2,
        s[odd].hash == h2,
        forall|i: int| 0 <= i < 3 && i != odd ==> #[trigger] s[i].hash == h1,
    ensures
        duplicate_groups(s) == seq![(h1, paths_of(s.remove(odd)))],
{
    let q = s.remove(odd);
    let first: int = if odd == 0 { 1 } else { 0 };
    let second: int = if odd == 2 { 1 } else { 2 };
    assert(q[0] == s[first] && q[1] == s[second]);
    assert(s[first].hash == h1 && s[second].hash == h1);
    // Which positions start a group.
    assert(starts_group(s, first)) by {
        assert(s[second].hash == s[first].hash);
    }
    assert(!starts_group(s, odd)) by {
        if odd < 2 {
            assert(forall|j: int| odd < j < 3 ==> s[j].hash == h1);
        }
    }
    assert(!starts_group(s, second)) by {
        assert(s[first].hash == s[second].hash);
    }
    assert(group_starts(s, 0) =~= Seq::<int>::empty());
    assert(group_starts(s, 3) =~= seq![first]) by {
        assert(group_starts(s, 1) == if first == 0 { seq![0int] } else { Seq::<int>::empty() });
        assert(group_starts(s, 2) =~= seq![first]);
    }
    // The paths of the shared hash.
    let e = Seq::<EntryModel>::empty();
    assert(s.subrange(0, 0) =~= e);
    assert(paths_with_hash(s.subrange(0, 1), h1) =~= if odd == 0 { Seq::<Seq<char>>::empty() } else { seq![s[0].path] }) by {
        assert(s.subrange(0, 1).drop_last() =~= e);
        assert(paths_with_hash(e, h1) =~= Seq::<Seq<char>>::empty());
        assert(s.subrange(0, 1).last() == s[0]);
        if odd != 0 {
            assert(s[0].hash == h1);
        }
    }
    assert(paths_with_hash(s.subrange(0, 2), h1) =~= if odd == 2 { seq![s[0].path, s[1].path] } else { seq![s[first].path] }) by {
        assert(s.subrange(0, 2).drop_last() =~= s.subrange(0, 1));
        assert(s.subrange(0, 2).last() == s[1]);
        if odd != 1 {
            assert(s[1].hash == h1);
        }
    }
    assert(paths_with_hash(s, h1) =~= seq![s[first].path, s[second].path]) by {
        assert(s.drop_last() =~= s.subrange(0, 2));
        if odd != 2 {
            assert(s[2].hash == h1);
        }
    }
    assert(paths_of(q) =~= seq![s[first].path, s[second].path]);
    assert(duplicate_groups(s) =~= seq![(h1, paths_of(q))]);
}

/// Entries that share one content hash.
#[derive(Clone, Debug, PartialEq, Eq)]
pub struct DuplicateGroup {
    pub hash: String,
    /// Paths of all entries with that hash, in index order.
    pub paths: Vec<String>,
}

/// The hash and paths of each group.
pub open spec fn groups_view(v: Seq<DuplicateGroup>) -> Seq<(Seq<char>, Seq<Seq<char>>)> {
    v.map_values(|g: DuplicateGroup| (g.hash@, strs_view(g.paths@)))
}

/// The paths of the entries of `index` whose hash is `h`.
fn collect_paths_with_hash(index: &Index, h: &String) -> (r: Vec<String>)
    ensures
        strs_view(r@) == paths_with_hash(index.entries(), h@),
{
    let ghost s = index.entries();
    let mut r: Vec<String> = Vec::new();
    for i in 0..index.photos.len()
        invariant
            s == index.entries(),
            s.len() == index.photos@.len(),
            strs_view(r@) == paths_with_hash(s.subrange(0, i as int), h@),
    {
        assert(s.subrange(0, i + 1).drop_last() =~= s.subrange(0, i as int));
        assert(s.subrange(0, i + 1).last() == index.photos@[i as int]@);
        if index.photos[i].filehash == *h {
            let ghost prev = r@;
            r.push(index.photos[i].filepath.clone());
            assert(strs_view(r@) =~= strs_view(prev).push(index.photos@[i as int].filepath@));
        }
    }
    assert(s.subrange(0, s.len() as int) =~= s);
    r
}

/// How many entries of `index` have each hash.
fn hash_counts(index: &Index) -> (r: StringHashMap<usize>)
    ensures
        forall|h: Seq<char>| r@.contains_key(h) ==> r@[h] == paths_with_hash(index.entries(), h).len(),
        forall|h: Seq<char>| !r@.contains_key(h) ==> paths_with_hash(index.entries(), h).len() == 0,
{
    let ghost s = index.entries();
    let mut r: StringHashMap<usize> = StringHashMap::new();
    for i in 0..index.photos.len()
        invariant
            s == index.entries(),
            s.len() == index.photos@.len(),
            forall|h: Seq<char>| r@.contains_key(h) ==> r@[h] == paths_with_hash(s.subrange(0, i as int), h).len(),
            forall|h: Seq<char>| !r@.contains_key(h) ==> paths_with_hash(s.subrange(0, i as int), h).len() == 0,
    {
        let ghost pre = s.subrange(0, i as int);
        let ghost post = s.subrange(0, i + 1);
        assert(post.drop_last() =~= pre);
        let e = &index.photos[i];
        assert(post.last() == e@);
        proof {
            lemma_some_with_hash(pre, e@.hash);
        }
        let count: usize = match r.get(e.filehash.as_str()) {
            Some(c) => *c,
            None => 0,
        };
        assert(count == paths_with_hash(pre, e@.hash).len());
        r.insert(e.filehash.clone(), count + 1);
    }
    assert(s.subrange(0, s.len() as int) =~= s);
    r
}

/// Groups of entries that share a content hash: one group for each hash that
/// more than one entry has, in the order in which the hashes first occur.
pub fn check_for_duplicates(index: &Index) -> (r: Vec<DuplicateGroup>)
    ensures
        groups_view(r@) == duplicate_groups(index.entries()),
{
    let ghost s = index.entries();
    let counts = hash_counts(index);
    let mut seen = StringHashSet::new();
    let mut r: Vec<DuplicateGroup> = Vec::new();
    for i in 0..index.photos.len()
        invariant
            s == index.entries(),
            s.len() == index.photos@.len(),
            forall|h: Seq<char>| counts@.contains_key(h) ==> counts@[h] == paths_with_hash(s, h).len(),
            forall|h: Seq<char>| !counts@.contains_key(h) ==> paths_with_hash(s, h).len() == 0,
            forall|h: Seq<char>|
                seen@.contains(h) <==> exists|j: int| 0 <= j < i && #[trigger] s[j].hash == h,
            r@.len() == group_starts(s, i as nat).len(),
            groups_view(r@) == group_starts(s, i as nat).map_values(
                |k: int| (s[k].hash, paths_with_hash(s, s[k].hash)),
            ),
    {
        let ghost f = |k: int| (s[k].hash, paths_with_hash(s, s[k].hash));
        let ghost before = group_starts(s, i as nat);
        let h = &index.photos[i].filehash;
        let ghost hv = s[i as int].hash;
        assert(h@ == hv);
        let first = !seen.contains(h.as_str());
        let shared = match counts.get(h.as_str()) {
            Some(c) => *c >= 2,
            None => false,
        };
        proof {
            lemma_two_with_hash(s, hv);
            if first {
                assert(forall|j: int| 0 <= j < i ==> s[j].hash != hv);
                if shared {
                    let (j1, j2) = choose|j1: int, j2: int|
                        0 <= j1 < j2 < s.len() && #[trigger] s[j1].hash == hv && #[trigger] s[j2].hash == hv;
                    assert(j1 >= i);
                    assert(i < j2 < s.len() && s[j2].hash == s[i as int].hash);
                }
                if exists|j: int| i < j < s.len() && s[j].hash == s[i as int].hash {
                    let j = choose|j: int| i < j < s.len() && s[j].hash == s[i as int].hash;
                    assert(s[i as int].hash == hv && s[j].hash == hv);
                }
            } else {
                let j = choose|j: int| 0 <= j < i && #[trigger] s[j].hash == hv;
                assert(s[j].hash == s[i as int].hash);
            }
            assert((first && shared) == starts_group(s, i as int));
        }
        if first && shared {
            let hash = h.clone();
            let paths = collect_paths_with_hash(index, &hash);
            let ghost prev = r@;
            let g = DuplicateGroup { hash, paths };
            r.push(g);
            assert(group_starts(s, (i + 1) as nat) == before.push(i as int));
            assert(groups_view(r@) =~= groups_view(prev).push((g.hash@, strs_view(g.paths@))));
            assert(before.push(i as int).map_values(f) =~= before.map_values(f).push(f(i as int)));
        } else {
            assert(group_starts(s, (i + 1) as nat) == before);
        }
        seen.insert(h.clone());
        assert forall|q: Seq<char>|
            seen@.contains(q) <==> exists|j: int| 0 <= j < i + 1 && #[trigger] s[j].hash == q by {
            if q == hv {
                assert(s[i as int].hash == q);
            }
        }
    }
    assert(s.len() == index.photos@.len());
    r
}

/// The characters of each present string.
pub open spec fn opt_strs_view(v: Seq<Option<String>>) -> Seq<Option<Seq<char>>> {
    v.map_values(|o: Option<String>| match o {
        Some(t) => Some(t@),
        None => None,
    })
}

/// A problem found when re-hashing an indexed file.
#[derive(Clone, Debug, PartialEq, Eq)]
pub enum IntegrityProblem {
    /// The file could not be read.
    Unreadable { path: String },
    /// The contents no longer match the recorded hash.
    HashMismatch { path: String, recorded: String, actual: String },
}

/// What an integrity problem stands for.
pub enum IntegrityModel {
    Unreadable(Seq<char>),
    HashMismatch(Seq<char>, Seq<char>, Seq<char>),
}

impl View for IntegrityProblem {
    type V = IntegrityModel;

    open spec fn view(&self) -> IntegrityModel {
        match self {
            IntegrityProblem::Unreadable { path } => IntegrityModel::Unreadable(path@),
            IntegrityProblem::HashMismatch { path, recorded, actual } => IntegrityModel::HashMismatch(
                path@,
                recorded@,
                actual@,
            ),
        }
    }
}

/// The problems of the entries `s` given the hash of each file as read now
/// (`None` where a file could not be read), in index order.
pub open spec fn integrity_problems(
    s: Seq<EntryModel>,
    actual: Seq<Option<Seq<char>>>,
) -> Seq<IntegrityModel>
    decreases s.len(),
{
    if s.len() == 0 || actual.len() == 0 {
        Seq::empty()
    } else {
        let prev = integrity_problems(s.drop_last(), actual.drop_last());
        let e = s.last();
        match actual.last() {
            None => prev.push(IntegrityModel::Unreadable(e.path)),
            Some(h) => if h == e.hash {
                prev
            } else {
                prev.push(IntegrityModel::HashMismatch(e.path, e.hash, h))
            },
        }
    }
}

/// The models of a sequence of integrity problems.
pub open spec fn problems_view(v: Seq<IntegrityProblem>) -> Seq<IntegrityModel> {
    v.map_values(|p: IntegrityProblem| p@)
}

/// Compare each entry's recorded hash with `actual`, the hash of its file as
/// read now (`None` where the file could not be read), position by position.
/// Every unreadable file and every mismatch is reported, in index order.
pub fn check_hashes(index: &Index, actual: &Vec<Option<String>>) -> (r: Vec<IntegrityProblem>)
    requires
        actual@.len() == index.photos@.len(),
    ensures
        problems_view(r@) == integrity_problems(index.entries(), opt_strs_view(actual@)),
{
    let ghost s = index.entries();
    let ghost a = opt_strs_view(actual@);
    let mut r: Vec<IntegrityProblem> = Vec::new();
    for i in 0..index.photos.len()
        invariant
            s == index.entries(),
            a == opt_strs_view(actual@),
            s.len() == index.photos@.len(),
            a.len() == s.len(),
            problems_view(r@) == integrity_problems(s.subrange(0, i as int), a.subrange(0, i as int)),
    {
        assert(s.subrange(0, i + 1).drop_last() =~= s.subrange(0, i as int));
        assert(a.subrange(0, i + 1).drop_last() =~= a.subrange(0, i as int));
        let e = &index.photos[i];
        assert(s.subrange(0, i + 1).last() == e@);
        let ghost prev = r@;
        match &actual[i] {
            None => {
                let p = IntegrityProblem::Unreadable { path: e.filepath.clone() };
                r.push(p);
                assert(problems_view(r@) =~= problems_view(prev).push(p@));
            },
            Some(h) => {
                assert(a.subrange(0, i + 1).last() == Some(h@));
                if *h != e.filehash {
                    let p = IntegrityProblem::HashMismatch {
                        path: e.filepath.clone(),
                        recorded: e.filehash.clone(),
                        actual: h.clone(),
                    };
                    r.push(p);
                    assert(problems_view(r@) =~= problems_view(prev).push(p@));
                }
            },
        }
    }
    assert(s.subrange(0, s.len() as int) =~= s);
    assert(a.subrange(0, a.len() as int) =~= a);
    r
}

/// A naming problem of an indexed file.
#[derive(Clone, Debug, PartialEq, Eq)]
pub enum NamingIssue {
    /// Its name cannot be checked: its metadata could not be read (`None`),
    /// or no canonical name follows from it.
    Unverifiable { path: String, reason: Option<NamingError> },
    /// Its name differs from its canonical name.
    Misnamed { path: String, expected: String },
}

/// What a naming issue stands for.
pub enum NamingIssueModel {
    Unverifiable(Seq<char>, Option<NamingError>),
    Misnamed(Seq<char>, Seq<char>),
}

impl View for NamingIssue {
    type V = NamingIssueModel;

    open spec fn view(&self) -> NamingIssueModel {
        match self {
            NamingIssue::Unverifiable { path, reason } => NamingIssueModel::Unverifiable(path@, *reason),
            NamingIssue::Misnamed { path, expected } => NamingIssueModel::Misnamed(path@, expected@),
        }
    }
}

/// The models of a sequence of naming issues.
pub open spec fn issues_view(v: Seq<NamingIssue>) -> Seq<NamingIssueModel> {
    v.map_values(|i: NamingIssue| i@)
}

/// The naming issues of the entries `s`, given the capture time found in
/// each file's metadata (`None` where the metadata could not be read), in
/// index order.
pub open spec fn naming_issues(
    s: Seq<EntryModel>,
    stamps: Seq<Option<Option<crate::naming::LocalTimestamp>>>,
    scheme: Seq<char>,
    types: Seq<(Seq<char>, Seq<Seq<char>>)>,
) -> Seq<NamingIssueModel>
    decreases s.len(),
{
    if s.len() == 0 || stamps.len() == 0 {
        Seq::empty()
    } else {
        let prev = naming_issues(s.drop_last(), stamps.drop_last(), scheme, types);
        let path = s.last().path;
        match stamps.last() {
            None => prev.push(NamingIssueModel::Unverifiable(path, None)),
            Some(stamp) => match canonical_name_of_path(path, stamp, scheme, types) {
                Err(e) => prev.push(NamingIssueModel::Unverifiable(path, Some(e))),
                Ok(n) => if n == file_name_of(path) {
                    prev
                } else {
                    prev.push(NamingIssueModel::Misnamed(path, n))
                },
            },
        }
    }
}

/// The capture time of each metadata record, `None` where there is no record.
pub open spec fn stamps_view(v: Seq<Option<PhotoMetaData>>) -> Seq<Option<Option<crate::naming::LocalTimestamp>>> {
    v.map_values(|m: Option<PhotoMetaData>| match m {
        Some(md) => Some(md.timestamp_local),
        None => None,
    })
}

/// Compare each entry's file name with its canonical name under the index's
/// configuration. `metadata[i]` is the metadata of the `i`-th entry's file,
/// `None` where it could not be read. Files whose name cannot be checked and
/// misnamed files are reported, in index order.
pub fn check_photo_naming(index: &Index, metadata: &Vec<Option<PhotoMetaData>>) -> (r: Vec<NamingIssue>)
    requires
        metadata@.len() == index.photos@.len(),
    ensures
        issues_view(r@) == naming_issues(
            index.entries(),
            stamps_view(metadata@),
            index.user_config.file_naming_scheme@,
            index.user_config.types_view(),
        ),
{
    let ghost s = index.entries();
    let ghost m = stamps_view(metadata@);
    let ghost scheme = index.user_config.file_naming_scheme@;
    let ghost types = index.user_config.types_view();
    let mut r: Vec<NamingIssue> = Vec::new();
    for i in 0..index.photos.len()
        invariant
            s == index.entries(),
            m == stamps_view(metadata@),
            scheme == index.user_config.file_naming_scheme@,
            types == index.user_config.types_view(),
            s.len() == index.photos@.len(),
            m.len() == s.len(),
            issues_view(r@) == naming_issues(s.subrange(0, i as int), m.subrange(0, i as int), scheme, types),
    {
        assert(s.subrange(0, i + 1).drop_last() =~= s.subrange(0, i as int));
        assert(m.subrange(0, i + 1).drop_last() =~= m.subrange(0, i as int));
        let e = &index.photos[i];
        assert(s.subrange(0, i + 1).last() == e@);
        let ghost prev = r@;
        match &metadata[i] {
            None => {
                let issue = NamingIssue::Unverifiable { path: e.filepath.clone(), reason: None };
                r.push(issue);
                assert(issues_view(r@) =~= issues_view(prev).push(issue@));
            },
            Some(md) => {
                assert(m.subrange(0, i + 1).last() == Some(md.timestamp_local));
                match get_canonical_photo_filename(e.filepath.as_str(), md, &index.user_config) {
                    Err(err) => {
                        let issue = NamingIssue::Unverifiable { path: e.filepath.clone(), reason: Some(err) };
                        r.push(issue);
                        assert(issues_view(r@) =~= issues_view(prev).push(issue@));
                    },
                    Ok(n) => {
                        let current = file_name(e.filepath.as_str());
                        if n != current {
                            let issue = NamingIssue::Misnamed { path: e.filepath.clone(), expected: n };
                            r.push(issue);
                            assert(issues_view(r@) =~= issues_view(prev).push(issue@));
                        }
                    },
                }
            },
        }
    }
    assert(s.subrange(0, s.len() as int) =~= s);
    assert(m.subrange(0, m.len() as int) =~= m);
    r
}

} // verus!
