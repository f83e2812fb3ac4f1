//! The order of paths: lexicographic by character (which is also the byte
//! order of their UTF-8 text), and sorting by it.

use vstd::prelude::*;
use vstd::seq_lib::to_multiset_insert;
use crate::index::{Index, IndexEntry, EntryModel, entries_view, paths_unique};
use crate::text::{strs_view, chars_of};

verus! {

/// `a` comes before `b`, or equals it, character by character.
pub open spec fn path_le(a: Seq<char>, b: Seq<char>) -> bool
    decreases a.len(),
{
    if a.len() == 0 {
        true
    } else if b.len() == 0 {
        false
    } else if a[0] != b[0] {
        a[0] < b[0]
    } else {
        path_le(a.drop_first(), b.drop_first())
    }
}

/// Any two paths are ordered one way or the other.
pub proof fn lemma_path_le_total(a: Seq<char>, b: Seq<char>)
    ensures
        path_le(a, b) || path_le(b, a),
    decreases a.len(),
{
    if a.len() > 0 && b.len() > 0 {
        if a[0] == b[0] {
            lemma_path_le_total(a.drop_first(), b.drop_first());
        } else {
            assert(a[0] < b[0] || b[0] < a[0]);
        }
    }
}

/// The order is transitive.
pub proof fn lemma_path_le_trans(a: Seq<char>, b: Seq<char>, c: Seq<char>)
    requires
        path_le(a, b),
        path_le(b, c),
    ensures
        path_le(a, c),
    decreases a.len(),
{
    if a.len() > 0 && b.len() > 0 && c.len() > 0 && a[0] == b[0] && b[0] == c[0] {
        lemma_path_le_trans(a.drop_first(), b.drop_first(), c.drop_first());
    }
}

/// The sorting key of a path: the path itself.
pub open spec fn path_key() -> spec_fn(Seq<char>) -> Seq<char> {
    |p: Seq<char>| p
}

/// The sorting key of an index entry: its path.
pub open spec fn entry_key() -> spec_fn(EntryModel) -> Seq<char> {
    |e: EntryModel| e.path
}

/// `x` inserted into `s` before the first element whose key is not below `x`'s.
pub open spec fn insert_sorted<A>(s: Seq<A>, x: A, key: spec_fn(A) -> Seq<char>) -> Seq<A>
    decreases s.len(),
{
    if s.len() == 0 {
        seq![x]
    } else if path_le(key(x), key(s[0])) {
        seq![x] + s
    } else {
        seq![s[0]] + insert_sorted(s.drop_first(), x, key)
    }
}

/// `s` sorted by key; elements with equal keys keep their order.
pub open spec fn sorted_by<A>(s: Seq<A>, key: spec_fn(A) -> Seq<char>) -> Seq<A>
    decreases s.len(),
{
    if s.len() == 0 {
        Seq::empty()
    } else {
        insert_sorted(sorted_by(s.drop_last(), key), s.last(), key)
    }
}

/// The keys of `s` never decrease.
pub open spec fn is_sorted_by<A>(s: Seq<A>, key: spec_fn(A) -> Seq<char>) -> bool {
    forall|i: int, j: int| 0 <= i < j < s.len() ==> path_le(key(s[i]), key(s[j]))
}

/// Inserting before the first element whose key is not below `x`'s is `insert_sorted`.
pub proof fn lemma_insert_at<A>(s: Seq<A>, x: A, key: spec_fn(A) -> Seq<char>, k: int)
    requires
        0 <= k <= s.len(),
        forall|j: int| 0 <= j < k ==> !path_le(key(x), key(#[trigger] s[j])),
        k < s.len() ==> path_le(key(x), key(s[k])),
    ensures
        insert_sorted(s, x, key) == s.insert(k, x),
    decreases s.len(),
{
    if k == 0 {
        assert(insert_sorted(s, x, key) =~= s.insert(k, x));
    } else {
        let d = s.drop_first();
        assert(!path_le(key(x), key(s[0])));
        assert forall|j: int| 0 <= j < k - 1 implies !path_le(key(x), key(#[trigger] d[j])) by {
            assert(d[j] == s[j + 1]);
        }
        lemma_insert_at(d, x, key, k - 1);
        assert(insert_sorted(s, x, key) =~= s.insert(k, x));
    }
}

/// In a sorted sequence, inserting at the end of the elements below `x`
/// keeps it sorted and gives `insert_sorted`.
pub proof fn lemma_insert_into_sorted<A>(s: Seq<A>, x: A, key: spec_fn(A) -> Seq<char>, k: int)
    requires
        is_sorted_by(s, key),
        0 <= k <= s.len(),
        k > 0 ==> !path_le(key(x), key(s[k - 1])),
        forall|j: int| k <= j < s.len() ==> path_le(key(x), key(#[trigger] s[j])),
    ensures
        insert_sorted(s, x, key) == s.insert(k, x),
        is_sorted_by(s.insert(k, x), key),
        s.insert(k, x).to_multiset() == s.to_multiset().insert(x),
{
    assert forall|j: int| 0 <= j < k implies !path_le(key(x), key(#[trigger] s[j])) by {
        if path_le(key(x), key(s[j])) && j < k - 1 {
            lemma_path_le_trans(key(x), key(s[j]), key(s[k - 1]));
        }
    }
    lemma_insert_at(s, x, key, k);
    let t = s.insert(k, x);
    assert forall|i: int, j: int| 0 <= i < j < t.len() implies path_le(key(t[i]), key(t[j])) by {
        if j < k {
            assert(t[i] == s[i] && t[j] == s[j]);
        } else if j == k {
            assert(t[i] == s[i]);
            lemma_path_le_total(key(x), key(s[i]));
        } else if i > k {
            assert(t[i] == s[i - 1] && t[j] == s[j - 1]);
        } else if i == k {
            assert(t[j] == s[j - 1]);
        } else {
            assert(t[i] == s[i] && t[j] == s[j - 1]);
            lemma_path_le_total(key(x), key(s[i]));
            lemma_path_le_trans(key(s[i]), key(x), key(s[j - 1]));
        }
    }
    to_multiset_insert(s, k, x);
}

/// How many elements at the front of `r` have keys below `x`'s.
pub open spec fn count_below<A>(r: Seq<A>, x: A, key: spec_fn(A) -> Seq<char>) -> int
    decreases r.len(),
{
    if r.len() == 0 {
        0
    } else if path_le(key(x), key(r[0])) {
        0
    } else {
        1 + count_below(r.drop_first(), x, key)
    }
}

/// `count_below` is a position of `r` or just past it; the elements before
/// it are below `x` and the one at it is not.
pub proof fn lemma_count_below<A>(r: Seq<A>, x: A, key: spec_fn(A) -> Seq<char>)
    ensures
        0 <= count_below(r, x, key) <= r.len(),
        forall|j: int| 0 <= j < count_below(r, x, key) ==> !path_le(key(x), key(#[trigger] r[j])),
        count_below(r, x, key) < r.len() ==> path_le(key(x), key(r[count_below(r, x, key)])),
    decreases r.len(),
{
    if r.len() > 0 && !path_le(key(x), key(r[0])) {
        let d = r.drop_first();
        lemma_count_below(d, x, key);
        assert forall|j: int| 0 <= j < count_below(r, x, key) implies !path_le(key(x), key(#[trigger] r[j])) by {
            if j > 0 {
                assert(r[j] == d[j - 1]);
            }
        }
        if count_below(r, x, key) < r.len() {
            assert(r[count_below(r, x, key)] == d[count_below(d, x, key)]);
        }
    }
}

/// A single element is sorted.
pub proof fn lemma_sorted_single<A>(x: A, key: spec_fn(A) -> Seq<char>)
    ensures
        sorted_by(seq![x], key) == seq![x],
{
    assert(seq![x].drop_last() =~= Seq::<A>::empty());
    assert(sorted_by(Seq::<A>::empty(), key) == Seq::<A>::empty());
    assert(seq![x].last() == x);
    assert(insert_sorted(Seq::<A>::empty(), x, key) == seq![x]);
}

/// `sorted_by` sorts, and only rearranges.
pub proof fn lemma_sorted_by<A>(s: Seq<A>, key: spec_fn(A) -> Seq<char>)
    ensures
        is_sorted_by(sorted_by(s, key), key),
        sorted_by(s, key).to_multiset() == s.to_multiset(),
        sorted_by(s, key).len() == s.len(),
    decreases s.len(),
{
    broadcast use vstd::seq_lib::group_to_multiset_ensures;

    if s.len() == 0 {
        assert(sorted_by(s, key).to_multiset() =~= s.to_multiset());
    } else {
        let d = s.drop_last();
        let x = s.last();
        lemma_sorted_by(d, key);
        let r = sorted_by(d, key);
        lemma_count_below(r, x, key);
        let k = count_below(r, x, key);
        assert forall|j: int| k <= j < r.len() implies path_le(key(x), key(#[trigger] r[j])) by {
            if j > k {
                lemma_path_le_trans(key(x), key(r[k]), key(r[j]));
            }
        }
        lemma_insert_into_sorted(r, x, key, k);
        assert(s =~= d.push(x));
        vstd::seq_lib::to_multiset_build(d, x);
        assert(r.to_multiset().len() == r.len());
        assert(r.insert(k, x).len() == r.len() + 1);
    }
}

/// Rearranging a sequence without repeated elements repeats none, and
/// keeps which elements it holds.
pub proof fn lemma_permutation_elements<A>(s1: Seq<A>, s2: Seq<A>)
    requires
        s1.to_multiset() == s2.to_multiset(),
    ensures
        forall|x: A| s1.contains(x) <==> s2.contains(x),
        s1.no_duplicates() ==> s2.no_duplicates(),
{
    broadcast use vstd::seq_lib::group_to_multiset_ensures;

    assert forall|x: A| s1.contains(x) <==> s2.contains(x) by {
        assert(s1.contains(x) <==> s1.to_multiset().count(x) > 0);
        assert(s2.contains(x) <==> s2.to_multiset().count(x) > 0);
    }
    if s1.no_duplicates() {
        s1.lemma_multiset_has_no_duplicates();
        assert forall|x: A| s2.contains(x) implies s2.to_multiset().count(x) == 1 by {
            assert(s1.contains(x));
        }
        s2.lemma_multiset_has_no_duplicates_conv();
    }
}

/// Whether `a` comes before `b` or equals it (see `path_le`).
pub fn path_le_exec(a: &Vec<char>, b: &Vec<char>) -> (r: bool)
    ensures
        r == path_le(a@, b@),
{
    let mut i: usize = 0;
    assert(a@.subrange(0, a@.len() as int) =~= a@);
    assert(b@.subrange(0, b@.len() as int) =~= b@);
    loop
        invariant
            i <= a@.len(),
            i <= b@.len(),
            path_le(a@, b@) == path_le(
                a@.subrange(i as int, a@.len() as int),
                b@.subrange(i as int, b@.len() as int),
            ),
        decreases a@.len() - i,
    {
        let ghost ra = a@.subrange(i as int, a@.len() as int);
        let ghost rb = b@.subrange(i as int, b@.len() as int);
        if i == a.len() {
            return true;
        }
        if i == b.len() {
            return false;
        }
        assert(ra[0] == a@[i as int] && rb[0] == b@[i as int]);
        if a[i] != b[i] {
            return a[i] < b[i];
        }
        assert(ra.drop_first() =~= a@.subrange(i + 1, a@.len() as int));
        assert(rb.drop_first() =~= b@.subrange(i + 1, b@.len() as int));
        i = i + 1;
    }
}

/// Sort the paths by `path_le`; equal paths keep their order.
pub fn sort_paths(v: &mut Vec<String>)
    ensures
        strs_view(final(v)@) == sorted_by(strs_view(old(v)@), path_key()),
        is_sorted_by(strs_view(final(v)@), path_key()),
        strs_view(final(v)@).to_multiset() == strs_view(old(v)@).to_multiset(),
{
    broadcast use vstd::seq_lib::group_to_multiset_ensures;

    let ghost s = strs_view(v@);
    let mut r: Vec<String> = Vec::new();
    let mut keys: Vec<Vec<char>> = Vec::new();
    assert(s.subrange(0, 0) =~= Seq::<Seq<char>>::empty());
    for i in 0..v.len()
        invariant
            s == strs_view(v@),
            s.len() == v@.len(),
            r@.len() == keys@.len(),
            forall|j: int| 0 <= j < keys@.len() ==> #[trigger] keys@[j]@ == r@[j]@,
            strs_view(r@) == sorted_by(s.subrange(0, i as int), path_key()),
            is_sorted_by(strs_view(r@), path_key()),
            strs_view(r@).to_multiset() == s.subrange(0, i as int).to_multiset(),
    {
        let x = v[i].clone();
        let xk = chars_of(x.as_str());
        let ghost rv = strs_view(r@);
        let mut k: usize = r.len();
        while k > 0 && path_le_exec(&xk, &keys[k - 1])
            invariant
                k <= r@.len(),
                rv == strs_view(r@),
                r@.len() == keys@.len(),
                forall|j: int| 0 <= j < keys@.len() ==> #[trigger] keys@[j]@ == r@[j]@,
                xk@ == x@,
                forall|j: int| k <= j < rv.len() ==> path_le(x@, #[trigger] rv[j]),
            decreases k,
        {
            assert(keys@[k - 1]@ == rv[k - 1]);
            k = k - 1;
        }
        proof {
            if k > 0 {
                assert(keys@[k - 1]@ == rv[k - 1]);
            }
            lemma_insert_into_sorted(rv, x@, path_key(), k as int);
            assert(s.subrange(0, i + 1).drop_last() =~= s.subrange(0, i as int));
            assert(s.subrange(0, i + 1) =~= s.subrange(0, i as int).push(x@));
            vstd::seq_lib::to_multiset_build(s.subrange(0, i as int), x@);
        }
        let ghost keys_before = keys@;
        let ghost r_before = r@;
        r.insert(k, x);
        keys.insert(k, xk);
        assert(strs_view(r@) =~= rv.insert(k as int, x@));
        assert forall|j: int| 0 <= j < keys@.len() implies #[trigger] keys@[j]@ == r@[j]@ by {
            if j < k {
                assert(keys@[j] == keys_before[j] && r@[j] == r_before[j]);
            } else if j > k {
                assert(keys@[j] == keys_before[j - 1] && r@[j] == r_before[j - 1]);
            }
        }
    }
    assert(s.subrange(0, s.len() as int) =~= s);
    *v = r;
}

/// Sort the entries by path; entries with equal paths keep their order.
pub fn sort_entries(v: &mut Vec<IndexEntry>)
    ensures
        entries_view(final(v)@) == sorted_by(entries_view(old(v)@), entry_key()),
        is_sorted_by(entries_view(final(v)@), entry_key()),
        entries_view(final(v)@).to_multiset() == entries_view(old(v)@).to_multiset(),
{
    broadcast use vstd::seq_lib::group_to_multiset_ensures;

    let ghost s = entries_view(v@);
    let mut r: Vec<IndexEntry> = Vec::new();
    let mut keys: Vec<Vec<char>> = Vec::new();
    assert(s.subrange(0, 0) =~= Seq::<EntryModel>::empty());
    for i in 0..v.len()
        invariant
            s == entries_view(v@),
            s.len() == v@.len(),
            r@.len() == keys@.len(),
            forall|j: int| 0 <= j < keys@.len() ==> #[trigger] keys@[j]@ == r@[j]@.path,
            entries_view(r@) == sorted_by(s.subrange(0, i as int), entry_key()),
            is_sorted_by(entries_view(r@), entry_key()),
            entries_view(r@).to_multiset() == s.subrange(0, i as int).to_multiset(),
    {
        let e = &v[i];
        let x = IndexEntry {
            filepath: e.filepath.clone(),
            orig_filename: e.orig_filename.clone(),
            filehash: e.filehash.clone(),
        };
        let xk = chars_of(x.filepath.as_str());
        let ghost rv = entries_view(r@);
        let mut k: usize = r.len();
        while k > 0 && path_le_exec(&xk, &keys[k - 1])
            invariant
                k <= r@.len(),
                rv == entries_view(r@),
                r@.len() == keys@.len(),
                forall|j: int| 0 <= j < keys@.len() ==> #[trigger] keys@[j]@ == r@[j]@.path,
                xk@ == x@.path,
                forall|j: int| k <= j < rv.len() ==> path_le(x@.path, #[trigger] rv[j].path),
            decreases k,
        {
            assert(keys@[k - 1]@ == rv[k - 1].path);
            k = k - 1;
        }
        proof {
            if k > 0 {
                assert(keys@[k - 1]@ == rv[k - 1].path);
            }
            lemma_insert_into_sorted(rv, x@, entry_key(), k as int);
            assert(s.subrange(0, i + 1).drop_last() =~= s.subrange(0, i as int));
            assert(s.subrange(0, i + 1) =~= s.subrange(0, i as int).push(x@));
            vstd::seq_lib::to_multiset_build(s.subrange(0, i as int), x@);
        }
        let ghost keys_before = keys@;
        let ghost r_before = r@;
        let ghost xv = x@;
        r.insert(k, x);
        keys.insert(k, xk);
        assert(entries_view(r@) =~= rv.insert(k as int, xv));
        assert forall|j: int| 0 <= j < keys@.len() implies #[trigger] keys@[j]@ == r@[j]@.path by {
            if j < k {
                assert(keys@[j] == keys_before[j] && r@[j] == r_before[j]);
            } else if j > k {
                assert(keys@[j] == keys_before[j - 1] && r@[j] == r_before[j - 1]);
            }
        }
    }
    assert(s.subrange(0, s.len() as int) =~= s);
    *v = r;
}

/// A rearrangement of entries with unique paths has unique paths.
pub proof fn lemma_permutation_keeps_paths_unique(s1: Seq<EntryModel>, s2: Seq<EntryModel>)
    requires
        paths_unique(s1),
        s1.to_multiset() == s2.to_multiset(),
    ensures
        paths_unique(s2),
{
    broadcast use vstd::seq_lib::group_to_multiset_ensures;

    assert(s1.no_duplicates()) by {
        assert forall|i: int, j: int| 0 <= i < s1.len() && 0 <= j < s1.len() && i != j implies s1[i]
            != s1[j] by {
            if i < j {
                assert(s1[i].path != s1[j].path);
            } else {
                assert(s1[j].path != s1[i].path);
            }
        }
    }
    s1.lemma_multiset_has_no_duplicates();
    assert forall|x: EntryModel| s2.contains(x) implies s2.to_multiset().count(x) == 1 by {
        assert(s2.to_multiset().count(x) > 0);
        assert(s1.contains(x));
    }
    s2.lemma_multiset_has_no_duplicates_conv();
    assert forall|i: int, j: int| 0 <= i < j < s2.len() implies s2[i].path != s2[j].path by {
        assert(s2[i] != s2[j]);
        assert(s2.contains(s2[i]) && s2.contains(s2[j]));
        assert(s1.to_multiset().count(s2[i]) > 0 && s1.to_multiset().count(s2[j]) > 0);
        let a = choose|a: int| 0 <= a < s1.len() && s1[a] == s2[i];
        let b = choose|b: int| 0 <= b < s1.len() && s1[b] == s2[j];
        assert(a != b);
        if a < b {
            assert(s1[a].path != s1[b].path);
        } else {
            assert(s1[b].path != s1[a].path);
        }
    }
}

/// Sort the index entries by path, as the index file stores them. The
/// entries stay the same, only their order changes.
pub fn sort_photos_by_path(index: &mut Index)
    ensures
        final(index).user_config == old(index).user_config,
        final(index).entries() == sorted_by(old(index).entries(), entry_key()),
        is_sorted_by(final(index).entries(), entry_key()),
        final(index).entries().to_multiset() == old(index).entries().to_multiset(),
        old(index).wf() ==> final(index).wf(),
{
    let ghost before = index.entries();
    sort_entries(&mut index.photos);
    proof {
        if paths_unique(before) {
            lemma_permutation_keeps_paths_unique(before, index.entries());
        }
    }
}

} // verus!
