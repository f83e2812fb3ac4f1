//! Reconciliation of the index with the files found on disk.
//!
//! Paths that are both indexed and found are left alone. Indexed paths that
//! are no longer found form a pool of candidates, sorted by path. Each newly
//! found path, taken in path order, takes over the first pool entry whose
//! hash equals its own: that is a rename, and the entry keeps its original
//! file name. A new path without such an entry is an addition. Pool entries
//! that nothing took over are deletions. Sorting both sides makes the choice
//! among entries with equal contents independent of the order in which the
//! index and the scan list them.

use vstd::prelude::*;
use crate::collection::{Photo, photos_view, photo_paths};
use crate::index::{Index, IndexEntry, EntryModel, entries_view, paths_of, paths_unique};
use vstd::hash_set::StringHashSet;
use crate::text::{strs_view, set_of, file_name, file_name_of};
use crate::order::{sorted_by, path_key, entry_key, sort_paths, sort_entries, lemma_sorted_by, lemma_sorted_single, lemma_permutation_elements};

verus! {

/// Entries whose path is still found, in index order.
pub open spec fn kept_entries(s: Seq<EntryModel>, live: Seq<Seq<char>>) -> Seq<EntryModel>
    decreases s.len(),
{
    if s.len() == 0 {
        Seq::empty()
    } else {
        let k = kept_entries(s.drop_last(), live);
        if live.contains(s.last().path) {
            k.push(s.last())
        } else {
            k
        }
    }
}

/// Entries whose path is no longer found, in index order.
pub open spec fn missing_entries(s: Seq<EntryModel>, live: Seq<Seq<char>>) -> Seq<EntryModel>
    decreases s.len(),
{
    if s.len() == 0 {
        Seq::empty()
    } else {
        let m = missing_entries(s.drop_last(), live);
        if live.contains(s.last().path) {
            m
        } else {
            m.push(s.last())
        }
    }
}

/// Found paths that are not indexed, each once, in the order first found.
pub open spec fn fresh_paths(indexed: Seq<Seq<char>>, live: Seq<Seq<char>>) -> Seq<Seq<char>>
    decreases live.len(),
{
    if live.len() == 0 {
        Seq::empty()
    } else {
        let f = fresh_paths(indexed, live.drop_last());
        let p = live.last();
        if indexed.contains(p) || f.contains(p) {
            f
        } else {
            f.push(p)
        }
    }
}

/// State of the matching of new paths against the pool of missing entries.
pub struct Placement {
    /// Missing entries not taken over yet, in index order.
    pub pool: Seq<EntryModel>,
    /// Entries made for the new paths, in order.
    pub entries: Seq<EntryModel>,
    /// New paths that matched no pool entry.
    pub added: Seq<Seq<char>>,
    /// (old path, new path) of each rename.
    pub renamed: Seq<(Seq<char>, Seq<char>)>,
}

/// Position of the first entry of `pool` with hash `h`, or `pool.len()`.
pub open spec fn first_with_hash(pool: Seq<EntryModel>, h: Seq<char>) -> int
    decreases pool.len(),
{
    if pool.len() == 0 {
        0
    } else if pool[0].hash == h {
        0
    } else {
        1 + first_with_hash(pool.drop_first(), h)
    }
}

/// Place the new path `p`, whose content hash is `h`.
pub open spec fn place(st: Placement, p: Seq<char>, h: Seq<char>) -> Placement {
    let k = first_with_hash(st.pool, h);
    if k < st.pool.len() {
        let m = st.pool[k];
        Placement {
            pool: st.pool.remove(k),
            entries: st.entries.push(
                EntryModel { path: p, orig_filename: m.orig_filename, hash: m.hash },
            ),
            added: st.added,
            renamed: st.renamed.push((m.path, p)),
        }
    } else {
        Placement {
            pool: st.pool,
            entries: st.entries.push(EntryModel { path: p, orig_filename: file_name_of(p), hash: h }),
            added: st.added.push(p),
            renamed: st.renamed,
        }
    }
}

/// Place the new paths `fresh` one after the other; `hashes[i]` is the hash of `fresh[i]`.
pub open spec fn place_all(
    pool: Seq<EntryModel>,
    fresh: Seq<Seq<char>>,
    hashes: Seq<Seq<char>>,
) -> Placement
    decreases fresh.len(),
{
    if fresh.len() == 0 {
        Placement { pool, entries: Seq::empty(), added: Seq::empty(), renamed: Seq::empty() }
    } else {
        place(place_all(pool, fresh.drop_last(), hashes), fresh.last(), hashes[fresh.len() - 1])
    }
}

/// The new paths of `live`, in path order: the order in which they are
/// hashed and placed.
pub open spec fn new_path_order(indexed: Seq<Seq<char>>, live: Seq<Seq<char>>) -> Seq<Seq<char>> {
    sorted_by(fresh_paths(indexed, live), path_key())
}

/// The outcome of matching the new paths of `live`, in path order, against
/// the missing entries of `s`, sorted by path; `hashes[i]` is the hash of
/// the `i`-th new path in path order.
pub open spec fn placement(
    s: Seq<EntryModel>,
    live: Seq<Seq<char>>,
    hashes: Seq<Seq<char>>,
) -> Placement {
    place_all(
        sorted_by(missing_entries(s, live), entry_key()),
        new_path_order(paths_of(s), live),
        hashes,
    )
}

/// The entries of the reconciled index: the kept ones, then those of the new paths.
pub open spec fn reconciled(
    s: Seq<EntryModel>,
    live: Seq<Seq<char>>,
    hashes: Seq<Seq<char>>,
) -> Seq<EntryModel> {
    kept_entries(s, live) + placement(s, live, hashes).entries
}

/// Whether reconciliation changes the index.
pub open spec fn changes(s: Seq<EntryModel>, live: Seq<Seq<char>>, hashes: Seq<Seq<char>>) -> bool {
    let pl = placement(s, live, hashes);
    pl.added.len() > 0 || pl.renamed.len() > 0 || pl.pool.len() > 0
}

/// The characters of each pair of strings.
pub open spec fn pairs_view(v: Seq<(String, String)>) -> Seq<(Seq<char>, Seq<char>)> {
    v.map_values(|p: (String, String)| (p.0@, p.1@))
}

/// What reconciliation changed.
#[derive(Clone, Debug, PartialEq, Eq)]
pub struct ReconciliationResult {
    /// New paths whose content matched no vanished entry.
    pub added: Vec<String>,
    /// Vanished paths whose content was not found again.
    pub deleted: Vec<String>,
    /// (old path, new path) of each file found again under another path.
    pub renamed: Vec<(String, String)>,
}

impl ReconciliationResult {
    /// Whether anything was added, deleted or renamed.
    pub fn changed(&self) -> (r: bool)
        ensures
            r == (self.added@.len() > 0 || self.deleted@.len() > 0 || self.renamed@.len() > 0),
    {
        self.added.len() > 0 || self.deleted.len() > 0 || self.renamed.len() > 0
    }
}


/// Kept entries are indexed and found, keep unique paths, and include every found entry.
pub proof fn lemma_kept_entries(s: Seq<EntryModel>, live: Seq<Seq<char>>)
    ensures
        forall|j: int|
            0 <= j < kept_entries(s, live).len() ==> paths_of(s).contains(
                #[trigger] kept_entries(s, live)[j].path,
            ) && live.contains(kept_entries(s, live)[j].path),
        paths_unique(s) ==> paths_unique(kept_entries(s, live)),
        forall|i: int|
            0 <= i < s.len() && live.contains(#[trigger] s[i].path) ==> paths_of(
                kept_entries(s, live),
            ).contains(s[i].path),
    decreases s.len(),
{
    if s.len() > 0 {
        let d = s.drop_last();
        lemma_kept_entries(d, live);
        let k = kept_entries(d, live);
        assert forall|j: int| 0 <= j < kept_entries(s, live).len() implies paths_of(s).contains(
            #[trigger] kept_entries(s, live)[j].path,
        ) && live.contains(kept_entries(s, live)[j].path) by {
            if j < k.len() {
                let t = choose|t: int| 0 <= t < paths_of(d).len() && paths_of(d)[t] == k[j].path;
                assert(paths_of(s)[t] == k[j].path);
            } else {
                assert(paths_of(s)[s.len() - 1] == s.last().path);
            }
        }
        if paths_unique(s) {
            assert(paths_unique(d));
            assert forall|j: int| 0 <= j < k.len() implies #[trigger] k[j].path != s.last().path by {
                let t = choose|t: int| 0 <= t < paths_of(d).len() && paths_of(d)[t] == k[j].path;
                assert(d[t].path == k[j].path);
                assert(s[t].path == k[j].path);
            }
        }
        assert forall|i: int| 0 <= i < s.len() && live.contains(#[trigger] s[i].path) implies paths_of(
            kept_entries(s, live),
        ).contains(s[i].path) by {
            let ks = kept_entries(s, live);
            if i < s.len() - 1 {
                assert(d[i] == s[i]);
                let t = choose|t: int| 0 <= t < paths_of(k).len() && paths_of(k)[t] == s[i].path;
                assert(paths_of(ks)[t] == s[i].path);
            } else {
                assert(paths_of(ks)[ks.len() - 1] == s[i].path);
            }
        }
    }
}

/// When every entry is found, all are kept and none is missing.
pub proof fn lemma_all_found(s: Seq<EntryModel>, live: Seq<Seq<char>>)
    requires
        forall|i: int| 0 <= i < s.len() ==> live.contains(#[trigger] s[i].path),
    ensures
        kept_entries(s, live) == s,
        missing_entries(s, live).len() == 0,
    decreases s.len(),
{
    if s.len() > 0 {
        let d = s.drop_last();
        assert forall|i: int| 0 <= i < d.len() implies live.contains(#[trigger] d[i].path) by {
            assert(d[i] == s[i]);
        }
        lemma_all_found(d, live);
        assert(live.contains(s[s.len() - 1].path));
        assert(kept_entries(s, live) =~= s);
    }
}

/// New paths are found, not indexed, distinct, and include every found path that is not indexed.
pub proof fn lemma_fresh_paths(indexed: Seq<Seq<char>>, live: Seq<Seq<char>>)
    ensures
        forall|j: int|
            0 <= j < fresh_paths(indexed, live).len() ==> !indexed.contains(
                #[trigger] fresh_paths(indexed, live)[j],
            ) && live.contains(fresh_paths(indexed, live)[j]),
        forall|i: int, j: int|
            0 <= i < j < fresh_paths(indexed, live).len() ==> fresh_paths(indexed, live)[i]
                != fresh_paths(indexed, live)[j],
        forall|p: Seq<char>|
            live.contains(p) && !indexed.contains(p) ==> #[trigger] fresh_paths(
                indexed,
                live,
            ).contains(p),
    decreases live.len(),
{
    if live.len() > 0 {
        let d = live.drop_last();
        lemma_fresh_paths(indexed, d);
        let f = fresh_paths(indexed, d);
        let g = fresh_paths(indexed, live);
        assert forall|j: int| 0 <= j < g.len() implies !indexed.contains(#[trigger] g[j])
            && live.contains(g[j]) by {
            if j < f.len() {
                let t = choose|t: int| 0 <= t < d.len() && d[t] == f[j];
                assert(live[t] == f[j]);
            } else {
                assert(live[live.len() - 1] == g[j]);
            }
        }
        assert forall|p: Seq<char>| live.contains(p) && !indexed.contains(p) implies #[trigger] g.contains(p) by {
            let t = choose|t: int| 0 <= t < live.len() && live[t] == p;
            if t < live.len() - 1 {
                assert(d[t] == p);
                assert(f.contains(p));
                let u = choose|u: int| 0 <= u < f.len() && f[u] == p;
                assert(g[u] == p);
            } else if !f.contains(p) {
                assert(g[g.len() - 1] == p);
            }
        }
    }
}

/// When every found path is indexed, there is no new path.
pub proof fn lemma_no_fresh(indexed: Seq<Seq<char>>, live: Seq<Seq<char>>)
    requires
        forall|p: Seq<char>| live.contains(p) ==> indexed.contains(p),
    ensures
        fresh_paths(indexed, live).len() == 0,
    decreases live.len(),
{
    if live.len() > 0 {
        let d = live.drop_last();
        assert forall|p: Seq<char>| d.contains(p) implies indexed.contains(p) by {
            let t = choose|t: int| 0 <= t < d.len() && d[t] == p;
            assert(live[t] == p);
        }
        lemma_no_fresh(indexed, d);
        assert(live.contains(live[live.len() - 1]));
    }
}

/// The entries made for the new paths carry exactly those paths, in order.
pub proof fn lemma_placed_paths(pool: Seq<EntryModel>, fresh: Seq<Seq<char>>, hashes: Seq<Seq<char>>)
    ensures
        paths_of(place_all(pool, fresh, hashes).entries) == fresh,
    decreases fresh.len(),
{
    if fresh.len() > 0 {
        lemma_placed_paths(pool, fresh.drop_last(), hashes);
        let prev = place_all(pool, fresh.drop_last(), hashes).entries;
        let cur = place_all(pool, fresh, hashes).entries;
        assert(cur.len() == prev.len() + 1 && cur.last().path == fresh.last());
        assert(cur.drop_last() =~= prev);
        assert forall|j: int| 0 <= j < cur.len() implies #[trigger] paths_of(cur)[j] == fresh[j] by {
            if j < prev.len() {
                assert(cur[j] == prev[j]);
                assert(paths_of(prev)[j] == fresh.drop_last()[j]);
            }
        }
        assert(paths_of(cur) =~= fresh);
    } else {
        assert(paths_of(place_all(pool, fresh, hashes).entries) =~= fresh);
    }
}

/// Every entry of the reconciled index has a found path, and every found path has an entry.
pub proof fn lemma_reconciled_paths(s: Seq<EntryModel>, live: Seq<Seq<char>>, hashes: Seq<Seq<char>>)
    ensures
        forall|j: int|
            0 <= j < reconciled(s, live, hashes).len() ==> live.contains(
                #[trigger] reconciled(s, live, hashes)[j].path,
            ),
        forall|p: Seq<char>|
            live.contains(p) ==> #[trigger] paths_of(reconciled(s, live, hashes)).contains(p),
{
    let k = kept_entries(s, live);
    let f = fresh_paths(paths_of(s), live);
    let sf = new_path_order(paths_of(s), live);
    let e = placement(s, live, hashes).entries;
    let r = reconciled(s, live, hashes);
    lemma_kept_entries(s, live);
    lemma_fresh_paths(paths_of(s), live);
    lemma_sorted_by(f, path_key());
    lemma_permutation_elements(f, sf);
    lemma_placed_paths(sorted_by(missing_entries(s, live), entry_key()), sf, hashes);
    assert forall|j: int| 0 <= j < r.len() implies live.contains(#[trigger] r[j].path) by {
        if j < k.len() {
            assert(r[j] == k[j]);
        } else {
            assert(r[j] == e[j - k.len()]);
            assert(paths_of(e)[j - k.len()] == sf[j - k.len()]);
            assert(sf.contains(sf[j - k.len()]));
            let t = choose|t: int| 0 <= t < f.len() && f[t] == sf[j - k.len()];
        }
    }
    assert forall|p: Seq<char>| live.contains(p) implies #[trigger] paths_of(r).contains(p) by {
        if paths_of(s).contains(p) {
            let i = choose|i: int| 0 <= i < paths_of(s).len() && paths_of(s)[i] == p;
            assert(s[i].path == p);
            let t = choose|t: int| 0 <= t < paths_of(k).len() && paths_of(k)[t] == p;
            assert(paths_of(r)[t] == p);
        } else {
            assert(f.contains(p));
            assert(sf.contains(p));
            let t = choose|t: int| 0 <= t < sf.len() && sf[t] == p;
            assert(paths_of(e)[t] == p);
            assert(paths_of(r)[k.len() + t] == p);
        }
    }
}

/// Reconciliation keeps paths unique.
pub proof fn lemma_reconciled_unique(s: Seq<EntryModel>, live: Seq<Seq<char>>, hashes: Seq<Seq<char>>)
    requires
        paths_unique(s),
    ensures
        paths_unique(reconciled(s, live, hashes)),
{
    let k = kept_entries(s, live);
    let f = fresh_paths(paths_of(s), live);
    let sf = new_path_order(paths_of(s), live);
    let e = placement(s, live, hashes).entries;
    let r = reconciled(s, live, hashes);
    lemma_kept_entries(s, live);
    lemma_fresh_paths(paths_of(s), live);
    lemma_sorted_by(f, path_key());
    assert(f.no_duplicates()) by {
        assert forall|i: int, j: int| 0 <= i < f.len() && 0 <= j < f.len() && i != j implies f[i] != f[j] by {
            if i < j {
                assert(f[i] != f[j]);
            } else {
                assert(f[j] != f[i]);
            }
        }
    }
    lemma_permutation_elements(f, sf);
    lemma_placed_paths(sorted_by(missing_entries(s, live), entry_key()), sf, hashes);
    assert forall|i: int, j: int| 0 <= i < j < r.len() implies r[i].path != r[j].path by {
        if j < k.len() {
            assert(r[i] == k[i] && r[j] == k[j]);
        } else if i >= k.len() {
            assert(r[i] == e[i - k.len()] && r[j] == e[j - k.len()]);
            assert(paths_of(e)[i - k.len()] == sf[i - k.len()]);
            assert(paths_of(e)[j - k.len()] == sf[j - k.len()]);
        } else {
            assert(r[i] == k[i] && r[j] == e[j - k.len()]);
            assert(paths_of(e)[j - k.len()] == sf[j - k.len()]);
            assert(sf.contains(sf[j - k.len()]));
            let t = choose|t: int| 0 <= t < f.len() && f[t] == sf[j - k.len()];
            assert(paths_of(s).contains(k[i].path));
        }
    }
}

/// `first_with_hash` is a position of the pool, or just past it.
pub proof fn lemma_first_with_hash_bounds(pool: Seq<EntryModel>, h: Seq<char>)
    ensures
        0 <= first_with_hash(pool, h) <= pool.len(),
    decreases pool.len(),
{
    if pool.len() > 0 && pool[0].hash != h {
        lemma_first_with_hash_bounds(pool.drop_first(), h);
    }
}

/// Every new path is either added or renamed to, and every missing entry is
/// either renamed or left in the pool.
pub proof fn lemma_placement_counts(pool: Seq<EntryModel>, fresh: Seq<Seq<char>>, hashes: Seq<Seq<char>>)
    ensures
        place_all(pool, fresh, hashes).added.len() + place_all(pool, fresh, hashes).renamed.len()
            == fresh.len(),
        place_all(pool, fresh, hashes).pool.len() + place_all(pool, fresh, hashes).renamed.len()
            == pool.len(),
    decreases fresh.len(),
{
    if fresh.len() > 0 {
        lemma_placement_counts(pool, fresh.drop_last(), hashes);
        let st = place_all(pool, fresh.drop_last(), hashes);
        let k = first_with_hash(st.pool, hashes[fresh.len() - 1]);
        lemma_first_with_hash_bounds(st.pool, hashes[fresh.len() - 1]);
        if k < st.pool.len() {
            assert(st.pool.remove(k).len() == st.pool.len() - 1);
        }
    }
}

/// Reconciliation reports a change exactly when an indexed path is no
/// longer found or a found path is not indexed.
pub proof fn lemma_changes_iff_paths_differ(s: Seq<EntryModel>, live: Seq<Seq<char>>, hashes: Seq<Seq<char>>)
    ensures
        changes(s, live, hashes) <==> (missing_entries(s, live).len() > 0 || fresh_paths(
            paths_of(s),
            live,
        ).len() > 0),
{
    lemma_placement_counts(missing_entries(s, live), fresh_paths(paths_of(s), live), hashes);
}

/// Reconciling a second time, with the same files found and nothing changed
/// on disk, finds nothing to change and leaves the index as the first run left it.
pub proof fn lemma_update_idempotent(s: Seq<EntryModel>, live: Seq<Seq<char>>, hashes: Seq<Seq<char>>)
    requires
        paths_unique(s),
    ensures
        fresh_paths(paths_of(reconciled(s, live, hashes)), live).len() == 0,
        !changes(reconciled(s, live, hashes), live, Seq::empty()),
        reconciled(reconciled(s, live, hashes), live, Seq::empty()) == reconciled(s, live, hashes),
{
    let r = reconciled(s, live, hashes);
    lemma_reconciled_paths(s, live, hashes);
    lemma_all_found(r, live);
    lemma_no_fresh(paths_of(r), live);
    let f = fresh_paths(paths_of(r), live);
    assert(f =~= Seq::<Seq<char>>::empty());
    assert(missing_entries(r, live) =~= Seq::<EntryModel>::empty());
    assert(reconciled(r, live, Seq::empty()) =~= r);
}

/// A file found again under another path with the same content is a rename,
/// not a deletion and an addition, and its entry keeps the original file name.
pub proof fn lemma_rename_detected(a: Seq<char>, b: Seq<char>, orig: Seq<char>, h: Seq<char>)
    requires
        a != b,
    ensures
        ({
            let s = seq![EntryModel { path: a, orig_filename: orig, hash: h }];
            let live = seq![b];
            let pl = placement(s, live, seq![h]);
            &&& fresh_paths(paths_of(s), live) == seq![b]
            &&& pl.renamed == seq![(a, b)]
            &&& pl.added.len() == 0
            &&& pl.pool.len() == 0
            &&& reconciled(s, live, seq![h]) == seq![
                EntryModel { path: b, orig_filename: orig, hash: h },
            ]
        }),
{
    let e = EntryModel { path: a, orig_filename: orig, hash: h };
    let s = seq![e];
    let live = seq![b];
    assert(s.drop_last() =~= Seq::<EntryModel>::empty());
    assert(live.drop_last() =~= Seq::<Seq<char>>::empty());
    assert(!live.contains(a)) by {
        assert(live[0] != a);
    }
    assert(paths_of(s) =~= seq![a]);
    assert(!paths_of(s).contains(b)) by {
        assert(paths_of(s)[0] != b);
    }
    assert(s.last() == e);
    assert(!live.contains(s.last().path));
    assert(kept_entries(s.drop_last(), live) =~= Seq::<EntryModel>::empty());
    assert(missing_entries(s.drop_last(), live) =~= Seq::<EntryModel>::empty());
    assert(kept_entries(s, live) =~= Seq::<EntryModel>::empty());
    assert(missing_entries(s, live) =~= s);
    assert(fresh_paths(paths_of(s), live.drop_last()) =~= Seq::<Seq<char>>::empty());
    assert(fresh_paths(paths_of(s), live) =~= seq![b]);
    assert(seq![b].drop_last() =~= Seq::<Seq<char>>::empty());
    assert(first_with_hash(s, h) == 0);
    assert(s.remove(0) =~= Seq::<EntryModel>::empty());
    lemma_sorted_single(e, entry_key());
    lemma_sorted_single(b, path_key());
    let base = place_all(s, seq![b].drop_last(), seq![h]);
    assert(base.pool == s);
    assert(seq![h][0] == h);
    assert(placement(s, live, seq![h]) == place(base, b, h));
    assert(placement(s, live, seq![h]).entries =~= seq![EntryModel { path: b, orig_filename: orig, hash: h }]);
    assert(placement(s, live, seq![h]).renamed =~= seq![(a, b)]);
    assert(reconciled(s, live, seq![h]) =~= seq![EntryModel { path: b, orig_filename: orig, hash: h }]);
}

/// A vanished file and an unrelated new file with another content are a
/// deletion and an addition, not a rename.
pub proof fn lemma_unrelated_add_and_delete(
    a: Seq<char>,
    c: Seq<char>,
    orig: Seq<char>,
    h1: Seq<char>,
    h2: Seq<char>,
)
    requires
        a != c,
        h1 != h2,
    ensures
        ({
            let s = seq![EntryModel { path: a, orig_filename: orig, hash: h1 }];
            let live = seq![c];
            let pl = placement(s, live, seq![h2]);
            &&& fresh_paths(paths_of(s), live) == seq![c]
            &&& pl.added == seq![c]
            &&& paths_of(pl.pool) == seq![a]
            &&& pl.renamed.len() == 0
            &&& reconciled(s, live, seq![h2]) == seq![
                EntryModel { path: c, orig_filename: file_name_of(c), hash: h2 },
            ]
        }),
{
    let e = EntryModel { path: a, orig_filename: orig, hash: h1 };
    let s = seq![e];
    let live = seq![c];
    assert(s.drop_last() =~= Seq::<EntryModel>::empty());
    assert(live.drop_last() =~= Seq::<Seq<char>>::empty());
    assert(!live.contains(a)) by {
        assert(live[0] != a);
    }
    assert(paths_of(s) =~= seq![a]);
    assert(!paths_of(s).contains(c)) by {
        assert(paths_of(s)[0] != c);
    }
    assert(s.last() == e);
    assert(!live.contains(s.last().path));
    assert(kept_entries(s.drop_last(), live) =~= Seq::<EntryModel>::empty());
    assert(missing_entries(s.drop_last(), live) =~= Seq::<EntryModel>::empty());
    assert(kept_entries(s, live) =~= Seq::<EntryModel>::empty());
    assert(missing_entries(s, live) =~= s);
    assert(fresh_paths(paths_of(s), live.drop_last()) =~= Seq::<Seq<char>>::empty());
    assert(fresh_paths(paths_of(s), live) =~= seq![c]);
    assert(seq![c].drop_last() =~= Seq::<Seq<char>>::empty());
    assert(s.drop_first() =~= Seq::<EntryModel>::empty());
    assert(first_with_hash(s.drop_first(), h2) == 0);
    assert(first_with_hash(s, h2) == 1);
    lemma_sorted_single(e, entry_key());
    lemma_sorted_single(c, path_key());
    let base = place_all(s, seq![c].drop_last(), seq![h2]);
    assert(base.pool == s);
    assert(seq![h2][0] == h2);
    assert(placement(s, live, seq![h2]) == place(base, c, h2));
    assert(paths_of(placement(s, live, seq![h2]).pool) =~= seq![a]);
    assert(placement(s, live, seq![h2]).added =~= seq![c]);
    assert(reconciled(s, live, seq![h2]) =~= seq![
        EntryModel { path: c, orig_filename: file_name_of(c), hash: h2 },
    ]);
}

/// A copy of `e`.
fn copy_entry(e: &IndexEntry) -> (r: IndexEntry)
    ensures
        r@ == e@,
{
    IndexEntry {
        filepath: e.filepath.clone(),
        orig_filename: e.orig_filename.clone(),
        filehash: e.filehash.clone(),
    }
}

/// The paths of the index entries, in index order.
pub fn index_paths(index: &Index) -> (r: Vec<String>)
    ensures
        strs_view(r@) == paths_of(index.entries()),
{
    let mut r: Vec<String> = Vec::new();
    for i in 0..index.photos.len()
        invariant
            r@.len() == i,
            strs_view(r@) == paths_of(index.entries()).subrange(0, i as int),
    {
        let p = index.photos[i].filepath.clone();
        let ghost prev = r@;
        r.push(p);
        assert(strs_view(r@) =~= paths_of(index.entries()).subrange(0, i + 1)) by {
            assert forall|j: int| 0 <= j < i + 1 implies #[trigger] strs_view(r@)[j]
                == paths_of(index.entries())[j] by {
                if j < i {
                    assert(strs_view(prev)[j] == paths_of(index.entries()).subrange(0, i as int)[j]);
                }
            }
        }
    }
    assert(paths_of(index.entries()).subrange(0, index.photos@.len() as int) =~= paths_of(index.entries()));
    r
}

/// The found paths that the index does not hold yet, each once, in path
/// order. Their contents are what must be hashed before `update`.
pub fn new_paths(index: &Index, photos: &Vec<Photo>) -> (r: Vec<String>)
    ensures
        strs_view(r@) == new_path_order(paths_of(index.entries()), photos_view(photos@)),
{
    let ghost indexed_view = paths_of(index.entries());
    let ghost live = photos_view(photos@);
    let indexed = set_of(&index_paths(index));
    let mut seen = StringHashSet::new();
    let mut r: Vec<String> = Vec::new();
    for i in 0..photos.len()
        invariant
            forall|q: Seq<char>| indexed@.contains(q) <==> indexed_view.contains(q),
            forall|q: Seq<char>| seen@.contains(q) <==> strs_view(r@).contains(q),
            live == photos_view(photos@),
            strs_view(r@) == fresh_paths(indexed_view, live.subrange(0, i as int)),
    {
        let p = &photos[i].relative_path;
        assert(live.subrange(0, i + 1).drop_last() =~= live.subrange(0, i as int));
        assert(live.subrange(0, i + 1).last() == p@);
        if !indexed.contains(p.as_str()) && !seen.contains(p.as_str()) {
            let ghost prev = r@;
            r.push(p.clone());
            seen.insert(p.clone());
            assert(strs_view(r@) =~= strs_view(prev).push(p@));
            assert forall|q: Seq<char>| seen@.contains(q) <==> strs_view(r@).contains(q) by {
                if strs_view(prev).contains(q) {
                    let t = choose|t: int| 0 <= t < strs_view(prev).len() && strs_view(prev)[t] == q;
                    assert(strs_view(r@)[t] == q);
                }
                if q == p@ {
                    assert(strs_view(r@)[prev.len() as int] == q);
                }
                if strs_view(r@).contains(q) {
                    let t = choose|t: int| 0 <= t < strs_view(r@).len() && strs_view(r@)[t] == q;
                    if t < prev.len() {
                        assert(strs_view(prev)[t] == q);
                    }
                }
            }
        }
    }
    assert(live.subrange(0, photos@.len() as int) =~= live);
    sort_paths(&mut r);
    r
}

/// Position of the first entry of `pool` whose hash is `h`, or `pool.len()`.
fn find_hash(pool: &Vec<IndexEntry>, h: &String) -> (r: usize)
    ensures
        r == first_with_hash(entries_view(pool@), h@),
{
    let ghost pv = entries_view(pool@);
    let mut i: usize = 0;
    assert(pv.subrange(0, pv.len() as int) =~= pv);
    while i < pool.len()
        invariant
            i <= pool.len(),
            pv.len() == pool@.len(),
            pv == entries_view(pool@),
            first_with_hash(pv, h@) == i + first_with_hash(pv.subrange(i as int, pv.len() as int), h@),
        decreases pool.len() - i,
    {
        let ghost rest = pv.subrange(i as int, pv.len() as int);
        assert(rest[0] == pool@[i as int]@);
        if pool[i].filehash == *h {
            return i;
        }
        assert(rest.drop_first() =~= pv.subrange(i + 1, pv.len() as int));
        i = i + 1;
    }
    i
}

/// Split the entries into those whose path is still found and those whose path is not.
fn split_entries(index: &Index, live_paths: &Vec<String>) -> (r: (Vec<IndexEntry>, Vec<IndexEntry>))
    ensures
        entries_view(r.0@) == kept_entries(index.entries(), strs_view(live_paths@)),
        entries_view(r.1@) == missing_entries(index.entries(), strs_view(live_paths@)),
{
    let ghost s = index.entries();
    let ghost live = strs_view(live_paths@);
    let live_set = set_of(live_paths);
    let mut kept: Vec<IndexEntry> = Vec::new();
    let mut pool: Vec<IndexEntry> = Vec::new();
    for i in 0..index.photos.len()
        invariant
            s == index.entries(),
            s.len() == index.photos@.len(),
            live == strs_view(live_paths@),
            forall|q: Seq<char>| live_set@.contains(q) <==> live.contains(q),
            entries_view(kept@) == kept_entries(s.subrange(0, i as int), live),
            entries_view(pool@) == missing_entries(s.subrange(0, i as int), live),
    {
        let e = copy_entry(&index.photos[i]);
        assert(s.subrange(0, i + 1).drop_last() =~= s.subrange(0, i as int));
        assert(s.subrange(0, i + 1).last() == e@);
        if live_set.contains(e.filepath.as_str()) {
            let ghost prev = kept@;
            kept.push(e);
            assert(entries_view(kept@) =~= entries_view(prev).push(e@));
        } else {
            let ghost prev = pool@;
            pool.push(e);
            assert(entries_view(pool@) =~= entries_view(prev).push(e@));
        }
    }
    assert(s.subrange(0, s.len() as int) =~= s);
    (kept, pool)
}

/// Bring the index in line with the files found on disk.
///
/// `new_hashes[i]` is the content hash of the `i`-th path that `new_paths`
/// returns for the same index and photos. The index keeps its configuration;
/// its entries become the kept ones followed by those of the new paths.
pub fn update(index: &mut Index, photos: &Vec<Photo>, new_hashes: &Vec<String>) -> (r:
    ReconciliationResult)
    requires
        old(index).wf(),
        new_hashes@.len() == fresh_paths(paths_of(old(index).entries()), photos_view(photos@)).len(),
    ensures
        final(index).wf(),
        final(index).user_config == old(index).user_config,
        (r.added@.len() > 0 || r.deleted@.len() > 0 || r.renamed@.len() > 0) == changes(
            old(index).entries(),
            photos_view(photos@),
            strs_view(new_hashes@),
        ),
        final(index).entries() == reconciled(
            old(index).entries(),
            photos_view(photos@),
            strs_view(new_hashes@),
        ),
        strs_view(r.added@) == placement(
            old(index).entries(),
            photos_view(photos@),
            strs_view(new_hashes@),
        ).added,
        strs_view(r.deleted@) == paths_of(
            placement(old(index).entries(), photos_view(photos@), strs_view(new_hashes@)).pool,
        ),
        pairs_view(r.renamed@) == placement(
            old(index).entries(),
            photos_view(photos@),
            strs_view(new_hashes@),
        ).renamed,
{
    let ghost s = index.entries();
    let ghost live = photos_view(photos@);
    let ghost hs = strs_view(new_hashes@);
    let fresh = new_paths(index, photos);
    let ghost fv = strs_view(fresh@);
    let live_paths = photo_paths(photos);
    let (kept, mut pool) = split_entries(index, &live_paths);
    sort_entries(&mut pool);
    proof {
        lemma_sorted_by(fresh_paths(paths_of(s), live), path_key());
    }
    let mut entries: Vec<IndexEntry> = Vec::new();
    let mut added: Vec<String> = Vec::new();
    let mut renamed: Vec<(String, String)> = Vec::new();
    assert(fv.len() == fresh@.len());
    for k in 0..fresh.len()
        invariant
            fv == strs_view(fresh@),
            fv.len() == fresh@.len(),
            hs == strs_view(new_hashes@),
            hs.len() == fv.len(),
            ({
                let pl = place_all(sorted_by(missing_entries(s, live), entry_key()), fv.subrange(0, k as int), hs);
                &&& entries_view(pool@) == pl.pool
                &&& entries_view(entries@) == pl.entries
                &&& strs_view(added@) == pl.added
                &&& pairs_view(renamed@) == pl.renamed
            }),
    {
        let ghost prev = place_all(sorted_by(missing_entries(s, live), entry_key()), fv.subrange(0, k as int), hs);
        assert(fv.subrange(0, k + 1).drop_last() =~= fv.subrange(0, k as int));
        assert(fv.subrange(0, k + 1).last() == fresh@[k as int]@);
        let p = &fresh[k];
        let h = &new_hashes[k];
        assert(hs[k as int] == h@);
        let m = find_hash(&pool, h);
        if m < pool.len() {
            let ghost pool_before = pool@;
            let matched = pool.remove(m);
            assert(entries_view(pool@) =~= entries_view(pool_before).remove(m as int));
            assert(matched@ == prev.pool[m as int]);
            let ghost ren_before = renamed@;
            renamed.push((matched.filepath.clone(), p.clone()));
            assert(pairs_view(renamed@) =~= pairs_view(ren_before).push((matched@.path, p@)));
            let e = IndexEntry {
                filepath: p.clone(),
                orig_filename: matched.orig_filename,
                filehash: matched.filehash,
            };
            let ghost ent_before = entries@;
            entries.push(e);
            assert(entries_view(entries@) =~= entries_view(ent_before).push(e@));
        } else {
            let ghost add_before = added@;
            added.push(p.clone());
            assert(strs_view(added@) =~= strs_view(add_before).push(p@));
            let e = IndexEntry { filepath: p.clone(), orig_filename: file_name(p), filehash: h.clone() };
            let ghost ent_before = entries@;
            entries.push(e);
            assert(entries_view(entries@) =~= entries_view(ent_before).push(e@));
        }
    }
    assert(fv.subrange(0, fv.len() as int) =~= fv);
    let mut deleted: Vec<String> = Vec::new();
    for i in 0..pool.len()
        invariant
            deleted@.len() == i,
            strs_view(deleted@) == paths_of(entries_view(pool@)).subrange(0, i as int),
    {
        let ghost prev = deleted@;
        deleted.push(pool[i].filepath.clone());
        assert(strs_view(deleted@) =~= paths_of(entries_view(pool@)).subrange(0, i + 1)) by {
            assert forall|j: int| 0 <= j < i + 1 implies #[trigger] strs_view(deleted@)[j]
                == paths_of(entries_view(pool@))[j] by {
                if j < i {
                    assert(strs_view(prev)[j] == paths_of(entries_view(pool@)).subrange(0, i as int)[j]);
                }
            }
        }
    }
    assert(paths_of(entries_view(pool@)).subrange(0, pool@.len() as int) =~= paths_of(entries_view(pool@)));
    let mut photos_out = kept;
    let ghost kept_view = entries_view(photos_out@);
    let ghost ent_view = entries_view(entries@);
    photos_out.append(&mut entries);
    assert(entries_view(photos_out@) =~= kept_view + ent_view);
    index.photos = photos_out;
    proof {
        lemma_reconciled_unique(s, live, hs);
        assert(strs_view(added@).len() == added@.len());
        assert(strs_view(deleted@).len() == deleted@.len());
        assert(pairs_view(renamed@).len() == renamed@.len());
        assert(paths_of(entries_view(pool@)).len() == pool@.len());
    }
    ReconciliationResult { added, deleted, renamed }
}

} // verus!
