//! Character-level helpers for paths and file names.
//!
//! Paths are `/`-separated strings relative to the collection root.

use vstd::prelude::*;
use vstd::hash_set::StringHashSet;

verus! {

/// Relies on `str::chars` collected into a `Vec`: the characters of `s` in order.
#[verifier::external_body]
pub(crate) fn chars_of(s: &str) -> (r: Vec<char>)
    ensures
        r@ == s@,
{
    s.chars().collect()
}

/// Relies on `String`'s `FromIterator<&char>`: the string made of the given characters.
#[verifier::external_body]
pub(crate) fn string_of(v: &[char]) -> (r: String)
    ensures
        r@ == v@,
{
    v.iter().collect()
}

/// The characters of each string, in order.
pub open spec fn strs_view(v: Seq<String>) -> Seq<Seq<char>> {
    v.map_values(|s: String| s@)
}

/// Whether `v` holds a string equal to `s`.
pub fn contains_str(v: &Vec<String>, s: &String) -> (r: bool)
    ensures
        r == strs_view(v@).contains(s@),
{
    let mut i: usize = 0;
    while i < v.len()
        invariant
            i <= v.len(),
            forall|j: int| 0 <= j < i ==> v@[j]@ != s@,
        decreases v.len() - i,
    {
        if v[i] == *s {
            assert(strs_view(v@)[i as int] == s@);
            return true;
        }
        i = i + 1;
    }
    assert forall|j: int| 0 <= j < strs_view(v@).len() implies strs_view(v@)[j] != s@ by {
        assert(strs_view(v@)[j] == v@[j]@);
    }
    false
}

/// A hash set of the strings of `v`.
pub fn set_of(v: &Vec<String>) -> (r: StringHashSet)
    ensures
        forall|q: Seq<char>| r@.contains(q) <==> strs_view(v@).contains(q),
{
    let ghost sv = strs_view(v@);
    let mut r = StringHashSet::new();
    for i in 0..v.len()
        invariant
            sv == strs_view(v@),
            sv.len() == v@.len(),
            forall|q: Seq<char>| r@.contains(q) <==> sv.subrange(0, i as int).contains(q),
    {
        r.insert(v[i].clone());
        assert forall|q: Seq<char>| r@.contains(q) <==> sv.subrange(0, i + 1).contains(q) by {
            let pre = sv.subrange(0, i as int);
            assert(sv.subrange(0, i + 1) =~= pre.push(v@[i as int]@));
            if pre.contains(q) {
                let t = choose|t: int| 0 <= t < pre.len() && pre[t] == q;
                assert(sv.subrange(0, i + 1)[t] == q);
            }
            if q == v@[i as int]@ {
                assert(sv.subrange(0, i + 1)[i as int] == q);
            }
            let post = sv.subrange(0, i + 1);
            if post.contains(q) {
                let t = choose|t: int| 0 <= t < post.len() && post[t] == q;
                if t < i {
                    assert(pre[t] == q);
                }
            }
        }
    }
    assert(sv.subrange(0, v@.len() as int) =~= sv);
    r
}

/// Index just past the last `/` in `p`, or 0 when there is none.
pub open spec fn name_start(p: Seq<char>) -> int
    decreases p.len(),
{
    if p.len() == 0 {
        0
    } else if p.last() == '/' {
        p.len() as int
    } else {
        name_start(p.drop_last())
    }
}

/// The last component of a path: everything after its last `/`.
pub open spec fn file_name_of(p: Seq<char>) -> Seq<char> {
    p.subrange(name_start(p), p.len() as int)
}

/// The directory part of a path: everything before its last `/`, or empty.
pub open spec fn parent_of(p: Seq<char>) -> Seq<char> {
    if name_start(p) == 0 {
        Seq::empty()
    } else {
        p.subrange(0, name_start(p) - 1)
    }
}

/// `name_start` lies within the path, just after a `/` when it is positive,
/// and no `/` follows it.
pub proof fn lemma_name_start_bounds(p: Seq<char>)
    ensures
        0 <= name_start(p) <= p.len(),
        name_start(p) > 0 ==> p[name_start(p) - 1] == '/',
        forall|i: int| name_start(p) <= i < p.len() ==> p[i] != '/',
    decreases p.len(),
{
    if p.len() > 0 && p.last() != '/' {
        lemma_name_start_bounds(p.drop_last());
        assert forall|i: int| name_start(p) <= i < p.len() implies p[i] != '/' by {
            if i < p.len() - 1 {
                assert(p[i] == p.drop_last()[i]);
            }
        }
    }
}

/// Position just past the last `/` in `v`.
pub(crate) fn find_name_start(v: &Vec<char>) -> (r: usize)
    ensures
        r == name_start(v@),
{
    let mut i: usize = v.len();
    assert(v@.subrange(0, i as int) =~= v@);
    while i > 0
        invariant
            i <= v.len(),
            name_start(v@) == name_start(v@.subrange(0, i as int)),
        decreases i,
    {
        if v[i - 1] == '/' {
            assert(v@.subrange(0, i as int).last() == '/');
            return i;
        }
        assert(v@.subrange(0, i as int).drop_last() =~= v@.subrange(0, i - 1));
        i = i - 1;
    }
    i
}

/// The last component of a `/`-separated path.
pub fn file_name(path: &str) -> (r: String)
    ensures
        r@ == file_name_of(path@),
{
    let v = chars_of(path);
    let start = find_name_start(&v);
    proof {
        lemma_name_start_bounds(v@);
    }
    let tail = v.as_slice().split_at(start).1;
    string_of(tail)
}

/// Position of the last `.` in `s`, or -1 when there is none.
pub open spec fn last_dot(s: Seq<char>) -> int
    decreases s.len(),
{
    if s.len() == 0 {
        -1
    } else if s.last() == '.' {
        s.len() - 1
    } else {
        last_dot(s.drop_last())
    }
}

/// The extension of a path: what follows the last `.` of its file name,
/// unless that name has no `.` but a leading one.
pub open spec fn extension_of(path: Seq<char>) -> Option<Seq<char>> {
    let name = file_name_of(path);
    let k = last_dot(name);
    if k <= 0 {
        None
    } else {
        Some(name.subrange(k + 1, name.len() as int))
    }
}

/// The extension of a `/`-separated path, without its dot.
pub fn file_extension(path: &str) -> (r: Option<String>)
    ensures
        match r {
            Some(e) => extension_of(path@) == Some(e@),
            None => extension_of(path@) is None,
        },
{
    let v = chars_of(path);
    let start = find_name_start(&v);
    proof {
        lemma_name_start_bounds(v@);
    }
    let name = v.as_slice().split_at(start).1;
    let ghost nv = file_name_of(path@);
    assert(name@ == nv);
    let mut i: usize = name.len();
    assert(nv.subrange(0, i as int) =~= nv);
    while i > 0
        invariant
            i <= name@.len(),
            name@ == nv,
            nv == file_name_of(path@),
            last_dot(nv) == last_dot(nv.subrange(0, i as int)),
        decreases i,
    {
        if name[i - 1] == '.' {
            assert(nv.subrange(0, i as int).last() == '.');
            assert(last_dot(nv) == i - 1);
            assert(extension_of(path@) == if i == 1 { None } else { Some(nv.subrange(i as int, nv.len() as int)) });
            if i == 1 {
                return None;
            }
            let ext = name.split_at(i).1;
            assert(ext@ =~= nv.subrange(i as int, nv.len() as int));
            return Some(string_of(ext));
        }
        assert(nv.subrange(0, i as int).drop_last() =~= nv.subrange(0, i - 1));
        i = i - 1;
    }
    None
}

/// `s` with each non-overlapping occurrence of `pat`, from left to right,
/// replaced by `rep`.
pub open spec fn replace_all(s: Seq<char>, pat: Seq<char>, rep: Seq<char>) -> Seq<char>
    decreases s.len(),
{
    if pat.len() == 0 || s.len() < pat.len() {
        s
    } else if s.subrange(0, pat.len() as int) == pat {
        rep + replace_all(s.subrange(pat.len() as int, s.len() as int), pat, rep)
    } else {
        seq![s[0]] + replace_all(s.drop_first(), pat, rep)
    }
}

/// Whether `pat` occurs in `s` at position `i`.
fn occurs_at(s: &Vec<char>, i: usize, pat: &Vec<char>) -> (r: bool)
    requires
        i + pat@.len() <= s@.len(),
    ensures
        r == (s@.subrange(i as int, i + pat@.len()) == pat@),
{
    let slen = s.len();
    let mut j: usize = 0;
    while j < pat.len()
        invariant
            slen == s@.len(),
            i + pat@.len() <= s@.len(),
            j <= pat@.len(),
            forall|k: int| 0 <= k < j ==> s@[i + k] == pat@[k],
        decreases pat@.len() - j,
    {
        if s[i + j] != pat[j] {
            assert(s@.subrange(i as int, i + pat@.len())[j as int] != pat@[j as int]);
            return false;
        }
        j = j + 1;
    }
    assert(s@.subrange(i as int, i + pat@.len()) =~= pat@);
    true
}

/// `s` with every occurrence of `pat` replaced by `rep`.
pub fn replace_chars(s: &Vec<char>, pat: &Vec<char>, rep: &Vec<char>) -> (r: Vec<char>)
    requires
        pat@.len() > 0,
    ensures
        r@ == replace_all(s@, pat@, rep@),
{
    let mut out: Vec<char> = Vec::new();
    let mut i: usize = 0;
    assert(s@.subrange(0, s@.len() as int) =~= s@);
    while i < s.len()
        invariant
            pat@.len() > 0,
            i <= s@.len(),
            replace_all(s@, pat@, rep@) == out@ + replace_all(
                s@.subrange(i as int, s@.len() as int),
                pat@,
                rep@,
            ),
        decreases s@.len() - i,
    {
        let ghost t = s@.subrange(i as int, s@.len() as int);
        if pat.len() <= s.len() - i && occurs_at(s, i, pat) {
            assert(t.subrange(0, pat@.len() as int) =~= s@.subrange(i as int, i + pat@.len()));
            assert(t.subrange(pat@.len() as int, t.len() as int) =~= s@.subrange(
                i + pat@.len(),
                s@.len() as int,
            ));
            let ghost before = out@;
            let mut k: usize = 0;
            while k < rep.len()
                invariant
                    k <= rep@.len(),
                    out@ == before + rep@.subrange(0, k as int),
                decreases rep@.len() - k,
            {
                out.push(rep[k]);
                assert(out@ =~= before + rep@.subrange(0, k + 1));
                k = k + 1;
            }
            assert(rep@.subrange(0, rep@.len() as int) =~= rep@);
            assert(out@ + replace_all(s@.subrange(i + pat@.len(), s@.len() as int), pat@, rep@)
                =~= before + (rep@ + replace_all(
                s@.subrange(i + pat@.len(), s@.len() as int),
                pat@,
                rep@,
            )));
            i = i + pat.len();
        } else {
            assert(t.drop_first() =~= s@.subrange(i + 1, s@.len() as int));
            proof {
                if t.len() < pat@.len() {
                    assert(replace_all(t.drop_first(), pat@, rep@) == t.drop_first());
                    assert(t =~= seq![t[0]] + t.drop_first());
                } else {
                    assert(t.subrange(0, pat@.len() as int) =~= s@.subrange(
                        i as int,
                        i + pat@.len(),
                    ));
                }
            }
            let ghost before = out@;
            out.push(s[i]);
            assert(out@ + replace_all(t.drop_first(), pat@, rep@) =~= before + (seq![t[0]]
                + replace_all(t.drop_first(), pat@, rep@)));
            i = i + 1;
        }
    }
    assert(s@.subrange(s@.len() as int, s@.len() as int) =~= Seq::<char>::empty());
    assert(out@ + Seq::<char>::empty() =~= out@);
    out
}

/// `s` with every occurrence of `pat` replaced by `rep`.
pub fn replace_str(s: &str, pat: &str, rep: &str) -> (r: String)
    requires
        pat@.len() > 0,
    ensures
        r@ == replace_all(s@, pat@, rep@),
{
    let sv = chars_of(s);
    let pv = chars_of(pat);
    let rv = chars_of(rep);
    let out = replace_chars(&sv, &pv, &rv);
    string_of(out.as_slice())
}

} // verus!
