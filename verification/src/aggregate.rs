//! Searching file names across the indexes of every scanned root.

use vstd::prelude::*;
use crate::clock::{representable, elapsed_nanos};
use crate::filters::{lowercase, to_lower, str_eq};
use crate::index::{CachedFile, CachedFileView, IndexCache};
use crate::paths::{path_extension, path_file_name, extension_of, file_name_of};
use crate::text::{has_infix, chars_of, chars_contain};

verus! {

/// A file of some index whose name matched a search.
#[derive(Clone, Debug)]
pub struct FindMatch {
    /// The root of the index the file was found in.
    pub root: String,
    pub file: CachedFile,
    /// How long ago that index was walked, in nanoseconds.
    pub cache_age: u128,
}

/// The abstract value of a `FindMatch`.
pub struct FindMatchView {
    pub root: Seq<char>,
    pub file: CachedFileView,
    pub cache_age: int,
}

impl View for FindMatch {
    type V = FindMatchView;

    open spec fn view(&self) -> FindMatchView {
        FindMatchView { root: self.root@, file: self.file@, cache_age: self.cache_age as int }
    }
}

impl FindMatch {
    /// A copy of this match.
    pub fn duplicate(&self) -> (r: FindMatch)
        ensures
            r@ == self@,
    {
        FindMatch { root: self.root.clone(), file: self.file.duplicate(), cache_age: self.cache_age }
    }
}

/// Whether `filename` holds `pattern`, both lowercased.
pub open spec fn fuzzy_match(filename: Seq<char>, pattern: Seq<char>) -> bool {
    has_infix(lowercase(filename), lowercase(pattern))
}

/// Case-insensitive substring match, distinct from `matches_filename` (which
/// is exact).
pub fn matches_fuzzy(filename: &str, pattern: &str) -> (r: bool)
    ensures
        r == fuzzy_match(filename@, pattern@),
{
    let f = chars_of(to_lower(filename).as_str());
    let p = chars_of(to_lower(pattern).as_str());
    chars_contain(&f, &p)
}

/// `json`
pub open spec fn json_ext() -> Seq<char> {
    seq!['j', 's', 'o', 'n']
}

/// Whether a file of the index directory is an index (its extension is `json`).
pub fn is_index_file(path: &str) -> (r: bool)
    ensures
        r == (path_extension(path@) == Some(json_ext())),
{
    match extension_of(path) {
        Some(e) => {
            let j = "json";
            proof {
                reveal_strlit("json");
                assert(j@ =~= json_ext());
            }
            str_eq(e.as_str(), j)
        },
        None => false,
    }
}

/// The matches of `pattern` among the files of one index, in the order of the
/// index: each file that has a name and whose name matches.
pub open spec fn cache_matches(root: Seq<char>, age: int, files: Seq<CachedFile>, pattern: Seq<char>) -> Seq<FindMatchView>
    decreases files.len(),
{
    if files.len() == 0 {
        Seq::empty()
    } else {
        let rest = cache_matches(root, age, files.drop_last(), pattern);
        let f = files.last();
        match path_file_name(f.path@) {
            Some(n) => if fuzzy_match(n, pattern) {
                rest.push(FindMatchView { root, file: f@, cache_age: age })
            } else {
                rest
            },
            None => rest,
        }
    }
}

/// The matches of `pattern` across the indexes `caches`, index by index.
pub open spec fn all_matches(caches: Seq<IndexCache>, pattern: Seq<char>, now: int) -> Seq<FindMatchView>
    decreases caches.len(),
{
    if caches.len() == 0 {
        Seq::empty()
    } else {
        let c = caches.last();
        all_matches(caches.drop_last(), pattern, now) + cache_matches(
            c.root@,
            elapsed_nanos(c.walked_at as int, now),
            c.files@,
            pattern,
        )
    }
}

fn matches_in_cache(c: &IndexCache, pattern: &str, now: i128, out: &mut Vec<FindMatch>)
    requires
        representable(c.walked_at as int),
        representable(now as int),
    ensures
        final(out)@.map_values(|m: FindMatch| m@) == old(out)@.map_values(|m: FindMatch| m@) + cache_matches(
            c.root@,
            elapsed_nanos(c.walked_at as int, now as int),
            c.files@,
            pattern@,
        ),
{
    let age: u128 = if now >= c.walked_at { (now - c.walked_at) as u128 } else { 0 };
    let ghost start = out@.map_values(|m: FindMatch| m@);
    let mut i: usize = 0;
    while i < c.files.len()
        invariant
            i <= c.files@.len(),
            age as int == elapsed_nanos(c.walked_at as int, now as int),
            out@.map_values(|m: FindMatch| m@) == start + cache_matches(c.root@, age as int, c.files@.take(i as int), pattern@),
        decreases c.files.len() - i,
    {
        assert(c.files@.take(i + 1).drop_last() == c.files@.take(i as int));
        let f = &c.files[i];
        match file_name_of(f.path.as_str()) {
            Some(name) => {
                if matches_fuzzy(name.as_str(), pattern) {
                    let ghost prev = out@;
                    let m = FindMatch { root: c.root.clone(), file: f.duplicate(), cache_age: age };
                    out.push(m);
                    assert(out@.map_values(|m: FindMatch| m@) =~= prev.map_values(|m: FindMatch| m@).push(m@));
                }
            },
            None => {},
        }
        i = i + 1;
    }
    assert(c.files@.take(c.files@.len() as int) == c.files@);
}

/// Searches the indexes read from the index directory (in the order listed)
/// for files whose names hold `pattern`, case-insensitively; each match
/// carries its index's root and how long ago that index was walked.
pub fn find_across_caches(caches: &[IndexCache], pattern: &str, now: i128) -> (r: Vec<FindMatch>)
    requires
        representable(now as int),
        forall|i: int| 0 <= i < caches@.len() ==> representable(#[trigger] caches@[i].walked_at as int),
    ensures
        r@.map_values(|m: FindMatch| m@) == all_matches(caches@, pattern@, now as int),
{
    let mut out: Vec<FindMatch> = Vec::new();
    let mut i: usize = 0;
    while i < caches.len()
        invariant
            i <= caches@.len(),
            representable(now as int),
            forall|k: int| 0 <= k < caches@.len() ==> representable(#[trigger] caches@[k].walked_at as int),
            out@.map_values(|m: FindMatch| m@) == all_matches(caches@.take(i as int), pattern@, now as int),
        decreases caches.len() - i,
    {
        assert(caches@.take(i + 1).drop_last() == caches@.take(i as int));
        assert(caches@.take(i + 1).last() == caches@[i as int]);
        matches_in_cache(&caches[i], pattern, now, &mut out);
        i = i + 1;
    }
    assert(caches@.take(caches@.len() as int) == caches@);
    out
}

/// Every match of a search is a named file whose name holds the pattern, case
/// insensitively.
pub proof fn lemma_matches_hold_pattern(caches: Seq<IndexCache>, pattern: Seq<char>, now: int)
    ensures
        forall|i: int| 0 <= i < all_matches(caches, pattern, now).len() ==> {
            let m = #[trigger] all_matches(caches, pattern, now)[i];
            path_file_name(m.file.path) matches Some(n) && fuzzy_match(n, pattern)
        },
    decreases caches.len(),
{
    if caches.len() > 0 {
        let c = caches.last();
        let age = elapsed_nanos(c.walked_at as int, now);
        lemma_matches_hold_pattern(caches.drop_last(), pattern, now);
        lemma_cache_matches_hold(c.root@, age, c.files@, pattern);
        let a = all_matches(caches.drop_last(), pattern, now);
        let b = cache_matches(c.root@, age, c.files@, pattern);
        assert forall|i: int| 0 <= i < all_matches(caches, pattern, now).len() implies {
            let m = #[trigger] all_matches(caches, pattern, now)[i];
            path_file_name(m.file.path) matches Some(n) && fuzzy_match(n, pattern)
        } by {
            if i < a.len() {
                assert(all_matches(caches, pattern, now)[i] == a[i]);
            } else {
                assert(all_matches(caches, pattern, now)[i] == b[i - a.len()]);
            }
        }
    }
}

proof fn lemma_cache_matches_hold(root: Seq<char>, age: int, files: Seq<CachedFile>, pattern: Seq<char>)
    ensures
        forall|i: int| 0 <= i < cache_matches(root, age, files, pattern).len() ==> {
            let m = #[trigger] cache_matches(root, age, files, pattern)[i];
            path_file_name(m.file.path) matches Some(n) && fuzzy_match(n, pattern)
        },
    decreases files.len(),
{
    if files.len() > 0 {
        lemma_cache_matches_hold(root, age, files.drop_last(), pattern);
        let q = cache_matches(root, age, files.drop_last(), pattern);
        assert forall|i: int| 0 <= i < cache_matches(root, age, files, pattern).len() implies {
            let m = #[trigger] cache_matches(root, age, files, pattern)[i];
            path_file_name(m.file.path) matches Some(n) && fuzzy_match(n, pattern)
        } by {
            if i < q.len() {
                assert(cache_matches(root, age, files, pattern)[i] == q[i]);
            }
        }
    }
}

/// The match that a search reports for the file `file` of the index of
/// `root`, walked `age` nanoseconds ago.
pub open spec fn found(root: Seq<char>, file: CachedFileView, age: int) -> FindMatchView {
    FindMatchView { root, file, cache_age: age }
}

proof fn lemma_cache_matches_complete(root: Seq<char>, age: int, files: Seq<CachedFile>, pattern: Seq<char>)
    ensures
        forall|j: int|
            0 <= j < files.len() && (path_file_name((#[trigger] files[j]).path@) matches Some(n) && fuzzy_match(
                n,
                pattern,
            )) ==> cache_matches(root, age, files, pattern).contains(found(root, files[j]@, age)),
    decreases files.len(),
{
    if files.len() > 0 {
        let q = files.drop_last();
        lemma_cache_matches_complete(root, age, q, pattern);
        let w = cache_matches(root, age, files, pattern);
        let wq = cache_matches(root, age, q, pattern);
        let n = files.len() - 1;
        assert(files[n] == files.last());
        assert forall|j: int|
            0 <= j < files.len() && (path_file_name((#[trigger] files[j]).path@) matches Some(nm) && fuzzy_match(
                nm,
                pattern,
            )) implies w.contains(found(root, files[j]@, age)) by {
            let v = found(root, files[j]@, age);
            if j < n {
                assert(q[j] == files[j]);
                let k = choose|k: int| 0 <= k < wq.len() && wq[k] == v;
                assert(w[k] == wq[k]);
            } else {
                assert(w[w.len() - 1] == v);
            }
        }
    }
}

/// A search misses nothing: every file of every index whose name holds the
/// pattern, case-insensitively, is among the matches, with that index's root
/// and age.
pub proof fn lemma_search_finds_every_match(caches: Seq<IndexCache>, pattern: Seq<char>, now: int)
    ensures
        forall|a: int, j: int|
            0 <= a < caches.len() && 0 <= j < caches[a].files@.len() && (path_file_name(
                (#[trigger] caches[a].files@[j]).path@,
            ) matches Some(n) && fuzzy_match(n, pattern)) ==> all_matches(caches, pattern, now).contains(
                found(caches[a].root@, caches[a].files@[j]@, elapsed_nanos(caches[a].walked_at as int, now)),
            ),
    decreases caches.len(),
{
    if caches.len() > 0 {
        let q = caches.drop_last();
        let c = caches.last();
        let age = elapsed_nanos(c.walked_at as int, now);
        lemma_search_finds_every_match(q, pattern, now);
        lemma_cache_matches_complete(c.root@, age, c.files@, pattern);
        let am = all_matches(q, pattern, now);
        let b = cache_matches(c.root@, age, c.files@, pattern);
        let w = all_matches(caches, pattern, now);
        assert(w == am + b);
        assert forall|a: int, j: int|
            0 <= a < caches.len() && 0 <= j < caches[a].files@.len() && (path_file_name(
                (#[trigger] caches[a].files@[j]).path@,
            ) matches Some(nm) && fuzzy_match(nm, pattern)) implies w.contains(
                found(caches[a].root@, caches[a].files@[j]@, elapsed_nanos(caches[a].walked_at as int, now)),
            ) by {
            let v = found(caches[a].root@, caches[a].files@[j]@, elapsed_nanos(caches[a].walked_at as int, now));
            if a < caches.len() - 1 {
                assert(q[a] == caches[a]);
                assert(q[a].files@[j] == caches[a].files@[j]);
                let k = choose|k: int| 0 <= k < am.len() && am[k] == v;
                assert(w[k] == am[k]);
            } else {
                assert(caches[a] == c);
                assert(c.files@[j] == caches[a].files@[j]);
                let k = choose|k: int| 0 <= k < b.len() && b[k] == v;
                assert(w[am.len() + k] == b[k]);
            }
        }
    }
}

} // verus!
