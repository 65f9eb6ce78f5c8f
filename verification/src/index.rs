//! The per-root index of files: what a cache holds, when it can be reused,
//! and where it is stored.

use vstd::prelude::*;
use std::hash::{Hash, Hasher};
use crate::clock::{representable, now_stamp};
use crate::paths::{path_components, path_join, component_key, key_compare, key_view, join_path};
use crate::text::{hex, hex_chars, string_of, is_hex_digit, lemma_hex_is_lowercase_hex};
use crate::filters::str_eq;

verus! {

/// A file recorded by a scan: its path, modification time (nanoseconds since
/// the epoch) and size in bytes.
#[derive(Clone, Debug)]
pub struct CachedFile {
    pub path: String,
    pub mtime: i128,
    pub size: u64,
}

/// The abstract value of a `CachedFile`.
pub struct CachedFileView {
    pub path: Seq<char>,
    pub mtime: int,
    pub size: u64,
}

impl View for CachedFile {
    type V = CachedFileView;

    open spec fn view(&self) -> CachedFileView {
        CachedFileView { path: self.path@, mtime: self.mtime as int, size: self.size }
    }
}

/// The persisted index of one scanned root.
#[derive(Debug)]
pub struct IndexCache {
    pub root: String,
    pub walked_at: i128,
    pub files: Vec<CachedFile>,
}

impl CachedFile {
    /// A copy of this record.
    pub fn duplicate(&self) -> (r: CachedFile)
        ensures
            r@ == self@,
    {
        CachedFile { path: self.path.clone(), mtime: self.mtime, size: self.size }
    }
}

/// How long an index stays fresh: 24 hours, in nanoseconds.
pub const TTL_NANOS: i128 = 86_400_000_000_000;

/// Whether an index walked at `walked_at` is still fresh at `now`: younger
/// than the time to live, or walked in the future (the clock went back).
pub open spec fn fresh_at(walked_at: int, now: int) -> bool {
    now < walked_at || now - walked_at < TTL_NANOS
}

/// Whether `cache` is still fresh at `now`.
pub fn is_fresh_at(cache: &IndexCache, now: i128) -> (r: bool)
    requires
        representable(cache.walked_at as int),
        representable(now as int),
    ensures
        r == fresh_at(cache.walked_at as int, now as int),
{
    if now < cache.walked_at {
        true
    } else {
        now - cache.walked_at < TTL_NANOS
    }
}

/// Whether `cache` is still fresh now, by the system clock.
pub fn is_fresh(cache: &IndexCache) -> (r: bool)
    requires
        representable(cache.walked_at as int),
    ensures
        exists|now: int| representable(now) && r == fresh_at(cache.walked_at as int, now),
{
    let now = now_stamp();
    is_fresh_at(cache, now)
}

/// What a scan does with its index.
pub enum CacheUse {
    /// Reuse the cached list of files, re-reading each file's metadata.
    Restat(Vec<CachedFile>),
    /// Walk the tree again (and store a new index).
    Walk,
}

/// Whether `cached` can serve a scan of the root whose canonical path is
/// `canonical_root` at `now`.
pub open spec fn reusable(cached: Option<IndexCache>, canonical_root: Seq<char>, now: int, force_refresh: bool) -> bool {
    &&& !force_refresh
    &&& cached is Some
    &&& path_components(cached->0.root@) == path_components(canonical_root)
    &&& fresh_at(cached->0.walked_at as int, now)
}

/// Decides how a scan gets its files: from the index read from disk (`cached`,
/// `None` when there is none or it cannot be read) when it belongs to the same
/// root, is fresh and no refresh is forced; else by walking the tree.
pub fn load_or_refresh(canonical_root: &str, cached: Option<IndexCache>, force_refresh: bool, now: i128) -> (r: CacheUse)
    requires
        representable(now as int),
        cached matches Some(c) ==> representable(c.walked_at as int),
    ensures
        reusable(cached, canonical_root@, now as int, force_refresh) <==> r is Restat,
        r matches CacheUse::Restat(files) ==> files@ == cached->0.files@,
{
    if force_refresh {
        return CacheUse::Walk;
    }
    match cached {
        None => CacheUse::Walk,
        Some(cache) => {
            let a = component_key(cache.root.as_str());
            let b = component_key(canonical_root);
            if key_compare(&a, &b) == 0 && is_fresh_at(&cache, now) {
                CacheUse::Restat(cache.files)
            } else {
                CacheUse::Walk
            }
        }
    }
}

/// The files that survive re-reading their metadata: each file whose
/// metadata could be read (`stats[i]` is its new modification time and size),
/// in order.
pub open spec fn restatted(cached: Seq<CachedFile>, stats: Seq<Option<(i128, u64)>>) -> Seq<CachedFileView>
    decreases cached.len(),
{
    if cached.len() == 0 || stats.len() == 0 {
        Seq::empty()
    } else {
        let rest = restatted(cached.drop_last(), stats.drop_last());
        match stats.last() {
            Some((m, s)) => rest.push(CachedFileView { path: cached.last().path@, mtime: m as int, size: s }),
            None => rest,
        }
    }
}

/// Builds the file list of a reused index from the metadata read again for
/// each cached file (`None` where the file is gone or its time is unreadable);
/// the count is the number of files kept.
pub fn restat(cached: Vec<CachedFile>, stats: Vec<Option<(i128, u64)>>) -> (r: (Vec<CachedFile>, u64))
    requires
        stats@.len() == cached@.len(),
    ensures
        r.0@.map_values(|f: CachedFile| f@) == restatted(cached@, stats@),
        r.1 == r.0@.len(),
{
    let mut out: Vec<CachedFile> = Vec::new();
    let mut i: usize = 0;
    while i < cached.len()
        invariant
            i <= cached@.len(),
            stats@.len() == cached@.len(),
            out@.len() <= i,
            out@.map_values(|f: CachedFile| f@) == restatted(cached@.take(i as int), stats@.take(i as int)),
        decreases cached.len() - i,
    {
        assert(cached@.take(i + 1).drop_last() == cached@.take(i as int));
        assert(stats@.take(i + 1).drop_last() == stats@.take(i as int));
        match stats[i] {
            Some((m, s)) => {
                let f = CachedFile { path: cached[i].path.clone(), mtime: m, size: s };
                let ghost prev = out@;
                out.push(f);
                assert(out@.map_values(|f: CachedFile| f@) =~= prev.map_values(|f: CachedFile| f@).push(f@));
            },
            None => {},
        }
        i = i + 1;
    }
    assert(cached@.take(cached@.len() as int) == cached@);
    assert(stats@.take(stats@.len() as int) == stats@);
    let count = out.len() as u64;
    (out, count)
}

/// An entry met while walking a tree: its path, whether it is a regular
/// file, and its modification time and size where they could be read.
pub struct WalkedEntry {
    pub path: String,
    pub is_file: bool,
    pub meta: Option<(i128, u64)>,
}

/// The files of a walk: each regular file whose metadata could be read, in
/// the order met.
pub open spec fn walked_files(es: Seq<WalkedEntry>) -> Seq<CachedFileView>
    decreases es.len(),
{
    if es.len() == 0 {
        Seq::empty()
    } else {
        let rest = walked_files(es.drop_last());
        let e = es.last();
        match e.meta {
            Some((m, s)) => if e.is_file {
                rest.push(CachedFileView { path: e.path@, mtime: m as int, size: s })
            } else {
                rest
            },
            None => rest,
        }
    }
}

/// The number of regular files met by a walk, readable or not.
pub open spec fn walked_count(es: Seq<WalkedEntry>) -> nat
    decreases es.len(),
{
    if es.len() == 0 {
        0
    } else {
        walked_count(es.drop_last()) + if es.last().is_file { 1nat } else { 0nat }
    }
}

proof fn lemma_walked_count_bound(es: Seq<WalkedEntry>)
    ensures
        walked_count(es) <= es.len(),
    decreases es.len(),
{
    if es.len() > 0 {
        lemma_walked_count_bound(es.drop_last());
    }
}

/// The files and the file count of a walk, from the entries met in order.
pub fn walk_results(entries: Vec<WalkedEntry>) -> (r: (Vec<CachedFile>, u64))
    ensures
        r.0@.map_values(|f: CachedFile| f@) == walked_files(entries@),
        r.1 == walked_count(entries@),
{
    let mut files: Vec<CachedFile> = Vec::new();
    let mut count: u64 = 0;
    let mut i: usize = 0;
    while i < entries.len()
        invariant
            i <= entries@.len(),
            files@.map_values(|f: CachedFile| f@) == walked_files(entries@.take(i as int)),
            count == walked_count(entries@.take(i as int)),
        decreases entries.len() - i,
    {
        assert(entries@.take(i + 1).drop_last() == entries@.take(i as int));
        proof {
            lemma_walked_count_bound(entries@.take(i as int));
        }
        let e = &entries[i];
        if e.is_file {
            count = count + 1;
            match e.meta {
                Some((m, s)) => {
                    let ghost prev = files@;
                    let f = CachedFile { path: e.path.clone(), mtime: m, size: s };
                    files.push(f);
                    assert(files@.map_values(|f: CachedFile| f@) =~= prev.map_values(|f: CachedFile| f@).push(f@));
                },
                None => {},
            }
        }
        i = i + 1;
    }
    assert(entries@.take(entries@.len() as int) == entries@);
    (files, count)
}

/// The directory names a walk does not descend into.
pub open spec fn skipped_dir_names() -> Seq<Seq<char>> {
    seq![
        seq!['t', 'a', 'r', 'g', 'e', 't'],
        seq!['.', 'g', 'i', 't'],
        seq!['n', 'o', 'd', 'e', '_', 'm', 'o', 'd', 'u', 'l', 'e', 's'],
        seq!['.', 'n', 'e', 'x', 't'],
        seq!['_', '_', 'p', 'y', 'c', 'a', 'c', 'h', 'e', '_', '_'],
    ]
}

/// Whether a walk skips a directory named `name`.
pub fn is_skipped_dir(name: &str) -> (r: bool)
    ensures
        r == skipped_dir_names().contains(name@),
{
    let names = ["target", ".git", "node_modules", ".next", "__pycache__"];
    proof {
        reveal_strlit("target");
        reveal_strlit(".git");
        reveal_strlit("node_modules");
        reveal_strlit(".next");
        reveal_strlit("__pycache__");
        assert forall|k: int| 0 <= k < 5 implies names@[k]@ == #[trigger] skipped_dir_names()[k] by {
            if k == 0 {
                assert(names@[0]@ == skipped_dir_names()[0]);
            }
        }
    }
    let mut i: usize = 0;
    while i < 5
        invariant
            i <= 5,
            names@.len() == 5,
            forall|k: int| 0 <= k < 5 ==> names@[k]@ == #[trigger] skipped_dir_names()[k],
            forall|k: int| 0 <= k < i ==> names@[k]@ != name@,
        decreases 5 - i,
    {
        if str_eq(names[i], name) {
            assert(skipped_dir_names()[i as int] == name@);
            assert(skipped_dir_names().contains(name@));
            return true;
        }
        i = i + 1;
    }
    assert forall|k: int| 0 <= k < 5 implies skipped_dir_names()[k] != name@ by {
        assert(skipped_dir_names()[k] == names@[k]@);
    }
    false
}

/// What `DefaultHasher` yields after hashing the path `p` (deterministic for
/// a given build of the standard library).
pub uninterp spec fn path_hash(p: Seq<char>) -> u64;

/// Hashes the path `p` as `PathBuf::hash` does, with a `DefaultHasher` made by
/// `DefaultHasher::new`; the contract claims the result is `path_hash(p)`.
#[verifier::external_body]
fn hash_path(p: &str) -> (r: u64)
    ensures
        r == path_hash(p@),
{
    let mut hasher = std::collections::hash_map::DefaultHasher::new();
    std::path::Path::new(p).hash(&mut hasher);
    hasher.finish()
}

/// The name of the index file for a path hash: the hash in lowercase
/// hexadecimal, then `.json`.
pub open spec fn cache_file_name(h: u64) -> Seq<char> {
    hex(h as nat) + seq!['.', 'j', 's', 'o', 'n']
}

/// The index file of a root, named by the hash of its canonical path, under
/// `index_dir`.
pub fn cache_path_for_root(index_dir: &str, canonical_root: &str) -> (r: String)
    ensures
        r@ == path_join(index_dir@, cache_file_name(path_hash(canonical_root@))),
{
    let h = hash_path(canonical_root);
    cache_path_for_hash(index_dir, h)
}

/// The index file, under `index_dir`, of the root whose canonical path hashes
/// to `h`.
pub fn cache_path_for_hash(index_dir: &str, h: u64) -> (r: String)
    ensures
        r@ == path_join(index_dir@, cache_file_name(h)),
{
    let mut name = hex_chars(h);
    name.push('.');
    name.push('j');
    name.push('s');
    name.push('o');
    name.push('n');
    assert(name@ == cache_file_name(h));
    let file = string_of(name.as_slice());
    join_path(index_dir, file.as_str())
}

/// An index is fresh for 24 hours after its walk, and when it was walked in
/// the future; a forced refresh, another root or a stale index means a walk.
pub proof fn lemma_cache_reuse(cached: Option<IndexCache>, canonical_root: Seq<char>, now: int, force_refresh: bool)
    ensures
        force_refresh ==> !reusable(cached, canonical_root, now, force_refresh),
        cached is None ==> !reusable(cached, canonical_root, now, force_refresh),
        cached matches Some(c) && path_components(c.root@) != path_components(canonical_root)
            ==> !reusable(cached, canonical_root, now, force_refresh),
        cached matches Some(c) && now >= c.walked_at + TTL_NANOS ==> !reusable(cached, canonical_root, now, force_refresh),
        cached matches Some(c) && !force_refresh && path_components(c.root@) == path_components(canonical_root)
            && now < c.walked_at + TTL_NANOS ==> reusable(cached, canonical_root, now, force_refresh),
{
}

/// A walk lists no more files than it counts, and re-reading an index keeps
/// no more files than it held.
pub proof fn lemma_walk_and_restat_bounds(es: Seq<WalkedEntry>, cached: Seq<CachedFile>, stats: Seq<Option<(i128, u64)>>)
    ensures
        walked_files(es).len() <= walked_count(es),
        restatted(cached, stats).len() <= cached.len(),
    decreases es.len() + cached.len(),
{
    if es.len() > 0 {
        lemma_walk_and_restat_bounds(es.drop_last(), cached, stats);
    }
    if cached.len() > 0 && stats.len() > 0 {
        lemma_walk_and_restat_bounds(Seq::empty(), cached.drop_last(), stats.drop_last());
    }
}

/// Whether `v` is the cached file `c` re-read with the metadata `st`.
pub open spec fn restat_of(c: CachedFile, st: Option<(i128, u64)>, v: CachedFileView) -> bool {
    match st {
        Some((m, s)) => v == CachedFileView { path: c.path@, mtime: m as int, size: s },
        None => false,
    }
}

/// Re-reading a reused index keeps exactly the cached files whose metadata
/// could be read, in index order and with their new times and sizes: files
/// gone are dropped, changed ones seen, and no file is added.
pub proof fn lemma_restat_result(cached: Seq<CachedFile>, stats: Seq<Option<(i128, u64)>>)
    requires
        stats.len() == cached.len(),
    ensures
        forall|k: int| 0 <= k < restatted(cached, stats).len() ==> exists|i: int|
            0 <= i < cached.len() && restat_of(cached[i], stats[i], #[trigger] restatted(cached, stats)[k]),
        forall|i: int| 0 <= i < cached.len() && (#[trigger] stats[i]) is Some ==> exists|k: int|
            0 <= k < restatted(cached, stats).len() && restat_of(cached[i], stats[i], restatted(cached, stats)[k]),
    decreases cached.len(),
{
    if cached.len() > 0 {
        let c2 = cached.drop_last();
        let s2 = stats.drop_last();
        lemma_restat_result(c2, s2);
        let q = restatted(c2, s2);
        let r = restatted(cached, stats);
        let n = cached.len() - 1;
        assert forall|k: int| 0 <= k < r.len() implies exists|i: int|
            0 <= i < cached.len() && restat_of(cached[i], stats[i], #[trigger] r[k]) by {
            if k < q.len() {
                let i = choose|i: int| 0 <= i < c2.len() && restat_of(c2[i], s2[i], #[trigger] q[k]);
                assert(s2[i] == stats[i] && c2[i] == cached[i]);
                assert(r[k] == q[k]);
            } else {
                assert(restat_of(cached[n], stats[n], r[k]));
            }
        }
        assert forall|i: int| 0 <= i < cached.len() && (#[trigger] stats[i]) is Some implies exists|k: int|
            0 <= k < r.len() && restat_of(cached[i], stats[i], r[k]) by {
            if i < n {
                assert(s2[i] == stats[i] && c2[i] == cached[i]);
                let k = choose|k: int| 0 <= k < q.len() && restat_of(c2[i], s2[i], q[k]);
                assert(r[k] == q[k]);
            } else {
                assert(restat_of(cached[i], stats[i], r[r.len() - 1]));
            }
        }
    }
}

/// The index file of a root is named by one or more lowercase hexadecimal
/// digits followed by `.json`, and the same canonical root always gives the
/// same index file.
pub proof fn lemma_cache_file_name(index_dir: Seq<char>, a: Seq<char>, b: Seq<char>)
    ensures
        cache_file_name(path_hash(a)).len() > 5,
        forall|i: int| 0 <= i < cache_file_name(path_hash(a)).len() - 5 ==> is_hex_digit(
            #[trigger] cache_file_name(path_hash(a))[i],
        ),
        cache_file_name(path_hash(a)).subrange(
            cache_file_name(path_hash(a)).len() - 5,
            cache_file_name(path_hash(a)).len() as int,
        ) == seq!['.', 'j', 's', 'o', 'n'],
        a == b ==> path_join(index_dir, cache_file_name(path_hash(a))) == path_join(index_dir, cache_file_name(path_hash(b))),
{
    let h = hex(path_hash(a) as nat);
    lemma_hex_is_lowercase_hex(path_hash(a) as nat);
    let f = cache_file_name(path_hash(a));
    assert forall|i: int| 0 <= i < f.len() - 5 implies is_hex_digit(#[trigger] f[i]) by {
        assert(f[i] == h[i]);
    }
    assert(f.subrange(f.len() - 5, f.len() as int) =~= seq!['.', 'j', 's', 'o', 'n']);
}

/// The record that a walk keeps of one entry: its path, with the mtime
/// and size read from its metadata.
pub open spec fn entry_record(e: WalkedEntry) -> CachedFileView {
    match e.meta {
        Some((m, s)) => CachedFileView { path: e.path@, mtime: m as int, size: s },
        None => CachedFileView { path: e.path@, mtime: 0, size: 0 },
    }
}

/// Whether a walked entry is a regular file whose metadata could be read.
pub open spec fn readable_file(e: WalkedEntry) -> bool {
    e.is_file && e.meta is Some
}

/// A walk indexes every regular file whose metadata it could read, whatever
/// its size, and nothing else: each such entry's record is among the walked
/// files, and each walked file is the record of such an entry.
pub proof fn lemma_walk_indexes_every_file(es: Seq<WalkedEntry>)
    ensures
        forall|i: int| 0 <= i < es.len() && readable_file(#[trigger] es[i]) ==> walked_files(es).contains(entry_record(es[i])),
        forall|k: int| 0 <= k < walked_files(es).len() ==> exists|i: int|
            0 <= i < es.len() && readable_file(es[i]) && #[trigger] walked_files(es)[k] == entry_record(es[i]),
    decreases es.len(),
{
    if es.len() > 0 {
        let q = es.drop_last();
        lemma_walk_indexes_every_file(q);
        let w = walked_files(es);
        let wq = walked_files(q);
        let n = es.len() - 1;
        assert(es[n] == es.last());
        assert forall|i: int| 0 <= i < es.len() && readable_file(#[trigger] es[i]) implies w.contains(entry_record(es[i])) by {
            let v = entry_record(es[i]);
            if i < n {
                assert(q[i] == es[i]);
                let j = choose|j: int| 0 <= j < wq.len() && wq[j] == v;
                assert(w[j] == wq[j]);
            } else {
                assert(w[w.len() - 1] == v);
            }
        }
        assert forall|k: int| 0 <= k < w.len() implies exists|i: int|
            0 <= i < es.len() && readable_file(es[i]) && #[trigger] w[k] == entry_record(es[i]) by {
            if k < wq.len() {
                assert(w[k] == wq[k]);
                assert(exists|i: int| 0 <= i < q.len() && readable_file(q[i]) && #[trigger] wq[k] == entry_record(q[i]));
                let i = choose|i: int| 0 <= i < q.len() && readable_file(q[i]) && #[trigger] wq[k] == entry_record(q[i]);
                assert(q[i] == es[i]);
                assert(w[k] == wq[k]);
            } else {
                assert(readable_file(es[n]));
                assert(w[k] == entry_record(es[n]));
            }
        }
    }
}

/// A walk counts every regular file it meets, whether or not its metadata
/// could be read, and indexes one file per regular file whose metadata could
/// be read.
pub proof fn lemma_walk_counts(es: Seq<WalkedEntry>)
    ensures
        walked_count(es) == es.filter(|e: WalkedEntry| e.is_file).len(),
        walked_files(es).len() == es.filter(|e: WalkedEntry| readable_file(e)).len(),
    decreases es.len(),
{
    reveal(Seq::filter);
    if es.len() > 0 {
        lemma_walk_counts(es.drop_last());
    }
}

} // verus!
