//! Filtering the files of an index and grouping them by directory.

use vstd::prelude::*;
use crate::filters::{lowercase, to_lower, type_matches, type_label, matches_type, classify_type, matches_filename, str_eq};
use crate::index::CachedFile;
use crate::paths::{
    path_file_name, path_extension, path_parent, path_strip_prefix, path_components,
    components_lt, file_name_of, extension_of, parent_of, strip_prefix_of, components_of, lemma_path_order,
};
use crate::sorting::{Stamped, views, is_stable_sort, sort_by_stamp, lemma_stable_sort_members, lemma_stable_sort_covers};
use crate::grouping::{pairs, members, first_path, grouped, group_by_path, lemma_members_from, lemma_members_include, lemma_first_path_members, sum_members, lemma_members_partition};
use crate::text::{chars_of, string_of};

verus! {

/// A file that passed the filters.
#[derive(Clone, Debug)]
pub struct FileEntry {
    pub name: String,
    pub path: String,
    pub mtime: i128,
    pub size: u64,
    pub type_label: String,
}

/// The files of one directory that passed the filters, newest first.
#[derive(Clone, Debug)]
pub struct DirResult {
    pub dir: String,
    pub files: Vec<FileEntry>,
}

/// The filters of a scan. Times are nanoseconds since the epoch.
pub struct ScanConfig {
    pub since: Option<i128>,
    pub until: Option<i128>,
    pub type_spec: Option<String>,
    pub filename: Option<String>,
    pub max_depth: Option<usize>,
    /// Report only directories whose kept files are all older than this point.
    pub stale_before: Option<i128>,
}

/// The abstract value of a `FileEntry`.
pub struct FileEntryView {
    pub name: Seq<char>,
    pub path: Seq<char>,
    pub mtime: int,
    pub size: nat,
    pub type_label: Seq<char>,
}

impl View for FileEntry {
    type V = FileEntryView;

    open spec fn view(&self) -> FileEntryView {
        FileEntryView {
            name: self.name@,
            path: self.path@,
            mtime: self.mtime as int,
            size: self.size as nat,
            type_label: self.type_label@,
        }
    }
}

impl Stamped for FileEntry {
    open spec fn stamp_of(v: FileEntryView) -> int {
        v.mtime
    }

    fn stamp_exec(&self) -> (r: i128) {
        self.mtime
    }
}

/// The abstract value of a `DirResult`.
pub struct DirResultView {
    pub dir: Seq<char>,
    pub files: Seq<FileEntryView>,
}

impl View for DirResult {
    type V = DirResultView;

    open spec fn view(&self) -> DirResultView {
        DirResultView { dir: self.dir@, files: views(self.files@) }
    }
}

impl FileEntry {
    /// A copy of this entry.
    pub fn duplicate(&self) -> (r: FileEntry)
        ensures
            r@ == self@,
    {
        FileEntry {
            name: self.name.clone(),
            path: self.path.clone(),
            mtime: self.mtime,
            size: self.size,
            type_label: self.type_label.clone(),
        }
    }
}

/// The extension a file is filtered and labelled by: `.` and the lowercased
/// extension of its path, or the whole name for a dot-file without one, or
/// nothing.
pub open spec fn ext_of(path: Seq<char>, name: Seq<char>) -> Seq<char> {
    match path_extension(path) {
        Some(e) => seq!['.'] + lowercase(e),
        None => if name.len() > 0 && name[0] == '.' {
            name
        } else {
            Seq::<char>::empty()
        },
    }
}

/// The characters of `s` before its first `.`.
pub open spec fn before_dot(s: Seq<char>) -> Seq<char>
    decreases s.len(),
{
    if s.len() == 0 || s[0] == '.' {
        Seq::empty()
    } else {
        seq![s[0]] + before_dot(s.drop_first())
    }
}

/// The leading part of a dot-file's name, up to its second `.` (`.env` for
/// `.env.local`); nothing for other names.
pub open spec fn dot_lead(name: Seq<char>) -> Seq<char> {
    if name.len() > 0 && name[0] == '.' {
        seq!['.'] + before_dot(name.drop_first())
    } else {
        Seq::empty()
    }
}

/// Whether a file with extension `ext` and dot-file lead `lead` passes the
/// type filter `t`: by its extension, or by its lead (so `.env.local` counts
/// as a `.env` file).
pub open spec fn type_passes(ext: Seq<char>, lead: Seq<char>, t: Seq<char>) -> bool {
    type_matches(ext, t) || (lead.len() > 0 && type_matches(lead, t))
}

/// The label of a file: that of its extension, or else that of its dot-file
/// lead.
pub open spec fn file_label(ext: Seq<char>, lead: Seq<char>) -> Seq<char> {
    if type_label(ext) == "other"@ && lead.len() > 0 {
        type_label(lead)
    } else {
        type_label(ext)
    }
}

/// How many components a path has below the scan root (0 when it is not below it).
pub open spec fn depth_below(path: Seq<char>, start: Seq<char>) -> int {
    match path_strip_prefix(path, start) {
        Some(rest) => path_components(rest).len() as int,
        None => 0,
    }
}

/// The directory a file is reported under: the parent of its path, or the
/// scan root for a path without one.
pub open spec fn file_dir(start: Seq<char>, path: Seq<char>) -> Seq<char> {
    match path_parent(path) {
        Some(d) => d,
        None => start,
    }
}

/// What a scan keeps of one indexed file: its directory and its entry, or
/// nothing when the file has no name or fails a filter.
pub open spec fn keep_file(start: Seq<char>, cfg: ScanConfig, c: CachedFile) -> Option<
    (Seq<char>, FileEntryView),
> {
    match path_file_name(c.path@) {
        None => None,
        Some(name) => {
            let ext = ext_of(c.path@, name);
            let lead = dot_lead(name);
            if cfg.filename matches Some(f) && name != f@ {
                None
            } else if cfg.type_spec matches Some(t) && !type_passes(ext, lead, t@) {
                None
            } else if cfg.max_depth matches Some(m) && depth_below(c.path@, start) > m {
                None
            } else if cfg.since matches Some(s) && c.mtime < s {
                None
            } else if cfg.until matches Some(u) && c.mtime > u {
                None
            } else {
                Some(
                    (
                        file_dir(start, c.path@),
                        FileEntryView {
                            name: name,
                            path: c.path@,
                            mtime: c.mtime as int,
                            size: c.size as nat,
                            type_label: file_label(ext, lead),
                        },
                    ),
                )
            }
        },
    }
}

/// The files a scan keeps, in index order, each with its directory.
pub open spec fn kept_files(start: Seq<char>, cfg: ScanConfig, cs: Seq<CachedFile>) -> Seq<
    (Seq<char>, FileEntryView),
>
    decreases cs.len(),
{
    if cs.len() == 0 {
        Seq::empty()
    } else {
        let r = kept_files(start, cfg, cs.drop_last());
        match keep_file(start, cfg, cs.last()) {
            Some(x) => r.push(x),
            None => r,
        }
    }
}

/// Whether a directory with kept files `files` is reported under the stale
/// bound of `cfg`: when there is one, all of them are older than it.
pub open spec fn stale_ok(cfg: ScanConfig, files: Seq<FileEntryView>) -> bool {
    cfg.stale_before matches Some(b) ==> forall|j: int| 0 <= j < files.len() ==> (#[trigger] files[j]).mtime < b
}

/// The result of a scan: one group per directory of the kept files (directories
/// equal as paths share a group, named as by the first such file), in the
/// order `PathBuf` sorts directories, each holding its kept files newest first
/// (ties in index order); under a stale bound, only the directories whose kept
/// files are all older than it.
pub open spec fn scan_grouping(
    start: Seq<char>,
    cfg: ScanConfig,
    cs: Seq<CachedFile>,
    r: Seq<DirResultView>,
) -> bool {
    let k = kept_files(start, cfg, cs);
    &&& forall|i: int, j: int|
        0 <= i < j < r.len() ==> components_lt(
            path_components(#[trigger] r[i].dir),
            path_components(#[trigger] r[j].dir),
        )
    &&& forall|i: int| 0 <= i < r.len() ==> first_path(k, path_components(#[trigger] r[i].dir)) == Some(r[i].dir)
    &&& forall|n: int|
        0 <= n < k.len() && stale_ok(cfg, members(k, path_components(#[trigger] k[n].0))) ==> exists|i: int|
            0 <= i < r.len() && path_components(#[trigger] r[i].dir) == path_components(k[n].0)
    &&& forall|i: int|
        0 <= i < r.len() ==> is_stable_sort::<FileEntry>(
            #[trigger] r[i].files,
            members(k, path_components(r[i].dir)),
            true,
        )
    &&& forall|i: int| 0 <= i < r.len() ==> stale_ok(cfg, members(k, path_components(#[trigger] r[i].dir)))
}

fn optional_matches(opt: &Option<String>, name: &str) -> (r: bool)
    ensures
        r == !(opt matches Some(f) && name@ != f@),
{
    match opt {
        Some(f) => matches_filename(name, f.as_str()),
        None => true,
    }
}

fn dot_lead_of(name: &str) -> (r: String)
    ensures
        r@ == dot_lead(name@),
{
    let cs = chars_of(name);
    if cs.len() == 0 || cs[0] != '.' {
        return String::new();
    }
    let mut out: Vec<char> = Vec::new();
    out.push('.');
    let mut i: usize = 1;
    let ghost rest = name@.drop_first();
    proof {
        lemma_before_dot_skip(rest, 0);
    }
    while i < cs.len() && cs[i] != '.'
        invariant
            1 <= i <= cs@.len(),
            cs@ == name@,
            rest == name@.drop_first(),
            out@ + before_dot(rest.skip(i - 1)) == seq!['.'] + before_dot(rest),
        decreases cs.len() - i,
    {
        proof {
            let t = rest.skip(i - 1);
            assert(t[0] == cs@[i as int]);
            assert(t.drop_first() == rest.skip(i as int));
            assert(out@.push(cs@[i as int]) + before_dot(rest.skip(i as int)) == out@ + before_dot(t));
        }
        out.push(cs[i]);
        i = i + 1;
    }
    proof {
        let t = rest.skip(i - 1);
        assert(t.len() == 0 || t[0] == '.');
        assert(before_dot(t) == Seq::<char>::empty());
        assert(out@ == seq!['.'] + before_dot(rest));
    }
    string_of(out.as_slice())
}

proof fn lemma_before_dot_skip(s: Seq<char>, i: int)
    requires
        i == 0,
    ensures
        s.skip(i) == s,
{
}

fn file_label_of(ext: &str, lead: &str) -> (r: String)
    ensures
        r@ == file_label(ext@, lead@),
{
    let by_ext = classify_type(ext);
    let other = "other";
    proof {
        reveal_strlit("other");
    }
    if str_eq(by_ext.as_str(), other) && lead.unicode_len() > 0 {
        classify_type(lead)
    } else {
        by_ext
    }
}

/// Applies the filters to one indexed file.
pub fn select_file(start: &str, config: &ScanConfig, c: &CachedFile) -> (r: Option<(String, FileEntry)>)
    ensures
        match r {
            Some((d, e)) => keep_file(start@, *config, *c) == Some((d@, e@)),
            None => keep_file(start@, *config, *c) is None,
        },
{
    let name = match file_name_of(c.path.as_str()) {
        Some(n) => n,
        None => return None,
    };
    let ext: String = match extension_of(c.path.as_str()) {
        Some(e) => {
            let low = to_lower(e.as_str());
            let mut v: Vec<char> = Vec::new();
            v.push('.');
            let mut lc = chars_of(low.as_str());
            v.append(&mut lc);
            assert(v@ == seq!['.'] + lowercase(e@));
            string_of(v.as_slice())
        },
        None => {
            let nc = chars_of(name.as_str());
            if nc.len() > 0 && nc[0] == '.' {
                name.clone()
            } else {
                String::new()
            }
        },
    };
    assert(ext@ == ext_of(c.path@, name@));
    let lead = dot_lead_of(name.as_str());
    if !optional_matches(&config.filename, name.as_str()) {
        return None;
    }
    match &config.type_spec {
        Some(t) => {
            if !(matches_type(ext.as_str(), t.as_str()) || (lead.as_str().unicode_len() > 0 && matches_type(
                lead.as_str(),
                t.as_str(),
            ))) {
                return None;
            }
        },
        None => {},
    }
    match config.max_depth {
        Some(m) => {
            let depth: usize = match strip_prefix_of(c.path.as_str(), start) {
                Some(rest) => components_of(rest.as_str()).len(),
                None => 0,
            };
            if depth > m {
                return None;
            }
        },
        None => {},
    }
    match config.since {
        Some(s) => {
            if c.mtime < s {
                return None;
            }
        },
        None => {},
    }
    match config.until {
        Some(u) => {
            if c.mtime > u {
                return None;
            }
        },
        None => {},
    }
    let dir = match parent_of(c.path.as_str()) {
        Some(d) => d,
        None => String::from_str(start),
    };
    let label = file_label_of(ext.as_str(), lead.as_str());
    let entry = FileEntry { name, path: c.path.clone(), mtime: c.mtime, size: c.size, type_label: label };
    Some((dir, entry))
}


fn all_older(files: &Vec<FileEntry>, b: i128) -> (r: bool)
    ensures
        r == forall|j: int| 0 <= j < files@.len() ==> (#[trigger] views(files@)[j]).mtime < b,
{
    let mut i: usize = 0;
    while i < files.len()
        invariant
            i <= files@.len(),
            forall|j: int| 0 <= j < i ==> (#[trigger] views(files@)[j]).mtime < b,
        decreases files.len() - i,
    {
        assert(views(files@)[i as int] == files@[i as int]@);
        if files[i].mtime >= b {
            return false;
        }
        i = i + 1;
    }
    true
}

/// Filters the files of an index (as loaded, with the count of files it holds)
/// and groups those kept by directory; returns the groups and the count.
pub fn scan_with_cache(start: &str, config: &ScanConfig, loaded: (Vec<CachedFile>, u64)) -> (r: (
    Vec<DirResult>,
    u64,
))
    ensures
        r.1 == loaded.1,
        scan_grouping(start@, *config, loaded.0@, views(r.0@)),
{
    let (cands, count) = loaded;
    let mut kept: Vec<(String, FileEntry)> = Vec::new();
    let mut i: usize = 0;
    while i < cands.len()
        invariant
            i <= cands.len(),
            pairs(kept@) == kept_files(start@, *config, cands@.take(i as int)),
        decreases cands.len() - i,
    {
        assert(cands@.take(i + 1).drop_last() == cands@.take(i as int));
        assert(cands@.take(i + 1).last() == cands@[i as int]);
        let ghost before = kept@;
        match select_file(start, config, &cands[i]) {
            None => {},
            Some(x) => {
                kept.push(x);
                assert(pairs(kept@) =~= pairs(before).push((x.0@, x.1@)));
            },
        }
        i = i + 1;
    }
    assert(cands@.take(cands@.len() as int) == cands@);
    let ghost k = kept_files(start@, *config, cands@);
    let groups = group_by_path(kept);
    let ghost gv = groups@.map_values(|g: (String, Vec<FileEntry>)| (g.0@, views(g.1@)));
    assert(grouped(k, gv));
    let mut out: Vec<DirResult> = Vec::new();
    let mut rest = groups;
    let ghost all = rest@;
    let ghost mut idx: Seq<int> = Seq::empty();
    let n = rest.len();
    let mut j: usize = 0;
    assert(all.skip(0) == all);
    while j < n
        invariant
            n == all.len(),
            j <= n,
            rest@ == all.skip(j as int),
            gv == all.map_values(|g: (String, Vec<FileEntry>)| (g.0@, views(g.1@))),
            out@.len() == idx.len(),
            forall|a: int| 0 <= a < idx.len() ==> 0 <= #[trigger] idx[a] < j,
            forall|a: int, b: int| 0 <= a < b < idx.len() ==> #[trigger] idx[a] < #[trigger] idx[b],
            forall|a: int| 0 <= a < idx.len() ==> (#[trigger] out@[a])@.dir == gv[idx[a]].0,
            forall|a: int| 0 <= a < idx.len() ==> is_stable_sort::<FileEntry>((#[trigger] out@[a])@.files, gv[idx[a]].1, true),
            forall|a: int| 0 <= a < idx.len() ==> stale_ok(*config, gv[#[trigger] idx[a]].1),
            forall|g: int| 0 <= g < j && stale_ok(*config, gv[g].1) ==> exists|a: int| 0 <= a < idx.len() && #[trigger] idx[a] == g,
        decreases n - j,
    {
        let (d, f) = rest.remove(0);
        assert(all[j as int] == (d, f));
        assert(rest@ == all.skip(j + 1));
        assert(gv[j as int] == (d@, views(f@)));
        let keep = match config.stale_before {
            Some(b) => all_older(&f, b),
            None => true,
        };
        assert(keep == stale_ok(*config, gv[j as int].1));
        if keep {
            let sorted = sort_by_stamp(f, true);
            out.push(DirResult { dir: d, files: sorted });
            proof {
                let old_idx = idx;
                idx = idx.push(j as int);
                assert forall|g: int| 0 <= g < j + 1 && stale_ok(*config, gv[g].1) implies exists|a: int|
                    0 <= a < idx.len() && #[trigger] idx[a] == g by {
                    if g == j {
                        assert(idx[idx.len() - 1] == g);
                    } else {
                        let a = choose|a: int| 0 <= a < old_idx.len() && #[trigger] old_idx[a] == g;
                        assert(idx[a] == old_idx[a]);
                    }
                }
            }
        }
        j = j + 1;
    }
    proof {
        let rv = views(out@);
        assert forall|a: int| 0 <= a < rv.len() implies rv[a] == out@[a]@ && rv[a].dir == gv[idx[a]].0 by {}
        assert forall|i: int, j: int| 0 <= i < j < rv.len() implies components_lt(
            path_components(#[trigger] rv[i].dir),
            path_components(#[trigger] rv[j].dir),
        ) by {
            assert(rv[i].dir == gv[idx[i]].0);
            assert(rv[j].dir == gv[idx[j]].0);
            assert(idx[i] < idx[j]);
            assert(components_lt(path_components(gv[idx[i]].0), path_components(gv[idx[j]].0)));
        }
        assert forall|i: int| 0 <= i < rv.len() implies first_path(k, path_components(#[trigger] rv[i].dir)) == Some(rv[i].dir) by {
            assert(rv[i].dir == gv[idx[i]].0);
            assert(first_path(k, path_components(gv[idx[i]].0)) == Some(gv[idx[i]].0));
        }
        assert forall|m: int| 0 <= m < k.len() && stale_ok(*config, members(k, path_components(#[trigger] k[m].0))) implies exists|i: int|
            0 <= i < rv.len() && path_components(#[trigger] rv[i].dir) == path_components(k[m].0) by {
            let g = choose|g: int| 0 <= g < gv.len() && path_components(#[trigger] gv[g].0) == path_components(k[m].0);
            assert(gv[g].1 == members(k, path_components(gv[g].0)));
            let a = choose|a: int| 0 <= a < idx.len() && #[trigger] idx[a] == g;
            assert(rv[a].dir == gv[idx[a]].0);
        }
        assert forall|i: int| 0 <= i < rv.len() implies is_stable_sort::<FileEntry>(
            #[trigger] rv[i].files,
            members(k, path_components(rv[i].dir)),
            true,
        ) by {
            assert(rv[i] == out@[i]@);
            assert(gv[idx[i]].1 == members(k, path_components(gv[idx[i]].0)));
        }
        assert forall|i: int| 0 <= i < rv.len() implies stale_ok(*config, members(k, path_components(#[trigger] rv[i].dir))) by {
            assert(rv[i].dir == gv[idx[i]].0);
            assert(gv[idx[i]].1 == members(k, path_components(gv[idx[i]].0)));
            assert(stale_ok(*config, gv[idx[i]].1));
        }
    }
    (out, count)
}

/// Whether a file passes the filters of a scan from `start`, and is labelled
/// by its extension (or its dot-file lead).
pub open spec fn passes_filters(start: Seq<char>, cfg: ScanConfig, f: FileEntryView) -> bool {
    let ext = ext_of(f.path, f.name);
    let lead = dot_lead(f.name);
    &&& path_file_name(f.path) == Some(f.name)
    &&& (cfg.filename matches Some(n) ==> f.name == n@)
    &&& (cfg.type_spec matches Some(t) ==> type_passes(ext, lead, t@))
    &&& (cfg.max_depth matches Some(m) ==> depth_below(f.path, start) <= m)
    &&& (cfg.since matches Some(s) ==> f.mtime >= s)
    &&& (cfg.until matches Some(u) ==> f.mtime <= u)
    &&& f.type_label == file_label(ext, lead)
}

proof fn lemma_kept_pass(start: Seq<char>, cfg: ScanConfig, cs: Seq<CachedFile>)
    ensures
        forall|n: int| 0 <= n < kept_files(start, cfg, cs).len() ==> passes_filters(start, cfg, #[trigger] kept_files(start, cfg, cs)[n].1)
            && kept_files(start, cfg, cs)[n].0 == file_dir(start, kept_files(start, cfg, cs)[n].1.path),
    decreases cs.len(),
{
    if cs.len() > 0 {
        let q = kept_files(start, cfg, cs.drop_last());
        lemma_kept_pass(start, cfg, cs.drop_last());
        let k = kept_files(start, cfg, cs);
        match keep_file(start, cfg, cs.last()) {
            Some(x) => {
                assert(k == q.push(x));
                assert(passes_filters(start, cfg, x.1));
                assert forall|n: int| 0 <= n < k.len() implies passes_filters(start, cfg, #[trigger] k[n].1)
                    && k[n].0 == file_dir(start, k[n].1.path) by {
                    if n < q.len() {
                        assert(k[n] == q[n]);
                    }
                }
            },
            None => {
                assert(k == q);
            },
        }
    }
}

/// Every file in the result of a scan passes the scan's filters (its name,
/// type, depth and time, under the stale bound too) and carries the label of
/// its extension; it lies in the directory of its group; and no group is empty.
pub proof fn lemma_scan_results_pass(start: Seq<char>, cfg: ScanConfig, cs: Seq<CachedFile>, r: Seq<DirResultView>)
    requires
        scan_grouping(start, cfg, cs, r),
    ensures
        forall|i: int, j: int|
            0 <= i < r.len() && 0 <= j < r[i].files.len() ==> {
                &&& passes_filters(start, cfg, #[trigger] r[i].files[j])
                &&& path_components(file_dir(start, r[i].files[j].path)) == path_components(r[i].dir)
                &&& (cfg.stale_before matches Some(b) ==> r[i].files[j].mtime < b)
            },
        forall|i: int| 0 <= i < r.len() ==> (#[trigger] r[i]).files.len() > 0,
{
    let k = kept_files(start, cfg, cs);
    lemma_kept_pass(start, cfg, cs);
    assert forall|i: int, j: int|
        0 <= i < r.len() && 0 <= j < r[i].files.len() implies {
            &&& passes_filters(start, cfg, #[trigger] r[i].files[j])
            &&& path_components(file_dir(start, r[i].files[j].path)) == path_components(r[i].dir)
            &&& (cfg.stale_before matches Some(b) ==> r[i].files[j].mtime < b)
        } by {
        let key = path_components(r[i].dir);
        let ms = members(k, key);
        assert(is_stable_sort::<FileEntry>(r[i].files, ms, true));
        lemma_stable_sort_members::<FileEntry>(r[i].files, ms, true);
        assert(ms.contains(r[i].files[j]));
        let t = choose|t: int| 0 <= t < ms.len() && ms[t] == r[i].files[j];
        lemma_members_from(k, key);
        let n = choose|n: int| 0 <= n < k.len() && (#[trigger] k[n]).1 == #[trigger] members(k, key)[t] && path_components(k[n].0) == key;
        assert(passes_filters(start, cfg, k[n].1));
        assert(stale_ok(cfg, ms));
        assert(ms[t] == r[i].files[j]);
    }
    assert forall|i: int| 0 <= i < r.len() implies (#[trigger] r[i]).files.len() > 0 by {
        let key = path_components(r[i].dir);
        assert(first_path(k, key) == Some(r[i].dir));
        lemma_first_path_members(k, key);
        assert(is_stable_sort::<FileEntry>(r[i].files, members(k, key), true));
    }
}

proof fn lemma_kept_includes(start: Seq<char>, cfg: ScanConfig, cs: Seq<CachedFile>, m: int)
    requires
        0 <= m < cs.len(),
        keep_file(start, cfg, cs[m]) is Some,
    ensures
        kept_files(start, cfg, cs).contains(keep_file(start, cfg, cs[m])->0),
    decreases cs.len(),
{
    let k = kept_files(start, cfg, cs);
    let q = kept_files(start, cfg, cs.drop_last());
    if m < cs.len() - 1 {
        lemma_kept_includes(start, cfg, cs.drop_last(), m);
        assert(cs.drop_last()[m] == cs[m]);
        let j = choose|j: int| 0 <= j < q.len() && q[j] == keep_file(start, cfg, cs[m])->0;
        if keep_file(start, cfg, cs.last()) is Some {
            assert(k[j] == q[j]);
        }
    } else {
        assert(k[k.len() - 1] == keep_file(start, cfg, cs[m])->0);
    }
}

/// Every file of the index that passes the filters appears in the result of
/// the scan, in the group of its directory, unless a stale bound drops that
/// directory (some kept file of it is not older than the bound).
pub proof fn lemma_scan_results_complete(start: Seq<char>, cfg: ScanConfig, cs: Seq<CachedFile>, r: Seq<DirResultView>)
    requires
        scan_grouping(start, cfg, cs, r),
    ensures
        forall|m: int| 0 <= m < cs.len() && (#[trigger] keep_file(start, cfg, cs[m])) is Some && stale_ok(
            cfg,
            members(kept_files(start, cfg, cs), path_components((keep_file(start, cfg, cs[m])->0).0)),
        ) ==> exists|i: int|
            0 <= i < r.len() && path_components(r[i].dir) == path_components((keep_file(start, cfg, cs[m])->0).0)
                && (#[trigger] r[i].files).contains((keep_file(start, cfg, cs[m])->0).1),
{
    let k = kept_files(start, cfg, cs);
    assert forall|m: int| 0 <= m < cs.len() && (#[trigger] keep_file(start, cfg, cs[m])) is Some && stale_ok(
        cfg,
        members(k, path_components((keep_file(start, cfg, cs[m])->0).0)),
    ) implies exists|i: int|
        0 <= i < r.len() && path_components(r[i].dir) == path_components((keep_file(start, cfg, cs[m])->0).0)
            && (#[trigger] r[i].files).contains((keep_file(start, cfg, cs[m])->0).1) by {
        let x = keep_file(start, cfg, cs[m])->0;
        lemma_kept_includes(start, cfg, cs, m);
        let n = choose|n: int| 0 <= n < k.len() && k[n] == x;
        assert(path_components(k[n].0) == path_components(x.0));
        assert(stale_ok(cfg, members(k, path_components(k[n].0))));
        let i = choose|i: int| 0 <= i < r.len() && path_components(#[trigger] r[i].dir) == path_components(k[n].0);
        let key = path_components(r[i].dir);
        lemma_members_include(k, key, n);
        let ms = members(k, key);
        assert(is_stable_sort::<FileEntry>(r[i].files, ms, true));
        lemma_stable_sort_covers::<FileEntry>(r[i].files, ms, true);
        let j = choose|j: int| 0 <= j < ms.len() && ms[j] == x.1;
        assert(r[i].files.contains(ms[j]));
    }
}

/// The number of files in the groups of a scan result.
pub open spec fn files_in(r: Seq<DirResultView>) -> nat
    decreases r.len(),
{
    if r.len() == 0 {
        0
    } else {
        files_in(r.drop_last()) + r.last().files.len()
    }
}

/// Without a stale bound, each file of the index that passes the filters
/// appears exactly once in the result of a scan: the groups together hold as
/// many files as pass (and, by the laws above, only files that pass, and each
/// of them).
pub proof fn lemma_scan_count(start: Seq<char>, cfg: ScanConfig, cs: Seq<CachedFile>, r: Seq<DirResultView>)
    requires
        scan_grouping(start, cfg, cs, r),
        cfg.stale_before is None,
    ensures
        files_in(r) == kept_files(start, cfg, cs).len(),
{
    lemma_path_order();
    let k = kept_files(start, cfg, cs);
    let ks = r.map_values(|d: DirResultView| path_components(d.dir));
    assert forall|a: int, b: int| 0 <= a < b < ks.len() implies #[trigger] ks[a] != #[trigger] ks[b] by {
        assert(components_lt(path_components(r[a].dir), path_components(r[b].dir)));
    }
    assert forall|n: int| 0 <= n < k.len() implies ks.contains(path_components(#[trigger] k[n].0)) by {
        assert(stale_ok(cfg, members(k, path_components(k[n].0))));
        let i = choose|i: int| 0 <= i < r.len() && path_components(#[trigger] r[i].dir) == path_components(k[n].0);
        assert(ks[i] == path_components(k[n].0));
    }
    lemma_members_partition(k, ks);
    lemma_files_in_members(k, r);
}

proof fn lemma_files_in_members(k: Seq<(Seq<char>, FileEntryView)>, r: Seq<DirResultView>)
    requires
        forall|i: int| 0 <= i < r.len() ==> (#[trigger] r[i]).files.len() == members(k, path_components(r[i].dir)).len(),
    ensures
        files_in(r) == sum_members(k, r.map_values(|d: DirResultView| path_components(d.dir))),
    decreases r.len(),
{
    if r.len() > 0 {
        let q = r.drop_last();
        assert forall|i: int| 0 <= i < q.len() implies (#[trigger] q[i]).files.len() == members(k, path_components(q[i].dir)).len() by {
            assert(q[i] == r[i]);
        }
        lemma_files_in_members(k, q);
        let ks = r.map_values(|d: DirResultView| path_components(d.dir));
        assert(ks.drop_last() == q.map_values(|d: DirResultView| path_components(d.dir)));
        assert(r[r.len() - 1] == r.last());
    }
}

/// Whether a file named `name` at `path` is of the type `t`: its extension
/// (`.` and the lowercased extension of the path) is of that type, or it is a
/// dot-file without an extension whose name is, or a dot-file whose lead
/// (`.env` of `.env.local`) is, or it has neither an extension nor a leading
/// dot and the type takes files without an extension (as `all` does).
pub open spec fn of_type(path: Seq<char>, name: Seq<char>, t: Seq<char>) -> bool {
    ||| path_extension(path) matches Some(e) && type_matches(seq!['.'] + lowercase(e), t)
    ||| path_extension(path) is None && name.len() > 0 && name[0] == '.' && type_matches(name, t)
    ||| name.len() > 0 && name[0] == '.' && type_matches(dot_lead(name), t)
    ||| path_extension(path) is None && !(name.len() > 0 && name[0] == '.') && type_matches(Seq::empty(), t)
}

/// Whether the indexed file `c`, named `name`, meets every filter of `cfg` for
/// a scan from `start`: the file name, the type, the depth and the time window.
pub open spec fn meets_filters(start: Seq<char>, cfg: ScanConfig, c: CachedFile, name: Seq<char>) -> bool {
    &&& path_file_name(c.path@) == Some(name)
    &&& (cfg.filename matches Some(f) ==> name == f@)
    &&& (cfg.type_spec matches Some(t) ==> of_type(c.path@, name, t@))
    &&& (cfg.max_depth matches Some(m) ==> depth_below(c.path@, start) <= m)
    &&& (cfg.since matches Some(s) ==> c.mtime >= s)
    &&& (cfg.until matches Some(u) ==> c.mtime <= u)
}

/// A file that meets the filters is kept, whatever its extension or name:
/// under its directory, with its name, path, time and size, and labelled by
/// its extension when that has a type, else (for a dot-file) by its lead.
pub proof fn lemma_keep_file_complete(start: Seq<char>, cfg: ScanConfig, c: CachedFile, name: Seq<char>)
    requires
        meets_filters(start, cfg, c, name),
    ensures
        keep_file(start, cfg, c) is Some,
        (keep_file(start, cfg, c)->0).0 == file_dir(start, c.path@),
        (keep_file(start, cfg, c)->0).1.name == name,
        (keep_file(start, cfg, c)->0).1.path == c.path@,
        (keep_file(start, cfg, c)->0).1.mtime == c.mtime as int,
        (keep_file(start, cfg, c)->0).1.size == c.size as nat,
        (match path_extension(c.path@) {
            Some(e) => type_label(seq!['.'] + lowercase(e)) != "other"@ ==> (keep_file(start, cfg, c)->0).1.type_label
                == type_label(seq!['.'] + lowercase(e)),
            None => true,
        }),
        (match path_extension(c.path@) {
            Some(e) => type_label(seq!['.'] + lowercase(e)) == "other"@ && name.len() > 0 && name[0] == '.' ==> (keep_file(
                start,
                cfg,
                c,
            )->0).1.type_label == type_label(dot_lead(name)),
            None => true,
        }),
{
}

/// A scan keeps a file only when it meets the filters under its own name.
pub proof fn lemma_kept_meets_filters(start: Seq<char>, cfg: ScanConfig, c: CachedFile)
    ensures
        keep_file(start, cfg, c) is Some ==> meets_filters(start, cfg, c, (keep_file(start, cfg, c)->0).1.name),
{
}

/// Every indexed file that meets the filters is in the result of the scan,
/// in the group of its directory, unless a stale bound drops that directory.
pub proof fn lemma_scan_finds_matching_files(start: Seq<char>, cfg: ScanConfig, cs: Seq<CachedFile>, r: Seq<DirResultView>)
    requires
        scan_grouping(start, cfg, cs, r),
    ensures
        forall|m: int, name: Seq<char>|
            0 <= m < cs.len() && #[trigger] meets_filters(start, cfg, cs[m], name) && stale_ok(
                cfg,
                members(kept_files(start, cfg, cs), path_components(file_dir(start, cs[m].path@))),
            ) ==> exists|i: int, j: int|
                0 <= i < r.len() && 0 <= j < r[i].files.len() && path_components(r[i].dir) == path_components(
                    file_dir(start, cs[m].path@),
                ) && (#[trigger] r[i].files[j]).path == cs[m].path@ && r[i].files[j].name == name
                    && r[i].files[j].mtime == cs[m].mtime as int && r[i].files[j].size == cs[m].size as nat,
{
    lemma_scan_results_complete(start, cfg, cs, r);
    assert forall|m: int, name: Seq<char>|
        0 <= m < cs.len() && #[trigger] meets_filters(start, cfg, cs[m], name) && stale_ok(
            cfg,
            members(kept_files(start, cfg, cs), path_components(file_dir(start, cs[m].path@))),
        ) implies exists|i: int, j: int|
            0 <= i < r.len() && 0 <= j < r[i].files.len() && path_components(r[i].dir) == path_components(
                file_dir(start, cs[m].path@),
            ) && (#[trigger] r[i].files[j]).path == cs[m].path@ && r[i].files[j].name == name
                && r[i].files[j].mtime == cs[m].mtime as int && r[i].files[j].size == cs[m].size as nat by {
        lemma_keep_file_complete(start, cfg, cs[m], name);
        let x = keep_file(start, cfg, cs[m])->0;
        assert(keep_file(start, cfg, cs[m]) is Some);
        let i = choose|i: int|
            0 <= i < r.len() && path_components(r[i].dir) == path_components(x.0) && (#[trigger] r[i].files).contains(x.1);
        let j = choose|j: int| 0 <= j < r[i].files.len() && r[i].files[j] == x.1;
        assert(r[i].files[j].path == cs[m].path@);
    }
}

} // verus!
