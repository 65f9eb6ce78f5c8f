//! The text of the reports, and the grouping of results by project.

use vstd::prelude::*;
use crate::clock::{representable, elapsed_secs, elapsed_secs_between, now_stamp};
use crate::paths::{path_strip_prefix, path_components, strip_prefix_of, components_of, path_join, join_path};
use crate::scanner::{DirResult, FileEntry, FileEntryView, DirResultView};
use crate::aggregate::{FindMatch, FindMatchView};
use crate::trend::TrendDelta;
use crate::grouping::{pairs, members, first_path, grouped, group_by_path, lemma_first_path_members};
use crate::sorting::{Stamped, views, is_stable_sort, sort_by_stamp, lemma_stable_sort_members, lemma_stable_sort_covers, lemma_stable_sort_occurrences, lemma_occurrences_two, lemma_occurrences_distinct};
use crate::text::{digit, digit_char, decimal, decimal_chars, pad_right, pad_left, pad_right_chars, pad_left_chars, chars_of, string_of, push_str_chars};

verus! {

/// `n` in decimal followed by `unit`.
pub open spec fn count_with(n: int, unit: Seq<char>) -> Seq<char> {
    decimal(n as nat) + unit
}

/// How long ago `t` was at clock reading `now`: `Ns ago`, `Nm ago`, `Nh ago`
/// or `Nd ago`, in whole units.
pub open spec fn relative_text(t: int, now: int) -> Seq<char> {
    let s = elapsed_secs(t, now);
    if s < 60 {
        count_with(s, "s ago"@)
    } else if s < 3600 {
        count_with(s / 60, "m ago"@)
    } else if s < 86400 {
        count_with(s / 3600, "h ago"@)
    } else {
        count_with(s / 86400, "d ago"@)
    }
}

fn count_text(n: u64, unit: &str) -> (r: Vec<char>)
    ensures
        r@ == count_with(n as int, unit@),
{
    let mut v = decimal_chars(n);
    push_str_chars(&mut v, unit);
    v
}

/// How long ago `t` was at clock reading `now`.
pub fn format_relative_time_at(t: i128, now: i128) -> (r: String)
    requires
        representable(t as int),
        representable(now as int),
    ensures
        r@ == relative_text(t as int, now as int),
{
    let s = elapsed_secs_between(t, now);
    let v = if s < 60 {
        count_text(s, "s ago")
    } else if s < 3600 {
        count_text(s / 60, "m ago")
    } else if s < 86400 {
        count_text(s / 3600, "h ago")
    } else {
        count_text(s / 86400, "d ago")
    };
    string_of(v.as_slice())
}

/// How long ago `t` was, by the system clock.
pub fn format_relative_time(t: i128) -> (r: String)
    requires
        representable(t as int),
    ensures
        exists|now: int| representable(now) && r@ == #[trigger] relative_text(t as int, now),
{
    let now = now_stamp();
    format_relative_time_at(t, now)
}

/// One line of the summary table.
pub open spec fn summary_line(index: nat, project: Seq<char>, count: nat, when: Seq<char>) -> Seq<char> {
    "  "@ + decimal(index) + "  "@ + pad_right(project, 20) + "  "@ + pad_left(decimal(count), 4)
        + " change"@ + (if count == 1 { ""@ } else { "s"@ }) + "  "@ + when
}

/// One line of the summary table, with the age of `last_mtime` at clock reading `now`.
pub fn format_summary_line_at(index: usize, project: &str, count: usize, last_mtime: i128, now: i128) -> (r: String)
    requires
        representable(last_mtime as int),
        representable(now as int),
    ensures
        r@ == summary_line(index as nat, project@, count as nat, relative_text(last_mtime as int, now as int)),
{
    let mut v: Vec<char> = Vec::new();
    push_str_chars(&mut v, "  ");
    let mut d = decimal_chars(index as u64);
    v.append(&mut d);
    push_str_chars(&mut v, "  ");
    let mut p = pad_right_chars(chars_of(project), 20);
    v.append(&mut p);
    push_str_chars(&mut v, "  ");
    let mut c = pad_left_chars(decimal_chars(count as u64), 4);
    v.append(&mut c);
    push_str_chars(&mut v, " change");
    if count == 1 {
        push_str_chars(&mut v, "");
    } else {
        push_str_chars(&mut v, "s");
    }
    push_str_chars(&mut v, "  ");
    let when = format_relative_time_at(last_mtime, now);
    push_str_chars(&mut v, when.as_str());
    string_of(v.as_slice())
}

/// One line of the summary table, with the age of `last_mtime` by the system clock.
pub fn format_summary_line(index: usize, project: &str, count: usize, last_mtime: i128) -> (r: String)
    requires
        representable(last_mtime as int),
    ensures
        exists|now: int|
            representable(now) && r@ == summary_line(
                index as nat,
                project@,
                count as nat,
                #[trigger] relative_text(last_mtime as int, now),
            ),
{
    let now = now_stamp();
    format_summary_line_at(index, project, count, last_mtime, now)
}

/// The age of a cache in whole units: `Nm old`, `Nh old` or `Nd old`.
pub open spec fn cache_age_text(age_nanos: int) -> Seq<char> {
    let s = age_nanos / 1_000_000_000;
    if s < 3600 {
        count_with(s / 60, "m old"@)
    } else if s < 86400 {
        count_with(s / 3600, "h old"@)
    } else {
        count_with(s / 86400, "d old"@)
    }
}

/// The age of a cache (given in nanoseconds) in whole units.
pub fn format_cache_age(age_nanos: u128) -> (r: String)
    requires
        age_nanos / 1_000_000_000 <= 0xffff_ffff_ffff_ffff,
    ensures
        r@ == cache_age_text(age_nanos as int),
{
    let s128 = age_nanos / 1_000_000_000;
    let v = if s128 < 3600 {
        count_text((s128 / 60) as u64, "m old")
    } else if s128 < 86400 {
        count_text((s128 / 3600) as u64, "h old")
    } else {
        count_text((s128 / 86400) as u64, "d old")
    };
    string_of(v.as_slice())
}

/// The project a directory belongs to: its first component below the start
/// directory, or the whole directory when it is not below it.
pub open spec fn project_of(dir: Seq<char>, start: Seq<char>) -> Seq<char> {
    match path_strip_prefix(dir, start) {
        Some(rest) => if path_components(rest).len() > 0 {
            path_components(rest)[0].1
        } else {
            dir
        },
        None => dir,
    }
}

/// The project a result belongs to.
pub fn project_name(result: &DirResult, start: &str) -> (r: String)
    ensures
        r@ == project_of(result.dir@, start@),
{
    match strip_prefix_of(result.dir.as_str(), start) {
        Some(rest) => {
            let comps = components_of(rest.as_str());
            if comps.len() > 0 {
                assert(comps@.map_values(|c: (u8, String)| (c.0, c.1@))[0] == (comps@[0].0, comps@[0].1@));
                comps[0].1.clone()
            } else {
                result.dir.clone()
            }
        },
        None => result.dir.clone(),
    }
}


/// The newest modification time among `files`, or 0 (the epoch) when there are none.
pub open spec fn newest_mtime(files: Seq<FileEntryView>) -> int
    decreases files.len(),
{
    if files.len() == 0 {
        0
    } else if files.len() == 1 {
        files[0].mtime
    } else {
        let m = newest_mtime(files.drop_last());
        if files.last().mtime > m {
            files.last().mtime
        } else {
            m
        }
    }
}

/// The index of the first summary row named `name`.
pub open spec fn project_index(g: Seq<(Seq<char>, usize, i128)>, name: Seq<char>) -> Option<int>
    decreases g.len(),
{
    if g.len() == 0 {
        None
    } else {
        let r = project_index(g.drop_last(), name);
        if r is Some {
            r
        } else if g.last().0 == name {
            Some(g.len() - 1)
        } else {
            None
        }
    }
}

/// The summary rows before sorting: one per project in order of first
/// appearance, with the number of files of its results and their newest
/// modification time.
pub open spec fn summary_merge(rs: Seq<DirResultView>, start: Seq<char>) -> Seq<(Seq<char>, usize, i128)>
    decreases rs.len(),
{
    if rs.len() == 0 {
        Seq::empty()
    } else {
        let g = summary_merge(rs.drop_last(), start);
        let x = rs.last();
        let p = project_of(x.dir, start);
        let n = x.files.len();
        let t = newest_mtime(x.files);
        match project_index(g, p) {
            Some(i) => g.update(
                i,
                (p, (g[i].1 + n) as usize, if t > g[i].2 { t as i128 } else { g[i].2 }),
            ),
            None => g.push((p, n as usize, t as i128)),
        }
    }
}

/// The number of files over all results.
pub open spec fn total_files(rs: Seq<DirResultView>) -> nat
    decreases rs.len(),
{
    if rs.len() == 0 {
        0
    } else {
        total_files(rs.drop_last()) + rs.last().files.len()
    }
}

impl Stamped for (String, usize, i128) {
    open spec fn stamp_of(v: (Seq<char>, usize, i128)) -> int {
        v.2 as int
    }

    fn stamp_exec(&self) -> (r: i128) {
        self.2
    }
}

fn newest_of(files: &Vec<FileEntry>) -> (r: i128)
    ensures
        r as int == newest_mtime(views(files@)),
{
    let ghost fv = views(files@);
    if files.len() == 0 {
        return 0;
    }
    let mut m = files[0].mtime;
    let mut i: usize = 1;
    assert(fv.take(1).drop_last().len() == 0);
    while i < files.len()
        invariant
            1 <= i <= files.len(),
            fv == views(files@),
            m as int == newest_mtime(fv.take(i as int)),
        decreases files.len() - i,
    {
        assert(fv.take(i + 1).drop_last() == fv.take(i as int));
        assert(fv.take(i + 1).last() == files@[i as int]@);
        if files[i].mtime > m {
            m = files[i].mtime;
        }
        i = i + 1;
    }
    assert(fv.take(files.len() as int) == fv);
    m
}

proof fn lemma_project_index(g: Seq<(Seq<char>, usize, i128)>, name: Seq<char>, i: int)
    requires
        0 <= i < g.len(),
        g[i].0 == name,
        forall|j: int| 0 <= j < i ==> (#[trigger] g[j]).0 != name,
    ensures
        project_index(g, name) == Some(i),
    decreases g.len(),
{
    if i < g.len() - 1 {
        lemma_project_index(g.drop_last(), name, i);
    } else {
        lemma_project_absent(g.drop_last(), name);
    }
}

proof fn lemma_project_absent(g: Seq<(Seq<char>, usize, i128)>, name: Seq<char>)
    requires
        forall|j: int| 0 <= j < g.len() ==> (#[trigger] g[j]).0 != name,
    ensures
        project_index(g, name) is None,
    decreases g.len(),
{
    if g.len() > 0 {
        lemma_project_absent(g.drop_last(), name);
    }
}

proof fn lemma_merge_counts(rs: Seq<DirResultView>, start: Seq<char>)
    requires
        total_files(rs) <= usize::MAX,
    ensures
        forall|j: int| 0 <= j < summary_merge(rs, start).len() ==> (#[trigger] summary_merge(rs, start)[j]).1 <= total_files(rs),
    decreases rs.len(),
{
    if rs.len() > 0 {
        lemma_merge_counts(rs.drop_last(), start);
        let g = summary_merge(rs.drop_last(), start);
        let x = rs.last();
        let p = project_of(x.dir, start);
        let m = summary_merge(rs, start);
        assert(total_files(rs) == total_files(rs.drop_last()) + x.files.len());
        if let Some(i) = project_index(g, p) {
            lemma_project_index_range(g, p);
            assert(g[i].1 + x.files.len() <= total_files(rs));
            assert forall|j: int| 0 <= j < m.len() implies (#[trigger] m[j]).1 <= total_files(rs) by {
                if j != i {
                    assert(m[j] == g[j]);
                }
            }
        } else {
            assert forall|j: int| 0 <= j < m.len() implies (#[trigger] m[j]).1 <= total_files(rs) by {
                if j < g.len() {
                    assert(m[j] == g[j]);
                }
            }
        }
    }
}

proof fn lemma_project_index_range(g: Seq<(Seq<char>, usize, i128)>, name: Seq<char>)
    ensures
        project_index(g, name) matches Some(i) ==> 0 <= i < g.len() && g[i].0 == name,
    decreases g.len(),
{
    if g.len() > 0 {
        lemma_project_index_range(g.drop_last(), name);
    }
}

/// One row per project (name, number of changed files, newest modification
/// time), newest project first; projects with equal times keep the order in
/// which they first appear.
pub fn build_summary_groups(results: &[DirResult], start_dir: &str) -> (r: Vec<(String, usize, i128)>)
    requires
        total_files(views(results@)) <= usize::MAX,
    ensures
        is_stable_sort::<(String, usize, i128)>(views(r@), summary_merge(views(results@), start_dir@), true),
{
    let ghost rv = views(results@);
    let mut groups: Vec<(String, usize, i128)> = Vec::new();
    let mut i: usize = 0;
    while i < results.len()
        invariant
            i <= results@.len(),
            rv == views(results@),
            total_files(rv) <= usize::MAX,
            views(groups@) == summary_merge(rv.take(i as int), start_dir@),
        decreases results.len() - i,
    {
        let ghost g = views(groups@);
        let ghost pre = rv.take(i as int);
        assert(rv.take(i + 1).drop_last() == pre);
        assert(rv.take(i + 1).last() == results@[i as int]@);
        proof {
            lemma_total_prefix(rv, i + 1);
            lemma_merge_counts(pre, start_dir@);
            lemma_total_prefix(rv, i as int);
        }
        let project = project_name(&results[i], start_dir);
        let n = results[i].files.len();
        let last = newest_of(&results[i].files);
        let mut j: usize = 0;
        while j < groups.len() && groups[j].0 != project
            invariant
                j <= groups@.len(),
                g == views(groups@),
                forall|k: int| 0 <= k < j ==> (#[trigger] g[k]).0 != project@,
            decreases groups.len() - j,
        {
            assert(g[j as int] == groups@[j as int]@);
            j = j + 1;
        }
        if j < groups.len() {
            proof {
                assert(g[j as int] == groups@[j as int]@);
                lemma_project_index(g, project@, j as int);
                assert(g[j as int].1 + n <= total_files(rv.take(i + 1)));
            }
            let old_count = groups[j].1;
            let old_last = groups[j].2;
            let new_last = if last > old_last { last } else { old_last };
            let row = (project, old_count + n, new_last);
            groups.set(j, row);
            assert(views(groups@) =~= g.update(j as int, row@));
        } else {
            proof {
                lemma_project_absent(g, project@);
            }
            let row = (project, n, last);
            groups.push(row);
            assert(views(groups@) =~= g.push(row@));
        }
        i = i + 1;
    }
    assert(rv.take(results.len() as int) == rv);
    sort_by_stamp(groups, true)
}

proof fn lemma_total_prefix(rs: Seq<DirResultView>, i: int)
    requires
        0 <= i <= rs.len(),
    ensures
        total_files(rs.take(i)) <= total_files(rs),
        i < rs.len() ==> total_files(rs.take(i + 1)) == total_files(rs.take(i)) + rs[i].files.len(),
    decreases rs.len(),
{
    if i < rs.len() {
        assert(rs.take(i + 1).drop_last() == rs.take(i));
        lemma_total_prefix(rs.drop_last(), i);
        assert(rs.drop_last().take(i) == rs.take(i));
        if i < rs.len() - 1 {
            assert(rs.drop_last().take(i + 1) == rs.take(i + 1));
        }
    } else {
        assert(rs.take(i) == rs);
    }
}


/// A project offered for opening: its name, its path below the start
/// directory, and its summary numbers.
pub struct OpenChoice {
    pub project: String,
    pub path: String,
    pub count: usize,
    pub last_mtime: i128,
}

/// The summary rows, each with the project's path (`start.join(project)`),
/// in summary order.
pub fn build_open_choices(results: &[DirResult], start_dir: &str) -> (r: Vec<OpenChoice>)
    requires
        total_files(views(results@)) <= usize::MAX,
    ensures
        exists|g: Seq<(Seq<char>, usize, i128)>|
            #![trigger is_stable_sort::<(String, usize, i128)>(g, summary_merge(views(results@), start_dir@), true)]
            is_stable_sort::<(String, usize, i128)>(g, summary_merge(views(results@), start_dir@), true)
                && r@.len() == g.len() && forall|i: int|
                0 <= i < g.len() ==> {
                    &&& (#[trigger] r@[i]).project@ == g[i].0
                    &&& r@[i].path@ == path_join(start_dir@, g[i].0)
                    &&& r@[i].count == g[i].1
                    &&& r@[i].last_mtime == g[i].2
                },
{
    let groups = build_summary_groups(results, start_dir);
    let ghost g = views(groups@);
    let mut out: Vec<OpenChoice> = Vec::new();
    let mut i: usize = 0;
    while i < groups.len()
        invariant
            i <= groups@.len(),
            g == views(groups@),
            out@.len() == i,
            forall|k: int|
                0 <= k < i ==> {
                    &&& (#[trigger] out@[k]).project@ == g[k].0
                    &&& out@[k].path@ == path_join(start_dir@, g[k].0)
                    &&& out@[k].count == g[k].1
                    &&& out@[k].last_mtime == g[k].2
                },
        decreases groups.len() - i,
    {
        assert(g[i as int] == groups@[i as int]@);
        let project = groups[i].0.clone();
        let path = join_path(start_dir, project.as_str());
        out.push(OpenChoice { project, path, count: groups[i].1, last_mtime: groups[i].2 });
        i = i + 1;
    }
    out
}

/// The files of the results that belong to project `name`, in result order.
pub open spec fn project_files(rs: Seq<DirResultView>, start: Seq<char>, name: Seq<char>) -> Seq<FileEntryView>
    decreases rs.len(),
{
    if rs.len() == 0 {
        Seq::empty()
    } else {
        let f = project_files(rs.drop_last(), start, name);
        if project_of(rs.last().dir, start) == name {
            f + rs.last().files
        } else {
            f
        }
    }
}

/// The summary rows' projects, each with all its files, newest first (ties in
/// result order).
pub fn build_verbose_groups(results: &[DirResult], start_dir: &str) -> (r: Vec<(String, Vec<FileEntry>)>)
    requires
        total_files(views(results@)) <= usize::MAX,
    ensures
        exists|g: Seq<(Seq<char>, usize, i128)>|
            #![trigger is_stable_sort::<(String, usize, i128)>(g, summary_merge(views(results@), start_dir@), true)]
            is_stable_sort::<(String, usize, i128)>(g, summary_merge(views(results@), start_dir@), true)
                && r@.len() == g.len() && forall|i: int|
                0 <= i < g.len() ==> {
                    &&& (#[trigger] r@[i]).0@ == g[i].0
                    &&& is_stable_sort::<FileEntry>(
                        views(r@[i].1@),
                        project_files(views(results@), start_dir@, g[i].0),
                        true,
                    )
                },
{
    let ghost rv = views(results@);
    let groups = build_summary_groups(results, start_dir);
    let ghost g = views(groups@);
    let mut names: Vec<String> = Vec::new();
    let mut k: usize = 0;
    while k < results.len()
        invariant
            k <= results@.len(),
            names@.len() == k,
            rv == views(results@),
            forall|a: int| 0 <= a < k ==> (#[trigger] names@[a])@ == project_of(rv[a].dir, start_dir@),
        decreases results.len() - k,
    {
        names.push(project_name(&results[k], start_dir));
        k = k + 1;
    }
    let mut out: Vec<(String, Vec<FileEntry>)> = Vec::new();
    let mut i: usize = 0;
    while i < groups.len()
        invariant
            i <= groups@.len(),
            g == views(groups@),
            rv == views(results@),
            names@.len() == results@.len(),
            forall|a: int| 0 <= a < results@.len() ==> (#[trigger] names@[a])@ == project_of(rv[a].dir, start_dir@),
            out@.len() == i,
            forall|q: int|
                0 <= q < i ==> {
                    &&& (#[trigger] out@[q]).0@ == g[q].0
                    &&& is_stable_sort::<FileEntry>(
                        views(out@[q].1@),
                        project_files(rv, start_dir@, g[q].0),
                        true,
                    )
                },
        decreases groups.len() - i,
    {
        assert(g[i as int] == groups@[i as int]@);
        let name = groups[i].0.clone();
        let mut files: Vec<FileEntry> = Vec::new();
        let mut j: usize = 0;
        while j < results.len()
            invariant
                j <= results@.len(),
                rv == views(results@),
                names@.len() == results@.len(),
                forall|a: int| 0 <= a < results@.len() ==> (#[trigger] names@[a])@ == project_of(rv[a].dir, start_dir@),
                views(files@) == project_files(rv.take(j as int), start_dir@, name@),
            decreases results.len() - j,
        {
            assert(rv.take(j + 1).drop_last() == rv.take(j as int));
            assert(rv.take(j + 1).last() == results@[j as int]@);
            if names[j] == name {
                let ghost before = views(files@);
                let mut m: usize = 0;
                while m < results[j].files.len()
                    invariant
                        j < results@.len(),
                        m <= results@[j as int].files@.len(),
                        views(files@) == before + views(results@[j as int].files@).take(m as int),
                    decreases results@[j as int].files@.len() - m,
                {
                    let e = results[j].files[m].duplicate();
                    let ghost prev = files@;
                    files.push(e);
                    assert(views(files@) =~= views(prev).push(e@));
                    assert(views(results@[j as int].files@).take(m + 1) == views(results@[j as int].files@).take(m as int).push(results@[j as int].files@[m as int]@));
                    assert(views(files@) =~= before + views(results@[j as int].files@).take(m + 1));
                    m = m + 1;
                }
                assert(views(results@[j as int].files@).take(results@[j as int].files@.len() as int) == views(results@[j as int].files@));
            }
            j = j + 1;
        }
        assert(rv.take(results.len() as int) == rv);
        let sorted = sort_by_stamp(files, true);
        out.push((name, sorted));
        i = i + 1;
    }
    out
}

/// `n` split as `m * p + rest` with `p` a power of two and `m` below 2^53:
/// `(m, p)`, with `p` as small as it can be.
pub open spec fn f64_parts(n: nat) -> (nat, nat)
    decreases n,
{
    if n < 0x20_0000_0000_0000 {
        (n, 1)
    } else {
        let (m, p) = f64_parts(n / 2);
        (m, 2 * p)
    }
}

/// `n` as `n as f64` holds it: rounded to 53 significant bits, ties to even.
pub open spec fn nearest_f64(n: nat) -> nat {
    let (m, p) = f64_parts(n);
    let rest = n - m * p;
    if 2 * rest > p || (2 * rest == p && m % 2 == 1) {
        (m + 1) * p
    } else {
        m * p
    }
}

/// `v / d` in tenths, rounded to nearest with ties to even (as `{:.1}`
/// rounds an exactly held quotient).
pub open spec fn tenths(v: nat, d: nat) -> nat {
    let q = v * 10 / d;
    let r = v * 10 % d;
    if 2 * r > d || (2 * r == d && q % 2 == 1) {
        q + 1
    } else {
        q
    }
}

/// A count of tenths as text with one decimal: `12` is `1.2`.
pub open spec fn tenths_text(t: nat) -> Seq<char> {
    decimal(t / 10) + seq!['.', digit(t % 10)]
}

/// The text of a change in size: its sign, then bytes below 1 KiB, else KiB,
/// MiB or GiB with one decimal (`B`, `KB`, `MB`, `GB`).
pub open spec fn size_delta_text(bytes: int) -> Seq<char> {
    let sign = if bytes >= 0 { seq!['+'] } else { seq!['-'] };
    let a = (if bytes >= 0 { bytes } else { -bytes }) as nat;
    if a < 1024 {
        sign + decimal(a) + seq!['B']
    } else if a < 1024 * 1024 {
        sign + tenths_text(tenths(a, 1024)) + seq!['K', 'B']
    } else if a < 1024 * 1024 * 1024 {
        sign + tenths_text(tenths(a, 1024 * 1024)) + seq!['M', 'B']
    } else {
        sign + tenths_text(tenths(nearest_f64(a), 1024 * 1024 * 1024)) + seq!['G', 'B']
    }
}

fn f64_parts_exec(n: u64) -> (r: (u64, u64))
    ensures
        (r.0 as nat, r.1 as nat) == f64_parts(n as nat),
        r.0 * r.1 <= n < (r.0 + 1) * r.1,
        r.1 >= 1,
        r.0 < 0x20_0000_0000_0000,
        n > 0 ==> r.0 > 0,
    decreases n,
{
    if n < 0x20_0000_0000_0000 {
        (n, 1)
    } else {
        let h = n / 2;
        let (m, p) = f64_parts_exec(h);
        assert(m * (2 * p) <= n < (m + 1) * (2 * p) && 2 * p <= n) by (nonlinear_arith)
            requires
                m * p <= h < (m + 1) * p,
                2 * h <= n < 2 * h + 2,
                p >= 1,
                m >= 1,
        ;
        (m, 2 * p)
    }
}

fn nearest_f64_exec(n: u64) -> (r: u128)
    requires
        n > 0,
    ensures
        r as nat == nearest_f64(n as nat),
        r <= n as nat + n as nat,
{
    let (m, p) = f64_parts_exec(n);
    assert(m * p <= n);
    let mp = (m as u128) * (p as u128);
    let rest = (n as u128) - mp;
    assert((m + 1) * p <= n + p && p <= n + 1) by (nonlinear_arith)
        requires
            m * p <= n < (m + 1) * p,
            p >= 1,
            m >= 1,
    ;
    if 2 * rest > p as u128 || (2 * rest == p as u128 && m % 2 == 1) {
        assert((m + 1) * p == m * p + p) by (nonlinear_arith);
        (m as u128 + 1) * (p as u128)
    } else {
        mp
    }
}

fn tenths_exec(v: u128, d: u128) -> (r: u128)
    requires
        0 < d <= 0x1_0000_0000_0000_0000,
        v <= 0x1_0000_0000_0000_0000,
    ensures
        r as nat == tenths(v as nat, d as nat),
{
    let q = v * 10 / d;
    let rem = v * 10 % d;
    if 2 * rem > d || (2 * rem == d && q % 2 == 1) {
        q + 1
    } else {
        q
    }
}

fn push_tenths(out: &mut Vec<char>, t: u128)
    requires
        t <= u64::MAX,
    ensures
        final(out)@ == old(out)@ + tenths_text(t as nat),
{
    let whole = decimal_chars((t / 10) as u64);
    let mut w = whole;
    out.append(&mut w);
    out.push('.');
    out.push(digit_char((t % 10) as u64));
}

/// Formats a change in size: `+512B`, `-1.5KB`, `+2.0MB`, `+1.0GB`.
pub fn format_size_delta(bytes: i64) -> (r: String)
    ensures
        r@ == size_delta_text(bytes as int),
{
    let mut out: Vec<char> = Vec::new();
    out.push(if bytes >= 0 { '+' } else { '-' });
    let a: u64 = if bytes >= 0 { bytes as u64 } else { (-(bytes as i128)) as u64 };
    if a < 1024 {
        let mut d = decimal_chars(a);
        out.append(&mut d);
        out.push('B');
    } else if a < 1024 * 1024 {
        let t = tenths_exec(a as u128, 1024);
        assert(t <= u64::MAX) by (nonlinear_arith)
            requires
                t as nat == tenths(a as nat, 1024),
                a < 1024 * 1024,
        ;
        push_tenths(&mut out, t);
        out.push('K');
        out.push('B');
    } else if a < 1024 * 1024 * 1024 {
        let t = tenths_exec(a as u128, 1024 * 1024);
        assert(t <= u64::MAX) by (nonlinear_arith)
            requires
                t as nat == tenths(a as nat, 1024 * 1024),
                a < 1024 * 1024 * 1024,
        ;
        push_tenths(&mut out, t);
        out.push('M');
        out.push('B');
    } else {
        let v = nearest_f64_exec(a);
        let t = tenths_exec(v, 1024 * 1024 * 1024);
        assert(t <= u64::MAX) by (nonlinear_arith)
            requires
                t as nat == tenths(v as nat, 1024 * 1024 * 1024),
                v <= 0x2_0000_0000_0000_0000,
        ;
        push_tenths(&mut out, t);
        out.push('G');
        out.push('B');
    }
    string_of(out.as_slice())
}

/// The matches of a search under one root, as the search report lists them.
pub struct FindGroup {
    /// The root, as the first match under it names it.
    pub root: String,
    /// The age of the youngest index among the matches, in nanoseconds.
    pub cache_age: u128,
    /// The path of each match, relative to the root where it lies below it.
    pub paths: Vec<String>,
}

/// `path` relative to `root`, or `path` itself when it does not lie below `root`.
pub open spec fn rel_path(path: Seq<char>, root: Seq<char>) -> Seq<char> {
    match path_strip_prefix(path, root) {
        Some(r) => r,
        None => path,
    }
}

/// The smallest age among the matches (0 for none).
pub open spec fn min_age(ms: Seq<FindMatchView>) -> int
    decreases ms.len(),
{
    if ms.len() == 0 {
        0
    } else if ms.len() == 1 {
        ms[0].cache_age
    } else {
        let m = min_age(ms.drop_last());
        if ms.last().cache_age < m { ms.last().cache_age } else { m }
    }
}

/// The matches paired with their roots.
pub open spec fn by_root(ms: Seq<FindMatchView>) -> Seq<(Seq<char>, FindMatchView)> {
    ms.map_values(|m: FindMatchView| (m.root, m))
}

/// The matches whose root is, as a path, `root`.
pub open spec fn root_members(ms: Seq<FindMatchView>, root: Seq<char>) -> Seq<FindMatchView> {
    members(by_root(ms), path_components(root))
}

/// `r` lists the matches `ms` by root: one group per root (roots equal as paths
/// share a group) in the order paths sort, each with the youngest age of its
/// matches and their paths relative to the root, in the order found.
pub open spec fn find_grouping(ms: Seq<FindMatchView>, r: Seq<(Seq<char>, int, Seq<Seq<char>>)>) -> bool {
    &&& grouped(by_root(ms), r.map_values(|g: (Seq<char>, int, Seq<Seq<char>>)| (g.0, root_members(ms, g.0))))
    &&& forall|i: int| 0 <= i < r.len() ==> (#[trigger] r[i]).1 == min_age(root_members(ms, r[i].0))
    &&& forall|i: int| 0 <= i < r.len() ==> (#[trigger] r[i]).2 == root_members(ms, r[i].0).map_values(
        |m: FindMatchView| rel_path(m.file.path, r[i].0),
    )
}

/// The groups as plain values.
pub open spec fn find_group_views(gs: Seq<FindGroup>) -> Seq<(Seq<char>, int, Seq<Seq<char>>)> {
    gs.map_values(|g: FindGroup| (g.root@, g.cache_age as int, g.paths@.map_values(|p: String| p@)))
}

fn group_summary(root: &String, ms: &Vec<FindMatch>) -> (r: (u128, Vec<String>))
    requires
        ms@.len() > 0,
    ensures
        r.0 as int == min_age(views(ms@)),
        r.1@.map_values(|p: String| p@) == views(ms@).map_values(|m: FindMatchView| rel_path(m.file.path, root@)),
{
    let mut age: u128 = ms[0].cache_age;
    let mut paths: Vec<String> = Vec::new();
    let mut i: usize = 0;
    while i < ms.len()
        invariant
            0 < ms@.len(),
            i <= ms@.len(),
            i == 0 ==> age == ms@[0].cache_age,
            i > 0 ==> age as int == min_age(views(ms@).take(i as int)),
            paths@.map_values(|p: String| p@) == views(ms@).take(i as int).map_values(
                |m: FindMatchView| rel_path(m.file.path, root@),
            ),
        decreases ms.len() - i,
    {
        let m = &ms[i];
        let ghost vs = views(ms@);
        assert(vs.take(i + 1).drop_last() == vs.take(i as int));
        assert(vs.take(i + 1).last() == m@);
        if i > 0 && m.cache_age < age {
            age = m.cache_age;
        }
        let rel = match strip_prefix_of(m.file.path.as_str(), root.as_str()) {
            Some(r) => r,
            None => m.file.path.clone(),
        };
        let ghost before = paths@;
        paths.push(rel);
        assert(paths@.map_values(|p: String| p@) =~= before.map_values(|p: String| p@).push(rel@));
        assert(vs.take(i + 1).map_values(|m: FindMatchView| rel_path(m.file.path, root@)) =~= vs.take(
            i as int,
        ).map_values(|m: FindMatchView| rel_path(m.file.path, root@)).push(rel_path(m@.file.path, root@)));
        i = i + 1;
    }
    assert(views(ms@).take(ms@.len() as int) == views(ms@));
    (age, paths)
}

/// Lists the matches of a search by root, for the search report.
pub fn find_result_groups(matches: &[FindMatch]) -> (r: Vec<FindGroup>)
    ensures
        find_grouping(views(matches@), find_group_views(r@)),
{
    let ghost ms = views(matches@);
    let mut items: Vec<(String, FindMatch)> = Vec::new();
    let mut i: usize = 0;
    while i < matches.len()
        invariant
            i <= matches@.len(),
            ms == views(matches@),
            pairs(items@) == by_root(ms.take(i as int)),
        decreases matches.len() - i,
    {
        let m = matches[i].duplicate();
        let ghost before = items@;
        items.push((matches[i].root.clone(), m));
        assert(pairs(items@) =~= pairs(before).push((matches@[i as int].root@, matches@[i as int]@)));
        assert(by_root(ms.take(i + 1)) =~= by_root(ms.take(i as int)).push((ms[i as int].root, ms[i as int])));
        i = i + 1;
    }
    assert(ms.take(matches@.len() as int) == ms);
    let groups = group_by_path(items);
    let ghost k = by_root(ms);
    let ghost gv = groups@.map_values(|g: (String, Vec<FindMatch>)| (g.0@, views(g.1@)));
    let mut out: Vec<FindGroup> = Vec::new();
    let mut j: usize = 0;
    while j < groups.len()
        invariant
            j <= groups@.len(),
            k == by_root(ms),
            gv == groups@.map_values(|g: (String, Vec<FindMatch>)| (g.0@, views(g.1@))),
            grouped(k, gv),
            out@.len() == j,
            forall|a: int| 0 <= a < j ==> (#[trigger] out@[a]).root@ == gv[a].0,
            forall|a: int| 0 <= a < j ==> (#[trigger] out@[a]).cache_age as int == min_age(gv[a].1),
            forall|a: int| 0 <= a < j ==> (#[trigger] out@[a]).paths@.map_values(|p: String| p@) == gv[a].1.map_values(
                |m: FindMatchView| rel_path(m.file.path, gv[a].0),
            ),
        decreases groups.len() - j,
    {
        let g = &groups[j];
        assert(gv[j as int] == (g.0@, views(g.1@)));
        proof {
            let a = j as int;
            assert(gv[a].1 == members(k, path_components(gv[a].0)));
            assert(first_path(k, path_components(gv[a].0)) == Some(gv[a].0));
            lemma_first_path_members(k, path_components(gv[a].0));
        }
        let (age, paths) = group_summary(&g.0, &g.1);
        out.push(FindGroup { root: g.0.clone(), cache_age: age, paths });
        j = j + 1;
    }
    proof {
        let rv = find_group_views(out@);
        assert(rv.len() == gv.len());
        assert forall|i: int| 0 <= i < rv.len() implies rv[i].0 == gv[i].0 && root_members(ms, rv[i].0) == gv[i].1 by {
            assert(rv[i].0 == out@[i].root@);
        }
        assert(rv.map_values(|g: (Seq<char>, int, Seq<Seq<char>>)| (g.0, root_members(ms, g.0))) =~= gv);
    }
    out
}

/// `path` relative to `root`, or `path` itself when it does not lie below `root`.
pub fn relative_path(path: &str, root: &str) -> (r: String)
    ensures
        r@ == rel_path(path@, root@),
{
    match strip_prefix_of(path, root) {
        Some(r) => r,
        None => String::from_str(path),
    }
}

/// An integer with its sign always shown (`{:+}`).
pub open spec fn signed_text(v: int) -> Seq<char> {
    if v >= 0 {
        seq!['+'] + decimal(v as nat)
    } else {
        seq!['-'] + decimal((-v) as nat)
    }
}

fn signed_chars(v: i64) -> (r: Vec<char>)
    ensures
        r@ == signed_text(v as int),
{
    let mut out: Vec<char> = Vec::new();
    let a: u64 = if v >= 0 {
        out.push('+');
        v as u64
    } else {
        out.push('-');
        (-(v as i128)) as u64
    };
    let mut d = decimal_chars(a);
    out.append(&mut d);
    out
}

/// One row of the trend table: when the later scan ran, the change in files
/// and the change in size.
pub open spec fn trend_row_text(when: Seq<char>, file_count_delta: int, total_size_delta: int) -> Seq<char> {
    "  "@ + pad_right(when, 22) + "  "@ + pad_left(signed_text(file_count_delta), 12) + "  "@ + pad_left(
        size_delta_text(total_size_delta),
        12,
    )
}

/// One row of the trend table, with the age of the later scan at clock reading `now`.
pub fn trend_row_at(delta: &TrendDelta, now: i128) -> (r: String)
    requires
        representable(delta.to.walked_at as int),
        representable(now as int),
    ensures
        r@ == trend_row_text(
            relative_text(delta.to.walked_at as int, now as int),
            delta.file_count_delta as int,
            delta.total_size_delta as int,
        ),
{
    let mut v: Vec<char> = Vec::new();
    push_str_chars(&mut v, "  ");
    let when = format_relative_time_at(delta.to.walked_at, now);
    let mut w = pad_right_chars(chars_of(when.as_str()), 22);
    v.append(&mut w);
    push_str_chars(&mut v, "  ");
    let mut f = pad_left_chars(signed_chars(delta.file_count_delta), 12);
    v.append(&mut f);
    push_str_chars(&mut v, "  ");
    let size = format_size_delta(delta.total_size_delta);
    let mut z = pad_left_chars(chars_of(size.as_str()), 12);
    v.append(&mut z);
    string_of(v.as_slice())
}

/// One row of the trend table, with the age of the later scan by the system clock.
pub fn trend_row(delta: &TrendDelta) -> (r: String)
    requires
        representable(delta.to.walked_at as int),
    ensures
        exists|now: int|
            representable(now) && r@ == trend_row_text(
                #[trigger] relative_text(delta.to.walked_at as int, now),
                delta.file_count_delta as int,
                delta.total_size_delta as int,
            ),
{
    let now = now_stamp();
    trend_row_at(delta, now)
}

/// One line of the open prompt: the choice's number, project, count of
/// changes and age.
pub open spec fn open_line_text(number: nat, project: Seq<char>, count: nat, when: Seq<char>) -> Seq<char> {
    "  "@ + decimal(number) + "  "@ + project + " ("@ + decimal(count) + " change"@ + (if count == 1 {
        ""@
    } else {
        "s"@
    }) + ", "@ + when + ")"@
}

/// The line of the open prompt for the choice at `index` (shown counting from
/// 1), with its age at clock reading `now`.
pub fn open_prompt_line_at(index: usize, choice: &OpenChoice, now: i128) -> (r: String)
    requires
        index < usize::MAX,
        representable(choice.last_mtime as int),
        representable(now as int),
    ensures
        r@ == open_line_text(
            (index + 1) as nat,
            choice.project@,
            choice.count as nat,
            relative_text(choice.last_mtime as int, now as int),
        ),
{
    let mut v: Vec<char> = Vec::new();
    push_str_chars(&mut v, "  ");
    let mut d = decimal_chars((index + 1) as u64);
    v.append(&mut d);
    push_str_chars(&mut v, "  ");
    push_str_chars(&mut v, choice.project.as_str());
    push_str_chars(&mut v, " (");
    let mut c = decimal_chars(choice.count as u64);
    v.append(&mut c);
    push_str_chars(&mut v, " change");
    if choice.count == 1 {
        push_str_chars(&mut v, "");
    } else {
        push_str_chars(&mut v, "s");
    }
    push_str_chars(&mut v, ", ");
    let when = format_relative_time_at(choice.last_mtime, now);
    push_str_chars(&mut v, when.as_str());
    push_str_chars(&mut v, ")");
    string_of(v.as_slice())
}

proof fn lemma_project_index_found(g: Seq<(Seq<char>, usize, i128)>, name: Seq<char>)
    ensures
        match project_index(g, name) {
            Some(i) => 0 <= i < g.len() && g[i].0 == name && forall|j: int| 0 <= j < i ==> (#[trigger] g[j]).0 != name,
            None => forall|j: int| 0 <= j < g.len() ==> (#[trigger] g[j]).0 != name,
        },
    decreases g.len(),
{
    if g.len() > 0 {
        lemma_project_index_found(g.drop_last(), name);
        assert forall|j: int| 0 <= j < g.len() - 1 implies #[trigger] g[j] == g.drop_last()[j] by {}
    }
}

proof fn lemma_project_files_len(rs: Seq<DirResultView>, start: Seq<char>, name: Seq<char>)
    ensures
        project_files(rs, start, name).len() <= total_files(rs),
    decreases rs.len(),
{
    if rs.len() > 0 {
        lemma_project_files_len(rs.drop_last(), start, name);
    }
}

/// The summary and the verbose listing agree: each summary row counts exactly
/// the files listed under its project, no project has two rows, and a project
/// without a row has no files.
pub proof fn lemma_summary_counts(rs: Seq<DirResultView>, start: Seq<char>)
    requires
        total_files(rs) <= usize::MAX,
    ensures
        forall|i: int| 0 <= i < summary_merge(rs, start).len() ==> (#[trigger] summary_merge(rs, start)[i]).1
            == project_files(rs, start, summary_merge(rs, start)[i].0).len(),
        forall|i: int, j: int| 0 <= i < j < summary_merge(rs, start).len() ==> (#[trigger] summary_merge(rs, start)[i]).0
            != (#[trigger] summary_merge(rs, start)[j]).0,
        forall|name: Seq<char>| project_index(summary_merge(rs, start), name) is None ==> #[trigger] project_files(
            rs,
            start,
            name,
        ).len() == 0,
    decreases rs.len(),
{
    if rs.len() > 0 {
        let q = rs.drop_last();
        let g0 = summary_merge(q, start);
        let g = summary_merge(rs, start);
        let x = rs.last();
        let p = project_of(x.dir, start);
        let n = x.files.len();
        lemma_summary_counts(q, start);
        lemma_project_index_found(g0, p);
        assert forall|name: Seq<char>| name != p implies #[trigger] project_files(rs, start, name) == project_files(q, start, name) by {}
        assert(project_files(rs, start, p) == project_files(q, start, p) + x.files);
        match project_index(g0, p) {
            Some(i) => {
                lemma_project_files_len(q, start, p);
                assert(g0[i].1 + n <= total_files(rs));
                assert forall|k: int| 0 <= k < g.len() implies (#[trigger] g[k]).1 == project_files(rs, start, g[k].0).len() by {
                    if k != i {
                        assert(g[k] == g0[k]);
                        assert(g0[k].0 != p);
                    }
                }
                assert forall|a: int, b: int| 0 <= a < b < g.len() implies (#[trigger] g[a]).0 != (#[trigger] g[b]).0 by {
                    if a != i && b != i {
                        assert(g[a] == g0[a] && g[b] == g0[b]);
                    } else if a == i {
                        assert(g[b] == g0[b]);
                        assert(g0[a].0 != g0[b].0);
                    } else {
                        assert(g[a] == g0[a]);
                        assert(g0[a].0 != g0[b].0);
                    }
                }
                assert forall|name: Seq<char>| project_index(g, name) is None implies #[trigger] project_files(rs, start, name).len() == 0 by {
                    lemma_project_index_found(g, name);
                    lemma_project_index_found(g0, name);
                    if name == p {
                        assert(g[i].0 == p);
                    } else {
                        assert forall|j: int| 0 <= j < g0.len() implies (#[trigger] g0[j]).0 != name by {
                            if j != i {
                                assert(g[j] == g0[j]);
                            }
                        }
                        if project_index(g0, name) is Some {
                            let j = project_index(g0, name)->0;
                            assert(g0[j].0 == name);
                        }
                    }
                }
            },
            None => {
                assert(project_files(q, start, p).len() == 0);
                assert(g == g0.push((p, n as usize, newest_mtime(x.files) as i128)));
                assert(n <= total_files(rs));
                assert forall|k: int| 0 <= k < g.len() implies (#[trigger] g[k]).1 == project_files(rs, start, g[k].0).len() by {
                    if k < g0.len() {
                        assert(g[k] == g0[k]);
                        assert(g0[k].0 != p);
                    }
                }
                assert forall|a: int, b: int| 0 <= a < b < g.len() implies (#[trigger] g[a]).0 != (#[trigger] g[b]).0 by {
                    assert(g[a] == g0[a]);
                    if b < g0.len() {
                        assert(g[b] == g0[b]);
                    }
                }
                assert forall|name: Seq<char>| project_index(g, name) is None implies #[trigger] project_files(rs, start, name).len() == 0 by {
                    lemma_project_index_found(g, name);
                    lemma_project_index_found(g0, name);
                    if name == p {
                        assert(g[g.len() - 1].0 == p);
                    } else {
                        assert forall|j: int| 0 <= j < g0.len() implies (#[trigger] g0[j]).0 != name by {
                            assert(g[j] == g0[j]);
                        }
                        if project_index(g0, name) is Some {
                            let j = project_index(g0, name)->0;
                            assert(g0[j].0 == name);
                        }
                    }
                }
            },
        }
    }
}

/// Whether some result belongs to project `name`.
pub open spec fn has_project(rs: Seq<DirResultView>, start: Seq<char>, name: Seq<char>) -> bool {
    exists|i: int| 0 <= i < rs.len() && project_of((#[trigger] rs[i]).dir, start) == name
}

/// The newest modification time over the results of project `name` (each
/// result counting its newest file, or the epoch when it has none).
pub open spec fn project_newest(rs: Seq<DirResultView>, start: Seq<char>, name: Seq<char>) -> int
    decreases rs.len(),
{
    if rs.len() == 0 {
        0
    } else {
        let q = project_newest(rs.drop_last(), start, name);
        let t = newest_mtime(rs.last().files);
        if project_of(rs.last().dir, start) != name {
            q
        } else if has_project(rs.drop_last(), start, name) && q >= t {
            q
        } else {
            t
        }
    }
}

/// The sum of the counts of the summary rows.
pub open spec fn sum_counts(g: Seq<(Seq<char>, usize, i128)>) -> int
    decreases g.len(),
{
    if g.len() == 0 {
        0
    } else {
        sum_counts(g.drop_last()) + g.last().1
    }
}

/// Whether every time in the results is an `i128`.
pub open spec fn times_fit(rs: Seq<DirResultView>) -> bool {
    forall|i: int, j: int| 0 <= i < rs.len() && 0 <= j < rs[i].files.len() ==> i128::MIN <= (#[trigger] rs[i].files[j]).mtime <= i128::MAX
}

proof fn lemma_newest_fits(files: Seq<FileEntryView>)
    requires
        forall|j: int| 0 <= j < files.len() ==> i128::MIN <= (#[trigger] files[j]).mtime <= i128::MAX,
    ensures
        i128::MIN <= newest_mtime(files) <= i128::MAX,
    decreases files.len(),
{
    if files.len() > 1 {
        lemma_newest_fits(files.drop_last());
    }
}

proof fn lemma_sum_counts_update(g: Seq<(Seq<char>, usize, i128)>, i: int, x: (Seq<char>, usize, i128))
    requires
        0 <= i < g.len(),
    ensures
        sum_counts(g.update(i, x)) == sum_counts(g) - g[i].1 + x.1,
    decreases g.len(),
{
    if i < g.len() - 1 {
        lemma_sum_counts_update(g.drop_last(), i, x);
        assert(g.update(i, x).drop_last() == g.drop_last().update(i, x));
    } else {
        assert(g.update(i, x).drop_last() == g.drop_last());
    }
}

/// The summary rows add up to all files, there is a row exactly for each
/// project that has a result, and each row's time is the newest time among its
/// project's results.
pub proof fn lemma_summary_rows(rs: Seq<DirResultView>, start: Seq<char>)
    requires
        total_files(rs) <= usize::MAX,
        times_fit(rs),
    ensures
        sum_counts(summary_merge(rs, start)) == total_files(rs),
        forall|name: Seq<char>| #[trigger] project_index(summary_merge(rs, start), name) is Some <==> has_project(rs, start, name),
        forall|i: int| 0 <= i < summary_merge(rs, start).len() ==> (#[trigger] summary_merge(rs, start)[i]).2
            == project_newest(rs, start, summary_merge(rs, start)[i].0),
    decreases rs.len(),
{
    if rs.len() > 0 {
        let q = rs.drop_last();
        assert(times_fit(q)) by {
            assert forall|i: int, j: int| 0 <= i < q.len() && 0 <= j < q[i].files.len() implies i128::MIN <= (#[trigger] q[i].files[j]).mtime <= i128::MAX by {
                assert(q[i] == rs[i]);
            }
        }
        let g0 = summary_merge(q, start);
        let g = summary_merge(rs, start);
        let x = rs.last();
        let p = project_of(x.dir, start);
        let n = x.files.len();
        let t = newest_mtime(x.files);
        lemma_summary_rows(q, start);
        lemma_merge_counts(q, start);
        lemma_project_index_found(g0, p);
        assert(times_fit(rs));
        assert forall|j: int| 0 <= j < x.files.len() implies i128::MIN <= (#[trigger] x.files[j]).mtime <= i128::MAX by {
            assert(rs[rs.len() - 1] == x);
        }
        lemma_newest_fits(x.files);
        assert(total_files(rs) == total_files(q) + n);
        assert forall|name: Seq<char>| name != p implies #[trigger] has_project(rs, start, name) == has_project(q, start, name) by {
            if has_project(rs, start, name) {
                let i = choose|i: int| 0 <= i < rs.len() && project_of((#[trigger] rs[i]).dir, start) == name;
                assert(i < q.len());
                assert(q[i] == rs[i]);
            }
            if has_project(q, start, name) {
                let i = choose|i: int| 0 <= i < q.len() && project_of((#[trigger] q[i]).dir, start) == name;
                assert(q[i] == rs[i]);
            }
        }
        assert(has_project(rs, start, p)) by {
            assert(rs[rs.len() - 1] == x);
        }
        match project_index(g0, p) {
            Some(i) => {
                lemma_project_index_range(g0, p);
                assert(g0[i].1 + n <= total_files(rs));
                let nt = if t > g0[i].2 { t as i128 } else { g0[i].2 };
                assert(g == g0.update(i, (p, (g0[i].1 + n) as usize, nt)));
                lemma_sum_counts_update(g0, i, (p, (g0[i].1 + n) as usize, nt));
                assert forall|name: Seq<char>| #[trigger] project_index(g, name) is Some <==> has_project(rs, start, name) by {
                    lemma_project_index_found(g, name);
                    lemma_project_index_found(g0, name);
                    if name != p {
                        assert forall|j: int| 0 <= j < g.len() implies ((#[trigger] g[j]).0 == name <==> g0[j].0 == name) by {
                            if j == i {
                                assert(g0[i].0 == p);
                            }
                        }
                        if project_index(g, name) is Some {
                            let j = project_index(g, name)->0;
                            assert(g0[j].0 == name);
                        }
                        if project_index(g0, name) is Some {
                            let j = project_index(g0, name)->0;
                            assert(g[j].0 == name);
                        }
                    } else {
                        assert(g[i].0 == p);
                    }
                }
                assert forall|k: int| 0 <= k < g.len() implies (#[trigger] g[k]).2 == project_newest(rs, start, g[k].0) by {
                    if k != i {
                        assert(g[k] == g0[k]);
                        lemma_summary_counts(q, start);
                        if k < i {
                            assert(g0[k].0 != g0[i].0);
                        } else {
                            assert(g0[i].0 != g0[k].0);
                        }
                    } else {
                        assert(g0[i].0 == p);
                        assert(has_project(q, start, p));
                    }
                }
            },
            None => {
                assert(!has_project(q, start, p));
                assert(g == g0.push((p, n as usize, t as i128)));
                assert(g.drop_last() == g0);
                assert forall|name: Seq<char>| #[trigger] project_index(g, name) is Some <==> has_project(rs, start, name) by {
                    lemma_project_index_found(g, name);
                    lemma_project_index_found(g0, name);
                    if name != p {
                        if project_index(g, name) is Some {
                            let j = project_index(g, name)->0;
                            assert(j < g0.len());
                            assert(g0[j].0 == name);
                        }
                        if project_index(g0, name) is Some {
                            let j = project_index(g0, name)->0;
                            assert(g[j].0 == name);
                        }
                    } else {
                        assert(g[g.len() - 1].0 == p);
                    }
                }
                assert forall|k: int| 0 <= k < g.len() implies (#[trigger] g[k]).2 == project_newest(rs, start, g[k].0) by {
                    if k < g0.len() {
                        assert(g[k] == g0[k]);
                        assert(g0[k].0 != p);
                    }
                }
            },
        }
    }
}

/// The number of files of the projects `names`, all together.
pub open spec fn names_files(rs: Seq<DirResultView>, start: Seq<char>, names: Seq<Seq<char>>) -> nat
    decreases names.len(),
{
    if names.len() == 0 {
        0
    } else {
        names_files(rs, start, names.drop_last()) + project_files(rs, start, names.last()).len()
    }
}

/// How many of `names` equal `name`.
pub open spec fn name_count(names: Seq<Seq<char>>, name: Seq<char>) -> nat
    decreases names.len(),
{
    if names.len() == 0 {
        0
    } else {
        name_count(names.drop_last(), name) + if names.last() == name { 1nat } else { 0nat }
    }
}

proof fn lemma_names_files_push(rs: Seq<DirResultView>, start: Seq<char>, names: Seq<Seq<char>>)
    requires
        rs.len() > 0,
    ensures
        names_files(rs, start, names) == names_files(rs.drop_last(), start, names) + rs.last().files.len()
            * name_count(names, project_of(rs.last().dir, start)),
    decreases names.len(),
{
    let p = project_of(rs.last().dir, start);
    let n = rs.last().files.len();
    if names.len() > 0 {
        lemma_names_files_push(rs, start, names.drop_last());
        let c = name_count(names.drop_last(), p);
        let nm = names.last();
        if nm == p {
            assert(project_files(rs, start, nm).len() == project_files(rs.drop_last(), start, nm).len() + n);
            assert(n * (c + 1) == n * c + n) by (nonlinear_arith);
        } else {
            assert(project_files(rs, start, nm) == project_files(rs.drop_last(), start, nm));
        }
    } else {
        assert(n * 0 == 0);
    }
}

proof fn lemma_name_count(names: Seq<Seq<char>>, name: Seq<char>)
    requires
        forall|a: int, b: int| 0 <= a < b < names.len() ==> #[trigger] names[a] != #[trigger] names[b],
    ensures
        name_count(names, name) == if names.contains(name) { 1nat } else { 0nat },
    decreases names.len(),
{
    if names.len() > 0 {
        let q = names.drop_last();
        lemma_name_count(q, name);
        if names.last() == name {
            if q.contains(name) {
                let j = choose|j: int| 0 <= j < q.len() && q[j] == name;
                assert(names[j] != names[names.len() - 1]);
            }
            assert(names[names.len() - 1] == name);
        } else {
            if names.contains(name) {
                let j = choose|j: int| 0 <= j < names.len() && names[j] == name;
                assert(q[j] == name);
            }
            if q.contains(name) {
                let j = choose|j: int| 0 <= j < q.len() && q[j] == name;
                assert(names[j] == name);
            }
        }
    } else {
        assert(!names.contains(name));
    }
}

proof fn lemma_names_files_empty(rs: Seq<DirResultView>, start: Seq<char>, names: Seq<Seq<char>>)
    requires
        rs.len() == 0,
    ensures
        names_files(rs, start, names) == 0,
    decreases names.len(),
{
    if names.len() > 0 {
        lemma_names_files_empty(rs, start, names.drop_last());
    }
}

/// Distinct project names that cover every result hold every file once: the
/// files of their projects add up to all files.
pub proof fn lemma_projects_partition(rs: Seq<DirResultView>, start: Seq<char>, names: Seq<Seq<char>>)
    requires
        forall|a: int, b: int| 0 <= a < b < names.len() ==> #[trigger] names[a] != #[trigger] names[b],
        forall|i: int| 0 <= i < rs.len() ==> names.contains(project_of((#[trigger] rs[i]).dir, start)),
    ensures
        names_files(rs, start, names) == total_files(rs),
    decreases rs.len(),
{
    if rs.len() == 0 {
        lemma_names_files_empty(rs, start, names);
    } else {
        let q = rs.drop_last();
        assert forall|i: int| 0 <= i < q.len() implies names.contains(project_of((#[trigger] q[i]).dir, start)) by {
            assert(q[i] == rs[i]);
        }
        lemma_projects_partition(q, start, names);
        lemma_names_files_push(rs, start, names);
        assert(names.contains(project_of(rs[rs.len() - 1].dir, start)));
        lemma_name_count(names, project_of(rs.last().dir, start));
        assert(forall|name: Seq<char>| project_files(rs.drop_last(), start, name) == project_files(q, start, name));
        assert(names_files(q, start, names) == names_files(rs.drop_last(), start, names));
    }
}

/// The verbose listing holds every file of the results exactly once: its
/// projects (which follow the summary rows in order) are distinct, every
/// result's project is among them, and the files of their projects add up to
/// all files.
pub proof fn lemma_verbose_files_once(rs: Seq<DirResultView>, start: Seq<char>, g: Seq<(Seq<char>, usize, i128)>)
    requires
        total_files(rs) <= usize::MAX,
        times_fit(rs),
        is_stable_sort::<(String, usize, i128)>(g, summary_merge(rs, start), true),
    ensures
        forall|a: int, b: int| 0 <= a < b < g.len() ==> #[trigger] g[a].0 != #[trigger] g[b].0,
        forall|i: int| 0 <= i < rs.len() ==> exists|a: int| 0 <= a < g.len() && g[a].0 == project_of((#[trigger] rs[i]).dir, start),
        names_files(rs, start, g.map_values(|x: (Seq<char>, usize, i128)| x.0)) == total_files(rs),
{
    let s = summary_merge(rs, start);
    lemma_summary_counts(rs, start);
    lemma_summary_rows(rs, start);
    lemma_stable_sort_members::<(String, usize, i128)>(g, s, true);
    lemma_stable_sort_covers::<(String, usize, i128)>(g, s, true);
    assert forall|a: int, b: int| 0 <= a < b < s.len() implies s[a] != s[b] by {
        assert(s[a].0 != s[b].0);
    }
    assert forall|a: int, b: int| 0 <= a < b < g.len() implies #[trigger] g[a].0 != #[trigger] g[b].0 by {
        if g[a].0 == g[b].0 {
            assert(s.contains(g[a]) && s.contains(g[b]));
            let i = choose|i: int| 0 <= i < s.len() && s[i] == g[a];
            let j = choose|j: int| 0 <= j < s.len() && s[j] == g[b];
            if i != j {
                if i < j { assert(s[i].0 != s[j].0); } else { assert(s[j].0 != s[i].0); }
            }
            assert(g[a] == g[b]);
            lemma_occurrences_two(g, a, b);
            lemma_stable_sort_occurrences::<(String, usize, i128)>(g, s, true, g[a]);
            lemma_occurrences_distinct(s, g[a]);
        }
    }
    let names = g.map_values(|x: (Seq<char>, usize, i128)| x.0);
    assert forall|i: int| 0 <= i < rs.len() implies exists|a: int| 0 <= a < g.len() && g[a].0 == project_of((#[trigger] rs[i]).dir, start) by {
        let p = project_of(rs[i].dir, start);
        assert(has_project(rs, start, p));
        assert(project_index(s, p) is Some);
        lemma_project_index_found(s, p);
        let j = project_index(s, p)->0;
        assert(g.contains(s[j]));
        let a = choose|a: int| 0 <= a < g.len() && g[a] == s[j];
    }
    assert forall|a: int, b: int| 0 <= a < b < names.len() implies #[trigger] names[a] != #[trigger] names[b] by {
        assert(names[a] == g[a].0 && names[b] == g[b].0);
    }
    assert forall|i: int| 0 <= i < rs.len() implies names.contains(project_of((#[trigger] rs[i]).dir, start)) by {
        let a = choose|a: int| 0 <= a < g.len() && g[a].0 == project_of(rs[i].dir, start);
        assert(names[a] == g[a].0);
    }
    lemma_projects_partition(rs, start, names);
}

/// The count after a project's name in the verbose listing: `  (N change)`
/// or `  (N changes)`.
pub open spec fn change_count_text(n: nat) -> Seq<char> {
    "  ("@ + decimal(n) + " change"@ + (if n == 1 { ""@ } else { "s"@ }) + ")"@
}

/// The count after a project's name in the verbose listing.
pub fn format_change_count(n: usize) -> (r: String)
    ensures
        r@ == change_count_text(n as nat),
{
    let mut v: Vec<char> = Vec::new();
    push_str_chars(&mut v, "  (");
    let mut d = decimal_chars(n as u64);
    v.append(&mut d);
    push_str_chars(&mut v, " change");
    if n == 1 {
        push_str_chars(&mut v, "");
    } else {
        push_str_chars(&mut v, "s");
    }
    push_str_chars(&mut v, ")");
    string_of(v.as_slice())
}

/// The path column of a file in the verbose listing: its path relative to the
/// start directory, padded to 35 characters.
pub fn verbose_path_cell(path: &str, start: &str) -> (r: String)
    ensures
        r@ == pad_right(rel_path(path@, start@), 35),
{
    let rel = relative_path(path, start);
    let cells = pad_right_chars(chars_of(rel.as_str()), 35);
    string_of(cells.as_slice())
}

/// The newest time of some files is their maximum: no file is newer, and
/// (when there are files) one of them has it.
pub proof fn lemma_newest_is_max(files: Seq<FileEntryView>)
    ensures
        forall|j: int| 0 <= j < files.len() ==> (#[trigger] files[j]).mtime <= newest_mtime(files),
        files.len() > 0 ==> exists|j: int| 0 <= j < files.len() && files[j].mtime == newest_mtime(files),
    decreases files.len(),
{
    if files.len() > 1 {
        let q = files.drop_last();
        lemma_newest_is_max(q);
        assert forall|j: int| 0 <= j < files.len() implies (#[trigger] files[j]).mtime <= newest_mtime(files) by {
            if j < q.len() {
                assert(files[j] == q[j]);
            }
        }
        if files.last().mtime <= newest_mtime(q) {
            let j = choose|j: int| 0 <= j < q.len() && q[j].mtime == newest_mtime(q);
            assert(files[j] == q[j]);
        } else {
            assert(files[files.len() - 1].mtime == newest_mtime(files));
        }
    } else if files.len() == 1 {
        assert(files[0].mtime == newest_mtime(files));
    }
}

proof fn lemma_project_newest_bounds(rs: Seq<DirResultView>, start: Seq<char>, name: Seq<char>, k: int)
    requires
        0 <= k < rs.len(),
        project_of(rs[k].dir, start) == name,
    ensures
        newest_mtime(rs[k].files) <= project_newest(rs, start, name),
    decreases rs.len(),
{
    let q = rs.drop_last();
    if k < rs.len() - 1 {
        assert(q[k] == rs[k]);
        lemma_project_newest_bounds(q, start, name, k);
        assert(has_project(q, start, name));
    }
}

proof fn lemma_project_newest_attained(rs: Seq<DirResultView>, start: Seq<char>, name: Seq<char>)
    requires
        has_project(rs, start, name),
        forall|k: int| 0 <= k < rs.len() ==> (#[trigger] rs[k]).files.len() > 0,
    ensures
        exists|k: int, j: int|
            0 <= k < rs.len() && 0 <= j < rs[k].files.len() && project_of(rs[k].dir, start) == name
                && (#[trigger] rs[k].files[j]).mtime == project_newest(rs, start, name),
    decreases rs.len(),
{
    let q = rs.drop_last();
    let n = rs.len() - 1;
    assert(rs[n] == rs.last());
    lemma_newest_is_max(rs.last().files);
    if project_of(rs.last().dir, start) != name || (has_project(q, start, name) && project_newest(q, start, name)
        >= newest_mtime(rs.last().files)) {
        assert(has_project(q, start, name)) by {
            if project_of(rs.last().dir, start) != name {
                let i = choose|i: int| 0 <= i < rs.len() && project_of((#[trigger] rs[i]).dir, start) == name;
                assert(q[i] == rs[i]);
            }
        }
        assert forall|k: int| 0 <= k < q.len() implies (#[trigger] q[k]).files.len() > 0 by {
            assert(q[k] == rs[k]);
        }
        lemma_project_newest_attained(q, start, name);
        let (k, j) = choose|k: int, j: int|
            0 <= k < q.len() && 0 <= j < q[k].files.len() && project_of(q[k].dir, start) == name
                && (#[trigger] q[k].files[j]).mtime == project_newest(q, start, name);
        assert(q[k] == rs[k]);
        assert(rs[k].files[j].mtime == project_newest(rs, start, name));
    } else {
        let j = choose|j: int| 0 <= j < rs.last().files.len() && rs.last().files[j].mtime == newest_mtime(rs.last().files);
        assert(rs[n].files[j].mtime == project_newest(rs, start, name));
    }
}

/// Each summary row's time is the newest among all the files of its project:
/// no file of the project is newer, and, when every result holds files, one
/// file of the project has that time.
pub proof fn lemma_summary_time_is_newest(rs: Seq<DirResultView>, start: Seq<char>)
    requires
        total_files(rs) <= usize::MAX,
        times_fit(rs),
    ensures
        forall|i: int, k: int, j: int|
            0 <= i < summary_merge(rs, start).len() && 0 <= k < rs.len() && project_of(rs[k].dir, start)
                == summary_merge(rs, start)[i].0 && 0 <= j < rs[k].files.len() ==> (#[trigger] rs[k].files[j]).mtime
                <= (#[trigger] summary_merge(rs, start)[i]).2,
        (forall|k: int| 0 <= k < rs.len() ==> (#[trigger] rs[k]).files.len() > 0) ==> forall|i: int|
            0 <= i < summary_merge(rs, start).len() ==> exists|k: int, j: int|
                0 <= k < rs.len() && 0 <= j < rs[k].files.len() && project_of(rs[k].dir, start) == summary_merge(
                    rs,
                    start,
                )[i].0 && (#[trigger] rs[k].files[j]).mtime == (#[trigger] summary_merge(rs, start)[i]).2,
{
    let g = summary_merge(rs, start);
    lemma_summary_rows(rs, start);
    assert forall|i: int, k: int, j: int|
        0 <= i < g.len() && 0 <= k < rs.len() && project_of(rs[k].dir, start) == g[i].0 && 0 <= j
            < rs[k].files.len() implies (#[trigger] rs[k].files[j]).mtime <= (#[trigger] g[i]).2 by {
        lemma_newest_is_max(rs[k].files);
        lemma_project_newest_bounds(rs, start, g[i].0, k);
    }
    if forall|k: int| 0 <= k < rs.len() ==> (#[trigger] rs[k]).files.len() > 0 {
        assert forall|i: int| 0 <= i < g.len() implies exists|k: int, j: int|
            0 <= k < rs.len() && 0 <= j < rs[k].files.len() && project_of(rs[k].dir, start) == g[i].0
                && (#[trigger] rs[k].files[j]).mtime == (#[trigger] g[i]).2 by {
            lemma_project_index_found(g, g[i].0);
            assert(project_index(g, g[i].0) is Some);
            assert(has_project(rs, start, g[i].0));
            lemma_project_newest_attained(rs, start, g[i].0);
        }
    }
}

} // verus!
