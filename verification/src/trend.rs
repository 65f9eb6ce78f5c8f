//! Growth of a scanned root between scans.

use vstd::prelude::*;
use crate::index::CachedFile;
use crate::paths::{path_components, component_key, key_compare, key_view};
use crate::sorting::{Stamped, views, is_stable_sort, sort_by_stamp, lemma_stable_sort_members};

verus! {

/// One scan of a root: when it ran, how many files it found and their total size.
#[derive(Clone, Debug)]
pub struct TrendEntry {
    pub root: String,
    pub walked_at: i128,
    pub file_count: u64,
    pub total_size: u64,
}

/// The change between two consecutive scans of a root.
#[derive(Clone, Debug)]
pub struct TrendDelta {
    pub from: TrendEntry,
    pub to: TrendEntry,
    pub file_count_delta: i64,
    pub total_size_delta: i64,
}

/// The abstract value of a `TrendEntry`.
pub struct TrendEntryView {
    pub root: Seq<char>,
    pub walked_at: int,
    pub file_count: u64,
    pub total_size: u64,
}

impl View for TrendEntry {
    type V = TrendEntryView;

    open spec fn view(&self) -> TrendEntryView {
        TrendEntryView {
            root: self.root@,
            walked_at: self.walked_at as int,
            file_count: self.file_count,
            total_size: self.total_size,
        }
    }
}

impl Stamped for TrendEntry {
    open spec fn stamp_of(v: TrendEntryView) -> int {
        v.walked_at
    }

    fn stamp_exec(&self) -> (r: i128) {
        self.walked_at
    }
}

impl TrendEntry {
    /// A copy of this entry.
    pub fn duplicate(&self) -> (r: TrendEntry)
        ensures
            r@ == self@,
    {
        TrendEntry {
            root: self.root.clone(),
            walked_at: self.walked_at,
            file_count: self.file_count,
            total_size: self.total_size,
        }
    }
}

/// The total size of `files`.
pub open spec fn total_size(files: Seq<CachedFile>) -> nat
    decreases files.len(),
{
    if files.len() == 0 {
        0
    } else {
        total_size(files.drop_last()) + files.last().size as nat
    }
}

/// The trend record of a scan of `root` (as the caller names it, normally its
/// canonical path) at `walked_at` that found `files`.
pub fn build_entry(root: &str, walked_at: i128, files: &[CachedFile]) -> (r: TrendEntry)
    requires
        total_size(files@) <= u64::MAX,
    ensures
        r.root@ == root@,
        r.walked_at == walked_at,
        r.file_count == files@.len(),
        r.total_size == total_size(files@),
{
    let mut sum: u64 = 0;
    let mut i: usize = 0;
    while i < files.len()
        invariant
            i <= files@.len(),
            total_size(files@) <= u64::MAX,
            sum == total_size(files@.take(i as int)),
        decreases files.len() - i,
    {
        assert(files@.take(i + 1).drop_last() == files@.take(i as int));
        proof {
            lemma_total_size_prefix(files@, i + 1);
        }
        sum = sum + files[i].size;
        i = i + 1;
    }
    assert(files@.take(files@.len() as int) == files@);
    TrendEntry { root: String::from_str(root), walked_at, file_count: files.len() as u64, total_size: sum }
}

proof fn lemma_total_size_prefix(files: Seq<CachedFile>, i: int)
    requires
        0 <= i <= files.len(),
    ensures
        total_size(files.take(i)) <= total_size(files),
    decreases files.len(),
{
    if i < files.len() {
        lemma_total_size_prefix(files.drop_last(), i);
        assert(files.drop_last().take(i) == files.take(i));
    } else {
        assert(files.take(i) == files);
    }
}

/// Whether an entry belongs to `root` (its root equals `root` as a path).
pub open spec fn of_root(root: Seq<char>) -> spec_fn(TrendEntryView) -> bool {
    |e: TrendEntryView| path_components(e.root) == path_components(root)
}

/// The entries of `root`, oldest first; entries with equal times keep their
/// order in the log.
pub fn entries_for_root(entries: Vec<TrendEntry>, root: &str) -> (r: Vec<TrendEntry>)
    ensures
        is_stable_sort::<TrendEntry>(views(r@), views(entries@).filter(of_root(root@)), false),
{
    let key = component_key(root);
    let ghost all = views(entries@);
    let mut kept: Vec<TrendEntry> = Vec::new();
    let mut i: usize = 0;
    while i < entries.len()
        invariant
            i <= entries@.len(),
            all == views(entries@),
            key_view(key@) == path_components(root@),
            views(kept@) == all.take(i as int).filter(of_root(root@)),
        decreases entries.len() - i,
    {
        let e = entries[i].duplicate();
        assert(e@ == all[i as int]);
        let ek = component_key(e.root.as_str());
        let same = key_compare(&ek, &key) == 0;
        let ghost prev = kept@;
        assert(all.take(i + 1).drop_last() == all.take(i as int));
        assert(all.take(i + 1).last() == e@);
        proof {
            reveal(Seq::filter);
        }
        if same {
            kept.push(e);
            assert(views(kept@) =~= views(prev).push(all[i as int]));
        }
        i = i + 1;
    }
    assert(all.take(entries@.len() as int) == all);
    sort_by_stamp(kept, false)
}

/// `x` read as `i64` the way `x as i64` does (two's complement).
pub open spec fn wrap_i64(x: u64) -> int {
    if x <= 0x7fff_ffff_ffff_ffff {
        x as int
    } else {
        x as int - 0x1_0000_0000_0000_0000
    }
}

/// The change from `a` to `b`, each read as `i64`.
pub open spec fn change(a: u64, b: u64) -> int {
    wrap_i64(b) - wrap_i64(a)
}

/// Whether `v` fits in `i64`.
pub open spec fn fits_i64(v: int) -> bool {
    -0x8000_0000_0000_0000 <= v <= 0x7fff_ffff_ffff_ffff
}

/// Whether the changes between consecutive entries fit in `i64` (the
/// subtraction overflows otherwise).
pub open spec fn changes_fit(s: Seq<TrendEntryView>) -> bool {
    forall|i: int|
        0 <= i < s.len() - 1 ==> fits_i64(change((#[trigger] s[i]).file_count, s[i + 1].file_count))
            && fits_i64(change(s[i].total_size, s[i + 1].total_size))
}

fn as_i64(x: u64) -> (r: i64)
    ensures
        r as int == wrap_i64(x),
{
    let r = x as i64;
    assert(x <= 0x7fff_ffff_ffff_ffff ==> r as int == x as int) by (bit_vector)
        requires
            r == x as i64,
    ;
    assert(x > 0x7fff_ffff_ffff_ffff ==> r as int == x as int - 0x1_0000_0000_0000_0000) by (bit_vector)
        requires
            r == x as i64,
    ;
    r
}

/// The abstract value of a `TrendDelta`.
pub open spec fn delta_matches(d: TrendDelta, a: TrendEntryView, b: TrendEntryView) -> bool {
    &&& d.from@ == a
    &&& d.to@ == b
    &&& d.file_count_delta as int == change(a.file_count, b.file_count)
    &&& d.total_size_delta as int == change(a.total_size, b.total_size)
}

/// The changes between each entry and the next.
pub fn trend_deltas(entries: &[TrendEntry]) -> (r: Vec<TrendDelta>)
    requires
        changes_fit(views(entries@)),
    ensures
        r@.len() == if entries@.len() == 0 { 0 } else { entries@.len() - 1 },
        forall|i: int| 0 <= i < r@.len() ==> delta_matches(#[trigger] r@[i], entries@[i]@, entries@[i + 1]@),
{
    let mut out: Vec<TrendDelta> = Vec::new();
    if entries.len() == 0 {
        return out;
    }
    let mut i: usize = 0;
    while i + 1 < entries.len()
        invariant
            entries@.len() > 0,
            i + 1 <= entries@.len(),
            changes_fit(views(entries@)),
            out@.len() == i,
            forall|k: int| 0 <= k < i ==> delta_matches(#[trigger] out@[k], entries@[k]@, entries@[k + 1]@),
        decreases entries.len() - i,
    {
        let from = entries[i].duplicate();
        let to = entries[i + 1].duplicate();
        assert(views(entries@)[i as int] == entries@[i as int]@);
        assert(views(entries@)[i + 1] == entries@[i + 1]@);
        let fc = as_i64(to.file_count) - as_i64(from.file_count);
        let ts = as_i64(to.total_size) - as_i64(from.total_size);
        out.push(TrendDelta { from, to, file_count_delta: fc, total_size_delta: ts });
        i = i + 1;
    }
    out
}

/// The changes between consecutive scans of `root`, oldest first; `None` when
/// a change does not fit in `i64` (where the subtraction overflows).
pub fn deltas_for_root(entries: Vec<TrendEntry>, root: &str) -> (r: Option<Vec<TrendDelta>>)
    ensures
        exists|s: Seq<TrendEntryView>|
            #![trigger is_stable_sort::<TrendEntry>(s, views(entries@).filter(of_root(root@)), false)]
            is_stable_sort::<TrendEntry>(s, views(entries@).filter(of_root(root@)), false) && if changes_fit(s) {
                r matches Some(d) && d@.len() == (if s.len() == 0 { 0 } else { s.len() - 1 })
                    && forall|i: int| 0 <= i < d@.len() ==> delta_matches(#[trigger] d@[i], s[i], s[i + 1])
            } else {
                r is None
            },
        (forall|i: int| 0 <= i < entries@.len() ==> (#[trigger] entries@[i]).file_count <= i64::MAX
            && entries@[i].total_size <= i64::MAX) ==> r is Some,
{
    let ghost ev = views(entries@);
    let ghost small = forall|i: int| 0 <= i < entries@.len() ==> (#[trigger] entries@[i]).file_count <= i64::MAX
        && entries@[i].total_size <= i64::MAX;
    let sel = entries_for_root(entries, root);
    let ghost s = views(sel@);
    let mut ok = true;
    let mut i: usize = 0;
    while i < sel.len() && sel.len() - i > 1
        invariant
            s == views(sel@),
            i <= sel@.len(),
            ok ==> forall|k: int| 0 <= k < i && k < s.len() - 1 ==> fits_i64(change((#[trigger] s[k]).file_count, s[k + 1].file_count))
                && fits_i64(change(s[k].total_size, s[k + 1].total_size)),
            !ok ==> !changes_fit(s),
        decreases sel.len() - i,
    {
        assert(s[i as int] == sel@[i as int]@);
        assert(s[i + 1] == sel@[i + 1]@);
        let a = as_i64(sel[i].file_count) as i128;
        let b = as_i64(sel[i + 1].file_count) as i128;
        let c = as_i64(sel[i].total_size) as i128;
        let d = as_i64(sel[i + 1].total_size) as i128;
        let x = b - a;
        let y = d - c;
        if x < -0x8000_0000_0000_0000i128 || x > 0x7fff_ffff_ffff_ffffi128 || y < -0x8000_0000_0000_0000i128
            || y > 0x7fff_ffff_ffff_ffffi128 {
            ok = false;
        }
        i = i + 1;
    }
    proof {
        if small {
            assert forall|i: int| 0 <= i < ev.len() implies (#[trigger] ev[i]).file_count <= i64::MAX
                && ev[i].total_size <= i64::MAX by {
                assert(ev[i] == entries@[i]@);
            }
            lemma_small_counts_fit(s, ev, root@);
        }
    }
    if ok {
        let d = trend_deltas(sel.as_slice());
        Some(d)
    } else {
        None
    }
}

/// The sum of the file-count changes of `d`.
pub open spec fn sum_file_count_deltas(d: Seq<TrendDelta>) -> int
    decreases d.len(),
{
    if d.len() == 0 {
        0
    } else {
        sum_file_count_deltas(d.drop_last()) + d.last().file_count_delta
    }
}

/// The sum of the size changes of `d`.
pub open spec fn sum_total_size_deltas(d: Seq<TrendDelta>) -> int
    decreases d.len(),
{
    if d.len() == 0 {
        0
    } else {
        sum_total_size_deltas(d.drop_last()) + d.last().total_size_delta
    }
}

/// The changes between consecutive scans add up to the change from the first
/// scan to the last, and each change starts where the one before it ended.
pub proof fn lemma_deltas_telescope(d: Seq<TrendDelta>, s: Seq<TrendEntryView>)
    requires
        s.len() > 0,
        d.len() == s.len() - 1,
        forall|i: int| 0 <= i < d.len() ==> delta_matches(#[trigger] d[i], s[i], s[i + 1]),
    ensures
        sum_file_count_deltas(d) == change(s[0].file_count, s.last().file_count),
        sum_total_size_deltas(d) == change(s[0].total_size, s.last().total_size),
        forall|i: int| 0 < i < d.len() ==> (#[trigger] d[i]).from@ == d[i - 1].to@,
    decreases d.len(),
{
    if d.len() > 0 {
        let d2 = d.drop_last();
        let s2 = s.drop_last();
        assert forall|i: int| 0 <= i < d2.len() implies delta_matches(#[trigger] d2[i], s2[i], s2[i + 1]) by {
            assert(d2[i] == d[i]);
            assert(delta_matches(d[i], s[i], s[i + 1]));
        }
        lemma_deltas_telescope(d2, s2);
        assert(delta_matches(d[d.len() - 1], s[d.len() - 1], s[d.len() as int]));
    }
    assert forall|i: int| 0 < i < d.len() implies (#[trigger] d[i]).from@ == d[i - 1].to@ by {
        assert(delta_matches(d[i], s[i], s[i + 1]));
        assert(delta_matches(d[i - 1], s[i - 1], s[i]));
    }
}

/// The trend of a root holds only scans of that root.
pub proof fn lemma_trend_entries_of_root(r: Seq<TrendEntryView>, entries: Seq<TrendEntryView>, root: Seq<char>)
    requires
        is_stable_sort::<TrendEntry>(r, entries.filter(of_root(root)), false),
    ensures
        forall|i: int| 0 <= i < r.len() ==> path_components(#[trigger] r[i].root) == path_components(root),
{
    lemma_stable_sort_members::<TrendEntry>(r, entries.filter(of_root(root)), false);
    assert forall|i: int| 0 <= i < r.len() implies path_components(#[trigger] r[i].root) == path_components(root) by {
        let f = entries.filter(of_root(root));
        assert(f.contains(r[i]));
        let j = choose|j: int| 0 <= j < f.len() && f[j] == r[i];
        entries.lemma_filter_pred(of_root(root), j);
    }
}

/// With every count and size of the log at most `i64::MAX`, the changes of any
/// trend of it fit in `i64`, so `deltas_for_root` answers `Some`.
pub proof fn lemma_small_counts_fit(s: Seq<TrendEntryView>, entries: Seq<TrendEntryView>, root: Seq<char>)
    requires
        is_stable_sort::<TrendEntry>(s, entries.filter(of_root(root)), false),
        forall|i: int| 0 <= i < entries.len() ==> (#[trigger] entries[i]).file_count <= i64::MAX
            && entries[i].total_size <= i64::MAX,
    ensures
        changes_fit(s),
{
    let f = entries.filter(of_root(root));
    lemma_stable_sort_members::<TrendEntry>(s, f, false);
    assert forall|i: int| 0 <= i < s.len() implies (#[trigger] s[i]).file_count <= i64::MAX && s[i].total_size <= i64::MAX by {
        assert(f.contains(s[i]));
        entries.lemma_filter_contains_rev(of_root(root), s[i]);
        let j = choose|j: int| 0 <= j < entries.len() && entries[j] == s[i];
    }
    assert forall|i: int| 0 <= i < s.len() - 1 implies fits_i64(change((#[trigger] s[i]).file_count, s[i + 1].file_count))
        && fits_i64(change(s[i].total_size, s[i + 1].total_size)) by {
        assert(s[i + 1].file_count <= i64::MAX && s[i + 1].total_size <= i64::MAX);
    }
}

} // verus!
