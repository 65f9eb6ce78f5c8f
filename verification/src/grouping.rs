//! Grouping items by a path, in the order `PathBuf` sorts paths, as a
//! `BTreeMap` keyed by `PathBuf` groups them.

use vstd::prelude::*;
use crate::paths::{path_components, components_lt, lemma_path_order, component_key, key_compare, key_view};
use crate::sorting::views;

verus! {

/// The items of `s` with their paths as plain text.
pub open spec fn pairs<T: View>(s: Seq<(String, T)>) -> Seq<(Seq<char>, T::V)> {
    s.map_values(|x: (String, T)| (x.0@, x.1@))
}

/// The items whose path has the components `key`, in order.
pub open spec fn members<V>(k: Seq<(Seq<char>, V)>, key: Seq<(u8, Seq<char>)>) -> Seq<V>
    decreases k.len(),
{
    if k.len() == 0 {
        Seq::empty()
    } else {
        let r = members(k.drop_last(), key);
        if path_components(k.last().0) == key {
            r.push(k.last().1)
        } else {
            r
        }
    }
}

/// The path text of the first item whose path has the components `key`.
pub open spec fn first_path<V>(k: Seq<(Seq<char>, V)>, key: Seq<(u8, Seq<char>)>) -> Option<Seq<char>>
    decreases k.len(),
{
    if k.len() == 0 {
        None
    } else {
        let f = first_path(k.drop_last(), key);
        if f is Some {
            f
        } else if path_components(k.last().0) == key {
            Some(k.last().0)
        } else {
            None
        }
    }
}

/// `r` groups the items `k` by path: one group per path (paths equal as
/// `PathBuf`s share a group, named by the first item's path text), groups in
/// the order `PathBuf` sorts, each holding its items in order.
pub open spec fn grouped<V>(k: Seq<(Seq<char>, V)>, r: Seq<(Seq<char>, Seq<V>)>) -> bool {
    &&& forall|i: int, j: int|
        0 <= i < j < r.len() ==> components_lt(
            path_components(#[trigger] r[i].0),
            path_components(#[trigger] r[j].0),
        )
    &&& forall|i: int| 0 <= i < r.len() ==> first_path(k, path_components(#[trigger] r[i].0)) == Some(r[i].0)
    &&& forall|n: int|
        0 <= n < k.len() ==> exists|i: int|
            0 <= i < r.len() && path_components(#[trigger] r[i].0) == path_components(#[trigger] k[n].0)
    &&& forall|i: int| 0 <= i < r.len() ==> (#[trigger] r[i]).1 == members(k, path_components(r[i].0))
}

proof fn lemma_absent_key<V>(k: Seq<(Seq<char>, V)>, key: Seq<(u8, Seq<char>)>)
    requires
        forall|n: int| 0 <= n < k.len() ==> path_components(#[trigger] k[n].0) != key,
    ensures
        first_path(k, key) is None,
        members(k, key) == Seq::<V>::empty(),
    decreases k.len(),
{
    if k.len() > 0 {
        assert forall|n: int| 0 <= n < k.drop_last().len() implies path_components(
            #[trigger] k.drop_last()[n].0,
        ) != key by {
            assert(k.drop_last()[n] == k[n]);
        }
        lemma_absent_key(k.drop_last(), key);
        assert(path_components(k[k.len() - 1].0) != key);
    }
}

/// A path that names a group has at least one item in it.
pub proof fn lemma_first_path_members<V>(k: Seq<(Seq<char>, V)>, key: Seq<(u8, Seq<char>)>)
    ensures
        first_path(k, key) is Some ==> members(k, key).len() > 0,
    decreases k.len(),
{
    if k.len() > 0 {
        lemma_first_path_members(k.drop_last(), key);
    }
}

/// Each member of a group is an item whose path has the group's components.
pub proof fn lemma_members_from<V>(k: Seq<(Seq<char>, V)>, key: Seq<(u8, Seq<char>)>)
    ensures
        forall|i: int| 0 <= i < members(k, key).len() ==> exists|n: int|
            0 <= n < k.len() && (#[trigger] k[n]).1 == #[trigger] members(k, key)[i] && path_components(k[n].0) == key,
    decreases k.len(),
{
    if k.len() > 0 {
        let q = k.drop_last();
        lemma_members_from(q, key);
        assert forall|i: int| 0 <= i < members(k, key).len() implies exists|n: int|
            0 <= n < k.len() && (#[trigger] k[n]).1 == #[trigger] members(k, key)[i] && path_components(k[n].0) == key by {
            if i < members(q, key).len() {
                let n = choose|n: int| 0 <= n < q.len() && (#[trigger] q[n]).1 == #[trigger] members(q, key)[i] && path_components(q[n].0) == key;
                assert(k[n] == q[n]);
            } else {
                assert(k[k.len() - 1].1 == members(k, key)[i]);
            }
        }
    }
}

/// Every item whose path has the components `key` is a member of that group.
pub proof fn lemma_members_include<V>(k: Seq<(Seq<char>, V)>, key: Seq<(u8, Seq<char>)>, n: int)
    requires
        0 <= n < k.len(),
        path_components(k[n].0) == key,
    ensures
        members(k, key).contains(k[n].1),
    decreases k.len(),
{
    if n < k.len() - 1 {
        lemma_members_include(k.drop_last(), key, n);
        assert(k.drop_last()[n] == k[n]);
        let m = members(k.drop_last(), key);
        let j = choose|j: int| 0 <= j < m.len() && m[j] == k[n].1;
        if path_components(k.last().0) == key {
            assert(members(k, key)[j] == m[j]);
        }
    } else {
        assert(members(k, key).last() == k[n].1);
        assert(members(k, key)[members(k, key).len() - 1] == k[n].1);
    }
}

/// How many of `ks` equal `key`.
pub open spec fn key_count(ks: Seq<Seq<(u8, Seq<char>)>>, key: Seq<(u8, Seq<char>)>) -> nat
    decreases ks.len(),
{
    if ks.len() == 0 {
        0
    } else {
        key_count(ks.drop_last(), key) + if ks.last() == key { 1nat } else { 0nat }
    }
}

/// The number of items in the groups of the keys `ks`, all together.
pub open spec fn sum_members<V>(k: Seq<(Seq<char>, V)>, ks: Seq<Seq<(u8, Seq<char>)>>) -> nat
    decreases ks.len(),
{
    if ks.len() == 0 {
        0
    } else {
        sum_members(k, ks.drop_last()) + members(k, ks.last()).len()
    }
}

proof fn lemma_sum_members_push<V>(k: Seq<(Seq<char>, V)>, e: (Seq<char>, V), ks: Seq<Seq<(u8, Seq<char>)>>)
    ensures
        sum_members(k.push(e), ks) == sum_members(k, ks) + key_count(ks, path_components(e.0)),
    decreases ks.len(),
{
    assert(k.push(e).drop_last() == k);
    if ks.len() > 0 {
        lemma_sum_members_push(k, e, ks.drop_last());
    }
}

proof fn lemma_key_count_one(ks: Seq<Seq<(u8, Seq<char>)>>, key: Seq<(u8, Seq<char>)>)
    requires
        forall|a: int, b: int| 0 <= a < b < ks.len() ==> #[trigger] ks[a] != #[trigger] ks[b],
        ks.contains(key),
    ensures
        key_count(ks, key) == 1,
    decreases ks.len(),
{
    let q = ks.drop_last();
    if ks.last() == key {
        assert forall|a: int| 0 <= a < q.len() implies q[a] != key by {
            assert(ks[a] != ks[ks.len() - 1]);
        }
        lemma_key_count_zero(q, key);
    } else {
        let j = choose|j: int| 0 <= j < ks.len() && ks[j] == key;
        assert(q[j] == key);
        lemma_key_count_one(q, key);
    }
}

proof fn lemma_key_count_zero(ks: Seq<Seq<(u8, Seq<char>)>>, key: Seq<(u8, Seq<char>)>)
    requires
        forall|a: int| 0 <= a < ks.len() ==> ks[a] != key,
    ensures
        key_count(ks, key) == 0,
    decreases ks.len(),
{
    if ks.len() > 0 {
        lemma_key_count_zero(ks.drop_last(), key);
    }
}

/// Groups with distinct keys that cover every item hold each item once: their
/// sizes add up to the number of items.
pub proof fn lemma_members_partition<V>(k: Seq<(Seq<char>, V)>, ks: Seq<Seq<(u8, Seq<char>)>>)
    requires
        forall|a: int, b: int| 0 <= a < b < ks.len() ==> #[trigger] ks[a] != #[trigger] ks[b],
        forall|n: int| 0 <= n < k.len() ==> ks.contains(path_components(#[trigger] k[n].0)),
    ensures
        sum_members(k, ks) == k.len(),
    decreases k.len(),
{
    if k.len() == 0 {
        lemma_sum_members_empty(k, ks);
    } else {
        let q = k.drop_last();
        assert forall|n: int| 0 <= n < q.len() implies ks.contains(path_components(#[trigger] q[n].0)) by {
            assert(q[n] == k[n]);
        }
        lemma_members_partition(q, ks);
        assert(q.push(k.last()) == k);
        lemma_sum_members_push(q, k.last(), ks);
        assert(ks.contains(path_components(k[k.len() - 1].0)));
        lemma_key_count_one(ks, path_components(k.last().0));
    }
}

proof fn lemma_sum_members_empty<V>(k: Seq<(Seq<char>, V)>, ks: Seq<Seq<(u8, Seq<char>)>>)
    requires
        k.len() == 0,
    ensures
        sum_members(k, ks) == 0,
    decreases ks.len(),
{
    if ks.len() > 0 {
        lemma_sum_members_empty(k, ks.drop_last());
    }
}

/// The groups built so far, as parallel vectors.
pub open spec fn groups_ok<T: View>(
    k: Seq<(Seq<char>, T::V)>,
    keys: Seq<Vec<(u8, Vec<char>)>>,
    paths: Seq<String>,
    groups: Seq<Vec<T>>,
) -> bool {
    &&& keys.len() == paths.len() == groups.len()
    &&& forall|a: int, b: int|
        0 <= a < b < keys.len() ==> components_lt(key_view(#[trigger] keys[a]@), key_view(#[trigger] keys[b]@))
    &&& forall|a: int| 0 <= a < keys.len() ==> first_path(k, key_view(#[trigger] keys[a]@)) == Some(paths[a]@)
    &&& forall|a: int| 0 <= a < keys.len() ==> path_components(#[trigger] paths[a]@) == key_view(keys[a]@)
    &&& forall|a: int| 0 <= a < keys.len() ==> views(#[trigger] groups[a]@) == members(k, key_view(keys[a]@))
    &&& forall|n: int|
        0 <= n < k.len() ==> exists|a: int|
            0 <= a < keys.len() && key_view(#[trigger] keys[a]@) == path_components(#[trigger] k[n].0)
}

/// Groups items by their paths, as `BTreeMap<PathBuf, Vec<_>>` with
/// `entry(path).or_default().push(item)` does: groups in path order, each with
/// its items in order, named by the first item's path.
pub fn group_by_path<T: View>(items: Vec<(String, T)>) -> (r: Vec<(String, Vec<T>)>)
    ensures
        grouped(pairs(items@), r@.map_values(|g: (String, Vec<T>)| (g.0@, views(g.1@)))),
{
    proof {
        lemma_path_order();
    }
    let ghost all = items@;
    let n = items.len();
    let mut rest = items;
    let mut keys: Vec<Vec<(u8, Vec<char>)>> = Vec::new();
    let mut paths: Vec<String> = Vec::new();
    let mut groups: Vec<Vec<T>> = Vec::new();
    let mut i: usize = 0;
    assert(all.skip(0) == all);
    while i < n
        invariant
            n == all.len(),
            i <= n,
            rest@ == all.skip(i as int),
            groups_ok::<T>(pairs(all.take(i as int)), keys@, paths@, groups@),
        decreases n - i,
    {
        proof {
            lemma_path_order();
        }
        let ghost k0 = pairs(all.take(i as int));
        let (path, item) = rest.remove(0);
        assert(all[i as int] == (path, item));
        assert(rest@ == all.skip(i + 1));
        let ghost it = (path@, item@);
        let ghost k1 = k0.push(it);
        assert(pairs(all.take(i + 1)) =~= k1);
        assert(k1.drop_last() == k0);
        let key = component_key(path.as_str());
        let ghost c = key_view(key@);
        let mut lo: usize = 0;
        let mut hi: usize = keys.len();
        while lo < hi
            invariant
                lo <= hi <= keys@.len(),
                c == key_view(key@),
                forall|a: int| 0 <= a < lo ==> components_lt(key_view(#[trigger] keys@[a]@), c),
                forall|a: int| hi <= a < keys@.len() ==> !components_lt(key_view(#[trigger] keys@[a]@), c),
                forall|a: int, b: int|
                    0 <= a < b < keys@.len() ==> components_lt(key_view(#[trigger] keys@[a]@), key_view(#[trigger] keys@[b]@)),
            decreases hi - lo,
        {
            proof {
                lemma_path_order();
            }
            let mid = lo + (hi - lo) / 2;
            let o = key_compare(&keys[mid], &key);
            if o == -1 {
                proof {
                    assert forall|a: int| 0 <= a < mid + 1 implies components_lt(key_view(#[trigger] keys@[a]@), c) by {
                        if a < mid {
                            assert(components_lt(key_view(keys@[a]@), key_view(keys@[mid as int]@)));
                        }
                    }
                }
                lo = mid + 1;
            } else {
                proof {
                    assert forall|a: int| mid <= a < keys@.len() implies !components_lt(key_view(#[trigger] keys@[a]@), c) by {
                        if a > mid {
                            assert(components_lt(key_view(keys@[mid as int]@), key_view(keys@[a]@)));
                            if components_lt(key_view(keys@[a]@), c) {
                                assert(components_lt(key_view(keys@[mid as int]@), c));
                            }
                        }
                    }
                }
                hi = mid;
            }
        }
        let found = lo < keys.len() && key_compare(&keys[lo], &key) == 0;
        if found {
            let mut tmp: Vec<T> = Vec::new();
            groups.set_and_swap(lo, &mut tmp);
            let ghost old_members = views(tmp@);
            tmp.push(item);
            assert(views(tmp@) == old_members.push(it.1));
            groups.set_and_swap(lo, &mut tmp);
            proof {
                assert forall|a: int| 0 <= a < keys@.len() implies first_path(k1, key_view(#[trigger] keys@[a]@)) == Some(paths@[a]@) by {
                    assert(first_path(k0, key_view(keys@[a]@)) == Some(paths@[a]@));
                }
                assert forall|a: int| 0 <= a < keys@.len() implies views(#[trigger] groups@[a]@) == members(k1, key_view(keys@[a]@)) by {
                    if a == lo as int {
                        assert(path_components(it.0) == c);
                    } else {
                        assert(key_view(keys@[a]@) != c);
                    }
                }
                assert forall|m: int| 0 <= m < k1.len() implies exists|a: int|
                    0 <= a < keys@.len() && key_view(#[trigger] keys@[a]@) == path_components(#[trigger] k1[m].0) by {
                    if m == k0.len() {
                        assert(key_view(keys@[lo as int]@) == path_components(k1[m].0));
                    } else {
                        assert(k1[m] == k0[m]);
                    }
                }
            }
        } else {
            proof {
                assert forall|m: int| 0 <= m < k0.len() implies path_components(#[trigger] k0[m].0) != c by {
                    if path_components(k0[m].0) == c {
                        let a = choose|a: int| 0 <= a < keys@.len() && key_view(#[trigger] keys@[a]@) == path_components(k0[m].0);
                        if a < lo {
                            assert(components_lt(c, c));
                        } else if a > lo {
                            assert(components_lt(key_view(keys@[lo as int]@), c));
                        }
                    }
                }
                lemma_absent_key(k0, c);
            }
            let ghost old_keys = keys@;
            let ghost old_paths = paths@;
            let ghost old_groups = groups@;
            let mut g: Vec<T> = Vec::new();
            g.push(item);
            assert(views(g@) == seq![it.1]);
            keys.insert(lo, key);
            paths.insert(lo, path);
            groups.insert(lo, g);
            proof {
                assert(path_components(it.0) == c);
                assert(members(k0, c) == Seq::<T::V>::empty());
                assert(members(k1, c) == seq![it.1]);
                assert(first_path(k1, c) == Some(it.0));
                assert forall|a: int, b: int| 0 <= a < b < keys@.len() implies components_lt(
                    key_view(#[trigger] keys@[a]@),
                    key_view(#[trigger] keys@[b]@),
                ) by {
                    if lo < old_keys.len() {
                        assert(!components_lt(key_view(old_keys[lo as int]@), c));
                        assert(key_view(old_keys[lo as int]@) != c);
                        assert(components_lt(c, key_view(old_keys[lo as int]@)));
                    }
                    if a < lo && b == lo {
                    } else if a < lo && b > lo {
                        assert(keys@[b] == old_keys[b - 1]);
                    } else if a == lo {
                        assert(keys@[b] == old_keys[b - 1]);
                        if b - 1 > lo {
                            assert(components_lt(key_view(old_keys[lo as int]@), key_view(old_keys[b - 1]@)));
                        }
                    } else if b < lo {
                        assert(keys@[a] == old_keys[a]);
                        assert(keys@[b] == old_keys[b]);
                    } else {
                        assert(keys@[a] == old_keys[a - 1]);
                        assert(keys@[b] == old_keys[b - 1]);
                    }
                }
                assert forall|a: int| 0 <= a < keys@.len() implies first_path(k1, key_view(#[trigger] keys@[a]@)) == Some(paths@[a]@) by {
                    if a < lo {
                        assert(keys@[a] == old_keys[a] && paths@[a] == old_paths[a]);
                        assert(key_view(keys@[a]@) != c);
                    } else if a > lo {
                        assert(keys@[a] == old_keys[a - 1] && paths@[a] == old_paths[a - 1]);
                        assert(first_path(k0, key_view(old_keys[a - 1]@)) == Some(old_paths[a - 1]@));
                    }
                }
                assert forall|a: int| 0 <= a < keys@.len() implies path_components(#[trigger] paths@[a]@) == key_view(keys@[a]@) by {
                    if a < lo {
                        assert(keys@[a] == old_keys[a] && paths@[a] == old_paths[a]);
                    } else if a > lo {
                        assert(keys@[a] == old_keys[a - 1] && paths@[a] == old_paths[a - 1]);
                    }
                }
                assert forall|a: int| 0 <= a < keys@.len() implies views(#[trigger] groups@[a]@) == members(k1, key_view(keys@[a]@)) by {
                    if a < lo {
                        assert(keys@[a] == old_keys[a] && groups@[a] == old_groups[a]);
                        assert(key_view(keys@[a]@) != c);
                    } else if a > lo {
                        assert(keys@[a] == old_keys[a - 1] && groups@[a] == old_groups[a - 1]);
                        assert(key_view(keys@[a]@) != c);
                    }
                }
                assert forall|m: int| 0 <= m < k1.len() implies exists|a: int|
                    0 <= a < keys@.len() && key_view(#[trigger] keys@[a]@) == path_components(#[trigger] k1[m].0) by {
                    if m == k0.len() {
                        assert(key_view(keys@[lo as int]@) == path_components(k1[m].0));
                    } else {
                        assert(k1[m] == k0[m]);
                        let a = choose|a: int| 0 <= a < old_keys.len() && key_view(#[trigger] old_keys[a]@) == path_components(k0[m].0);
                        if a < lo {
                            assert(keys@[a] == old_keys[a]);
                        } else {
                            assert(keys@[a + 1] == old_keys[a]);
                        }
                    }
                }
            }
        }
        i = i + 1;
    }
    assert(all.take(n as int) == all);
    let ghost k = pairs(all);
    let ghost all_keys = keys@;
    let ghost all_paths = paths@;
    let ghost all_groups = groups@;
    let total = paths.len();
    let mut out: Vec<(String, Vec<T>)> = Vec::new();
    let mut j: usize = 0;
    while j < total
        invariant
            groups_ok::<T>(k, all_keys, all_paths, all_groups),
            total == all_paths.len(),
            j <= total,
            paths@.len() == total,
            groups@.len() == total,
            forall|a: int| j <= a < total ==> paths@[a] == all_paths[a],
            forall|a: int| j <= a < total ==> groups@[a] == all_groups[a],
            out@.len() == j,
            forall|a: int| 0 <= a < j ==> (#[trigger] out@[a]).0@ == all_paths[a]@,
            forall|a: int| 0 <= a < j ==> views((#[trigger] out@[a]).1@) == views(all_groups[a]@),
        decreases total - j,
    {
        let mut p = String::new();
        paths.set_and_swap(j, &mut p);
        let mut g: Vec<T> = Vec::new();
        groups.set_and_swap(j, &mut g);
        out.push((p, g));
        j = j + 1;
    }
    proof {
        let rv = out@.map_values(|g: (String, Vec<T>)| (g.0@, views(g.1@)));
        assert forall|i: int, j: int| 0 <= i < j < rv.len() implies components_lt(
            path_components(#[trigger] rv[i].0),
            path_components(#[trigger] rv[j].0),
        ) by {
            assert(rv[i].0 == all_paths[i]@);
            assert(rv[j].0 == all_paths[j]@);
        }
        assert forall|i: int| 0 <= i < rv.len() implies first_path(k, path_components(#[trigger] rv[i].0)) == Some(rv[i].0) by {
            assert(rv[i].0 == all_paths[i]@);
        }
        assert forall|m: int| 0 <= m < k.len() implies exists|i: int|
            0 <= i < rv.len() && path_components(#[trigger] rv[i].0) == path_components(#[trigger] k[m].0) by {
            let a = choose|a: int| 0 <= a < all_keys.len() && key_view(#[trigger] all_keys[a]@) == path_components(k[m].0);
            assert(rv[a].0 == all_paths[a]@);
        }
        assert forall|i: int| 0 <= i < rv.len() implies (#[trigger] rv[i]).1 == members(k, path_components(rv[i].0)) by {
            assert(rv[i].0 == all_paths[i]@);
            assert(rv[i].1 == views(all_groups[i]@));
        }
    }
    out
}

} // verus!
