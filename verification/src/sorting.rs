//! A stable sort of records by their time stamp.

use vstd::prelude::*;

verus! {

broadcast use vstd::seq_lib::group_seq_properties;

/// A record that carries a point in time (nanoseconds since the epoch).
pub trait Stamped: View {
    spec fn stamp_of(v: Self::V) -> int;

    fn stamp_exec(&self) -> (r: i128)
        ensures
            r as int == Self::stamp_of(self@),
    ;
}

/// The views of the elements of `s`.
pub open spec fn views<T: View>(s: Seq<T>) -> Seq<T::V> {
    s.map_values(|x: T| x@)
}

/// Whether stamp `a` may stand before stamp `b`: not older when sorting
/// newest first, not newer otherwise.
pub open spec fn may_precede(a: int, b: int, newest_first: bool) -> bool {
    if newest_first {
        a >= b
    } else {
        a <= b
    }
}

/// Whether `s` is ordered by stamp (newest first, or oldest first).
pub open spec fn stamp_ordered<T: Stamped>(s: Seq<T::V>, newest_first: bool) -> bool {
    forall|i: int, j: int|
        0 <= i < j < s.len() ==> may_precede(
            T::stamp_of(#[trigger] s[i]),
            T::stamp_of(#[trigger] s[j]),
            newest_first,
        )
}

/// Whether a record's stamp is `k`.
pub open spec fn stamp_is<T: Stamped>(k: int) -> spec_fn(T::V) -> bool {
    |x: T::V| T::stamp_of(x) == k
}

/// The records of `s` whose stamp is `k`, in their order in `s`.
pub open spec fn with_stamp<T: Stamped>(s: Seq<T::V>, k: int) -> Seq<T::V> {
    s.filter(stamp_is::<T>(k))
}

/// Whether `a` and `b` hold, for every stamp, the same records in the same order.
pub open spec fn same_per_stamp<T: Stamped>(a: Seq<T::V>, b: Seq<T::V>) -> bool {
    forall|k: int| #[trigger] with_stamp::<T>(a, k) == with_stamp::<T>(b, k)
}

/// `s` sorted stably by stamp is any sequence that is ordered by stamp and holds
/// the same records per stamp; there is only one such sequence.
pub open spec fn is_stable_sort<T: Stamped>(r: Seq<T::V>, s: Seq<T::V>, newest_first: bool) -> bool {
    stamp_ordered::<T>(r, newest_first) && same_per_stamp::<T>(r, s) && r.len() == s.len()
}

proof fn lemma_filter_none<T: Stamped>(s: Seq<T::V>, k: int)
    requires
        forall|i: int| 0 <= i < s.len() ==> T::stamp_of(#[trigger] s[i]) != k,
    ensures
        with_stamp::<T>(s, k) == Seq::<T::V>::empty(),
{
    let p = stamp_is::<T>(k);
    assert(s.all(|x: T::V| !p(x)));
    s.lemma_all_neg_filter_empty(p);
    assert(s.filter(p) =~= Seq::<T::V>::empty());
}

proof fn lemma_insert_keeps_classes<T: Stamped>(
    r: Seq<T::V>,
    pos: int,
    x: T::V,
    k: int,
    newest_first: bool,
)
    requires
        0 <= pos <= r.len(),
        forall|i: int|
            0 <= i < pos ==> !may_precede(T::stamp_of(x), T::stamp_of(#[trigger] r[i]), newest_first),
    ensures
        with_stamp::<T>(r.insert(pos, x), k) == (if T::stamp_of(x) == k {
            seq![x] + with_stamp::<T>(r, k)
        } else {
            with_stamp::<T>(r, k)
        }),
{
    let p = stamp_is::<T>(k);
    let a = r.take(pos);
    let b = r.skip(pos);
    assert(r == a + b);
    assert(r.insert(pos, x) == a + (seq![x] + b));
    Seq::filter_distributes_over_add(a, seq![x] + b, p);
    Seq::filter_distributes_over_add(a, b, p);
    b.lemma_filter_prepend(x, p);
    if T::stamp_of(x) == k {
        assert forall|i: int| 0 <= i < a.len() implies T::stamp_of(#[trigger] a[i]) != k by {
            assert(a[i] == r[i]);
        }
        lemma_filter_none::<T>(a, k);
        assert(with_stamp::<T>(a, k) + (seq![x] + with_stamp::<T>(b, k)) == seq![x]
            + with_stamp::<T>(r, k));
    } else {
        assert(with_stamp::<T>(a, k) + (Seq::<T::V>::empty() + with_stamp::<T>(b, k))
            == with_stamp::<T>(r, k));
    }
}

fn stays_before(y: i128, x: i128, newest_first: bool) -> (r: bool)
    ensures
        r == !may_precede(x as int, y as int, newest_first),
{
    if newest_first {
        y > x
    } else {
        y < x
    }
}

/// Sorts records by stamp, newest first or oldest first, keeping records with
/// equal stamps in their input order (as `sort_by_key` does).
pub fn sort_by_stamp<T: Stamped>(v: Vec<T>, newest_first: bool) -> (r: Vec<T>)
    ensures
        is_stable_sort::<T>(views(r@), views(v@), newest_first),
{
    let ghost ov = views(v@);
    let mut rest = v;
    let mut out: Vec<T> = Vec::new();
    assert(views(out@) =~= ov.skip(ov.len() as int));
    while rest.len() > 0
        invariant
            views(rest@) == ov.take(rest@.len() as int),
            rest@.len() <= ov.len(),
            stamp_ordered::<T>(views(out@), newest_first),
            same_per_stamp::<T>(views(out@), ov.skip(rest@.len() as int)),
            out@.len() + rest@.len() == ov.len(),
        decreases rest@.len(),
    {
        let ghost n = rest@.len() as int;
        let ghost old_rest = rest@;
        let x = rest.pop().unwrap();
        assert(rest@ == old_rest.drop_last());
        assert(views(rest@) =~= ov.take(n - 1));
        assert(x@ == ov[n - 1]) by {
            assert(views(old_rest)[n - 1] == x@);
        }
        let xs = x.stamp_exec();
        let mut pos: usize = 0;
        while pos < out.len() && stays_before(out[pos].stamp_exec(), xs, newest_first)
            invariant
                pos <= out@.len(),
                forall|i: int|
                    0 <= i < pos ==> !may_precede(
                        xs as int,
                        T::stamp_of(#[trigger] views(out@)[i]),
                        newest_first,
                    ),
            decreases out@.len() - pos,
        {
            assert(views(out@)[pos as int] == out@[pos as int]@);
            pos = pos + 1;
        }
        let ghost before = views(out@);
        out.insert(pos, x);
        proof {
            assert(views(out@) =~= before.insert(pos as int, x@));
            assert(ov.skip(n - 1) =~= seq![x@] + ov.skip(n));
            assert forall|k: int| #[trigger] with_stamp::<T>(views(out@), k) == with_stamp::<T>(
                ov.skip(n - 1),
                k,
            ) by {
                lemma_insert_keeps_classes::<T>(before, pos as int, x@, k, newest_first);
                ov.skip(n).lemma_filter_prepend(x@, stamp_is::<T>(k));
                assert(with_stamp::<T>(before, k) == with_stamp::<T>(ov.skip(n), k));
            }
            let after = views(out@);
            assert forall|i: int, j: int| 0 <= i < j < after.len() implies may_precede(
                T::stamp_of(#[trigger] after[i]),
                T::stamp_of(#[trigger] after[j]),
                newest_first,
            ) by {
                if pos < before.len() {
                    assert(may_precede(xs as int, T::stamp_of(before[pos as int]), newest_first));
                }
                if j == pos as int {
                    assert(after[i] == before[i]);
                } else if i == pos as int {
                    assert(after[j] == before[j - 1]);
                    if j - 1 > pos as int {
                        assert(may_precede(
                            T::stamp_of(before[pos as int]),
                            T::stamp_of(before[j - 1]),
                            newest_first,
                        ));
                    }
                } else if i < pos as int && j > pos as int {
                    assert(after[i] == before[i]);
                    assert(after[j] == before[j - 1]);
                } else if j < pos as int {
                    assert(after[i] == before[i]);
                    assert(after[j] == before[j]);
                } else {
                    assert(after[i] == before[i - 1]);
                    assert(after[j] == before[j - 1]);
                }
            }
        }
    }
    assert(ov.skip(0) == ov);
    out
}


proof fn lemma_with_stamp_first<T: Stamped>(a: Seq<T::V>, k: int)
    requires
        a.len() > 0,
    ensures
        with_stamp::<T>(a, k) == (if T::stamp_of(a[0]) == k {
            seq![a[0]] + with_stamp::<T>(a.drop_first(), k)
        } else {
            with_stamp::<T>(a.drop_first(), k)
        }),
{
    assert(a == seq![a[0]] + a.drop_first());
    a.drop_first().lemma_filter_prepend(a[0], stamp_is::<T>(k));
    if T::stamp_of(a[0]) != k {
        assert(Seq::<T::V>::empty() + with_stamp::<T>(a.drop_first(), k) == with_stamp::<T>(
            a.drop_first(),
            k,
        ));
    }
}

proof fn lemma_with_stamp_has<T: Stamped>(a: Seq<T::V>, i: int)
    requires
        0 <= i < a.len(),
    ensures
        with_stamp::<T>(a, T::stamp_of(a[i])).len() > 0,
    decreases i,
{
    lemma_with_stamp_first::<T>(a, T::stamp_of(a[i]));
    if i > 0 {
        lemma_with_stamp_has::<T>(a.drop_first(), i - 1);
    }
}

proof fn lemma_with_stamp_member<T: Stamped>(a: Seq<T::V>, k: int)
    requires
        with_stamp::<T>(a, k).len() > 0,
    ensures
        exists|i: int| 0 <= i < a.len() && T::stamp_of(#[trigger] a[i]) == k,
    decreases a.len(),
{
    if a.len() == 0 {
        assert(with_stamp::<T>(a, k) =~= Seq::<T::V>::empty()) by {
            reveal(Seq::filter);
        }
    } else {
        lemma_with_stamp_first::<T>(a, k);
        if T::stamp_of(a[0]) != k {
            lemma_with_stamp_member::<T>(a.drop_first(), k);
            let i = choose|i: int| 0 <= i < a.drop_first().len() && T::stamp_of(#[trigger] a.drop_first()[i]) == k;
            assert(a[i + 1] == a.drop_first()[i]);
        }
    }
}

/// There is only one stable sort of a sequence: two sequences that are each
/// ordered by stamp and hold the records of `s` per stamp are equal.
pub proof fn lemma_stable_sort_unique<T: Stamped>(a: Seq<T::V>, b: Seq<T::V>, s: Seq<T::V>, newest_first: bool)
    requires
        is_stable_sort::<T>(a, s, newest_first),
        is_stable_sort::<T>(b, s, newest_first),
    ensures
        a == b,
    decreases a.len(),
{
    if a.len() > 0 {
        let ka = T::stamp_of(a[0]);
        let kb = T::stamp_of(b[0]);
        lemma_with_stamp_has::<T>(a, 0);
        lemma_with_stamp_has::<T>(b, 0);
        assert(with_stamp::<T>(a, ka) == with_stamp::<T>(s, ka));
        assert(with_stamp::<T>(b, kb) == with_stamp::<T>(s, kb));
        lemma_with_stamp_member::<T>(b, ka);
        lemma_with_stamp_member::<T>(a, kb);
        let jb = choose|i: int| 0 <= i < b.len() && T::stamp_of(#[trigger] b[i]) == ka;
        let ja = choose|i: int| 0 <= i < a.len() && T::stamp_of(#[trigger] a[i]) == kb;
        if jb > 0 {
            assert(may_precede(T::stamp_of(b[0]), T::stamp_of(b[jb]), newest_first));
        }
        if ja > 0 {
            assert(may_precede(T::stamp_of(a[0]), T::stamp_of(a[ja]), newest_first));
        }
        assert(ka == kb);
        lemma_with_stamp_first::<T>(a, ka);
        lemma_with_stamp_first::<T>(b, ka);
        assert(with_stamp::<T>(a, ka) == with_stamp::<T>(b, ka));
        assert(a[0] == with_stamp::<T>(a, ka)[0]);
        assert(b[0] == with_stamp::<T>(b, ka)[0]);
        let a1 = a.drop_first();
        let b1 = b.drop_first();
        assert forall|k: int| #[trigger] with_stamp::<T>(a1, k) == with_stamp::<T>(b1, k) by {
            lemma_with_stamp_first::<T>(a, k);
            lemma_with_stamp_first::<T>(b, k);
            assert(with_stamp::<T>(a, k) == with_stamp::<T>(b, k));
            if k == ka {
                assert(with_stamp::<T>(a1, k) == with_stamp::<T>(a, k).drop_first());
                assert(with_stamp::<T>(b1, k) == with_stamp::<T>(b, k).drop_first());
            }
        }
        assert(stamp_ordered::<T>(a1, newest_first)) by {
            assert forall|i: int, j: int| 0 <= i < j < a1.len() implies may_precede(
                T::stamp_of(#[trigger] a1[i]),
                T::stamp_of(#[trigger] a1[j]),
                newest_first,
            ) by {
                assert(a1[i] == a[i + 1] && a1[j] == a[j + 1]);
            }
        }
        assert(stamp_ordered::<T>(b1, newest_first)) by {
            assert forall|i: int, j: int| 0 <= i < j < b1.len() implies may_precede(
                T::stamp_of(#[trigger] b1[i]),
                T::stamp_of(#[trigger] b1[j]),
                newest_first,
            ) by {
                assert(b1[i] == b[i + 1] && b1[j] == b[j + 1]);
            }
        }
        assert(b.len() == a.len());
        lemma_stable_sort_unique::<T>(a1, b1, a1, newest_first);
        assert(a == seq![a[0]] + a1);
        assert(b == seq![b[0]] + b1);
    } else {
        assert(b.len() == 0);
        assert(a =~= b);
    }
}

/// A stable sort holds only records of what it sorted.
pub proof fn lemma_stable_sort_members<T: Stamped>(r: Seq<T::V>, s: Seq<T::V>, newest_first: bool)
    requires
        is_stable_sort::<T>(r, s, newest_first),
    ensures
        forall|i: int| 0 <= i < r.len() ==> s.contains(#[trigger] r[i]),
{
    assert forall|i: int| 0 <= i < r.len() implies s.contains(#[trigger] r[i]) by {
        let k = T::stamp_of(r[i]);
        let p = stamp_is::<T>(k);
        r.lemma_filter_contains(p, i);
        assert(with_stamp::<T>(r, k) == with_stamp::<T>(s, k));
        s.lemma_filter_contains_rev(p, r[i]);
    }
}

/// A stable sort keeps every record of what it sorted.
pub proof fn lemma_stable_sort_covers<T: Stamped>(r: Seq<T::V>, s: Seq<T::V>, newest_first: bool)
    requires
        is_stable_sort::<T>(r, s, newest_first),
    ensures
        forall|i: int| 0 <= i < s.len() ==> r.contains(#[trigger] s[i]),
{
    assert forall|i: int| 0 <= i < s.len() implies r.contains(#[trigger] s[i]) by {
        let k = T::stamp_of(s[i]);
        let p = stamp_is::<T>(k);
        s.lemma_filter_contains(p, i);
        assert(with_stamp::<T>(r, k) == with_stamp::<T>(s, k));
        r.lemma_filter_contains_rev(p, s[i]);
    }
}

/// How many times `x` occurs in `s`.
pub open spec fn occurrences<A>(s: Seq<A>, x: A) -> nat
    decreases s.len(),
{
    if s.len() == 0 {
        0
    } else {
        occurrences(s.drop_last(), x) + if s.last() == x { 1nat } else { 0nat }
    }
}

proof fn lemma_filter_occurrences<A>(s: Seq<A>, p: spec_fn(A) -> bool, x: A)
    ensures
        occurrences(s.filter(p), x) == if p(x) { occurrences(s, x) } else { 0 },
    decreases s.len(),
{
    if s.len() == 0 {
        assert(s.filter(p) =~= Seq::<A>::empty()) by {
            reveal(Seq::filter);
        }
    } else {
        let q = s.drop_last();
        lemma_filter_occurrences(q, p, x);
        assert(q.push(s.last()) == s);
        q.lemma_filter_push(s.last(), p);
        if p(s.last()) {
            assert(q.filter(p).push(s.last()).drop_last() == q.filter(p));
        }
    }
}

/// A stable sort holds every record as many times as what it sorted.
pub proof fn lemma_stable_sort_occurrences<T: Stamped>(r: Seq<T::V>, s: Seq<T::V>, newest_first: bool, x: T::V)
    requires
        is_stable_sort::<T>(r, s, newest_first),
    ensures
        occurrences(r, x) == occurrences(s, x),
{
    let k = T::stamp_of(x);
    assert(with_stamp::<T>(r, k) == with_stamp::<T>(s, k));
    lemma_filter_occurrences(r, stamp_is::<T>(k), x);
    lemma_filter_occurrences(s, stamp_is::<T>(k), x);
}

/// Two places holding `x` make two occurrences.
pub proof fn lemma_occurrences_two<A>(s: Seq<A>, a: int, b: int)
    requires
        0 <= a < b < s.len(),
        s[a] == s[b],
    ensures
        occurrences(s, s[a]) >= 2,
    decreases s.len(),
{
    let q = s.drop_last();
    if b < s.len() - 1 {
        assert(q[a] == s[a] && q[b] == s[b]);
        lemma_occurrences_two(q, a, b);
    } else {
        assert(q[a] == s[a]);
        lemma_occurrences_one(q, a);
    }
}

/// A place holding `x` makes an occurrence.
pub proof fn lemma_occurrences_one<A>(s: Seq<A>, a: int)
    requires
        0 <= a < s.len(),
    ensures
        occurrences(s, s[a]) >= 1,
    decreases s.len(),
{
    let q = s.drop_last();
    if a < s.len() - 1 {
        assert(q[a] == s[a]);
        lemma_occurrences_one(q, a);
    }
}

/// In a sequence of distinct elements each occurs at most once.
pub proof fn lemma_occurrences_distinct<A>(s: Seq<A>, x: A)
    requires
        forall|a: int, b: int| 0 <= a < b < s.len() ==> s[a] != s[b],
    ensures
        occurrences(s, x) <= 1,
    decreases s.len(),
{
    if s.len() > 0 {
        let q = s.drop_last();
        lemma_occurrences_distinct(q, x);
        if s.last() == x && occurrences(q, x) >= 1 {
            lemma_occurrences_in(q, x);
            let j = choose|j: int| 0 <= j < q.len() && q[j] == x;
            assert(s[j] == s[s.len() - 1]);
        }
    }
}

proof fn lemma_occurrences_in<A>(s: Seq<A>, x: A)
    requires
        occurrences(s, x) >= 1,
    ensures
        exists|j: int| 0 <= j < s.len() && s[j] == x,
    decreases s.len(),
{
    let q = s.drop_last();
    if s.last() == x {
        assert(s[s.len() - 1] == x);
    } else {
        lemma_occurrences_in(q, x);
        let j = choose|j: int| 0 <= j < q.len() && q[j] == x;
        assert(s[j] == q[j]);
    }
}

} // verus!
