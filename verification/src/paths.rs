//! Paths as strings: calls into `std::path`, and the order `PathBuf` sorts by.

use vstd::prelude::*;
use std::path::{Component, Path};
use crate::text::chars_of;

verus! {

/// What `Path::file_name` yields for `p`.
pub uninterp spec fn path_file_name(p: Seq<char>) -> Option<Seq<char>>;

/// What `Path::extension` yields for `p`.
pub uninterp spec fn path_extension(p: Seq<char>) -> Option<Seq<char>>;

/// What `Path::parent` yields for `p`.
pub uninterp spec fn path_parent(p: Seq<char>) -> Option<Seq<char>>;

/// What `Path::strip_prefix` yields for `p` and `base`.
pub uninterp spec fn path_strip_prefix(p: Seq<char>, base: Seq<char>) -> Option<Seq<char>>;

/// What `Path::components` yields for `p`: for each component its kind
/// (0 prefix, 1 root, 2 `.`, 3 `..`, 4 a name) and its text.
pub uninterp spec fn path_components(p: Seq<char>) -> Seq<(u8, Seq<char>)>;

/// What `Path::join` yields for `base` and `part`.
pub uninterp spec fn path_join(base: Seq<char>, part: Seq<char>) -> Seq<char>;

/// Calls `Path::file_name`; the contract claims the result is `path_file_name(p)`.
#[verifier::external_body]
pub(crate) fn file_name_of(p: &str) -> (r: Option<String>)
    ensures
        match r {
            Some(s) => path_file_name(p@) == Some(s@),
            None => path_file_name(p@) is None,
        },
{
    Path::new(p).file_name().map(|n| n.to_string_lossy().to_string())
}

/// Calls `Path::extension`; the contract claims the result is `path_extension(p)`.
#[verifier::external_body]
pub(crate) fn extension_of(p: &str) -> (r: Option<String>)
    ensures
        match r {
            Some(s) => path_extension(p@) == Some(s@),
            None => path_extension(p@) is None,
        },
{
    Path::new(p).extension().map(|n| n.to_string_lossy().to_string())
}

/// Calls `Path::parent`; the contract claims the result is `path_parent(p)`.
#[verifier::external_body]
pub(crate) fn parent_of(p: &str) -> (r: Option<String>)
    ensures
        match r {
            Some(s) => path_parent(p@) == Some(s@),
            None => path_parent(p@) is None,
        },
{
    Path::new(p).parent().map(|n| n.to_string_lossy().to_string())
}

/// Calls `Path::strip_prefix`; the contract claims the result is
/// `path_strip_prefix(p, base)` (`None` where std returns an error).
#[verifier::external_body]
pub(crate) fn strip_prefix_of(p: &str, base: &str) -> (r: Option<String>)
    ensures
        match r {
            Some(s) => path_strip_prefix(p@, base@) == Some(s@),
            None => path_strip_prefix(p@, base@) is None,
        },
{
    match Path::new(p).strip_prefix(base) {
        Ok(rest) => Some(rest.to_string_lossy().to_string()),
        Err(_) => None,
    }
}

/// Calls `Path::components`; the contract claims the kinds and texts are
/// `path_components(p)`.
#[verifier::external_body]
pub(crate) fn components_of(p: &str) -> (r: Vec<(u8, String)>)
    ensures
        r@.map_values(|c: (u8, String)| (c.0, c.1@)) == path_components(p@),
{
    Path::new(p).components().map(|c| {
        let kind: u8 = match c {
            Component::Prefix(_) => 0,
            Component::RootDir => 1,
            Component::CurDir => 2,
            Component::ParentDir => 3,
            Component::Normal(_) => 4,
        };
        (kind, c.as_os_str().to_string_lossy().to_string())
    }).collect()
}

/// Calls `Path::join`; the contract claims the result is `path_join(base, part)`.
#[verifier::external_body]
pub(crate) fn join_path(base: &str, part: &str) -> (r: String)
    ensures
        r@ == path_join(base@, part@),
{
    Path::new(base).join(part).to_string_lossy().to_string()
}

/// Lexicographic order of sequences under the strict order `lt` on elements.
pub open spec fn lex_lt<T>(a: Seq<T>, b: Seq<T>, lt: spec_fn(T, T) -> bool) -> bool
    decreases a.len(),
{
    if a.len() == 0 {
        b.len() > 0
    } else if b.len() == 0 {
        false
    } else if a[0] != b[0] {
        lt(a[0], b[0])
    } else {
        lex_lt(a.drop_first(), b.drop_first(), lt)
    }
}

/// Whether `lt` is a strict total order.
pub open spec fn strict_total<T>(lt: spec_fn(T, T) -> bool) -> bool {
    &&& forall|x: T| !#[trigger] lt(x, x)
    &&& forall|x: T, y: T, z: T| #[trigger] lt(x, y) && #[trigger] lt(y, z) ==> lt(x, z)
    &&& forall|x: T, y: T| x != y ==> #[trigger] lt(x, y) || #[trigger] lt(y, x)
}

pub proof fn lemma_lex_irreflexive<T>(a: Seq<T>, lt: spec_fn(T, T) -> bool)
    requires
        strict_total(lt),
    ensures
        !lex_lt(a, a, lt),
    decreases a.len(),
{
    if a.len() > 0 {
        lemma_lex_irreflexive(a.drop_first(), lt);
    }
}

pub proof fn lemma_lex_transitive<T>(a: Seq<T>, b: Seq<T>, c: Seq<T>, lt: spec_fn(T, T) -> bool)
    requires
        strict_total(lt),
        lex_lt(a, b, lt),
        lex_lt(b, c, lt),
    ensures
        lex_lt(a, c, lt),
    decreases a.len(),
{
    if a.len() > 0 && b.len() > 0 && c.len() > 0 {
        if a[0] == b[0] && b[0] == c[0] {
            lemma_lex_transitive(a.drop_first(), b.drop_first(), c.drop_first(), lt);
        } else if a[0] == b[0] {
            assert(lt(b[0], c[0]));
        } else if b[0] == c[0] {
            assert(lt(a[0], b[0]));
        } else {
            assert(lt(a[0], b[0]) && lt(b[0], c[0]));
            if a[0] == c[0] {
                assert(lt(a[0], a[0]));
            }
        }
    }
}

pub proof fn lemma_lex_total<T>(a: Seq<T>, b: Seq<T>, lt: spec_fn(T, T) -> bool)
    requires
        strict_total(lt),
    ensures
        a == b || lex_lt(a, b, lt) || lex_lt(b, a, lt),
    decreases a.len(),
{
    if a.len() > 0 && b.len() > 0 {
        if a[0] == b[0] {
            lemma_lex_total(a.drop_first(), b.drop_first(), lt);
            if a.drop_first() == b.drop_first() {
                assert(a == seq![a[0]] + a.drop_first());
                assert(b == seq![b[0]] + b.drop_first());
            }
        }
    } else if a.len() == 0 && b.len() == 0 {
        assert(a == b);
    }
}

/// Code-point order of characters, which for UTF-8 text is the byte order.
pub open spec fn char_lt(x: char, y: char) -> bool {
    (x as int) < (y as int)
}

/// The order of component texts (`OsStr` compares bytes; for UTF-8 text that is
/// the lexicographic code-point order).
pub open spec fn text_lt(a: Seq<char>, b: Seq<char>) -> bool {
    lex_lt(a, b, |x: char, y: char| char_lt(x, y))
}

/// The order of path components: by kind, then by text.
pub open spec fn component_lt(x: (u8, Seq<char>), y: (u8, Seq<char>)) -> bool {
    x.0 < y.0 || (x.0 == y.0 && text_lt(x.1, y.1))
}

/// The order of paths given by their components, which is how `PathBuf` sorts.
pub open spec fn components_lt(a: Seq<(u8, Seq<char>)>, b: Seq<(u8, Seq<char>)>) -> bool {
    lex_lt(a, b, |x: (u8, Seq<char>), y: (u8, Seq<char>)| component_lt(x, y))
}

pub proof fn lemma_char_order()
    ensures
        strict_total(|x: char, y: char| char_lt(x, y)),
{
    assert forall|x: char, y: char| x != y implies #[trigger] char_lt(x, y) || #[trigger] char_lt(
        y,
        x,
    ) by {
        if (x as int) == (y as int) {
            assert(x == y);
        }
    }
}

pub proof fn lemma_component_order()
    ensures
        strict_total(|x: (u8, Seq<char>), y: (u8, Seq<char>)| component_lt(x, y)),
{
    lemma_char_order();
    let clt = |x: char, y: char| char_lt(x, y);
    assert forall|x: (u8, Seq<char>)| !#[trigger] component_lt(x, x) by {
        lemma_lex_irreflexive(x.1, clt);
    }
    assert forall|x: (u8, Seq<char>), y: (u8, Seq<char>), z: (u8, Seq<char>)|
        #[trigger] component_lt(x, y) && #[trigger] component_lt(y, z) implies component_lt(
        x,
        z,
    ) by {
        if x.0 == y.0 && y.0 == z.0 {
            lemma_lex_transitive(x.1, y.1, z.1, clt);
        }
    }
    assert forall|x: (u8, Seq<char>), y: (u8, Seq<char>)| x != y implies #[trigger] component_lt(
        x,
        y,
    ) || #[trigger] component_lt(y, x) by {
        lemma_lex_total(x.1, y.1, clt);
    }
}

/// The path order is a strict total order.
pub proof fn lemma_path_order()
    ensures
        forall|a: Seq<(u8, Seq<char>)>| !#[trigger] components_lt(a, a),
        forall|a: Seq<(u8, Seq<char>)>, b: Seq<(u8, Seq<char>)>, c: Seq<(u8, Seq<char>)>|
            #[trigger] components_lt(a, b) && #[trigger] components_lt(b, c) ==> components_lt(
                a,
                c,
            ),
        forall|a: Seq<(u8, Seq<char>)>, b: Seq<(u8, Seq<char>)>|
            a != b ==> #[trigger] components_lt(a, b) || #[trigger] components_lt(b, a),
{
    lemma_component_order();
    let plt = |x: (u8, Seq<char>), y: (u8, Seq<char>)| component_lt(x, y);
    assert forall|a: Seq<(u8, Seq<char>)>| !#[trigger] components_lt(a, a) by {
        lemma_lex_irreflexive(a, plt);
    }
    assert forall|a: Seq<(u8, Seq<char>)>, b: Seq<(u8, Seq<char>)>, c: Seq<(u8, Seq<char>)>|
        #[trigger] components_lt(a, b) && #[trigger] components_lt(b, c) implies components_lt(
        a,
        c,
    ) by {
        lemma_lex_transitive(a, b, c, plt);
    }
    assert forall|a: Seq<(u8, Seq<char>)>, b: Seq<(u8, Seq<char>)>| a != b implies #[trigger] components_lt(
        a,
        b,
    ) || #[trigger] components_lt(b, a) by {
        lemma_lex_total(a, b, plt);
    }
}

/// The components of a path with their texts as characters.
pub fn component_key(p: &str) -> (r: Vec<(u8, Vec<char>)>)
    ensures
        r@.map_values(|c: (u8, Vec<char>)| (c.0, c.1@)) == path_components(p@),
{
    let comps = components_of(p);
    let mut r: Vec<(u8, Vec<char>)> = Vec::new();
    let mut i: usize = 0;
    while i < comps.len()
        invariant
            i <= comps.len(),
            r@.map_values(|c: (u8, Vec<char>)| (c.0, c.1@)) == comps@.take(i as int).map_values(
                |c: (u8, String)| (c.0, c.1@),
            ),
        decreases comps.len() - i,
    {
        let k = comps[i].0;
        let t = chars_of(comps[i].1.as_str());
        let ghost before = r@;
        r.push((k, t));
        assert(comps@.take(i + 1) == comps@.take(i as int).push(comps@[i as int]));
        assert(r@.map_values(|c: (u8, Vec<char>)| (c.0, c.1@)) =~= before.map_values(
            |c: (u8, Vec<char>)| (c.0, c.1@),
        ).push((k, t@)));
        assert(comps@.take(i + 1).map_values(|c: (u8, String)| (c.0, c.1@)) =~= comps@.take(
            i as int,
        ).map_values(|c: (u8, String)| (c.0, c.1@)).push((k, t@)));
        i = i + 1;
    }
    assert(comps@.take(comps@.len() as int) == comps@);
    r
}

/// Whether `a` precedes `b` in code-point order.
pub fn text_less(a: &Vec<char>, b: &Vec<char>) -> (r: bool)
    ensures
        r == text_lt(a@, b@),
{
    let mut i: usize = 0;
    assert(a@.skip(0) == a@);
    assert(b@.skip(0) == b@);
    while i < a.len() && i < b.len() && a[i] == b[i]
        invariant
            i <= a.len(),
            i <= b.len(),
            a@.subrange(0, i as int) == b@.subrange(0, i as int),
            text_lt(a@, b@) == text_lt(a@.skip(i as int), b@.skip(i as int)),
        decreases a.len() - i,
    {
        assert(a@.skip(i as int).drop_first() == a@.skip(i + 1));
        assert(b@.skip(i as int).drop_first() == b@.skip(i + 1));
        assert(a@.subrange(0, i + 1) == a@.subrange(0, i as int).push(a@[i as int]));
        assert(b@.subrange(0, i + 1) == b@.subrange(0, i as int).push(b@[i as int]));
        i = i + 1;
    }
    if i == a.len() {
        i < b.len()
    } else if i == b.len() {
        false
    } else {
        a[i] < b[i]
    }
}

/// Whether two texts are equal.
pub fn text_equal(a: &Vec<char>, b: &Vec<char>) -> (r: bool)
    ensures
        r == (a@ == b@),
{
    if a.len() != b.len() {
        return false;
    }
    let mut i: usize = 0;
    while i < a.len()
        invariant
            a.len() == b.len(),
            i <= a.len(),
            forall|k: int| 0 <= k < i ==> a@[k] == b@[k],
        decreases a.len() - i,
    {
        if a[i] != b[i] {
            return false;
        }
        i = i + 1;
    }
    assert(a@ == b@);
    true
}

/// Spec view of a component key.
pub open spec fn key_view(k: Seq<(u8, Vec<char>)>) -> Seq<(u8, Seq<char>)> {
    k.map_values(|c: (u8, Vec<char>)| (c.0, c.1@))
}

/// Compares two component keys: -1 if `a` sorts first, 0 if equal, 1 otherwise.
pub fn key_compare(a: &Vec<(u8, Vec<char>)>, b: &Vec<(u8, Vec<char>)>) -> (r: i8)
    ensures
        r == -1 <==> components_lt(key_view(a@), key_view(b@)),
        r == 0 <==> key_view(a@) == key_view(b@),
        r == 1 <==> components_lt(key_view(b@), key_view(a@)),
{
    proof {
        lemma_path_order();
    }
    let ghost av = key_view(a@);
    let ghost bv = key_view(b@);
    let mut i: usize = 0;
    assert(av.skip(0) == av);
    assert(bv.skip(0) == bv);
    while i < a.len() && i < b.len() && a[i].0 == b[i].0 && text_equal(&a[i].1, &b[i].1)
        invariant
            av == key_view(a@),
            bv == key_view(b@),
            i <= a.len(),
            i <= b.len(),
            av.subrange(0, i as int) == bv.subrange(0, i as int),
            components_lt(av, bv) == components_lt(av.skip(i as int), bv.skip(i as int)),
            components_lt(bv, av) == components_lt(bv.skip(i as int), av.skip(i as int)),
        decreases a.len() - i,
    {
        assert(av[i as int] == bv[i as int]);
        assert(av.skip(i as int).drop_first() == av.skip(i + 1));
        assert(bv.skip(i as int).drop_first() == bv.skip(i + 1));
        assert(av.subrange(0, i + 1) == av.subrange(0, i as int).push(av[i as int]));
        assert(bv.subrange(0, i + 1) == bv.subrange(0, i as int).push(bv[i as int]));
        i = i + 1;
    }
    let r: i8 = if i == a.len() && i == b.len() {
        assert(av == av.subrange(0, i as int));
        assert(bv == bv.subrange(0, i as int));
        0
    } else if i == a.len() {
        -1
    } else if i == b.len() {
        1
    } else {
        assert(av[i as int] != bv[i as int]);
        let ka = a[i].0;
        let kb = b[i].0;
        if ka < kb {
            -1
        } else if kb < ka {
            1
        } else if text_less(&a[i].1, &b[i].1) {
            -1
        } else {
            proof {
                lemma_char_order();
                lemma_lex_total(av[i as int].1, bv[i as int].1, |x: char, y: char| char_lt(x, y));
            }
            1
        }
    };
    proof {
        if components_lt(av, bv) && components_lt(bv, av) {
            assert(components_lt(av, av));
        }
    }
    r
}

} // verus!
