//! The choices of the interactive mode: what each prompt offers, which item
//! it starts on, and what the answers mean.

use vstd::prelude::*;
use crate::filters::str_eq;
use crate::history::LastRun;
use crate::sorting::views;

verus! {

/// The answers of an interactive session.
pub struct InteractiveResult {
    pub dir: String,
    pub since: Option<String>,
    pub type_spec: Option<String>,
    pub verbose: bool,
    pub open: bool,
}

/// The items of the "Since when?" prompt.
pub open spec fn since_items() -> Seq<Seq<char>> {
    seq![
        seq!['2', 'h'],
        seq!['7', 'd'],
        seq!['3', '0', 'd'],
        seq!['c', 'u', 's', 't', 'o', 'm'],
        seq!['n', 'o', ' ', 'f', 'i', 'l', 't', 'e', 'r'],
    ]
}

/// The items of the "File types?" prompt.
pub open spec fn type_items() -> Seq<Seq<char>> {
    seq![
        seq!['a', 'l', 'l'],
        seq!['s', 'e', 'c', 'r', 'e', 't', 's'],
        seq!['c', 'o', 'n', 'f', 'i', 'g', 's'],
        seq!['c', 'o', 'd', 'e'],
        seq!['c', 'u', 's', 't', 'o', 'm'],
    ]
}

/// The items of the "Since when?" prompt: `2h`, `7d`, `30d`, `custom`, `no filter`.
pub fn since_options() -> (r: Vec<String>)
    ensures
        r@.map_values(|s: String| s@) == since_items(),
{
    let a = "2h";
    let b = "7d";
    let c = "30d";
    let d = "custom";
    let e = "no filter";
    proof {
        reveal_strlit("2h");
        reveal_strlit("7d");
        reveal_strlit("30d");
        reveal_strlit("custom");
        reveal_strlit("no filter");
    }
    let mut r: Vec<String> = Vec::new();
    r.push(String::from_str(a));
    r.push(String::from_str(b));
    r.push(String::from_str(c));
    r.push(String::from_str(d));
    r.push(String::from_str(e));
    assert(a@ =~= since_items()[0] && b@ =~= since_items()[1] && c@ =~= since_items()[2] && d@ =~= since_items()[3] && e@ =~= since_items()[4]);
    assert(r@.map_values(|s: String| s@) =~= since_items());
    r
}

/// The items of the "File types?" prompt: `all`, `secrets`, `configs`, `code`, `custom`.
pub fn type_options() -> (r: Vec<String>)
    ensures
        r@.map_values(|s: String| s@) == type_items(),
{
    let a = "all";
    let b = "secrets";
    let c = "configs";
    let d = "code";
    let e = "custom";
    proof {
        reveal_strlit("all");
        reveal_strlit("secrets");
        reveal_strlit("configs");
        reveal_strlit("code");
        reveal_strlit("custom");
    }
    let mut r: Vec<String> = Vec::new();
    r.push(String::from_str(a));
    r.push(String::from_str(b));
    r.push(String::from_str(c));
    r.push(String::from_str(d));
    r.push(String::from_str(e));
    assert(a@ =~= type_items()[0] && b@ =~= type_items()[1] && c@ =~= type_items()[2] && d@ =~= type_items()[3] && e@ =~= type_items()[4]);
    assert(r@.map_values(|s: String| s@) =~= type_items());
    r
}

/// The item a prompt starts on for the previous answer `value`: `none_index`
/// when there was none, the first item equal to it, else `other_index`.
pub open spec fn start_index(items: Seq<Seq<char>>, value: Option<Seq<char>>, none_index: int, other_index: int) -> int {
    match value {
        None => none_index,
        Some(v) => if exists|k: int| 0 <= k < items.len() && items[k] == v {
            choose|k: int| 0 <= k < items.len() && items[k] == v && forall|j: int| 0 <= j < k ==> items[j] != v
        } else {
            other_index
        },
    }
}

fn find_item(items: &Vec<String>, v: &str) -> (r: Option<usize>)
    ensures
        match r {
            Some(k) => k < items@.len() && items@[k as int]@ == v@ && forall|j: int| 0 <= j < k ==> items@[j]@ != v@,
            None => forall|j: int| 0 <= j < items@.len() ==> items@[j]@ != v@,
        },
{
    let mut i: usize = 0;
    while i < items.len()
        invariant
            i <= items@.len(),
            forall|j: int| 0 <= j < i ==> items@[j]@ != v@,
        decreases items.len() - i,
    {
        if str_eq(items[i].as_str(), v) {
            return Some(i);
        }
        i = i + 1;
    }
    None
}

proof fn lemma_start_index(items: Seq<Seq<char>>, v: Seq<char>, k: int, none_index: int, other_index: int)
    requires
        0 <= k < items.len(),
        items[k] == v,
        forall|j: int| 0 <= j < k ==> items[j] != v,
    ensures
        start_index(items, Some(v), none_index, other_index) == k,
{
    let c = choose|c: int| 0 <= c < items.len() && items[c] == v && forall|j: int| 0 <= j < c ==> items[j] != v;
    assert(0 <= c < items.len() && items[c] == v && forall|j: int| 0 <= j < c ==> items[j] != v);
    if c < k {
        assert(items[c] != v);
    }
    if k < c {
        assert(items[k] != v);
    }
}

fn start_index_of(items: &Vec<String>, value: &Option<String>, none_index: usize, other_index: usize) -> (r: usize)
    ensures
        r as int == start_index(
            items@.map_values(|s: String| s@),
            match value { Some(v) => Some(v@), None => None },
            none_index as int,
            other_index as int,
        ),
{
    let ghost its = items@.map_values(|s: String| s@);
    match value {
        None => none_index,
        Some(v) => match find_item(items, v.as_str()) {
            Some(k) => {
                proof {
                    assert forall|j: int| 0 <= j < k implies its[j] != v@ by {
                        assert(its[j] == items@[j]@);
                    }
                    lemma_start_index(its, v@, k as int, none_index as int, other_index as int);
                }
                k
            },
            None => {
                assert forall|k: int| 0 <= k < its.len() implies its[k] != v@ by {
                    assert(its[k] == items@[k]@);
                }
                other_index
            },
        },
    }
}

/// The answer given to the since prompt last time.
pub open spec fn last_since(last_run: Option<LastRun>) -> Option<Seq<char>> {
    match last_run {
        Some(r) => match r.since {
            Some(s) => Some(s@),
            None => None,
        },
        None => None,
    }
}

/// The answer given to the type prompt last time.
pub open spec fn last_type(last_run: Option<LastRun>) -> Option<Seq<char>> {
    match last_run {
        Some(r) => match r.type_spec {
            Some(s) => Some(s@),
            None => None,
        },
        None => None,
    }
}

fn since_of(last_run: Option<&LastRun>) -> (r: Option<String>)
    ensures
        match r { Some(s) => Some(s@), None => None } == last_since(match last_run { Some(x) => Some(*x), None => None }),
{
    match last_run {
        Some(x) => match &x.since {
            Some(s) => Some(s.clone()),
            None => None,
        },
        None => None,
    }
}

fn type_of(last_run: Option<&LastRun>) -> (r: Option<String>)
    ensures
        match r { Some(s) => Some(s@), None => None } == last_type(match last_run { Some(x) => Some(*x), None => None }),
{
    match last_run {
        Some(x) => match &x.type_spec {
            Some(s) => Some(s.clone()),
            None => None,
        },
        None => None,
    }
}

/// The item the since prompt starts on: `no filter` when the last run had no
/// bound, the item equal to its bound, else `custom`.
pub fn since_default_index(last_run: Option<&LastRun>) -> (r: usize)
    ensures
        r as int == start_index(since_items(), last_since(match last_run { Some(x) => Some(*x), None => None }), 4, 3),
        r < 5,
{
    let items = since_options();
    let v = since_of(last_run);
    start_index_of(&items, &v, 4, 3)
}

/// The item the type prompt starts on: `all` when the last run had no type,
/// the item equal to its type, else `custom`.
pub fn type_default_index(last_run: Option<&LastRun>) -> (r: usize)
    ensures
        r as int == start_index(type_items(), last_type(match last_run { Some(x) => Some(*x), None => None }), 0, 4),
        r < 5,
{
    let items = type_options();
    let v = type_of(last_run);
    start_index_of(&items, &v, 0, 4)
}

/// The text the custom-value prompt starts with: the last answer when the
/// prompt started on the custom item, else empty.
pub open spec fn custom_start(last: Option<Seq<char>>, start: int, custom_index: int) -> Seq<char> {
    if start == custom_index {
        match last {
            Some(s) => s,
            None => Seq::empty(),
        }
    } else {
        Seq::empty()
    }
}

/// The since bound chosen at item `index`, with `custom` typed at the custom item.
pub open spec fn since_choice(index: int, custom: Seq<char>) -> Option<Seq<char>> {
    if index == 4 {
        None
    } else if index == 3 {
        Some(custom)
    } else {
        Some(since_items()[index])
    }
}

/// The type chosen at item `index`, with `custom` typed at the custom item.
pub open spec fn type_choice(index: int, custom: Seq<char>) -> Option<Seq<char>> {
    if index == 0 {
        None
    } else if index == 4 {
        Some(custom)
    } else {
        Some(type_items()[index])
    }
}

/// The text the custom-value prompt starts with: the last answer when the
/// prompt started on `custom` (`start == custom_index`), else empty.
pub fn custom_default(last: Option<String>, start: usize, custom_index: usize) -> (r: String)
    ensures
        r@ == custom_start(match last { Some(s) => Some(s@), None => None }, start as int, custom_index as int),
{
    if start == custom_index {
        match last {
            Some(s) => s,
            None => String::new(),
        }
    } else {
        String::new()
    }
}

/// The since bound chosen at item `index`: none for `no filter`, the typed
/// value for `custom`, else the item itself.
pub fn since_from_choice(index: usize, custom: Option<String>) -> (r: Option<String>)
    requires
        index < 5,
        index == 3 ==> custom is Some,
    ensures
        match r { Some(s) => Some(s@), None => None } == since_choice(
            index as int,
            match custom { Some(c) => c@, None => Seq::<char>::empty() },
        ),
{
    if index == 4 {
        None
    } else if index == 3 {
        custom
    } else {
        let items = since_options();
        assert(items@.map_values(|s: String| s@).len() == items@.len());
        assert(items@.map_values(|s: String| s@)[index as int] == items@[index as int]@);
        Some(items[index].clone())
    }
}

/// The type chosen at item `index`: none for `all`, the typed value for
/// `custom`, else the item itself.
pub fn type_from_choice(index: usize, custom: Option<String>) -> (r: Option<String>)
    requires
        index < 5,
        index == 4 ==> custom is Some,
    ensures
        match r { Some(s) => Some(s@), None => None } == type_choice(
            index as int,
            match custom { Some(c) => c@, None => Seq::<char>::empty() },
        ),
{
    if index == 0 {
        None
    } else if index == 4 {
        custom
    } else {
        let items = type_options();
        assert(items@.map_values(|s: String| s@).len() == items@.len());
        assert(items@.map_values(|s: String| s@)[index as int] == items@[index as int]@);
        Some(items[index].clone())
    }
}

/// The item a yes/no prompt starts on: the second when the last run said yes.
pub fn flag_default_index(last: Option<bool>) -> (r: usize)
    ensures
        r == (if last == Some(true) { 1usize } else { 0usize }),
{
    match last {
        Some(true) => 1,
        _ => 0,
    }
}

/// The directory the first prompt offers: the last run's, else the current
/// directory (when it can be read), else `.`.
pub fn default_dir(last_run: Option<&LastRun>, cwd: Option<String>) -> (r: String)
    ensures
        match last_run {
            Some(x) => r@ == x.dir@,
            None => match cwd {
                Some(c) => r@ == c@,
                None => r@ == "."@,
            },
        },
{
    match last_run {
        Some(x) => x.dir.clone(),
        None => match cwd {
            Some(c) => c,
            None => String::from_str("."),
        },
    }
}

proof fn lemma_since_default(v: Option<Seq<char>>)
    requires
        v != Some(since_items()[4]),
    ensures
        since_choice(start_index(since_items(), v, 4, 3), custom_start(v, start_index(since_items(), v, 4, 3), 3)) == v,
{
    let its = since_items();
    if let Some(x) = v {
        if exists|k: int| 0 <= k < its.len() && its[k] == x {
            let k = start_index(its, v, 4, 3);
            assert(0 <= k < its.len() && its[k] == x);
        }
    }
}

proof fn lemma_type_default(v: Option<Seq<char>>)
    requires
        v != Some(type_items()[0]),
    ensures
        type_choice(start_index(type_items(), v, 0, 4), custom_start(v, start_index(type_items(), v, 0, 4), 4)) == v,
{
    let its = type_items();
    if let Some(x) = v {
        if exists|k: int| 0 <= k < its.len() && its[k] == x {
            let k = start_index(its, v, 0, 4);
            assert(0 <= k < its.len() && its[k] == x);
        }
    }
}

/// Accepting every default of the interactive mode gives back the last run's
/// since bound and type (a value that is no item is offered through the custom
/// item, pre-filled with it); `default_dir` and `flag_default_index` give back
/// its directory and flags. The bound `no filter` and the type `all` are items
/// that mean "none", so a last run holding those texts literally is not given
/// back.
pub proof fn lemma_defaults_reproduce_last_run(r: LastRun)
    requires
        last_since(Some(r)) != Some(since_items()[4]),
        last_type(Some(r)) != Some(type_items()[0]),
    ensures
        since_choice(
            start_index(since_items(), last_since(Some(r)), 4, 3),
            custom_start(last_since(Some(r)), start_index(since_items(), last_since(Some(r)), 4, 3), 3),
        ) == last_since(Some(r)),
        type_choice(
            start_index(type_items(), last_type(Some(r)), 0, 4),
            custom_start(last_type(Some(r)), start_index(type_items(), last_type(Some(r)), 0, 4), 4),
        ) == last_type(Some(r)),
{
    lemma_since_default(last_since(Some(r)));
    lemma_type_default(last_type(Some(r)));
}

} // verus!
