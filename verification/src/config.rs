//! Where dirtrack keeps its files.

use vstd::prelude::*;
use crate::paths::{path_join, join_path};

verus! {

/// `.config`
pub open spec fn dot_config() -> Seq<char> {
    seq!['.', 'c', 'o', 'n', 'f', 'i', 'g']
}

/// The configuration directory for the values of `XDG_CONFIG_HOME` and `HOME`
/// (each `None` when unset): a non-empty `XDG_CONFIG_HOME`, else
/// `$HOME/.config`, else `.config`.
pub open spec fn config_dir_of(xdg: Option<Seq<char>>, home: Option<Seq<char>>) -> Seq<char> {
    match xdg {
        Some(x) if x.len() > 0 => x,
        _ => match home {
            Some(h) => path_join(h, dot_config()),
            None => dot_config(),
        },
    }
}

/// The configuration directory, from the values of `XDG_CONFIG_HOME` and
/// `HOME` in the environment.
pub fn config_dir(xdg: Option<&str>, home: Option<&str>) -> (r: String)
    ensures
        r@ == config_dir_of(
            match xdg { Some(x) => Some(x@), None => None },
            match home { Some(h) => Some(h@), None => None },
        ),
{
    let dc = ".config";
    proof {
        reveal_strlit(".config");
        assert(dc@ =~= dot_config());
    }
    if let Some(x) = xdg {
        if x.unicode_len() > 0 {
            return x.to_string();
        }
    }
    match home {
        Some(h) => join_path(h, dc),
        None => dc.to_string(),
    }
}

/// `dirtrack/index`
pub open spec fn index_rel() -> Seq<char> {
    seq!['d', 'i', 'r', 't', 'r', 'a', 'c', 'k', '/', 'i', 'n', 'd', 'e', 'x']
}

/// `dirtrack/trend.json`
pub open spec fn trend_rel() -> Seq<char> {
    seq!['d', 'i', 'r', 't', 'r', 'a', 'c', 'k', '/', 't', 'r', 'e', 'n', 'd', '.', 'j', 's', 'o', 'n']
}

/// `dirtrack/history.json`
pub open spec fn history_rel() -> Seq<char> {
    seq!['d', 'i', 'r', 't', 'r', 'a', 'c', 'k', '/', 'h', 'i', 's', 't', 'o', 'r', 'y', '.', 'j', 's', 'o', 'n']
}

/// The directory of the per-root index files.
pub fn index_dir(config_dir: &str) -> (r: String)
    ensures
        r@ == path_join(config_dir@, index_rel()),
{
    let rel = "dirtrack/index";
    proof {
        reveal_strlit("dirtrack/index");
        assert(rel@ =~= index_rel());
    }
    join_path(config_dir, rel)
}

/// The file of the scan log that trends are computed from.
pub fn trend_file(config_dir: &str) -> (r: String)
    ensures
        r@ == path_join(config_dir@, trend_rel()),
{
    let rel = "dirtrack/trend.json";
    proof {
        reveal_strlit("dirtrack/trend.json");
        assert(rel@ =~= trend_rel());
    }
    join_path(config_dir, rel)
}

/// The file of the search history and presets.
pub fn history_file(config_dir: &str) -> (r: String)
    ensures
        r@ == path_join(config_dir@, history_rel()),
{
    let rel = "dirtrack/history.json";
    proof {
        reveal_strlit("dirtrack/history.json");
        assert(rel@ =~= history_rel());
    }
    join_path(config_dir, rel)
}

} // verus!
