//! The command line: its options, and the decisions taken on them before and
//! after a scan.

use vstd::prelude::*;
use crate::filters::parse_u64;
use crate::filters::parse_u64_chars;
use crate::history::{History, HistoryView};
use crate::sorting::views;
use crate::text::{chars_of, trim, trim_chars};

verus! {

/// The options of the command line.
pub struct Cli {
    /// Directory to search (defaults to the current directory).
    pub dir: Option<String>,
    /// Time range start: 2h, 7d, 30m, or ISO date 2026-01-01.
    pub since: Option<String>,
    /// Time range end (defaults to now).
    pub until: Option<String>,
    /// File type preset or comma-separated extensions.
    pub type_filter: Option<String>,
    /// Specific filename to search for (exact match).
    pub file: Option<String>,
    /// Maximum directory recursion depth.
    pub depth: Option<usize>,
    /// After results, prompt to open a directory.
    pub open: bool,
    /// Show individual files under each directory.
    pub verbose: bool,
    /// Save current flags as a named preset.
    pub save: Option<String>,
    /// Re-run a saved preset by name, or a search by `!N`.
    pub run: Option<String>,
    /// Show the last searches.
    pub history: bool,
    /// Search file names across every scanned root, from the indexes only.
    pub find: Option<String>,
    /// Show the growth trend of the directory instead of scanning.
    pub trend: bool,
    /// Point that every file of a stale directory is older than.
    pub stale: Option<String>,
    /// Walk the tree again even when its index is fresh.
    pub refresh: bool,
    /// Serve the tools over standard input and output.
    pub mcp: bool,
    /// Print the completion script for this shell.
    pub completions: Option<String>,
}

/// Whether a command line asks for the interactive mode: no directory, time
/// bound, type, file name or stale bound given.
pub open spec fn wants_interactive(c: Cli) -> bool {
    c.dir is None && c.since is None && c.type_filter is None && c.file is None && c.stale is None
}

/// Whether the command line asks for the interactive mode.
pub fn is_interactive(cli: &Cli) -> (r: bool)
    ensures
        r == wants_interactive(*cli),
{
    cli.dir.is_none() && cli.since.is_none() && cli.type_filter.is_none() && cli.file.is_none()
        && cli.stale.is_none()
}

/// What `str::parse::<usize>` returns for `s`.
pub open spec fn parse_usize(s: Seq<char>) -> Option<nat> {
    match parse_u64(s) {
        Some(v) => if v <= usize::MAX { Some(v) } else { None },
        None => None,
    }
}

fn parse_usize_chars(s: &Vec<char>) -> (r: Option<usize>)
    ensures
        match parse_usize(s@) {
            Some(v) => r == Some(v as usize),
            None => r is None,
        },
{
    match parse_u64_chars(s) {
        Some(v) => if v <= usize::MAX as u64 { Some(v as usize) } else { None },
        None => None,
    }
}

/// The arguments a `--run` target names: `!N` is the `N`-th most recent
/// search (counting from 1), anything else the preset of that name.
pub open spec fn run_target(h: HistoryView, target: Seq<char>) -> Option<Seq<Seq<char>>> {
    if target.len() > 0 && target[0] == '!' {
        match parse_usize(target.drop_first()) {
            Some(n) => if 1 <= n <= h.entries.len() {
                Some(h.entries[n - 1].0)
            } else {
                None
            },
            None => None,
        }
    } else if h.presets.contains_key(target) {
        Some(h.presets[target])
    } else {
        None
    }
}

/// The arguments of the `--run` target `target`, if it names a search or a
/// preset.
pub fn run_target_args<'a>(history: &'a History, target: &str) -> (r: Option<&'a [String]>)
    ensures
        match run_target(history@, target@) {
            Some(a) => r matches Some(x) && views(x@) == a,
            None => r is None,
        },
{
    let cs = chars_of(target);
    if cs.len() > 0 && cs[0] == '!' {
        let mut rest: Vec<char> = Vec::new();
        let mut i: usize = 1;
        while i < cs.len()
            invariant
                1 <= i <= cs@.len(),
                rest@ == cs@.subrange(1, i as int),
            decreases cs.len() - i,
        {
            rest.push(cs[i]);
            i = i + 1;
        }
        assert(rest@ == target@.drop_first());
        match parse_usize_chars(&rest) {
            Some(n) => history.get_entry(n),
            None => None,
        }
    } else {
        history.get_preset(target)
    }
}

/// The directory picked at the open prompt: the answer, trimmed, read as a
/// number from 1 to `count`, gives that choice (counted from 0); anything else
/// picks none.
pub open spec fn open_choice(input: Seq<char>, count: nat) -> Option<nat> {
    let t = trim(input);
    if t.len() == 0 {
        None
    } else {
        match parse_usize(t) {
            Some(n) => if 1 <= n <= count { Some((n - 1) as nat) } else { None },
            None => None,
        }
    }
}

/// The index of the directory picked at the open prompt, if any.
pub fn parse_open_choice(input: &str, count: usize) -> (r: Option<usize>)
    ensures
        match open_choice(input@, count as nat) {
            Some(k) => r == Some(k as usize),
            None => r is None,
        },
{
    let cs = chars_of(input);
    let t = trim_chars(&cs);
    if t.len() == 0 {
        return None;
    }
    match parse_usize_chars(&t) {
        Some(n) => if 1 <= n && n <= count { Some(n - 1) } else { None },
        None => None,
    }
}

/// The interactive mode opens exactly when none of a directory, a since bound,
/// a type, a file name or a stale bound is given; the other options (until,
/// depth, flags) do not matter.
pub proof fn lemma_interactive_when_bare(c: Cli)
    ensures
        c.dir is Some ==> !wants_interactive(c),
        c.since is Some ==> !wants_interactive(c),
        c.type_filter is Some ==> !wants_interactive(c),
        c.file is Some ==> !wants_interactive(c),
        c.stale is Some ==> !wants_interactive(c),
        c.dir is None && c.since is None && c.type_filter is None && c.file is None && c.stale is None
            ==> wants_interactive(c),
{
}

} // verus!
