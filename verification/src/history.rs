//! Recent searches and named presets.

use vstd::prelude::*;
use crate::sorting::views;
use crate::text::{is_ws, words, words_of, chars_of, string_of, push_str_chars};
use crate::filters::str_eq;
use crate::config::{history_file, history_rel};
use crate::paths::path_join;
use crate::clock::{representable, now_stamp};
use crate::mcp::{chrono_range, rfc3339_at, system_time_to_rfc3339};

verus! {

/// One recorded search: its command line as arguments, and when it ran (RFC 3339).
#[derive(Clone, Debug)]
pub struct HistoryEntry {
    pub args: Vec<String>,
    pub ran_at: String,
}

/// The choices of the last run, offered as defaults by the interactive mode.
#[derive(Clone, Debug)]
pub struct LastRun {
    pub dir: String,
    pub since: Option<String>,
    pub type_spec: Option<String>,
    pub verbose: bool,
    pub open: bool,
}

/// `arg` as shown in a command line: quoted when it holds a space.
pub open spec fn quote_arg(arg: Seq<char>) -> Seq<char> {
    if arg.contains(' ') {
        seq!['"'] + arg + seq!['"']
    } else {
        arg
    }
}

/// `ws` joined with single spaces.
pub open spec fn join_words(ws: Seq<Seq<char>>) -> Seq<char>
    decreases ws.len(),
{
    if ws.len() == 0 {
        Seq::empty()
    } else if ws.len() == 1 {
        ws[0]
    } else {
        join_words(ws.drop_last()) + seq![' '] + ws.last()
    }
}

/// The command line of `args`, with arguments that hold a space in quotes.
pub open spec fn preset_command(args: Seq<Seq<char>>) -> Seq<char> {
    join_words(args.map_values(|a: Seq<char>| quote_arg(a)))
}

/// Whether `w` is one word: not empty and without whitespace.
pub open spec fn plain_word(w: Seq<char>) -> bool {
    w.len() > 0 && forall|j: int| 0 <= j < w.len() ==> !is_ws(#[trigger] w[j])
}

proof fn lemma_words_after(s: Seq<char>, w: Seq<char>)
    requires
        plain_word(w),
        s.len() == 0 || is_ws(s.last()),
    ensures
        words(s + w) == words(s).push(w),
    decreases w.len(),
{
    if w.len() == 1 {
        assert((s + w).drop_last() == s);
        assert((s + w).last() == w[0]);
        if s.len() > 0 {
            assert((s + w)[(s + w).len() - 2] == s.last());
        }
        assert(w == seq![w[0]]);
    } else {
        let v = w.drop_last();
        assert(plain_word(v)) by {
            assert forall|j: int| 0 <= j < v.len() implies !is_ws(#[trigger] v[j]) by {
                assert(v[j] == w[j]);
            }
        }
        lemma_words_after(s, v);
        assert((s + w).drop_last() == s + v);
        assert((s + w).last() == w.last());
        assert((s + w)[(s + w).len() - 2] == w[w.len() - 2]);
        assert(!is_ws(w.last()));
        assert(!is_ws(w[w.len() - 2]));
        assert(v.push(w.last()) == w);
        let ws = words(s + v);
        assert(ws == words(s).push(v));
        assert(ws.update(ws.len() - 1, ws.last().push(w.last())) =~= words(s).push(w));
    }
}

/// Splitting the command line of words on whitespace gives the words back:
/// a search recorded as a command string reads back as its arguments.
pub proof fn lemma_command_words(args: Seq<Seq<char>>)
    requires
        forall|i: int| 0 <= i < args.len() ==> plain_word(#[trigger] args[i]),
    ensures
        words(preset_command(args)) == args,
    decreases args.len(),
{
    let q = args.map_values(|a: Seq<char>| quote_arg(a));
    assert forall|i: int| 0 <= i < args.len() implies #[trigger] q[i] == args[i] by {
        assert(!args[i].contains(' ')) by {
            if args[i].contains(' ') {
                let j = choose|j: int| 0 <= j < args[i].len() && args[i][j] == ' ';
                assert(is_ws(args[i][j]));
            }
        }
    }
    assert(q == args);
    if args.len() == 0 {
        assert(words(Seq::<char>::empty()) == Seq::<Seq<char>>::empty());
    } else if args.len() == 1 {
        lemma_words_after(Seq::<char>::empty(), args[0]);
        assert(Seq::<char>::empty() + args[0] == args[0]);
        assert(Seq::<Seq<char>>::empty().push(args[0]) == args);
    } else {
        let front = args.drop_last();
        lemma_command_words(front);
        let fq = front.map_values(|a: Seq<char>| quote_arg(a));
        assert(fq =~= q.drop_last());
        let head = join_words(front) + seq![' '];
        assert(join_words(q) == head + args.last());
        assert(join_words(front) == preset_command(front));
        assert(head.drop_last() == join_words(front));
        assert(words(head) == words(join_words(front)));
        lemma_words_after(head, args.last());
        assert(front.push(args.last()) == args);
    }
}

fn has_space(cs: &Vec<char>) -> (r: bool)
    ensures
        r == cs@.contains(' '),
{
    let mut i: usize = 0;
    while i < cs.len()
        invariant
            i <= cs.len(),
            forall|k: int| 0 <= k < i ==> cs@[k] != ' ',
        decreases cs.len() - i,
    {
        if cs[i] == ' ' {
            assert(cs@[i as int] == ' ');
            return true;
        }
        i = i + 1;
    }
    false
}

/// The command line of `args`, with arguments that hold a space in quotes.
pub fn format_preset_command(args: &[String]) -> (r: String)
    ensures
        r@ == preset_command(views(args@)),
{
    let ghost q = views(args@).map_values(|a: Seq<char>| quote_arg(a));
    let mut out: Vec<char> = Vec::new();
    let mut i: usize = 0;
    while i < args.len()
        invariant
            i <= args@.len(),
            q == views(args@).map_values(|a: Seq<char>| quote_arg(a)),
            out@ == join_words(q.take(i as int)),
        decreases args.len() - i,
    {
        let cs = chars_of(args[i].as_str());
        let ghost before = out@;
        assert(q[i as int] == quote_arg(args@[i as int]@));
        if i > 0 {
            out.push(' ');
        }
        if has_space(&cs) {
            out.push('"');
            let mut c2 = cs;
            out.append(&mut c2);
            out.push('"');
        } else {
            let mut c2 = cs;
            out.append(&mut c2);
        }
        proof {
            let t = q.take(i + 1);
            assert(t.drop_last() == q.take(i as int));
            assert(t.last() == q[i as int]);
            if i == 0 {
                assert(t.len() == 1);
                assert(out@ =~= q[0]);
            } else {
                assert(out@ =~= before + seq![' '] + q[i as int]);
            }
        }
        i = i + 1;
    }
    assert(q.take(args@.len() as int) == q);
    string_of(out.as_slice())
}

impl HistoryEntry {
    /// The entry's command line.
    pub fn command(&self) -> (r: String)
        ensures
            r@ == preset_command(views(self.args@)),
    {
        format_preset_command(self.args.as_slice())
    }
}

fn copy_strings(v: &[String]) -> (r: Vec<String>)
    ensures
        views(r@) == views(v@),
{
    let mut out: Vec<String> = Vec::new();
    let mut i: usize = 0;
    while i < v.len()
        invariant
            i <= v@.len(),
            views(out@) == views(v@).take(i as int),
        decreases v.len() - i,
    {
        let s = v[i].clone();
        let ghost prev = out@;
        out.push(s);
        assert(views(out@) =~= views(prev).push(v@[i as int]@));
        assert(views(v@).take(i + 1) =~= views(v@).take(i as int).push(v@[i as int]@));
        i = i + 1;
    }
    assert(views(v@).take(v@.len() as int) == views(v@));
    out
}

/// The arguments that re-run a search: the program, the directory, then
/// `--since`, `--type` and `--verbose` as given.
pub open spec fn preset_args_of(dir: Seq<char>, since: Option<Seq<char>>, type_spec: Option<Seq<char>>, verbose: bool) -> Seq<Seq<char>> {
    let a = seq!["dirtrack"@, dir];
    let b = match since {
        Some(s) => a + seq!["--since"@, s],
        None => a,
    };
    let c = match type_spec {
        Some(t) => b + seq!["--type"@, t],
        None => b,
    };
    if verbose {
        c.push("--verbose"@)
    } else {
        c
    }
}

/// The view of an optional string.
pub open spec fn opt_view(o: Option<String>) -> Option<Seq<char>> {
    match o {
        Some(s) => Some(s@),
        None => None,
    }
}

/// The arguments that re-run a search.
pub fn build_preset_args(dir: &str, since: &Option<String>, type_spec: &Option<String>, verbose: bool) -> (r: Vec<String>)
    ensures
        views(r@) == preset_args_of(dir@, opt_view(*since), opt_view(*type_spec), verbose),
{
    let mut args: Vec<String> = Vec::new();
    args.push(String::from_str("dirtrack"));
    args.push(String::from_str(dir));
    let ghost a = views(args@);
    assert(a =~= seq!["dirtrack"@, dir@]);
    match since {
        Some(s) => {
            args.push(String::from_str("--since"));
            args.push(s.clone());
        },
        None => {},
    }
    let ghost b = views(args@);
    assert(b =~= match opt_view(*since) {
        Some(s) => a + seq!["--since"@, s],
        None => a,
    });
    match type_spec {
        Some(t) => {
            args.push(String::from_str("--type"));
            args.push(t.clone());
        },
        None => {},
    }
    let ghost c = views(args@);
    assert(c =~= match opt_view(*type_spec) {
        Some(t) => b + seq!["--type"@, t],
        None => b,
    });
    if verbose {
        args.push(String::from_str("--verbose"));
    }
    assert(views(args@) =~= preset_args_of(dir@, opt_view(*since), opt_view(*type_spec), verbose));
    args
}

/// The arguments of a stored entry: its `args` when there are any, else the
/// words of its older one-string `command` form.
pub fn entry_args(args: Vec<String>, command: &str) -> (r: Vec<String>)
    ensures
        args@.len() > 0 ==> views(r@) == views(args@),
        args@.len() == 0 ==> views(r@) == words(command@),
{
    if args.len() > 0 {
        args
    } else {
        split_words(command)
    }
}

/// The words of `s` (`str::split_whitespace`).
pub fn split_words(s: &str) -> (r: Vec<String>)
    ensures
        views(r@) == words(s@),
{
    let ws = words_of(&chars_of(s));
    let mut out: Vec<String> = Vec::new();
    let mut i: usize = 0;
    while i < ws.len()
        invariant
            i <= ws@.len(),
            ws@.map_values(|p: Vec<char>| p@) == words(s@),
            views(out@) == words(s@).take(i as int),
        decreases ws.len() - i,
    {
        let w = string_of(ws[i].as_slice());
        let ghost prev = out@;
        out.push(w);
        assert(ws@.map_values(|p: Vec<char>| p@)[i as int] == ws@[i as int]@);
        assert(views(out@) =~= views(prev).push(w@));
        assert(words(s@).take(i + 1) =~= words(s@).take(i as int).push(words(s@)[i as int]));
        i = i + 1;
    }
    assert(words(s@).take(words(s@).len() as int) == words(s@));
    out
}

/// A stored preset value as read from the history file: a list whose items
/// are strings or something else, a single command string, or something else.
pub enum PresetValue {
    List(Vec<Option<String>>),
    Text(String),
    Other,
}

/// The string items of a preset list, in order.
pub open spec fn string_items(items: Seq<Option<String>>) -> Seq<Seq<char>>
    decreases items.len(),
{
    if items.len() == 0 {
        Seq::empty()
    } else {
        let r = string_items(items.drop_last());
        match items.last() {
            Some(s) => r.push(s@),
            None => r,
        }
    }
}

/// The arguments of a stored preset: the string items of a list or the words
/// of a command string; nothing when there are none or the value is neither.
pub fn preset_args(v: PresetValue) -> (r: Option<Vec<String>>)
    ensures
        match v {
            PresetValue::List(items) => if string_items(items@).len() > 0 {
                r matches Some(a) && views(a@) == string_items(items@)
            } else {
                r is None
            },
            PresetValue::Text(cmd) => if words(cmd@).len() > 0 {
                r matches Some(a) && views(a@) == words(cmd@)
            } else {
                r is None
            },
            PresetValue::Other => r is None,
        },
{
    match v {
        PresetValue::List(items) => {
            let mut out: Vec<String> = Vec::new();
            let mut i: usize = 0;
            while i < items.len()
                invariant
                    i <= items@.len(),
                    views(out@) == string_items(items@.take(i as int)),
                decreases items.len() - i,
            {
                assert(items@.take(i + 1).drop_last() == items@.take(i as int));
                assert(items@.take(i + 1).last() == items@[i as int]);
                match &items[i] {
                    Some(s) => {
                        let ghost prev = out@;
                        out.push(s.clone());
                        assert(views(out@) =~= views(prev).push(s@));
                    },
                    None => {},
                }
                i = i + 1;
            }
            assert(items@.take(items@.len() as int) == items@);
            if out.len() > 0 {
                Some(out)
            } else {
                None
            }
        },
        PresetValue::Text(cmd) => {
            let a = split_words(cmd.as_str());
            if a.len() > 0 {
                Some(a)
            } else {
                None
            }
        },
        PresetValue::Other => None,
    }
}


/// The abstract value of a `LastRun`.
pub struct LastRunView {
    pub dir: Seq<char>,
    pub since: Option<Seq<char>>,
    pub type_spec: Option<Seq<char>>,
    pub verbose: bool,
    pub open: bool,
}

impl View for LastRun {
    type V = LastRunView;

    open spec fn view(&self) -> LastRunView {
        LastRunView {
            dir: self.dir@,
            since: opt_view(self.since),
            type_spec: opt_view(self.type_spec),
            verbose: self.verbose,
            open: self.open,
        }
    }
}

/// The view of an optional last run.
pub open spec fn run_view(o: Option<LastRun>) -> Option<LastRunView> {
    match o {
        Some(r) => Some(r@),
        None => None,
    }
}

impl View for HistoryEntry {
    type V = (Seq<Seq<char>>, Seq<char>);

    open spec fn view(&self) -> (Seq<Seq<char>>, Seq<char>) {
        (views(self.args@), self.ran_at@)
    }
}

/// The most recent searches the history keeps.
pub const HISTORY_LIMIT: usize = 5;

/// The entries after recording `e` as the newest: `e` first, then the older
/// ones, at most five in all.
pub open spec fn with_newest<E>(es: Seq<E>, e: E) -> Seq<E> {
    let all = seq![e] + es;
    if all.len() > 5 {
        all.take(5)
    } else {
        all
    }
}

/// The presets as a map from name to arguments; a later pair replaces an
/// earlier one of the same name.
pub open spec fn preset_map(p: Seq<(String, Vec<String>)>) -> Map<Seq<char>, Seq<Seq<char>>>
    decreases p.len(),
{
    if p.len() == 0 {
        Map::empty()
    } else {
        preset_map(p.drop_last()).insert(p.last().0@, views(p.last().1@))
    }
}

/// Whether no two presets share a name.
pub open spec fn distinct_names(p: Seq<(String, Vec<String>)>) -> bool {
    forall|i: int, j: int| 0 <= i < j < p.len() ==> (#[trigger] p[i]).0@ != (#[trigger] p[j]).0@
}

proof fn lemma_preset_map_lookup(p: Seq<(String, Vec<String>)>, k: Seq<char>)
    requires
        distinct_names(p),
    ensures
        preset_map(p).contains_key(k) <==> exists|i: int| 0 <= i < p.len() && (#[trigger] p[i]).0@ == k,
        forall|i: int| 0 <= i < p.len() && (#[trigger] p[i]).0@ == k ==> preset_map(p)[k] == views(p[i].1@),
    decreases p.len(),
{
    if p.len() > 0 {
        let q = p.drop_last();
        assert(distinct_names(q)) by {
            assert forall|i: int, j: int| 0 <= i < j < q.len() implies (#[trigger] q[i]).0@ != (#[trigger] q[j]).0@ by {
                assert(q[i] == p[i] && q[j] == p[j]);
            }
        }
        lemma_preset_map_lookup(q, k);
        if preset_map(p).contains_key(k) && k != p.last().0@ {
            let i = choose|i: int| 0 <= i < q.len() && (#[trigger] q[i]).0@ == k;
            assert(p[i] == q[i]);
        }
        if exists|i: int| 0 <= i < p.len() && (#[trigger] p[i]).0@ == k {
            let i = choose|i: int| 0 <= i < p.len() && (#[trigger] p[i]).0@ == k;
            if i < p.len() - 1 {
                assert(q[i] == p[i]);
            }
        }
        assert forall|i: int| 0 <= i < p.len() && (#[trigger] p[i]).0@ == k implies preset_map(p)[k] == views(p[i].1@) by {
            if i < p.len() - 1 {
                assert(q[i] == p[i]);
                assert(p[i].0@ != p[p.len() - 1].0@);
            }
        }
    }
}

proof fn lemma_preset_map_update(p: Seq<(String, Vec<String>)>, i: int, x: (String, Vec<String>))
    requires
        distinct_names(p),
        0 <= i < p.len(),
        p[i].0@ == x.0@,
    ensures
        preset_map(p.update(i, x)) == preset_map(p).insert(x.0@, views(x.1@)),
        distinct_names(p.update(i, x)),
    decreases p.len(),
{
    let u = p.update(i, x);
    assert(distinct_names(u)) by {
        assert forall|a: int, b: int| 0 <= a < b < u.len() implies (#[trigger] u[a]).0@ != (#[trigger] u[b]).0@ by {
            assert(u[a].0@ == p[a].0@);
            assert(u[b].0@ == p[b].0@);
        }
    }
    let q = p.drop_last();
    if i == p.len() - 1 {
        assert(u.drop_last() == q);
        assert(preset_map(u) =~= preset_map(p).insert(x.0@, views(x.1@)));
    } else {
        assert(distinct_names(q)) by {
            assert forall|a: int, b: int| 0 <= a < b < q.len() implies (#[trigger] q[a]).0@ != (#[trigger] q[b]).0@ by {
                assert(q[a] == p[a] && q[b] == p[b]);
            }
        }
        lemma_preset_map_update(q, i, x);
        assert(u.drop_last() == q.update(i, x));
        assert(u.last() == p.last());
        assert(p.last().0@ != x.0@) by {
            assert(p[i].0@ != p[p.len() - 1].0@);
        }
        assert(preset_map(u) =~= preset_map(p).insert(x.0@, views(x.1@)));
    }
}

/// What a history file holds, as read from it.
pub struct HistoryFile {
    pub entries: Vec<HistoryEntry>,
    pub presets: Vec<(String, Vec<String>)>,
    pub last_run: Option<LastRun>,
}

/// Recent searches (newest first), named presets, and the last run's choices,
/// for the history file at `path`.
pub struct History {
    path: String,
    entries: Vec<HistoryEntry>,
    presets: Vec<(String, Vec<String>)>,
    last_run: Option<LastRun>,
}

/// The abstract value of a `History`.
pub struct HistoryView {
    pub path: Seq<char>,
    pub entries: Seq<(Seq<Seq<char>>, Seq<char>)>,
    pub presets: Map<Seq<char>, Seq<Seq<char>>>,
    pub last_run: Option<LastRunView>,
}

impl View for History {
    type V = HistoryView;

    closed spec fn view(&self) -> HistoryView {
        HistoryView {
            path: self.path@,
            entries: views(self.entries@),
            presets: preset_map(self.presets@),
            last_run: run_view(self.last_run),
        }
    }
}

impl History {
    #[verifier::type_invariant]
    spec fn presets_distinct(self) -> bool {
        distinct_names(self.presets@)
    }

    /// A history with no entries, presets or last run.
    pub fn empty(path: String) -> (h: History)
        ensures
            h@.path == path@,
            h@.entries == Seq::<(Seq<Seq<char>>, Seq<char>)>::empty(),
            h@.presets == Map::<Seq<char>, Seq<Seq<char>>>::empty(),
            h@.last_run is None,
    {
        let h = History { path, entries: Vec::new(), presets: Vec::new(), last_run: None };
        assert(views(h.entries@) =~= Seq::<(Seq<Seq<char>>, Seq<char>)>::empty());
        h
    }

    /// The history kept in the file at `path`, from what was read from it
    /// (`None` when the file is missing or cannot be read or parsed, which
    /// gives an empty history).
    pub fn new(path: String, data: Option<HistoryFile>) -> (h: History)
        ensures
            h@.path == path@,
            match data {
                Some(d) => h@.entries == views(d.entries@) && h@.presets == preset_map(d.presets@)
                    && h@.last_run == run_view(d.last_run),
                None => h@.entries.len() == 0 && h@.presets == Map::<Seq<char>, Seq<Seq<char>>>::empty()
                    && h@.last_run is None,
            },
    {
        match data {
            Some(d) => History::from_parts(path, d.entries, d.presets, d.last_run),
            None => History::empty(path),
        }
    }

    /// The history in the default file under the configuration directory
    /// `config_dir`, from what was read from that file.
    pub fn load_default(config_dir: &str, data: Option<HistoryFile>) -> (h: History)
        ensures
            h@.path == path_join(config_dir@, history_rel()),
            match data {
                Some(d) => h@.entries == views(d.entries@) && h@.presets == preset_map(d.presets@)
                    && h@.last_run == run_view(d.last_run),
                None => h@.entries.len() == 0 && h@.presets == Map::<Seq<char>, Seq<Seq<char>>>::empty()
                    && h@.last_run is None,
            },
    {
        let path = history_file(config_dir);
        History::new(path, data)
    }

    /// A history holding what was read from its file; of presets with the
    /// same name the last one counts.
    pub fn from_parts(
        path: String,
        entries: Vec<HistoryEntry>,
        presets: Vec<(String, Vec<String>)>,
        last_run: Option<LastRun>,
    ) -> (h: History)
        ensures
            h@.path == path@,
            h@.entries == views(entries@),
            h@.presets == preset_map(presets@),
            h@.last_run == run_view(last_run),
    {
        let ghost lr = run_view(last_run);
        let ghost pv = path@;
        let ghost ev = views(entries@);
        let mut h = History { path, entries, presets: Vec::new(), last_run };
        assert(presets@.skip(0) == presets@);
        let mut rest = presets;
        let ghost all = rest@;
        let n = rest.len();
        let mut i: usize = 0;
        while i < n
            invariant
                n == all.len(),
                i <= n,
                rest@ == all.skip(i as int),
                h@.presets == preset_map(all.take(i as int)),
                h@.path == pv,
                h@.entries == ev,
                h@.last_run == lr,
            decreases n - i,
        {
            let (name, args) = rest.remove(0);
            assert(all[i as int] == (name, args));
            assert(rest@ == all.skip(i + 1));
            h.save_preset_owned(name, args);
            assert(all.take(i + 1).drop_last() == all.take(i as int));
            i = i + 1;
        }
        assert(all.take(n as int) == all);
        h
    }

    fn save_preset_owned(&mut self, name: String, args: Vec<String>)
        ensures
            final(self)@.presets == old(self)@.presets.insert(name@, views(args@)),
            final(self)@.path == old(self)@.path,
            final(self)@.entries == old(self)@.entries,
            final(self)@.last_run == old(self)@.last_run,
    {
        proof {
            use_type_invariant(&*self);
        }
        let ghost p = self.presets@;
        let mut i: usize = 0;
        while i < self.presets.len() && self.presets[i].0 != name
            invariant
                i <= p.len(),
                self.presets@ == p,
                forall|k: int| 0 <= k < i ==> (#[trigger] p[k]).0@ != name@,
            decreases p.len() - i,
        {
            i = i + 1;
        }
        let ghost nm = name@;
        let ghost av = views(args@);
        if i < self.presets.len() {
            proof {
                lemma_preset_map_update(p, i as int, (name, args));
            }
            let mut ps: Vec<(String, Vec<String>)> = Vec::new();
            std::mem::swap(&mut ps, &mut self.presets);
            ps.set(i, (name, args));
            self.presets = ps;
        } else {
            proof {
                assert(distinct_names(p.push((name, args)))) by {
                    let q = p.push((name, args));
                    assert forall|a: int, b: int| 0 <= a < b < q.len() implies (#[trigger] q[a]).0@ != (#[trigger] q[b]).0@ by {
                        if b == p.len() {
                            assert(q[a] == p[a]);
                        } else {
                            assert(q[a] == p[a] && q[b] == p[b]);
                        }
                    }
                }
                assert(p.push((name, args)).drop_last() == p);
            }
            let mut ps: Vec<(String, Vec<String>)> = Vec::new();
            std::mem::swap(&mut ps, &mut self.presets);
            ps.push((name, args));
            self.presets = ps;
        }
    }

    /// Stores `args` as the preset `name`, replacing a preset of that name.
    pub fn save_preset(&mut self, name: &str, args: &[String])
        ensures
            final(self)@.presets == old(self)@.presets.insert(name@, views(args@)),
            final(self)@.path == old(self)@.path,
            final(self)@.entries == old(self)@.entries,
            final(self)@.last_run == old(self)@.last_run,
    {
        let a = copy_strings(args);
        self.save_preset_owned(String::from_str(name), a);
    }

    /// The arguments of the preset `name`, if there is one.
    pub fn get_preset(&self, name: &str) -> (r: Option<&[String]>)
        ensures
            r is Some <==> self@.presets.contains_key(name@),
            r matches Some(a) ==> views(a@) == self@.presets[name@],
    {
        proof {
            use_type_invariant(self);
            lemma_preset_map_lookup(self.presets@, name@);
        }
        let mut i: usize = 0;
        while i < self.presets.len()
            invariant
                i <= self.presets@.len(),
                forall|k: int| 0 <= k < i ==> (#[trigger] self.presets@[k]).0@ != name@,
            decreases self.presets@.len() - i,
        {
            if str_eq(self.presets[i].0.as_str(), name) {
                proof {
                    use_type_invariant(self);
                    lemma_preset_map_lookup(self.presets@, name@);
                    assert(self.presets@[i as int].0@ == name@);
                }
                return Some(self.presets[i].1.as_slice());
            }
            i = i + 1;
        }
        None
    }

    /// The presets, each name once.
    pub fn presets(&self) -> (r: &[(String, Vec<String>)])
        ensures
            preset_map(r@) == self@.presets,
            distinct_names(r@),
    {
        proof {
            use_type_invariant(self);
        }
        self.presets.as_slice()
    }

    /// The path of the history file.
    pub fn path(&self) -> (r: &str)
        ensures
            r@ == self@.path,
    {
        self.path.as_str()
    }

    /// The recorded searches, newest first.
    pub fn entries(&self) -> (r: &[HistoryEntry])
        ensures
            views(r@) == self@.entries,
    {
        self.entries.as_slice()
    }

    /// Records `e` as the newest search, keeping at most five.
    pub fn push_entry(&mut self, e: HistoryEntry)
        ensures
            final(self)@.entries == with_newest(old(self)@.entries, e@),
            final(self)@.path == old(self)@.path,
            final(self)@.presets == old(self)@.presets,
            final(self)@.last_run == old(self)@.last_run,
    {
        proof {
            use_type_invariant(&*self);
        }
        let ghost ev = e@;
        let ghost before = views(self.entries@);
        let mut es: Vec<HistoryEntry> = Vec::new();
        std::mem::swap(&mut es, &mut self.entries);
        es.insert(0, e);
        assert(views(es@) =~= seq![ev] + before);
        if es.len() > HISTORY_LIMIT {
            es.truncate(HISTORY_LIMIT);
            assert(views(es@) =~= (seq![ev] + before).take(5));
        }
        self.entries = es;
    }

    /// Records a search with these arguments as the newest, stamped with the
    /// RFC 3339 text of the clock reading `now`, keeping at most five. A
    /// reading outside what chrono's dates hold has no such text, and records
    /// nothing.
    pub fn push_args_at(&mut self, args: &[String], now: i128)
        ensures
            final(self)@.entries == if chrono_range(now as int) {
                with_newest(old(self)@.entries, (views(args@), rfc3339_at(now as int)))
            } else {
                old(self)@.entries
            },
            final(self)@.path == old(self)@.path,
            final(self)@.presets == old(self)@.presets,
            final(self)@.last_run == old(self)@.last_run,
    {
        if -96465292i128 * 86_400_000_000_000 <= now && now < 95026237i128 * 86_400_000_000_000 {
            let ran_at = system_time_to_rfc3339(now);
            let e = HistoryEntry { args: copy_strings(args), ran_at };
            self.push_entry(e);
        }
    }

    /// Records a search with these arguments as the newest, stamped with the
    /// current time (RFC 3339), keeping at most five.
    pub fn push_args(&mut self, args: &[String])
        ensures
            exists|now: int|
                #![trigger rfc3339_at(now)]
                representable(now) && final(self)@.entries == if chrono_range(now) {
                    with_newest(old(self)@.entries, (views(args@), rfc3339_at(now)))
                } else {
                    old(self)@.entries
                },
            final(self)@.path == old(self)@.path,
            final(self)@.presets == old(self)@.presets,
            final(self)@.last_run == old(self)@.last_run,
    {
        let now = now_stamp();
        self.push_args_at(args, now);
        let ghost g = rfc3339_at(now as int);
    }

    /// The arguments of the `index`-th most recent search, counting from 1.
    pub fn get_entry(&self, index: usize) -> (r: Option<&[String]>)
        ensures
            (index == 0 || index > self@.entries.len()) <==> r is None,
            r matches Some(a) ==> views(a@) == self@.entries[index - 1].0,
    {
        if index == 0 || index > self.entries.len() {
            None
        } else {
            assert(views(self.entries@)[index - 1] == self.entries@[index - 1]@);
            Some(self.entries[index - 1].args.as_slice())
        }
    }

    /// The choices of the last run, if recorded.
    pub fn last_run(&self) -> (r: Option<&LastRun>)
        ensures
            r matches Some(x) ==> self@.last_run == Some(x@),
            r is None ==> self@.last_run is None,
    {
        self.last_run.as_ref()
    }

    /// Records the choices of the last run.
    pub fn set_last_run(&mut self, run: LastRun)
        ensures
            final(self)@.last_run == Some(run@),
            final(self)@.path == old(self)@.path,
            final(self)@.entries == old(self)@.entries,
            final(self)@.presets == old(self)@.presets,
    {
        proof {
            use_type_invariant(&*self);
        }
        self.last_run = Some(run);
    }
}

} // verus!
