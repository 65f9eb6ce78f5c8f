//! Time-window parsing, file-type presets and file-name matching.

use vstd::prelude::*;
use crate::text::{split_on, trim, split_chars, chars_of, trim_chars, string_of, push_str_chars};
use crate::clock::{representable, now_stamp, floor_secs, NANOS_PER_SEC, days_from_epoch, days_from_epoch_exec, valid_date, days_before_month};
use chrono::Datelike;

verus! {

/// What `str::to_lowercase` returns for `s` (Unicode lowercase mapping).
pub uninterp spec fn lowercase(s: Seq<char>) -> Seq<char>;

/// Calls `str::to_lowercase`; the result is `lowercase` of the argument.
#[verifier::external_body]
pub(crate) fn to_lower(s: &str) -> (r: String)
    ensures
        r@ == lowercase(s@),
{
    s.to_lowercase()
}

/// Calls `<str as PartialEq>::eq`, which compares the characters.
#[verifier::external_body]
pub(crate) fn str_eq(a: &str, b: &str) -> (r: bool)
    ensures
        r == (a@ == b@),
{
    a == b
}

/// Extensions of the `secrets` preset.
pub open spec fn secrets_exts() -> Seq<Seq<char>> {
    seq![".env"@, ".key"@, ".pem"@, ".p12"@, ".pfx"@, ".secret"@]
}

/// Extensions of the `configs` preset.
pub open spec fn configs_exts() -> Seq<Seq<char>> {
    seq![".yaml"@, ".yml"@, ".toml"@, ".json"@, ".ini"@, ".conf"@]
}

/// Extensions of the `code` preset.
pub open spec fn code_exts() -> Seq<Seq<char>> {
    seq![".rs"@, ".ts"@, ".tsx"@, ".py"@, ".go"@, ".js"@]
}

fn in_six(e: &str, a: &str, b: &str, c: &str, d: &str, f: &str, g: &str) -> (r: bool)
    ensures
        r == seq![a@, b@, c@, d@, f@, g@].contains(e@),
{
    let ghost l = seq![a@, b@, c@, d@, f@, g@];
    let r = str_eq(e, a) || str_eq(e, b) || str_eq(e, c) || str_eq(e, d) || str_eq(e, f)
        || str_eq(e, g);
    proof {
        if r {
            if e@ == a@ { assert(l[0] == e@); }
            else if e@ == b@ { assert(l[1] == e@); }
            else if e@ == c@ { assert(l[2] == e@); }
            else if e@ == d@ { assert(l[3] == e@); }
            else if e@ == f@ { assert(l[4] == e@); }
            else { assert(l[5] == e@); }
        } else {
            assert forall|i: int| 0 <= i < l.len() implies l[i] != e@ by {
                if i == 0 {} else if i == 1 {} else if i == 2 {} else if i == 3 {}
                else if i == 4 {} else {}
            }
        }
    }
    r
}

fn is_secret_ext(e: &str) -> (r: bool)
    ensures
        r == secrets_exts().contains(e@),
{
    in_six(e, ".env", ".key", ".pem", ".p12", ".pfx", ".secret")
}

fn is_config_ext(e: &str) -> (r: bool)
    ensures
        r == configs_exts().contains(e@),
{
    in_six(e, ".yaml", ".yml", ".toml", ".json", ".ini", ".conf")
}

fn is_code_ext(e: &str) -> (r: bool)
    ensures
        r == code_exts().contains(e@),
{
    in_six(e, ".rs", ".ts", ".tsx", ".py", ".go", ".js")
}

/// Whether some comma-separated entry of `list`, trimmed and lowercased, equals `ext`.
pub open spec fn custom_list_has(list: Seq<char>, ext: Seq<char>) -> bool {
    exists|i: int|
        0 <= i < split_on(list, ',').len() && lowercase(trim(#[trigger] split_on(list, ',')[i]))
            == ext
}

/// Whether an extension (with its dot) belongs to a type filter: a preset name
/// (`secrets`, `configs`, `code`, `all`) or a comma-separated list of extensions.
/// The extension is compared in lowercase.
pub open spec fn type_matches(file_ext: Seq<char>, type_spec: Seq<char>) -> bool {
    let ext = lowercase(file_ext);
    if type_spec == "secrets"@ {
        secrets_exts().contains(ext)
    } else if type_spec == "configs"@ {
        configs_exts().contains(ext)
    } else if type_spec == "code"@ {
        code_exts().contains(ext)
    } else if type_spec == "all"@ {
        true
    } else {
        custom_list_has(type_spec, ext)
    }
}

/// Whether `file_ext` passes the type filter `type_spec`.
pub fn matches_type(file_ext: &str, type_spec: &str) -> (r: bool)
    ensures
        r == type_matches(file_ext@, type_spec@),
{
    let ext = to_lower(file_ext);
    if str_eq(type_spec, "secrets") {
        is_secret_ext(ext.as_str())
    } else if str_eq(type_spec, "configs") {
        is_config_ext(ext.as_str())
    } else if str_eq(type_spec, "code") {
        is_code_ext(ext.as_str())
    } else if str_eq(type_spec, "all") {
        true
    } else {
        let pieces = split_chars(&chars_of(type_spec), ',');
        let ghost sp = split_on(type_spec@, ',');
        assert(pieces@.map_values(|p: Vec<char>| p@) == sp);
        let mut i: usize = 0;
        while i < pieces.len()
            invariant
                pieces@.map_values(|p: Vec<char>| p@) == sp,
                sp == split_on(type_spec@, ','),
                type_spec@ != "secrets"@,
                type_spec@ != "configs"@,
                type_spec@ != "code"@,
                type_spec@ != "all"@,
                ext@ == lowercase(file_ext@),
                i <= pieces.len(),
                forall|k: int| 0 <= k < i ==> lowercase(trim(#[trigger] sp[k])) != ext@,
            decreases pieces.len() - i,
        {
            assert(sp[i as int] == pieces@[i as int]@);
            let t = trim_chars(&pieces[i]);
            let ts = string_of(t.as_slice());
            let low = to_lower(ts.as_str());
            if low == ext {
                assert(lowercase(trim(split_on(type_spec@, ',')[i as int])) == ext@);
                return true;
            }
            i = i + 1;
        }
        false
    }
}

/// Exact file-name match.
pub fn matches_filename(filename: &str, filter: &str) -> (r: bool)
    ensures
        r == (filename@ == filter@),
{
    str_eq(filename, filter)
}

/// The label of the preset an extension belongs to, or `other`.
pub open spec fn type_label(ext: Seq<char>) -> Seq<char> {
    let e = lowercase(ext);
    if secrets_exts().contains(e) {
        "secrets"@
    } else if configs_exts().contains(e) {
        "configs"@
    } else if code_exts().contains(e) {
        "code"@
    } else {
        "other"@
    }
}

/// The label of a file and the type filters agree: every file passes `all`,
/// and a file is labelled with a preset exactly when it passes that preset.
pub proof fn lemma_label_matches_preset(ext: Seq<char>)
    ensures
        type_matches(ext, "all"@),
        type_label(ext) == "secrets"@ <==> type_matches(ext, "secrets"@),
        type_label(ext) == "configs"@ <==> type_matches(ext, "configs"@),
        type_label(ext) == "code"@ <==> type_matches(ext, "code"@),
        type_label(ext) == "other"@ <==> !(type_matches(ext, "secrets"@) || type_matches(ext, "configs"@)
            || type_matches(ext, "code"@)),
{
    reveal_strlit(".env");
    reveal_strlit(".key");
    reveal_strlit(".pem");
    reveal_strlit(".p12");
    reveal_strlit(".pfx");
    reveal_strlit(".secret");
    reveal_strlit(".yaml");
    reveal_strlit(".yml");
    reveal_strlit(".toml");
    reveal_strlit(".json");
    reveal_strlit(".ini");
    reveal_strlit(".conf");
    reveal_strlit(".rs");
    reveal_strlit(".ts");
    reveal_strlit(".tsx");
    reveal_strlit(".py");
    reveal_strlit(".go");
    reveal_strlit(".js");
    reveal_strlit("secrets");
    reveal_strlit("configs");
    reveal_strlit("code");
    reveal_strlit("all");
    reveal_strlit("other");
    assert("all"@.len() == 3 && "secrets"@.len() == 7 && "configs"@.len() == 7 && "code"@.len() == 4);
    assert("secrets"@[0] == 's' && "configs"@[0] == 'c' && "other"@.len() == 5);
    assert forall|i: int| 0 <= i < 6 implies (#[trigger] secrets_exts()[i]).len() >= 4 && (
        secrets_exts()[i][1] == 'e' || secrets_exts()[i][1] == 'k' || secrets_exts()[i][1] == 'p'
            || secrets_exts()[i][1] == 's') by {
        if i == 0 {} else if i == 1 {} else if i == 2 {} else if i == 3 {} else if i == 4 {} else {}
    }
    assert forall|i: int| 0 <= i < 6 implies (#[trigger] configs_exts()[i]).len() >= 4 && (
        configs_exts()[i][1] == 'y' || configs_exts()[i][1] == 'c' || configs_exts()[i][1] == 'i'
            || configs_exts()[i].len() == 5) by {
        if i == 0 {} else if i == 1 {} else if i == 2 {} else if i == 3 {} else if i == 4 {} else {}
    }
    assert forall|i: int| 0 <= i < 6 implies (#[trigger] code_exts()[i]).len() <= 4 && (
        code_exts()[i][1] == 'r' || code_exts()[i][1] == 't' || code_exts()[i][1] == 'g'
            || code_exts()[i][1] == 'j' || code_exts()[i].len() == 3) by {
        if i == 0 {} else if i == 1 {} else if i == 2 {} else if i == 3 {} else if i == 4 {} else {}
    }
}

/// The label of the preset an extension belongs to, or `other`.
pub fn classify_type(ext: &str) -> (r: String)
    ensures
        r@ == type_label(ext@),
{
    let e = to_lower(ext);
    if is_secret_ext(e.as_str()) {
        String::from_str("secrets")
    } else if is_config_ext(e.as_str()) {
        String::from_str("configs")
    } else if is_code_ext(e.as_str()) {
        String::from_str("code")
    } else {
        String::from_str("other")
    }
}

/// Whether `c` is an ASCII decimal digit.
pub open spec fn is_digit(c: char) -> bool {
    48 <= c as int <= 57
}

/// The value of a string of decimal digits.
pub open spec fn digits_value(s: Seq<char>) -> nat
    decreases s.len(),
{
    if s.len() == 0 {
        0
    } else {
        digits_value(s.drop_last()) * 10 + (s.last() as int - 48) as nat
    }
}

/// `s` without one leading `+`.
pub open spec fn unsigned_digits(s: Seq<char>) -> Seq<char> {
    if s.len() > 0 && s[0] == '+' { s.drop_first() } else { s }
}

/// Whether every character of `s` is a decimal digit.
pub open spec fn all_digits(s: Seq<char>) -> bool {
    forall|i: int| 0 <= i < s.len() ==> is_digit(#[trigger] s[i])
}

/// What `str::parse::<u64>` accepts and returns: an optional `+`, then one or
/// more decimal digits whose value fits in `u64`.
pub open spec fn parse_u64(s: Seq<char>) -> Option<nat> {
    let d = unsigned_digits(s);
    if d.len() > 0 && all_digits(d) && digits_value(d) <= 0xffff_ffff_ffff_ffff {
        Some(digits_value(d))
    } else {
        None
    }
}

proof fn lemma_digits_value_prefix(s: Seq<char>, j: int)
    requires
        0 <= j <= s.len(),
        forall|i: int| 0 <= i < s.len() ==> is_digit(#[trigger] s[i]),
    ensures
        digits_value(s.take(j)) <= digits_value(s),
    decreases s.len(),
{
    if j < s.len() {
        assert(s.drop_last().take(j) == s.take(j));
        lemma_digits_value_prefix(s.drop_last(), j);
    } else {
        assert(s.take(j) == s);
    }
}

fn digit_value(c: char) -> (r: u64)
    requires
        is_digit(c),
    ensures
        r as int == c as int - 48,
        r <= 9,
{
    if c == '0' { 0 } else if c == '1' { 1 } else if c == '2' { 2 } else if c == '3' { 3 }
    else if c == '4' { 4 } else if c == '5' { 5 } else if c == '6' { 6 } else if c == '7' { 7 }
    else if c == '8' { 8 } else { 9 }
}

/// Parses a `u64` the way `str::parse::<u64>` does.
pub fn parse_u64_chars(s: &Vec<char>) -> (r: Option<u64>)
    ensures
        match parse_u64(s@) {
            Some(v) => r == Some(v as u64),
            None => r is None,
        },
{
    let start: usize = if s.len() > 0 && s[0] == '+' { 1 } else { 0 };
    let ghost d = unsigned_digits(s@);
    assert(d == s@.subrange(start as int, s@.len() as int));
    if start >= s.len() {
        return None;
    }
    let mut v: u64 = 0;
    let mut i: usize = start;
    while i < s.len()
        invariant
            start <= i <= s.len(),
            d == s@.subrange(start as int, s@.len() as int),
            d == unsigned_digits(s@),
            forall|k: int| 0 <= k < i - start ==> is_digit(#[trigger] d[k]),
            v as nat == digits_value(d.take(i - start)),
        decreases s.len() - i,
    {
        let c = s[i];
        assert(d[i - start] == c);
        if c < '0' || c > '9' {
            assert(!is_digit(d[(i - start) as int]));
            assert(!all_digits(d));
            return None;
        }
        let dig = digit_value(c);
        assert(d.take(i - start + 1).drop_last() == d.take(i - start));
        assert(d.take(i - start + 1).last() == c);
        if v > (0xffff_ffff_ffff_ffffu64 - dig) / 10 {
            proof {
                assert(digits_value(d.take(i - start + 1)) == v * 10 + dig);
                assert(v * 10 + dig > 0xffff_ffff_ffff_ffff) by (nonlinear_arith)
                    requires
                        v > (0xffff_ffff_ffff_ffffu64 - dig) / 10,
                        dig <= 9,
                ;
                if all_digits(d) {
                    lemma_digits_value_prefix(d, i - start + 1);
                }
            }
            return None;
        }
        proof {
            assert(v * 10 + dig <= 0xffff_ffff_ffff_ffff) by (nonlinear_arith)
                requires
                    v <= (0xffff_ffff_ffff_ffffu64 - dig) / 10,
                    dig <= 9,
            ;
        }
        v = v * 10 + dig;
        i = i + 1;
    }
    assert(d.take(i - start) == d);
    Some(v)
}

/// What chrono's `NaiveDate::parse_from_str(s, "%Y-%m-%d")` yields for `s`,
/// as year, month and day.
pub uninterp spec fn ymd_parse(s: Seq<char>) -> Option<(int, int, int)>;

/// Calls chrono's `NaiveDate::parse_from_str(s, "%Y-%m-%d")` and reads the year,
/// month and day of the date it yields. The contract claims that the triple is
/// `ymd_parse(s)`, and that a parsed date is a valid calendar day within chrono's
/// year range (`NaiveDate` holds no other).
#[verifier::external_body]
fn parse_ymd(s: &str) -> (r: Option<(i32, u32, u32)>)
    ensures
        match r {
            Some((y, m, d)) => {
                &&& ymd_parse(s@) == Some((y as int, m as int, d as int))
                &&& -262143 <= y <= 262142
                &&& valid_date(y as int, m as int, d as int)
            },
            None => ymd_parse(s@) is None,
        },
{
    match chrono::NaiveDate::parse_from_str(s, "%Y-%m-%d") {
        Ok(d) => Some((d.year(), d.month(), d.day())),
        Err(_) => None,
    }
}

/// The number of seconds of the unit that a relative time ends with
/// (`h`, `d` or `m`), or 0.
pub open spec fn unit_secs(c: char) -> int {
    if c == 'h' { 3600 } else if c == 'd' { 86400 } else if c == 'm' { 60 } else { 0 }
}

/// The error text for a relative time whose number does not parse.
pub open spec fn unit_error(c: char, s: Seq<char>) -> Seq<char> {
    if c == 'h' {
        "invalid hours: "@ + s
    } else if c == 'd' {
        "invalid days: "@ + s
    } else {
        "invalid minutes: "@ + s
    }
}

/// The error text for a value that is neither a relative time nor a date.
pub open spec fn date_error(s: Seq<char>) -> Seq<char> {
    "invalid date/duration '"@ + s + "'. Use: 2h, 7d, 30m, or 2026-01-01"@
}

/// Whether `s` ends with a unit (`h`, `d` or `m`).
pub open spec fn has_unit(s: Seq<char>) -> bool {
    s.len() > 0 && unit_secs(s.last()) != 0
}

/// The start of a time window, as nanoseconds since the epoch: `Nh`, `Nd` or
/// `Nm` before `now`, or midnight UTC of an ISO date `YYYY-MM-DD`.
pub open spec fn since_result(s: Seq<char>, now: int) -> Result<int, Seq<char>> {
    if has_unit(s) {
        match parse_u64(s.drop_last()) {
            Some(v) => Ok(now - v * unit_secs(s.last()) * 1_000_000_000),
            None => Err(unit_error(s.last(), s)),
        }
    } else {
        match ymd_parse(s) {
            Some((y, m, d)) => Ok(days_from_epoch(y, m, d) * 86400 * 1_000_000_000),
            None => Err(date_error(s)),
        }
    }
}

/// The inputs whose point in time cannot be computed: the seconds of a
/// relative time overflow `u64`, or the point lies before what `SystemTime`
/// can hold; or a date lies before the epoch (its seconds do not fit `u64`).
pub open spec fn since_out_of_range(s: Seq<char>, now: int) -> bool {
    if has_unit(s) {
        match parse_u64(s.drop_last()) {
            Some(v) => v * unit_secs(s.last()) > 0xffff_ffff_ffff_ffff || now / 1_000_000_000 - v
                * unit_secs(s.last()) < -9223372036854775808,
            None => false,
        }
    } else {
        match ymd_parse(s) {
            Some((y, m, d)) => days_from_epoch(y, m, d) < 0,
            None => false,
        }
    }
}

fn error_with(prefix: &str, s: &str, suffix: &str) -> (r: String)
    ensures
        r@ == prefix@ + s@ + suffix@,
{
    let mut v: Vec<char> = Vec::new();
    push_str_chars(&mut v, prefix);
    push_str_chars(&mut v, s);
    push_str_chars(&mut v, suffix);
    string_of(v.as_slice())
}

/// Outcome of the time-window parser at a given clock reading.
pub enum SinceOutcome {
    /// The parsed point in time.
    Parsed(i128),
    /// The text is malformed; the message says why.
    Invalid(String),
    /// The point in time cannot be represented at this clock reading.
    OutOfRange,
}

/// Parses a time-window bound at clock reading `now`, or reports an input on
/// which the point in time cannot be represented.
pub fn since_outcome(s: &str, now: i128) -> (r: SinceOutcome)
    requires
        representable(now as int),
    ensures
        since_out_of_range(s@, now as int) <==> r is OutOfRange,
        !since_out_of_range(s@, now as int) ==> match since_result(s@, now as int) {
            Ok(t) => r matches SinceOutcome::Parsed(x) && x as int == t,
            Err(m) => r matches SinceOutcome::Invalid(e) && e@ == m,
        },
{
    let cs = chars_of(s);
    let n = cs.len();
    if n > 0 && (cs[n - 1] == 'h' || cs[n - 1] == 'd' || cs[n - 1] == 'm') {
        let c = cs[n - 1];
        let unit: u64 = if c == 'h' { 3600 } else if c == 'd' { 86400 } else { 60 };
        let mut body = cs;
        body.pop();
        assert(body@ == s@.drop_last());
        match parse_u64_chars(&body) {
            Some(v) => {
                if v > 0xffff_ffff_ffff_ffffu64 / unit {
                    assert(v * unit > 0xffff_ffff_ffff_ffff) by (nonlinear_arith)
                        requires
                            v > 0xffff_ffff_ffff_ffffu64 / unit,
                            unit > 0,
                    ;
                    return SinceOutcome::OutOfRange;
                }
                assert(v * unit <= 0xffff_ffff_ffff_ffff) by (nonlinear_arith)
                    requires
                        v <= 0xffff_ffff_ffff_ffffu64 / unit,
                        unit > 0,
                ;
                let secs = (v * unit) as i128;
                let fs = floor_secs(now);
                if fs - secs < -9223372036854775808i128 {
                    return SinceOutcome::OutOfRange;
                }
                SinceOutcome::Parsed(now - secs * NANOS_PER_SEC)
            },
            None => {
                let prefix = if c == 'h' {
                    "invalid hours: "
                } else if c == 'd' {
                    "invalid days: "
                } else {
                    "invalid minutes: "
                };
                let e = error_with(prefix, s, "");
                assert(e@ == prefix@ + s@) by {
                    reveal_strlit("");
                    assert(prefix@ + s@ + ""@ == prefix@ + s@);
                }
                SinceOutcome::Invalid(e)
            },
        }
    } else {
        match parse_ymd(s) {
            Some((y, m, d)) => {
                let days = days_from_epoch_exec(y, m, d);
                if days < 0 {
                    return SinceOutcome::OutOfRange;
                }
                SinceOutcome::Parsed((days as i128) * 86400 * NANOS_PER_SEC)
            },
            None => SinceOutcome::Invalid(
                error_with("invalid date/duration '", s, "'. Use: 2h, 7d, 30m, or 2026-01-01"),
            ),
        }
    }
}


/// A parse result as plain values: the point in time, or the message.
pub open spec fn result_view(r: Result<i128, String>) -> Result<int, Seq<char>> {
    match r {
        Ok(t) => Ok(t as int),
        Err(e) => Err(e@),
    }
}

/// What the time-window parser answers for `s` at clock reading `now`: the
/// parsed point or the parse error, or the error `time out of range: <s>`
/// where the point cannot be represented.
pub open spec fn since_answer(s: Seq<char>, now: int, r: Result<int, Seq<char>>) -> bool {
    if since_out_of_range(s, now) {
        r == Err::<int, Seq<char>>("time out of range: "@ + s)
    } else {
        r == since_result(s, now)
    }
}

/// Parses the start (or end) of a time window at the current clock reading:
/// `Nh`, `Nd`, `Nm` (that long before now) or an ISO date `YYYY-MM-DD`
/// (midnight UTC). An input whose point in time `SystemTime` cannot hold is answered
/// with the error `time out of range: <input>`.
pub fn parse_since(s: &str) -> (r: Result<i128, String>)
    ensures
        exists|now: int| #![trigger since_result(s@, now)]
            representable(now) && since_answer(s@, now, result_view(r)),
{
    let now = now_stamp();
    let r = match since_outcome(s, now) {
        SinceOutcome::Parsed(t) => Ok(t),
        SinceOutcome::Invalid(e) => Err(e),
        SinceOutcome::OutOfRange => Err(error_with("time out of range: ", s, "")),
    };
    assert("time out of range: "@ + s@ + ""@ == "time out of range: "@ + s@) by {
        reveal_strlit("");
    }
    let ghost g = since_result(s@, now as int);
    r
}

} // verus!
