//! The decisions of the command line: which flags were given, and the
//! `KEY=VALUE` pairs of an environment file.
use crate::errors::CLIErr;
use crate::text::{
    chars_eq, chars_of, is_whitespace, char_is_whitespace, lemma_split_nonempty, split_chars, split_pat,
    string_of,
};
use vstd::prelude::*;
use vstd::string::StringExecFns;

verus! {

/// The flags given on the command line.
#[derive(Debug, Clone)]
pub struct CliArgs {
    /// The path given after `--config`, if any.
    pub config: Option<String>,
    pub help: bool,
    pub simulate: bool,
    pub load: bool,
}

/// Whether `a` asks for the configuration file.
pub open spec fn is_config_flag(a: Seq<char>) -> bool {
    a == "--config"@ || a == "-config"@ || a == "--c"@ || a == "-c"@
}

/// Whether `a` asks for help.
pub open spec fn is_help_flag(a: Seq<char>) -> bool {
    a == "--help"@ || a == "-help"@ || a == "--h"@ || a == "-h"@
}

/// Whether `a` asks for a simulation.
pub open spec fn is_simulate_flag(a: Seq<char>) -> bool {
    a == "--simulate"@ || a == "-simulate"@ || a == "--s"@ || a == "-s"@
}

/// Whether `a` asks to load the previous matrices.
pub open spec fn is_load_flag(a: Seq<char>) -> bool {
    a == "--load"@ || a == "-load"@ || a == "--l"@ || a == "-l"@
}

/// The kind of a command-line error, and its text.
pub open spec fn cli_err_view(e: CLIErr) -> (int, Seq<char>) {
    match e {
        CLIErr::Alpha(s) => (0, s@),
        CLIErr::Epsilon(s) => (1, s@),
        CLIErr::File(s) => (2, s@),
        CLIErr::Treshold(s) => (3, s@),
        CLIErr::Config(s) => (4, s@),
        CLIErr::Unknown(s) => (5, s@),
        CLIErr::MatrixPath(s) => (6, s@),
        CLIErr::OutputDir(s) => (7, s@),
        CLIErr::EnvPath(s) => (8, s@),
    }
}

/// The flags that reading the arguments `args` from the left gives, starting
/// from the flags `(config, help, simulate, load)`; or the error, as
/// `cli_err_view` shows it.
pub open spec fn scan_args(args: Seq<Seq<char>>, flags: (Option<Seq<char>>, bool, bool, bool)) -> Result<(Option<Seq<char>>, bool, bool, bool), (int, Seq<char>)>
    decreases args.len(),
{
    if args.len() == 0 {
        Ok(flags)
    } else {
        let a = args[0];
        if is_config_flag(a) {
            if args.len() < 2 {
                Err((4, "Missing value for --matrix-path"@))
            } else {
                scan_args(args.skip(2), (Some(args[1]), flags.1, flags.2, flags.3))
            }
        } else if is_help_flag(a) {
            scan_args(args.drop_first(), (flags.0, true, flags.2, flags.3))
        } else if is_simulate_flag(a) {
            scan_args(args.drop_first(), (flags.0, flags.1, true, flags.3))
        } else if is_load_flag(a) {
            scan_args(args.drop_first(), (flags.0, flags.1, flags.2, true))
        } else {
            Err((5, "Unknown argument: "@ + a))
        }
    }
}

/// What the command line `args` (without the program name) asks for: the
/// flags, where help needs nothing more and anything else needs `--config`.
pub open spec fn cli_outcome(args: Seq<Seq<char>>) -> Result<(Option<Seq<char>>, bool, bool, bool), (int, Seq<char>)> {
    match scan_args(args, (None, false, false, false)) {
        Err(e) => Err(e),
        Ok(flags) => if !flags.1 && flags.0 is None {
            Err((4, "Missing --config argument"@))
        } else {
            Ok(flags)
        },
    }
}

fn is_one_of(a: &[char], w1: &str, w2: &str, w3: &str, w4: &str) -> (r: bool)
    ensures
        r == (a@ == w1@ || a@ == w2@ || a@ == w3@ || a@ == w4@),
{
    let x1 = chars_of(w1);
    let x2 = chars_of(w2);
    let x3 = chars_of(w3);
    let x4 = chars_of(w4);
    chars_eq(a, x1.as_slice()) || chars_eq(a, x2.as_slice()) || chars_eq(a, x3.as_slice())
        || chars_eq(a, x4.as_slice())
}

/// Reads the command-line arguments (without the program name): `--config`
/// and its path, `--help`, `--simulate`, `--load`, each with its short forms.
pub fn parse_cli_args(args: &Vec<String>) -> (r: Result<CliArgs, CLIErr>)
    ensures
        match cli_outcome(args@.map_values(|a: String| a@)) {
            Err(e) => r matches Err(x) && cli_err_view(x) == e,
            Ok(flags) => r matches Ok(c) && (match c.config {
                Some(p) => Some(p@),
                None => None::<Seq<char>>,
            }) == flags.0 && c.help == flags.1 && c.simulate == flags.2 && c.load == flags.3,
        },
{
    let ghost av = args@.map_values(|a: String| a@);
    let mut config: Option<String> = None;
    let mut help = false;
    let mut simulate = false;
    let mut load = false;
    let mut i: usize = 0;
    assert(av.skip(0) == av);
    while i < args.len()
        invariant
            av == args@.map_values(|a: String| a@),
            i <= args.len(),
            scan_args(av, (None, false, false, false)) == scan_args(
                av.skip(i as int),
                (
                    match config {
                        Some(p) => Some(p@),
                        None => None::<Seq<char>>,
                    },
                    help,
                    simulate,
                    load,
                ),
            ),
        decreases args.len() - i,
    {
        let a = chars_of(args[i].as_str());
        let ghost rest = av.skip(i as int);
        assert(rest[0] == a@);
        if is_one_of(a.as_slice(), "--config", "-config", "--c", "-c") {
            if i + 1 >= args.len() {
                return Err(CLIErr::Config(String::from_str("Missing value for --matrix-path")));
            }
            assert(rest[1] == args@[i + 1]@);
            assert(rest.skip(2) == av.skip(i + 2));
            config = Some(args[i + 1].clone());
            i = i + 2;
        } else {
            assert(rest.drop_first() == av.skip(i + 1));
            if is_one_of(a.as_slice(), "--help", "-help", "--h", "-h") {
                help = true;
            } else if is_one_of(a.as_slice(), "--simulate", "-simulate", "--s", "-s") {
                simulate = true;
            } else if is_one_of(a.as_slice(), "--load", "-load", "--l", "-l") {
                load = true;
            } else {
                let mut msg = String::from_str("Unknown argument: ");
                msg.append(args[i].as_str());
                return Err(CLIErr::Unknown(msg));
            }
            i = i + 1;
        }
    }
    assert(av.skip(i as int).len() == 0);
    if !help && config.is_none() {
        return Err(CLIErr::Config(String::from_str("Missing --config argument")));
    }
    Ok(CliArgs { config, help, simulate, load })
}

proof fn lemma_scan_help(args: Seq<Seq<char>>, c: Option<Seq<char>>, h: bool, sim: bool, l: bool)
    ensures
        scan_args(args, (c, h, sim, l)) == match scan_args(args, (c, false, sim, l)) {
            Err(e) => Err(e),
            Ok(f) => Ok((f.0, f.1 || h, f.2, f.3)),
        },
    decreases args.len(),
{
    if args.len() > 0 {
        let a = args[0];
        if is_config_flag(a) {
            if args.len() >= 2 {
                lemma_scan_help(args.skip(2), Some(args[1]), h, sim, l);
            }
        } else if is_help_flag(a) {
            lemma_scan_help(args.drop_first(), c, true, sim, l);
            lemma_scan_help(args.drop_first(), c, false, sim, l);
        } else if is_simulate_flag(a) {
            lemma_scan_help(args.drop_first(), c, h, true, l);
        } else if is_load_flag(a) {
            lemma_scan_help(args.drop_first(), c, h, sim, true);
        }
    }
}

/// Each of `--help`, `-help`, `--h` and `-h` asks for help: reading it before
/// the arguments `rest` gives what reading `rest` alone gives, with help set
/// and no `--config` needed; alone, it gives help and nothing else.
pub proof fn law_help_words(w: Seq<char>, rest: Seq<Seq<char>>)
    requires
        w == "--help"@ || w == "-help"@ || w == "--h"@ || w == "-h"@,
    ensures
        cli_outcome(seq![w] + rest) == match scan_args(rest, (None, false, false, false)) {
            Err(e) => Err(e),
            Ok(f) => Ok((f.0, true, f.2, f.3)),
        },
        cli_outcome(seq![w]) == Ok::<(Option<Seq<char>>, bool, bool, bool), (int, Seq<char>)>(
            (None, true, false, false),
        ),
{
    reveal_strlit("--help");
    reveal_strlit("-help");
    reveal_strlit("--h");
    reveal_strlit("-h");
    reveal_strlit("--config");
    reveal_strlit("-config");
    reveal_strlit("--c");
    reveal_strlit("-c");
    let args = seq![w] + rest;
    assert(args[0] == w);
    assert(args.drop_first() == rest);
    assert(!is_config_flag(w)) by {
        if w == "--help"@ {
            assert(w.len() != "--config"@.len() && w[2] != "--c"@[2] && w.len() != "-config"@.len() && w.len() != "-c"@.len());
        } else if w == "-help"@ {
            assert(w.len() != "--config"@.len() && w.len() != "--c"@.len() && w.len() != "-config"@.len() && w.len() != "-c"@.len());
        } else if w == "--h"@ {
            assert(w.len() != "--config"@.len() && w[2] != "--c"@[2] && w.len() != "-config"@.len() && w.len() != "-c"@.len());
        } else {
            assert(w.len() != "--config"@.len() && w.len() != "--c"@.len() && w.len() != "-config"@.len() && w[1] != "-c"@[1]);
        }
    }
    assert(is_help_flag(w));
    lemma_scan_help(rest, None, true, false, false);
    let one = seq![w];
    assert(one[0] == w);
    assert(one.drop_first() == Seq::<Seq<char>>::empty());
    assert(scan_args(Seq::<Seq<char>>::empty(), (None, true, false, false)) == Ok::<
        (Option<Seq<char>>, bool, bool, bool),
        (int, Seq<char>),
    >((None, true, false, false)));
    assert(scan_args(one, (None, false, false, false)) == scan_args(
        one.drop_first(),
        (None, true, false, false),
    ));
}

// ---------------------------------------------------------------------------
// Environment files: one `KEY=VALUE` per line
// ---------------------------------------------------------------------------
/// `s` without its leading whitespace.
pub open spec fn trim_start(s: Seq<char>) -> Seq<char>
    decreases s.len(),
{
    if s.len() > 0 && is_whitespace(s[0]) {
        trim_start(s.drop_first())
    } else {
        s
    }
}

/// `s` without its trailing whitespace.
pub open spec fn trim_end(s: Seq<char>) -> Seq<char>
    decreases s.len(),
{
    if s.len() > 0 && is_whitespace(s.last()) {
        trim_end(s.drop_last())
    } else {
        s
    }
}

/// `s` without its leading and trailing whitespace, as `str::trim` gives it.
pub open spec fn trim(s: Seq<char>) -> Seq<char> {
    trim_end(trim_start(s))
}

/// The lines of `s`, as `str::lines` gives them: the pieces between `\n`s,
/// each followed by a `\n` losing one trailing `\r`, and the last piece
/// dropped if it is empty.
pub open spec fn text_lines(s: Seq<char>) -> Seq<Seq<char>> {
    let parts = split_pat(s, "\n"@);
    let ended = Seq::new(
        (parts.len() - 1) as nat,
        |i: int|
            if parts[i].len() > 0 && parts[i].last() == '\r' {
                parts[i].drop_last()
            } else {
                parts[i]
            },
    );
    if parts.last().len() > 0 {
        ended.push(parts.last())
    } else {
        ended
    }
}

/// The first position of `c` in `s`.
pub open spec fn first_index_of(s: Seq<char>, c: char) -> Option<int>
    decreases s.len(),
{
    if s.len() == 0 {
        None
    } else if s[0] == c {
        Some(0)
    } else {
        match first_index_of(s.drop_first(), c) {
            Some(i) => Some(i + 1),
            None => None,
        }
    }
}

/// `v` without one pair of matching surrounding quotes (`"` or `'`).
pub open spec fn unquote(v: Seq<char>) -> Seq<char> {
    if v.len() >= 2 && ((v[0] == '"' && v.last() == '"') || (v[0] == '\'' && v.last() == '\'')) {
        v.subrange(1, v.len() - 1)
    } else {
        v
    }
}

/// The pair that a line of an environment file sets, if any: blank lines,
/// lines starting with `#` and lines without `=` set nothing; otherwise the
/// key is before the first `=` and the value after it, both trimmed, the
/// value unquoted.
pub open spec fn env_entry(line: Seq<char>) -> Option<(Seq<char>, Seq<char>)> {
    let t = trim(line);
    if t.len() == 0 || t[0] == '#' {
        None
    } else {
        match first_index_of(t, '=') {
            None => None,
            Some(e) => Some((trim(t.subrange(0, e)), unquote(trim(t.subrange(e + 1, t.len() as int))))),
        }
    }
}

/// The pairs that the lines `ls` set, in order.
pub open spec fn env_pairs_of(ls: Seq<Seq<char>>) -> Seq<(Seq<char>, Seq<char>)>
    decreases ls.len(),
{
    if ls.len() == 0 {
        seq![]
    } else {
        env_pairs_of(ls.drop_last()) + match env_entry(ls.last()) {
            Some(p) => seq![p],
            None => seq![],
        }
    }
}

/// The `KEY=VALUE` pairs that the content of an environment file sets.
pub open spec fn env_pairs(content: Seq<char>) -> Seq<(Seq<char>, Seq<char>)> {
    env_pairs_of(text_lines(content))
}

/// The bounds of `s[from..to]` without its leading and trailing whitespace.
fn trim_bounds(s: &[char], from: usize, to: usize) -> (r: (usize, usize))
    requires
        from <= to <= s.len(),
    ensures
        from <= r.0 <= r.1 <= to,
        s@.subrange(r.0 as int, r.1 as int) == trim(s@.subrange(from as int, to as int)),
{
    let mut a = from;
    while a < to && char_is_whitespace(s[a])
        invariant
            from <= a <= to <= s.len(),
            trim_start(s@.subrange(from as int, to as int)) == trim_start(s@.subrange(a as int, to as int)),
        decreases to - a,
    {
        assert(s@.subrange(a as int, to as int).drop_first() == s@.subrange(a + 1, to as int));
        a = a + 1;
    }
    assert(trim_start(s@.subrange(a as int, to as int)) == s@.subrange(a as int, to as int));
    let mut b = to;
    while b > a && char_is_whitespace(s[b - 1])
        invariant
            from <= a <= b <= to <= s.len(),
            trim(s@.subrange(from as int, to as int)) == trim_end(s@.subrange(a as int, b as int)),
        decreases b - a,
    {
        assert(s@.subrange(a as int, b as int).drop_last() == s@.subrange(a as int, b - 1));
        b = b - 1;
    }
    (a, b)
}

/// The pair that a line sets, if any.
fn env_line(line: &[char]) -> (r: Option<(String, String)>)
    ensures
        match env_entry(line@) {
            None => r is None,
            Some(p) => r matches Some(q) && q.0@ == p.0 && q.1@ == p.1,
        },
{
    let (a, b) = trim_bounds(line, 0, line.len());
    assert(line@.subrange(0, line.len() as int) == line@);
    let ghost t = line@.subrange(a as int, b as int);
    if a == b || line[a] == '#' {
        return None;
    }
    let mut e = a;
    while e < b && line[e] != '='
        invariant
            a <= e <= b <= line.len(),
            t == line@.subrange(a as int, b as int),
            first_index_of(t, '=') == match first_index_of(line@.subrange(e as int, b as int), '=') {
                Some(i) => Some(i + (e - a)),
                None => None::<int>,
            },
        decreases b - e,
    {
        assert(line@.subrange(e as int, b as int).drop_first() == line@.subrange(e + 1, b as int));
        e = e + 1;
    }
    if e == b {
        return None;
    }
    assert(first_index_of(t, '=') == Some((e - a) as int));
    let (ka, kb) = trim_bounds(line, a, e);
    assert(line@.subrange(a as int, e as int) == t.subrange(0, (e - a) as int));
    let (va, vb) = trim_bounds(line, e + 1, b);
    assert(line@.subrange(e + 1, b as int) == t.subrange((e - a) + 1, t.len() as int));
    let key = string_of(&line[ka..kb]);
    let mut v_from = va;
    let mut v_to = vb;
    if vb - va >= 2 && ((line[va] == '"' && line[vb - 1] == '"') || (line[va] == '\''
        && line[vb - 1] == '\'')) {
        v_from = va + 1;
        v_to = vb - 1;
    }
    let value = string_of(&line[v_from..v_to]);
    Some((key, value))
}

proof fn lemma_trim_start_sub(s: Seq<char>) -> (i: int)
    ensures
        0 <= i <= s.len(),
        trim_start(s) == s.subrange(i, s.len() as int),
        forall|k: int| 0 <= k < i ==> is_whitespace(#[trigger] s[k]),
    decreases s.len(),
{
    if s.len() > 0 && is_whitespace(s[0]) {
        let j = lemma_trim_start_sub(s.drop_first());
        assert(s.drop_first().subrange(j, s.drop_first().len() as int) == s.subrange(j + 1, s.len() as int));
        assert forall|k: int| 0 <= k < j + 1 implies is_whitespace(#[trigger] s[k]) by {
            if k > 0 {
                assert(s[k] == s.drop_first()[k - 1]);
            }
        }
        j + 1
    } else {
        assert(s.subrange(0, s.len() as int) == s);
        0
    }
}

proof fn lemma_trim_end_sub(s: Seq<char>) -> (j: int)
    ensures
        0 <= j <= s.len(),
        trim_end(s) == s.subrange(0, j),
    decreases s.len(),
{
    if s.len() > 0 && is_whitespace(s.last()) {
        let j = lemma_trim_end_sub(s.drop_last());
        assert(s.drop_last().subrange(0, j) == s.subrange(0, j));
        j
    } else {
        assert(s.subrange(0, s.len() as int) == s);
        s.len() as int
    }
}

/// `trim(s)` is the piece `s[r.0..r.1]`.
proof fn lemma_trim_sub(s: Seq<char>) -> (r: (int, int))
    ensures
        0 <= r.0 <= r.1 <= s.len(),
        trim(s) == s.subrange(r.0, r.1),
        forall|k: int| 0 <= k < r.0 ==> is_whitespace(#[trigger] s[k]),
{
    let i = lemma_trim_start_sub(s);
    let u = s.subrange(i, s.len() as int);
    let j = lemma_trim_end_sub(u);
    assert(u.subrange(0, j) == s.subrange(i, i + j));
    (i, i + j)
}

proof fn lemma_first_index_of(s: Seq<char>, c: char)
    ensures
        first_index_of(s, c) matches Some(e) ==> 0 <= e < s.len() && s[e] == c && forall|i: int|
            0 <= i < e ==> s[i] != c,
    decreases s.len(),
{
    if s.len() > 0 && s[0] != c {
        lemma_first_index_of(s.drop_first(), c);
        match first_index_of(s.drop_first(), c) {
            Some(e) => {
                assert forall|i: int| 0 <= i < e + 1 implies s[i] != c by {
                    if i > 0 {
                        assert(s[i] == s.drop_first()[i - 1]);
                    }
                }
            },
            None => {},
        }
    }
}

/// The pair that a line of an environment file sets is taken from the line
/// as written: the key is the piece `line[ka..kb]` before the line's first
/// `=`, at `e`, and the value the piece `line[va..vb]` after it, character
/// for character.
pub proof fn law_env_entry_from_line(line: Seq<char>)
    requires
        env_entry(line) is Some,
    ensures
        exists|ka: int, kb: int, e: int, va: int, vb: int|
            0 <= ka <= kb <= e < va <= vb <= line.len() && line[e] == '=' && (forall|i: int|
                0 <= i < e ==> line[i] != '=') && env_entry(line) == Some(
                (line.subrange(ka, kb), line.subrange(va, vb)),
            ),
{
    let (a, b) = lemma_trim_sub(line);
    let t = trim(line);
    lemma_first_index_of(t, '=');
    let e = first_index_of(t, '=')->0;
    let kt = t.subrange(0, e);
    let (k0, k1) = lemma_trim_sub(kt);
    let vt = t.subrange(e + 1, t.len() as int);
    let (v0, v1) = lemma_trim_sub(vt);
    let v = trim(vt);
    let (u0, u1) = if v.len() >= 2 && ((v[0] == '"' && v.last() == '"') || (v[0] == '\'' && v.last()
        == '\'')) {
        (1int, v.len() - 1)
    } else {
        (0int, v.len() as int)
    };
    assert(unquote(v) == v.subrange(u0, u1));
    let ka = a + k0;
    let kb = a + k1;
    let ee = a + e;
    let va = a + e + 1 + v0 + u0;
    let vb = a + e + 1 + v0 + u1;
    assert(kt.subrange(k0, k1) == line.subrange(ka, kb));
    assert(v.subrange(u0, u1) =~= line.subrange(va, vb));
    assert(line[ee] == t[e]);
    assert forall|i: int| 0 <= i < ee implies line[i] != '=' by {
        if i >= a {
            assert(line[i] == t[i - a]);
        } else {
            assert(is_whitespace(line[i]));
        }
    }
    assert(0 <= ka <= kb <= ee < va <= vb <= line.len());
}

/// The `KEY=VALUE` pairs that the content of an environment file sets, in
/// the order of its lines.
pub fn parse_env(content: &str) -> (r: Vec<(String, String)>)
    ensures
        r@.map_values(|p: (String, String)| (p.0@, p.1@)) == env_pairs(content@),
{
    let chars = chars_of(content);
    let nl = chars_of("\n");
    let parts = split_chars(chars.as_slice(), nl.as_slice());
    let ghost pv = parts@.map_values(|v: Vec<char>| v@);
    let ghost ls = text_lines(content@);
    assert(pv == split_pat(content@, "\n"@));
    let mut out: Vec<(String, String)> = Vec::new();
    let n = parts.len();
    assert(n > 0) by {
        lemma_split_nonempty(content@, "\n"@);
    }
    let mut i: usize = 0;
    assert(ls.take(0) == Seq::<Seq<char>>::empty());
    while i < n
        invariant
            n == parts.len(),
            n > 0,
            pv == parts@.map_values(|v: Vec<char>| v@),
            ls == text_lines(content@),
            pv == split_pat(content@, "\n"@),
            i <= n,
            i < n ==> out@.map_values(|p: (String, String)| (p.0@, p.1@)) == env_pairs_of(ls.take(i as int)),
            i == n ==> out@.map_values(|p: (String, String)| (p.0@, p.1@)) == env_pairs_of(ls),
        decreases n - i,
    {
        let part = &parts[i];
        assert(pv[i as int] == part@);
        let len = part.len();
        let ghost before = out@.map_values(|p: (String, String)| (p.0@, p.1@));
        if i + 1 < n {
            let end = if len > 0 && part[len - 1] == '\r' {
                len - 1
            } else {
                len
            };
            let line = &part.as_slice()[0..end];
            assert(line@ == ls[i as int]);
            match env_line(line) {
                Some(p) => {
                    out.push(p);
                },
                None => {},
            }
            assert(ls.take(i + 1).drop_last() == ls.take(i as int));
            assert(out@.map_values(|p: (String, String)| (p.0@, p.1@)) =~= env_pairs_of(ls.take(i + 1)));
        } else {
            if len > 0 {
                assert(ls.len() == n);
                assert(ls.last() == part@);
                match env_line(part.as_slice()) {
                    Some(p) => {
                        out.push(p);
                    },
                    None => {},
                }
                assert(ls.take(i as int) == ls.drop_last());
            } else {
                assert(ls.len() == n - 1);
                assert(ls.take(i as int) == ls);
            }
            assert(out@.map_values(|p: (String, String)| (p.0@, p.1@)) =~= env_pairs_of(ls));
        }
        i = i + 1;
    }
    out
}

} // verus!
