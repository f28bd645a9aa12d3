//! The flag surface: which verb an invocation names, and what each verb's
//! arguments ask for. No OS reads.
//!
//! The argument lexer hands the arguments over as [`Token`]s, one per
//! option or value, in order; an option that takes a value (see
//! [`takes_value`]) arrives together with it.
use vstd::prelude::*;
use crate::chars::{find_char, lemma_find_char, find_char_in, parse_uint, parse_uint_in, str_chars};
use crate::procfs::{trim_span, trimmed};
use crate::schema::Facet;
use crate::scan::bytes_equal;
use crate::text::{lossy_string, push_str, utf8_lossy};
use vstd::string::StringSliceAdditionalSpecFns;

verus! {

/// The usage text.
pub const HELP: &'static str = "\
osfacts \u{2014} scoped, honest OS process & socket facts

Usage:
  osfacts snapshot [--roots PIDS|--pids PIDS] [--procs] [--ports] [--mem] [--start-time] [--cpu-time] [--uid] [--cwd] [--status] [--argv] [--json]
  osfacts socket-holders PATH [--procs] [--json]
  osfacts host [--load] [--mem] [--cpu] [--net] [--disk] [--json]
";

/// Why an invocation does not run: a usage error (exit 2) or a request
/// for help (exit 0); each carries the text to print.
#[derive(Debug, Clone, PartialEq, Eq)]
pub enum CliError {
    Usage(String),
    Help(String),
}

/// A usage error or help request by value: help?, text.
pub open spec fn cli_error_view(e: CliError) -> (bool, Seq<char>) {
    match e {
        CliError::Usage(m) => (false, m@),
        CliError::Help(m) => (true, m@),
    }
}

/// One lexed argument. An option that takes a value carries the value,
/// or the lexer's complaint when there was none.
#[derive(Debug, PartialEq, Eq)]
pub enum Token {
    Long(String),
    Short(char),
    Value(Vec<u8>),
    LongWithValue(String, Result<Vec<u8>, String>),
    /// The lexer could not read the next argument; its complaint.
    Malformed(String),
}

/// The three verbs.
#[derive(Debug, Clone, Copy, PartialEq, Eq, Structural)]
pub enum Verb {
    Snapshot,
    SocketHolders,
    Host,
}

/// The long options of `verb` that take a value: `--roots` and `--pids`
/// of `snapshot`.
pub open spec fn option_takes_value(verb: Verb, name: Seq<char>) -> bool {
    verb == Verb::Snapshot && (name == "roots"@ || name == "pids"@)
}

/// Does `--name` of `verb` take a value?
pub fn takes_value(verb: Verb, name: &str) -> (r: bool)
    ensures
        r == option_takes_value(verb, name@),
{
    match verb {
        Verb::Snapshot => is_word(name, "roots") || is_word(name, "pids"),
        _ => false,
    }
}

/// The help request.
pub fn help() -> (e: CliError)
    ensures
        cli_error_view(e) == (true, HELP@),
{
    CliError::Help(String::from_str(HELP))
}

/// A usage error whose text is `message`, a blank line, then the usage
/// text.
pub open spec fn usage_with_help(message: Seq<char>) -> (bool, Seq<char>) {
    (false, message + "\n\n"@ + HELP@)
}

fn usage_and_help(message: &str) -> (e: CliError)
    ensures
        cli_error_view(e) == usage_with_help(message@),
{
    let mut text = String::new();
    push_str(&mut text, message);
    push_str(&mut text, "\n\n");
    push_str(&mut text, HELP);
    CliError::Usage(text)
}

fn usage(message: &str) -> (e: CliError)
    ensures
        cli_error_view(e) == (false, message@),
{
    CliError::Usage(String::from_str(message))
}

/// The usage error for an argument the lexer rendered as `shown` in a
/// place no argument of its kind is expected.
pub fn unexpected(shown: &str) -> (e: CliError)
    ensures
        cli_error_view(e) == usage_with_help("unexpected "@ + shown@),
{
    let mut text = String::new();
    push_str(&mut text, "unexpected ");
    push_str(&mut text, shown);
    push_str(&mut text, "\n\n");
    push_str(&mut text, HELP);
    CliError::Usage(text)
}

/// What the first argument selects: a verb, help, or a usage error. A
/// token of another shape (an option other than help) is `Ok(None)`: the
/// caller reports it with [`unexpected`].
pub open spec fn verb_choice(first: Option<Token>) -> Result<Option<Verb>, (bool, Seq<char>)> {
    match first {
        None => Err((true, HELP@)),
        Some(Token::Value(v)) => {
            if v@ == "snapshot"@.map_values(|c: char| c as u8) {
                Ok(Some(Verb::Snapshot))
            } else if v@ == "socket-holders"@.map_values(|c: char| c as u8) {
                Ok(Some(Verb::SocketHolders))
            } else if v@ == "host"@.map_values(|c: char| c as u8) {
                Ok(Some(Verb::Host))
            } else if v@ == "help"@.map_values(|c: char| c as u8) || v@ == "--help"@.map_values(
                |c: char| c as u8,
            ) || v@ == "-h"@.map_values(|c: char| c as u8) {
                Err((true, HELP@))
            } else {
                Err(usage_with_help("unknown command '"@ + utf8_lossy(v@) + "'"@))
            }
        },
        Some(Token::Short(c)) => if c == 'h' {
            Err((true, HELP@))
        } else {
            Ok(None)
        },
        Some(Token::Long(n)) => if n@ == "help"@ {
            Err((true, HELP@))
        } else {
            Ok(None)
        },
        Some(Token::LongWithValue(n, _)) => if n@ == "help"@ {
            Err((true, HELP@))
        } else {
            Ok(None)
        },
        Some(Token::Malformed(m)) => Err((false, m@)),
    }
}

/// The bytes of a string slice.
fn ascii_bytes(s: &str) -> (v: Vec<u8>)
    ensures
        vstd::string::is_ascii(s) ==> v@ == s@.map_values(|c: char| c as u8),
{
    proof {
        broadcast use vstd::string::is_ascii_spec_bytes;
    }
    let b = s.as_bytes();
    let mut out: Vec<u8> = Vec::new();
    let mut i: usize = 0;
    while i < b.len()
        invariant
            i <= b@.len(),
            out@ == b@.take(i as int),
        decreases b@.len() - i,
    {
        out.push(b[i]);
        assert(b@.take(i + 1) =~= b@.take(i as int).push(b@[i as int]));
        i = i + 1;
    }
    assert(b@.take(b@.len() as int) =~= b@);
    proof {
        if vstd::string::is_ascii(s) {
            assert(s.spec_bytes() =~= s@.map_values(|c: char| c as u8));
        }
    }
    out
}

fn bytes_are(v: &[u8], word: &str) -> (r: bool)
    requires
        vstd::string::is_ascii(word),
    ensures
        r == (v@ == word@.map_values(|c: char| c as u8)),
{
    let w = ascii_bytes(word);
    bytes_equal(v, w.as_slice())
}

/// Selects the verb from the first argument.
pub fn select_verb(first: Option<&Token>) -> (r: Result<Option<Verb>, CliError>)
    ensures
        match verb_choice(
            match first {
                Some(t) => Some(*t),
                None => None,
            },
        ) {
            Ok(v) => r == Ok::<Option<Verb>, CliError>(v),
            Err(e) => r matches Err(g) && cli_error_view(g) == e,
        },
{
    proof {
        reveal_strlit("snapshot");
        reveal_strlit("socket-holders");
        reveal_strlit("host");
        reveal_strlit("help");
        reveal_strlit("--help");
        reveal_strlit("-h");
    }
    match first {
        None => Err(help()),
        Some(Token::Value(v)) => {
            if bytes_are(v.as_slice(), "snapshot") {
                Ok(Some(Verb::Snapshot))
            } else if bytes_are(v.as_slice(), "socket-holders") {
                Ok(Some(Verb::SocketHolders))
            } else if bytes_are(v.as_slice(), "host") {
                Ok(Some(Verb::Host))
            } else if bytes_are(v.as_slice(), "help") || bytes_are(v.as_slice(), "--help")
                || bytes_are(v.as_slice(), "-h") {
                Err(help())
            } else {
                let shown = lossy_string(v.as_slice());
                let mut text = String::new();
                push_str(&mut text, "unknown command '");
                push_str(&mut text, shown.as_str());
                push_str(&mut text, "'");
                Err(usage_and_help(text.as_str()))
            }
        },
        Some(Token::Short(c)) => {
            if *c == 'h' {
                Err(help())
            } else {
                Ok(None)
            }
        },
        Some(Token::Long(n)) => {
            if is_word(n.as_str(), "help") {
                Err(help())
            } else {
                Ok(None)
            }
        },
        Some(Token::LongWithValue(n, _)) => {
            if is_word(n.as_str(), "help") {
                Err(help())
            } else {
                Ok(None)
            }
        },
        Some(Token::Malformed(m)) => Err(usage(m.as_str())),
    }
}

/// `name` is `word`.
pub fn is_word(name: &str, word: &str) -> (r: bool)
    ensures
        r == (name@ == word@),
{
    let cs = str_chars(name);
    assert(cs@.subrange(0, cs@.len() as int) =~= cs@);
    crate::chars::span_equals(&cs, 0, cs.len(), word)
}

} // verus!

verus! {

/// The spans of the pieces of `s` from `i` on, split at every `c`: what
/// `str::split(c)` yields.
pub open spec fn split_spans(s: Seq<char>, i: int, c: char) -> Seq<(int, int)>
    decreases s.len() + 1 - i,
{
    if i < 0 || i > s.len() {
        seq![]
    } else {
        match find_char(s, i, s.len() as int, c) {
            Some(k) => {
                proof { lemma_find_char(s, i, s.len() as int, c); }
                seq![(i, k)] + split_spans(s, k + 1, c)
            },
            None => seq![(i, s.len() as int)],
        }
    }
}

/// One piece of a pid list, trimmed: a non-zero `u32`, or the message
/// that refuses it.
pub open spec fn pid_of(part: Seq<char>) -> Result<u32, Seq<char>> {
    match parse_uint(part, 10, u32::MAX as nat) {
        None => Err("not a pid: '"@ + part + "'"@),
        Some(v) => if v == 0 {
            Err("pid 0 is not a process"@)
        } else {
            Ok(v as u32)
        },
    }
}

/// The pids of the first `n` pieces, or the first piece's refusal.
pub open spec fn pids_fold(s: Seq<char>, spans: Seq<(int, int)>, n: int) -> Result<Seq<u32>, Seq<char>>
    decreases n,
{
    if n <= 0 || n > spans.len() {
        Ok(seq![])
    } else {
        match pids_fold(s, spans, n - 1) {
            Err(m) => Err(m),
            Ok(v) => match pid_of(trimmed(s, spans[n - 1].0, spans[n - 1].1)) {
                Err(m) => Err(m),
                Ok(p) => Ok(v.push(p)),
            },
        }
    }
}

/// A comma-separated pid list, each piece trimmed; or the usage message
/// refusing it.
pub open spec fn pid_list_text(s: Seq<char>) -> Result<Seq<u32>, Seq<char>> {
    if s.len() == 0 {
        Err("pid list must not be empty"@)
    } else {
        let spans = split_spans(s, 0, ',');
        pids_fold(s, spans, spans.len() as int)
    }
}

/// A pid list given as raw argument bytes, decoded lossily.
pub open spec fn pid_list(raw: Seq<u8>) -> Result<Seq<u32>, Seq<char>> {
    pid_list_text(utf8_lossy(raw))
}

proof fn lemma_pids_fold_err(s: Seq<char>, spans: Seq<(int, int)>, n: int)
    requires
        1 <= n <= spans.len(),
        pids_fold(s, spans, n) is Err,
    ensures
        pids_fold(s, spans, spans.len() as int) == pids_fold(s, spans, n),
    decreases spans.len() - n,
{
    if n < spans.len() {
        lemma_pids_fold_err(s, spans, n + 1);
    }
}

/// Parses a `--roots` or `--pids` value.
pub fn parse_pid_list(raw: &[u8]) -> (r: Result<Vec<u32>, CliError>)
    ensures
        match pid_list(raw@) {
            Ok(v) => r matches Ok(p) && p@ == v,
            Err(m) => r matches Err(e) && cli_error_view(e) == (false, m),
        },
{
    let text = lossy_string(raw);
    parse_pid_text(text.as_str())
}

/// Parses a pid list once its bytes are text.
pub fn parse_pid_text(text: &str) -> (r: Result<Vec<u32>, CliError>)
    ensures
        match pid_list_text(text@) {
            Ok(v) => r matches Ok(p) && p@ == v,
            Err(m) => r matches Err(e) && cli_error_view(e) == (false, m),
        },
{
    let cs = str_chars(text);
    if cs.len() == 0 {
        return Err(usage("pid list must not be empty"));
    }
    let ghost s = cs@;
    let ghost spans = split_spans(s, 0, ',');
    let mut out: Vec<u32> = Vec::new();
    let mut i: usize = 0;
    let ghost mut n: int = 0;
    let mut done = false;
    while !done
        invariant
            i <= cs@.len(),
            s == cs@,
            s == text@,
            s.len() > 0,
            spans == split_spans(s, 0, ','),
            !done ==> spans.len() == n + split_spans(s, i as int, ',').len(),
            done ==> n == spans.len(),
            !done ==> forall|m: int|
                0 <= m < split_spans(s, i as int, ',').len() ==> #[trigger] split_spans(
                    s,
                    i as int,
                    ',',
                )[m] == spans[n + m],
            0 <= n <= spans.len(),
            pids_fold(s, spans, n) == Ok::<Seq<u32>, Seq<char>>(out@),
        decreases cs@.len() + 1 - i + (if done {
            0int
        } else {
            1int
        }),
    {
        proof { lemma_find_char(cs@, i as int, cs@.len() as int, ','); }
        let (end, next) = match find_char_in(&cs, i, cs.len(), ',') {
            Some(k) => (k, Some(k + 1)),
            None => (cs.len(), None),
        };
        proof {
            match find_char(s, i as int, s.len() as int, ',') {
                Some(k) => {
                    let rest = split_spans(s, k + 1, ',');
                    assert(split_spans(s, i as int, ',') == seq![(i as int, k)] + rest);
                    assert(split_spans(s, i as int, ',')[0] == (i as int, k));
                    assert forall|m: int| 0 <= m < rest.len() implies #[trigger] rest[m] == spans[n + 1 + m] by {
                        assert(split_spans(s, i as int, ',')[m + 1] == rest[m]);
                    }
                },
                None => {
                    assert(split_spans(s, i as int, ',') == seq![(i as int, s.len() as int)]);
                    assert(split_spans(s, i as int, ',')[0] == (i as int, s.len() as int));
                },
            }
            assert(spans[n] == (i as int, end as int));
        }
        let (a, b) = trim_span(&cs, i, end);
        match parse_uint_in(&cs, a, b, 10, u32::MAX as u64) {
            None => {
                let part = crate::chars::string_from(&cs, a, b);
                let mut msg = String::new();
                push_str(&mut msg, "not a pid: '");
                push_str(&mut msg, part.as_str());
                push_str(&mut msg, "'");
                proof {
                    assert(msg@ =~= "not a pid: '"@ + part@ + "'"@);
                    assert(part@ == trimmed(s, spans[n].0, spans[n].1));
                    assert(parse_uint(part@, 10, u32::MAX as nat) is None);
                    assert(pid_of(part@) == Err::<u32, Seq<char>>(msg@));
                    assert(pids_fold(s, spans, n + 1) == Err::<Seq<u32>, Seq<char>>(msg@));
                    lemma_pids_fold_err(s, spans, n + 1);
                    assert(pid_list_text(cs@) == Err::<Seq<u32>, Seq<char>>(msg@));
                }
                return Err(CliError::Usage(msg));
            },
            Some(v) => {
                if v == 0 {
                    proof {
                        lemma_pids_fold_err(s, spans, n + 1);
                    }
                    return Err(usage("pid 0 is not a process"));
                }
                out.push(v as u32);
            },
        }
        proof {
            n = n + 1;
        }
        match next {
            Some(k) => {
                i = k;
            },
            None => {
                done = true;
            },
        }
    }
    Ok(out)
}

} // verus!

verus! {

/// Which processes a snapshot covers: the whole host, the subtrees under
/// some roots, or exactly some pids.
#[derive(Debug, Clone, PartialEq, Eq)]
pub enum Scope {
    Host,
    Roots(Vec<u32>),
    Pids(Vec<u32>),
}

/// The `snapshot` ask.
#[derive(Debug, Clone, PartialEq, Eq)]
pub struct SnapshotArgs {
    pub scope: Scope,
    pub procs: bool,
    pub ports: bool,
    pub mem: bool,
    pub start_time: bool,
    pub cpu_time: bool,
    pub uid: bool,
    pub cwd: bool,
    pub status: bool,
    pub argv: bool,
    pub json: bool,
}

/// The `socket-holders` ask: one unix socket path, as the raw bytes the
/// caller named, and whether to name the holders.
#[derive(Debug, Clone, PartialEq, Eq)]
pub struct SocketHoldersArgs {
    pub path: Vec<u8>,
    pub procs: bool,
    pub json: bool,
}

/// The `host` ask.
#[derive(Debug, Clone, Copy, PartialEq, Eq)]
pub struct HostArgs {
    pub load: bool,
    pub mem: bool,
    pub cpu: bool,
    pub net: bool,
    pub disk: bool,
    pub json: bool,
}

/// A parsed invocation.
#[derive(Debug, Clone, PartialEq, Eq)]
pub enum Command {
    Snapshot(SnapshotArgs),
    SocketHolders(SocketHoldersArgs),
    Host(HostArgs),
}

/// A scope by value: 0 for the host, 1 for roots, 2 for pids, with the
/// pid list.
pub open spec fn scope_view(s: Scope) -> (int, Seq<u32>) {
    match s {
        Scope::Host => (0, seq![]),
        Scope::Roots(v) => (1, v@),
        Scope::Pids(v) => (2, v@),
    }
}

/// The flags of a snapshot ask, in the order `--procs --ports --mem
/// --start-time --cpu-time --uid --cwd --status --argv --json`.
pub open spec fn snapshot_flags(a: SnapshotArgs) -> Seq<bool> {
    seq![a.procs, a.ports, a.mem, a.start_time, a.cpu_time, a.uid, a.cwd, a.status, a.argv, a.json]
}

/// The position of a snapshot flag in [`snapshot_flags`]; -1 for none.
pub open spec fn snapshot_flag(name: Seq<char>) -> int {
    if name == "procs"@ {
        0
    } else if name == "ports"@ {
        1
    } else if name == "mem"@ {
        2
    } else if name == "start-time"@ {
        3
    } else if name == "cpu-time"@ {
        4
    } else if name == "uid"@ {
        5
    } else if name == "cwd"@ {
        6
    } else if name == "status"@ {
        7
    } else if name == "argv"@ {
        8
    } else if name == "json"@ {
        9
    } else {
        -1
    }
}

/// The usage error for an argument a verb does not take.
pub open spec fn unexpected_argument() -> (bool, Seq<char>) {
    usage_with_help("unexpected argument"@)
}

/// A snapshot ask being read: roots, pids, and the ten flags.
pub type SnapState = (Option<Seq<u32>>, Option<Seq<u32>>, Seq<bool>);

/// One argument of `snapshot` read into the ask.
pub open spec fn snapshot_step(st: SnapState, tok: Token) -> Result<SnapState, (bool, Seq<char>)> {
    match tok {
        Token::LongWithValue(n, v) => if n@ == "roots"@ || n@ == "pids"@ {
            let roots = n@ == "roots"@;
            if (roots && st.1 is Some) || (!roots && st.0 is Some) {
                Err((false, "--roots and --pids are mutually exclusive"@))
            } else {
                match v {
                    Err(m) => Err((false, m@)),
                    Ok(b) => match pid_list(b@) {
                        Err(m) => Err((false, m)),
                        Ok(p) => if roots {
                            Ok((Some(p), st.1, st.2))
                        } else {
                            Ok((st.0, Some(p), st.2))
                        },
                    },
                }
            }
        } else {
            Err(unexpected_argument())
        },
        Token::Long(n) => if snapshot_flag(n@) >= 0 {
            Ok((st.0, st.1, st.2.update(snapshot_flag(n@), true)))
        } else if n@ == "help"@ {
            Err((true, HELP@))
        } else {
            Err(unexpected_argument())
        },
        Token::Short(c) => if c == 'h' {
            Err((true, HELP@))
        } else {
            Err(unexpected_argument())
        },
        Token::Value(_) => Err(unexpected_argument()),
        Token::Malformed(m) => Err((false, m@)),
    }
}

/// The snapshot ask after the first `n` arguments.
pub open spec fn snapshot_fold(tokens: Seq<Token>, n: int) -> Result<SnapState, (bool, Seq<char>)>
    decreases n,
{
    if n <= 0 || n > tokens.len() {
        Ok((None, None, Seq::new(10, |i: int| false)))
    } else {
        match snapshot_fold(tokens, n - 1) {
            Err(e) => Err(e),
            Ok(st) => snapshot_step(st, tokens[n - 1]),
        }
    }
}

/// The snapshot ask the arguments after the verb make: its scope and
/// flags, or the usage error or help request that stops it. At least one
/// facet (a flag other than `--json`) is required.
pub open spec fn snapshot_ask(tokens: Seq<Token>) -> Result<((int, Seq<u32>), Seq<bool>), (bool, Seq<char>)> {
    match snapshot_fold(tokens, tokens.len() as int) {
        Err(e) => Err(e),
        Ok(st) => if !(exists|i: int| 0 <= i < 9 && #[trigger] st.2[i]) {
            Err(usage_with_help("at least one snapshot facet required"@))
        } else {
            Ok(
                (
                    match (st.0, st.1) {
                        (Some(r), _) => (1, r),
                        (None, Some(p)) => (2, p),
                        (None, None) => (0, seq![]),
                    },
                    st.2,
                ),
            )
        },
    }
}

fn snapshot_flag_of(name: &str) -> (r: usize)
    ensures
        snapshot_flag(name@) >= 0 ==> r as int == snapshot_flag(name@),
        snapshot_flag(name@) < 0 ==> r == 10,
{
    if is_word(name, "procs") {
        0
    } else if is_word(name, "ports") {
        1
    } else if is_word(name, "mem") {
        2
    } else if is_word(name, "start-time") {
        3
    } else if is_word(name, "cpu-time") {
        4
    } else if is_word(name, "uid") {
        5
    } else if is_word(name, "cwd") {
        6
    } else if is_word(name, "status") {
        7
    } else if is_word(name, "argv") {
        8
    } else if is_word(name, "json") {
        9
    } else {
        10
    }
}

pub proof fn lemma_snapshot_fold_err(tokens: Seq<Token>, n: int)
    requires
        1 <= n <= tokens.len(),
        snapshot_fold(tokens, n) is Err,
    ensures
        snapshot_fold(tokens, tokens.len() as int) == snapshot_fold(tokens, n),
    decreases tokens.len() - n,
{
    if n < tokens.len() {
        lemma_snapshot_fold_err(tokens, n + 1);
    }
}

fn copy_pids(v: &Vec<u32>) -> (r: Vec<u32>)
    ensures
        r@ == v@,
{
    let mut out: Vec<u32> = Vec::new();
    let mut i: usize = 0;
    while i < v.len()
        invariant
            i <= v@.len(),
            out@ == v@.take(i as int),
        decreases v@.len() - i,
    {
        out.push(v[i]);
        assert(v@.take(i + 1) =~= v@.take(i as int).push(v@[i as int]));
        i = i + 1;
    }
    assert(v@.take(v@.len() as int) =~= v@);
    out
}

/// Reads the arguments of `snapshot`.
pub fn parse_snapshot(tokens: &[Token]) -> (r: Result<SnapshotArgs, CliError>)
    ensures
        match snapshot_ask(tokens@) {
            Ok(a) => r matches Ok(args) && scope_view(args.scope) == a.0 && snapshot_flags(args)
                == a.1,
            Err(e) => r matches Err(g) && cli_error_view(g) == e,
        },
{
    let mut roots: Option<Vec<u32>> = None;
    let mut pids: Option<Vec<u32>> = None;
    let mut flags: Vec<bool> = Vec::new();
    let mut k: usize = 0;
    while k < 10
        invariant
            k <= 10,
            flags@ == Seq::new(k as nat, |i: int| false),
        decreases 10 - k,
    {
        flags.push(false);
        assert(flags@ =~= Seq::new((k + 1) as nat, |i: int| false));
        k = k + 1;
    }
    let mut n: usize = 0;
    while n < tokens.len()
        invariant
            n <= tokens@.len(),
            flags@.len() == 10,
            snapshot_fold(tokens@, n as int) == Ok::<SnapState, (bool, Seq<char>)>(
                (
                    match roots {
                        Some(v) => Some(v@),
                        None => None,
                    },
                    match pids {
                        Some(v) => Some(v@),
                        None => None,
                    },
                    flags@,
                ),
            ),
        decreases tokens@.len() - n,
    {
        proof {
            reveal_strlit("roots");
            reveal_strlit("pids");
            reveal_strlit("help");
        }
        match &tokens[n] {
            Token::LongWithValue(name, value) => {
                let is_roots = is_word(name.as_str(), "roots");
                let is_pids = is_word(name.as_str(), "pids");
                if !is_roots && !is_pids {
                    proof { lemma_snapshot_fold_err(tokens@, n + 1); }
                    return Err(usage_and_help("unexpected argument"));
                }
                if (is_roots && pids.is_some()) || (!is_roots && roots.is_some()) {
                    proof { lemma_snapshot_fold_err(tokens@, n + 1); }
                    return Err(usage("--roots and --pids are mutually exclusive"));
                }
                match value {
                    Err(m) => {
                        proof { lemma_snapshot_fold_err(tokens@, n + 1); }
                        return Err(usage(m.as_str()));
                    },
                    Ok(bytes) => match parse_pid_list(bytes.as_slice()) {
                        Err(e) => {
                            proof { lemma_snapshot_fold_err(tokens@, n + 1); }
                            return Err(e);
                        },
                        Ok(list) => {
                            if is_roots {
                                roots = Some(list);
                            } else {
                                pids = Some(list);
                            }
                        },
                    },
                }
            },
            Token::Long(name) => {
                let i = snapshot_flag_of(name.as_str());
                if i < 10 {
                    flags.set(i, true);
                } else if is_word(name.as_str(), "help") {
                    proof { lemma_snapshot_fold_err(tokens@, n + 1); }
                    return Err(help());
                } else {
                    proof { lemma_snapshot_fold_err(tokens@, n + 1); }
                    return Err(usage_and_help("unexpected argument"));
                }
            },
            Token::Short(c) => {
                proof { lemma_snapshot_fold_err(tokens@, n + 1); }
                if *c == 'h' {
                    return Err(help());
                } else {
                    return Err(usage_and_help("unexpected argument"));
                }
            },
            Token::Value(_) => {
                proof { lemma_snapshot_fold_err(tokens@, n + 1); }
                return Err(usage_and_help("unexpected argument"));
            },
            Token::Malformed(m) => {
                proof { lemma_snapshot_fold_err(tokens@, n + 1); }
                return Err(usage(m.as_str()));
            },
        }
        n = n + 1;
    }
    let mut any = false;
    let mut i: usize = 0;
    while i < 9
        invariant
            i <= 9,
            flags@.len() == 10,
            any == exists|j: int| 0 <= j < i && #[trigger] flags@[j],
        decreases 9 - i,
    {
        if flags[i] {
            any = true;
        }
        i = i + 1;
    }
    if !any {
        return Err(usage_and_help("at least one snapshot facet required"));
    }
    let scope = match (&roots, &pids) {
        (Some(r), _) => Scope::Roots(copy_pids(r)),
        (None, Some(p)) => Scope::Pids(copy_pids(p)),
        (None, None) => Scope::Host,
    };
    let args = SnapshotArgs {
        scope,
        procs: flags[0],
        ports: flags[1],
        mem: flags[2],
        start_time: flags[3],
        cpu_time: flags[4],
        uid: flags[5],
        cwd: flags[6],
        status: flags[7],
        argv: flags[8],
        json: flags[9],
    };
    assert(snapshot_flags(args) =~= flags@);
    proof {
        let st = snapshot_fold(tokens@, tokens@.len() as int)->Ok_0;
        assert(st.2 == flags@);
        assert(exists|j: int| 0 <= j < 9 && #[trigger] st.2[j]);
        assert(snapshot_ask(tokens@) matches Ok(a) && a.1 == flags@);
        assert(snapshot_ask(tokens@) matches Ok(a) && a.0 == scope_view(args.scope));
    }
    Ok(args)
}

} // verus!

verus! {

/// A holder ask being read: the path, `--procs`, `--json`.
pub type HolderState = (Option<Seq<u8>>, bool, bool);

/// One argument of `socket-holders` read into the ask.
pub open spec fn holders_step(st: HolderState, tok: Token) -> Result<HolderState, (bool, Seq<char>)> {
    match tok {
        Token::Value(v) => if st.0 is None {
            Ok((Some(v@), st.1, st.2))
        } else {
            Err(usage_with_help("socket-holders takes exactly one PATH"@))
        },
        Token::Long(n) => if n@ == "procs"@ {
            Ok((st.0, true, st.2))
        } else if n@ == "json"@ {
            Ok((st.0, st.1, true))
        } else if n@ == "help"@ {
            Err((true, HELP@))
        } else {
            Err(unexpected_argument())
        },
        Token::Short(c) => if c == 'h' {
            Err((true, HELP@))
        } else {
            Err(unexpected_argument())
        },
        Token::LongWithValue(_, _) => Err(unexpected_argument()),
        Token::Malformed(m) => Err((false, m@)),
    }
}

/// The holder ask after the first `n` arguments.
pub open spec fn holders_fold(tokens: Seq<Token>, n: int) -> Result<HolderState, (bool, Seq<char>)>
    decreases n,
{
    if n <= 0 || n > tokens.len() {
        Ok((None, false, false))
    } else {
        match holders_fold(tokens, n - 1) {
            Err(e) => Err(e),
            Ok(st) => holders_step(st, tokens[n - 1]),
        }
    }
}

/// The holder ask the arguments after the verb make: exactly one
/// non-empty path is required.
pub open spec fn holders_ask(tokens: Seq<Token>) -> Result<HolderState, (bool, Seq<char>)> {
    match holders_fold(tokens, tokens.len() as int) {
        Err(e) => Err(e),
        Ok(st) => match st.0 {
            None => Err(usage_with_help("socket-holders needs a PATH"@)),
            Some(p) => if p.len() == 0 {
                Err((false, "socket path must not be empty"@))
            } else {
                Ok(st)
            },
        },
    }
}

proof fn lemma_holders_fold_err(tokens: Seq<Token>, n: int)
    requires
        1 <= n <= tokens.len(),
        holders_fold(tokens, n) is Err,
    ensures
        holders_fold(tokens, tokens.len() as int) == holders_fold(tokens, n),
    decreases tokens.len() - n,
{
    if n < tokens.len() {
        lemma_holders_fold_err(tokens, n + 1);
    }
}

fn copy_bytes(v: &Vec<u8>) -> (r: Vec<u8>)
    ensures
        r@ == v@,
{
    let mut out: Vec<u8> = Vec::new();
    let mut i: usize = 0;
    while i < v.len()
        invariant
            i <= v@.len(),
            out@ == v@.take(i as int),
        decreases v@.len() - i,
    {
        out.push(v[i]);
        assert(v@.take(i + 1) =~= v@.take(i as int).push(v@[i as int]));
        i = i + 1;
    }
    assert(v@.take(v@.len() as int) =~= v@);
    out
}

/// Reads the arguments of `socket-holders`.
pub fn parse_socket_holders(tokens: &[Token]) -> (r: Result<SocketHoldersArgs, CliError>)
    ensures
        match holders_ask(tokens@) {
            Ok(a) => r matches Ok(args) && Some(args.path@) == a.0 && args.procs == a.1 && args.json
                == a.2,
            Err(e) => r matches Err(g) && cli_error_view(g) == e,
        },
{
    let mut path: Option<Vec<u8>> = None;
    let mut procs = false;
    let mut json = false;
    let mut n: usize = 0;
    while n < tokens.len()
        invariant
            n <= tokens@.len(),
            holders_fold(tokens@, n as int) == Ok::<HolderState, (bool, Seq<char>)>(
                (
                    match path {
                        Some(v) => Some(v@),
                        None => None,
                    },
                    procs,
                    json,
                ),
            ),
        decreases tokens@.len() - n,
    {
        match &tokens[n] {
            Token::Value(v) => {
                if path.is_none() {
                    path = Some(copy_bytes(v));
                } else {
                    proof { lemma_holders_fold_err(tokens@, n + 1); }
                    return Err(usage_and_help("socket-holders takes exactly one PATH"));
                }
            },
            Token::Long(name) => {
                if is_word(name.as_str(), "procs") {
                    procs = true;
                } else if is_word(name.as_str(), "json") {
                    json = true;
                } else if is_word(name.as_str(), "help") {
                    proof { lemma_holders_fold_err(tokens@, n + 1); }
                    return Err(help());
                } else {
                    proof { lemma_holders_fold_err(tokens@, n + 1); }
                    return Err(usage_and_help("unexpected argument"));
                }
            },
            Token::Short(c) => {
                proof { lemma_holders_fold_err(tokens@, n + 1); }
                if *c == 'h' {
                    return Err(help());
                } else {
                    return Err(usage_and_help("unexpected argument"));
                }
            },
            Token::LongWithValue(_, _) => {
                proof { lemma_holders_fold_err(tokens@, n + 1); }
                return Err(usage_and_help("unexpected argument"));
            },
            Token::Malformed(m) => {
                proof { lemma_holders_fold_err(tokens@, n + 1); }
                return Err(usage(m.as_str()));
            },
        }
        n = n + 1;
    }
    match path {
        None => Err(usage_and_help("socket-holders needs a PATH")),
        Some(p) => {
            if p.len() == 0 {
                Err(usage("socket path must not be empty"))
            } else {
                Ok(SocketHoldersArgs { path: p, procs, json })
            }
        },
    }
}

/// The flags of a host ask, in the order `--load --mem --cpu --net --disk
/// --json`.
pub open spec fn host_flags(a: HostArgs) -> Seq<bool> {
    seq![a.load, a.mem, a.cpu, a.net, a.disk, a.json]
}

/// The position of a host flag in [`host_flags`]; -1 for none.
pub open spec fn host_flag(name: Seq<char>) -> int {
    if name == "load"@ {
        0
    } else if name == "mem"@ {
        1
    } else if name == "cpu"@ {
        2
    } else if name == "net"@ {
        3
    } else if name == "disk"@ {
        4
    } else if name == "json"@ {
        5
    } else {
        -1
    }
}

/// One argument of `host` read into its flags.
pub open spec fn host_step(st: Seq<bool>, tok: Token) -> Result<Seq<bool>, (bool, Seq<char>)> {
    match tok {
        Token::Long(n) => if host_flag(n@) >= 0 {
            Ok(st.update(host_flag(n@), true))
        } else if n@ == "help"@ {
            Err((true, HELP@))
        } else {
            Err(unexpected_argument())
        },
        Token::Short(c) => if c == 'h' {
            Err((true, HELP@))
        } else {
            Err(unexpected_argument())
        },
        Token::Malformed(m) => Err((false, m@)),
        _ => Err(unexpected_argument()),
    }
}

/// The host flags after the first `n` arguments.
pub open spec fn host_fold(tokens: Seq<Token>, n: int) -> Result<Seq<bool>, (bool, Seq<char>)>
    decreases n,
{
    if n <= 0 || n > tokens.len() {
        Ok(Seq::new(6, |i: int| false))
    } else {
        match host_fold(tokens, n - 1) {
            Err(e) => Err(e),
            Ok(st) => host_step(st, tokens[n - 1]),
        }
    }
}

/// The host ask the arguments after the verb make: at least one facet (a
/// flag other than `--json`) is required.
pub open spec fn host_ask(tokens: Seq<Token>) -> Result<Seq<bool>, (bool, Seq<char>)> {
    match host_fold(tokens, tokens.len() as int) {
        Err(e) => Err(e),
        Ok(st) => if !(exists|i: int| 0 <= i < 5 && #[trigger] st[i]) {
            Err(usage_with_help("at least one host facet required"@))
        } else {
            Ok(st)
        },
    }
}

proof fn lemma_host_fold_err(tokens: Seq<Token>, n: int)
    requires
        1 <= n <= tokens.len(),
        host_fold(tokens, n) is Err,
    ensures
        host_fold(tokens, tokens.len() as int) == host_fold(tokens, n),
    decreases tokens.len() - n,
{
    if n < tokens.len() {
        lemma_host_fold_err(tokens, n + 1);
    }
}

fn host_flag_of(name: &str) -> (r: usize)
    ensures
        host_flag(name@) >= 0 ==> r as int == host_flag(name@),
        host_flag(name@) < 0 ==> r == 6,
{
    if is_word(name, "load") {
        0
    } else if is_word(name, "mem") {
        1
    } else if is_word(name, "cpu") {
        2
    } else if is_word(name, "net") {
        3
    } else if is_word(name, "disk") {
        4
    } else if is_word(name, "json") {
        5
    } else {
        6
    }
}

/// Reads the arguments of `host`.
pub fn parse_host(tokens: &[Token]) -> (r: Result<HostArgs, CliError>)
    ensures
        match host_ask(tokens@) {
            Ok(a) => r matches Ok(args) && host_flags(args) == a,
            Err(e) => r matches Err(g) && cli_error_view(g) == e,
        },
{
    let mut flags: Vec<bool> = Vec::new();
    let mut k: usize = 0;
    while k < 6
        invariant
            k <= 6,
            flags@ == Seq::new(k as nat, |i: int| false),
        decreases 6 - k,
    {
        flags.push(false);
        assert(flags@ =~= Seq::new((k + 1) as nat, |i: int| false));
        k = k + 1;
    }
    let mut n: usize = 0;
    while n < tokens.len()
        invariant
            n <= tokens@.len(),
            flags@.len() == 6,
            host_fold(tokens@, n as int) == Ok::<Seq<bool>, (bool, Seq<char>)>(flags@),
        decreases tokens@.len() - n,
    {
        match &tokens[n] {
            Token::Long(name) => {
                let i = host_flag_of(name.as_str());
                if i < 6 {
                    flags.set(i, true);
                } else if is_word(name.as_str(), "help") {
                    proof { lemma_host_fold_err(tokens@, n + 1); }
                    return Err(help());
                } else {
                    proof { lemma_host_fold_err(tokens@, n + 1); }
                    return Err(usage_and_help("unexpected argument"));
                }
            },
            Token::Short(c) => {
                proof { lemma_host_fold_err(tokens@, n + 1); }
                if *c == 'h' {
                    return Err(help());
                } else {
                    return Err(usage_and_help("unexpected argument"));
                }
            },
            Token::Malformed(m) => {
                proof { lemma_host_fold_err(tokens@, n + 1); }
                return Err(usage(m.as_str()));
            },
            _ => {
                proof { lemma_host_fold_err(tokens@, n + 1); }
                return Err(usage_and_help("unexpected argument"));
            },
        }
        n = n + 1;
    }
    let any = flags[0] || flags[1] || flags[2] || flags[3] || flags[4];
    if !any {
        return Err(usage_and_help("at least one host facet required"));
    }
    let args = HostArgs {
        load: flags[0],
        mem: flags[1],
        cpu: flags[2],
        net: flags[3],
        disk: flags[4],
        json: flags[5],
    };
    assert(host_flags(args) =~= flags@);
    proof {
        let st = host_fold(tokens@, tokens@.len() as int)->Ok_0;
        assert(st == flags@);
        if flags@[0] {
            assert(st[0]);
        } else if flags@[1] {
            assert(st[1]);
        } else if flags@[2] {
            assert(st[2]);
        } else if flags@[3] {
            assert(st[3]);
        } else {
            assert(st[4]);
        }
        assert(exists|j: int| 0 <= j < 5 && #[trigger] st[j]);
    }
    Ok(args)
}

/// The facets a snapshot ask names, in flag order: what a blind source
/// costs it.
pub open spec fn asked_facets_of(a: SnapshotArgs) -> Seq<Facet> {
    (if a.procs { seq![Facet::Proc] } else { seq![] }) + (if a.ports { seq![Facet::Ports] } else { seq![] })
        + (if a.mem { seq![Facet::Mem] } else { seq![] }) + (if a.start_time { seq![Facet::StartTime] } else { seq![] })
        + (if a.cpu_time { seq![Facet::CpuTime] } else { seq![] }) + (if a.uid { seq![Facet::Uid] } else { seq![] })
        + (if a.cwd { seq![Facet::Cwd] } else { seq![] }) + (if a.status { seq![Facet::Status] } else { seq![] })
        + (if a.argv { seq![Facet::Argv] } else { seq![] })
}

fn push_if(v: &mut Vec<Facet>, asked: bool, f: Facet)
    ensures
        final(v)@ == old(v)@ + (if asked { seq![f] } else { seq![] }),
{
    if asked {
        v.push(f);
    } else {
        assert(v@ =~= v@ + seq![]);
    }
}

/// The facets a host ask names: the uptime, which every host document
/// carries, then each gauge asked for.
pub open spec fn host_asked_facets_of(a: HostArgs) -> Seq<Facet> {
    seq![Facet::Uptime] + (if a.load { seq![Facet::Load] } else { seq![] }) + (if a.mem { seq![Facet::Mem] } else { seq![] })
        + (if a.cpu { seq![Facet::Cpu] } else { seq![] }) + (if a.net { seq![Facet::Net] } else { seq![] })
        + (if a.disk { seq![Facet::Disk] } else { seq![] })
}

impl HostArgs {
    /// The facets this ask names.
    pub fn asked_facets(&self) -> (r: Vec<Facet>)
        ensures
            r@ == host_asked_facets_of(*self),
    {
        let mut out: Vec<Facet> = Vec::new();
        out.push(Facet::Uptime);
        assert(out@ =~= seq![Facet::Uptime]);
        push_if(&mut out, self.load, Facet::Load);
        push_if(&mut out, self.mem, Facet::Mem);
        push_if(&mut out, self.cpu, Facet::Cpu);
        push_if(&mut out, self.net, Facet::Net);
        push_if(&mut out, self.disk, Facet::Disk);
        out
    }
}

impl SnapshotArgs {
    /// The facets this ask names.
    pub fn asked_facets(&self) -> (r: Vec<Facet>)
        ensures
            r@ == asked_facets_of(*self),
    {
        let mut out: Vec<Facet> = Vec::new();
        push_if(&mut out, self.procs, Facet::Proc);
        push_if(&mut out, self.ports, Facet::Ports);
        push_if(&mut out, self.mem, Facet::Mem);
        push_if(&mut out, self.start_time, Facet::StartTime);
        push_if(&mut out, self.cpu_time, Facet::CpuTime);
        push_if(&mut out, self.uid, Facet::Uid);
        push_if(&mut out, self.cwd, Facet::Cwd);
        push_if(&mut out, self.status, Facet::Status);
        push_if(&mut out, self.argv, Facet::Argv);
        assert(out@ =~= asked_facets_of(*self));
        out
    }
}

} // verus!

verus! {

/// The exit status of an invocation that does not run: 0 for a help
/// request, 2 for a usage error.
pub fn refusal_exit_code(e: &CliError) -> (code: u8)
    ensures
        code == (if cli_error_view(*e).0 { 0u8 } else { 2u8 }),
{
    match e {
        CliError::Help(_) => 0,
        CliError::Usage(_) => 2,
    }
}

} // verus!
