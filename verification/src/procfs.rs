//! Pure readers of Linux procfs text: every number and name the Linux
//! sensor takes from `/proc`, decoded from the text it read.
//!
//! Each reader fails with `EINVAL` when the text lacks the shape it needs,
//! the same code for every malformed source.
use vstd::prelude::*;
use crate::chars::{
    char_is_whitespace, is_whitespace, scan_ws, field_spans, field_spans_in, fields, find_char, find_char_in,
    lemma_find_char, lemma_rfind_char, line_spans, line_spans_in, parse_i32, parse_i32_in,
    parse_uint, parse_uint_in, rfind_char, rfind_char_in, span_equals, span_starts_with, str_chars,
    string_from,
};
use crate::errno::{errno_code, platform_errno, Errno};
use crate::proc_addr::{decode_proc_hex, spec_decode_proc_hex};
use crate::scan::{find_from, find_in, lemma_find_from, ByteClass};
use crate::proc_addr::spec_encode_hex;
use crate::schema::{
    hex_bytes, sanitize_name, sanitized, Attribution, Cpu, HostMemory, Network, Port, Proc, Swap,
};
use crate::text::{decimal, decimal_string, lossy_string, utf8_lossy};
use crate::order::{lemma_stable_sorted, sort_rows, stable_sorted};

verus! {

/// The whitespace fields after the command name of a `/proc/<pid>/stat`
/// line: the fields after its last `)`.
pub open spec fn stat_fields(s: Seq<char>) -> Option<Seq<Seq<char>>> {
    match rfind_char(s, 0, s.len() as int, ')') {
        Some(c) => Some(fields(s, c + 1, s.len() as int)),
        None => None,
    }
}

/// Field `k` after the command name: 0 is the state, 1 the parent pid, 11
/// and 12 the user and system ticks, 16 the nice value, 17 the thread
/// count, 19 the start time in ticks, 21 the resident pages.
pub open spec fn stat_field(s: Seq<char>, k: int) -> Option<Seq<char>> {
    match stat_fields(s) {
        Some(f) => if 0 <= k < f.len() {
            Some(f[k])
        } else {
            None
        },
        None => None,
    }
}

/// Field `k` after the command name, read as an unsigned integer no
/// larger than `max`.
pub open spec fn stat_uint(s: Seq<char>, k: int, max: nat) -> Option<nat> {
    match stat_field(s, k) {
        Some(f) => parse_uint(f, 10, max),
        None => None,
    }
}

/// Field `k` of the whitespace fields of `s[lo..hi]`, as a span.
pub fn nth_field_span(cs: &[char], lo: usize, hi: usize, k: usize) -> (r: Option<(usize, usize)>)
    requires
        lo <= hi <= cs@.len(),
    ensures
        r matches Some(p) ==> p.0 <= p.1 <= cs@.len() && (k as int) < fields(
            cs@,
            lo as int,
            hi as int,
        ).len() && fields(cs@, lo as int, hi as int)[k as int] == cs@.subrange(
            p.0 as int,
            p.1 as int,
        ),
        r is None ==> (k as int) >= fields(cs@, lo as int, hi as int).len(),
{
    let spans = field_spans_in(cs, lo, hi);
    if k < spans.len() {
        let p = spans[k];
        proof {
            let all = field_spans(cs@, lo as int, hi as int);
            assert(fields(cs@, lo as int, hi as int)[k as int] == cs@.subrange(
                all[k as int].0,
                all[k as int].1,
            ));
        }
        Some(p)
    } else {
        None
    }
}

fn stat_field_span(cs: &[char], k: usize) -> (r: Option<(usize, usize)>)
    ensures
        r matches Some(p) ==> p.0 <= p.1 <= cs@.len() && stat_field(cs@, k as int) == Some(
            cs@.subrange(p.0 as int, p.1 as int),
        ),
        r is None ==> stat_field(cs@, k as int) is None,
{
    match rfind_char_in(cs, 0, cs.len(), ')') {
        None => None,
        Some(c) => {
            proof {
                lemma_rfind_char(cs@, 0, cs@.len() as int, ')');
            }
            nth_field_span(cs, c + 1, cs.len(), k)
        },
    }
}

/// Field `k` after the command name of a stat line; `EINVAL` when the line
/// has no `)` or too few fields.
pub fn parse_stat_field(stat: &str, after_comm_index: usize) -> (r: Result<String, i32>)
    ensures
        match stat_field(stat@, after_comm_index as int) {
            Some(f) => r matches Ok(v) && v@ == f,
            None => r == Err::<String, i32>(platform_errno(Errno::Einval)),
        },
{
    let cs = str_chars(stat);
    match stat_field_span(&cs, after_comm_index) {
        Some((a, b)) => Ok(string_from(&cs, a, b)),
        None => Err(errno_code(Errno::Einval)),
    }
}

fn stat_uint_in(cs: &[char], k: usize, max: u64) -> (r: Result<u64, i32>)
    ensures
        match stat_uint(cs@, k as int, max as nat) {
            Some(v) => r == Ok::<u64, i32>(v as u64),
            None => r == Err::<u64, i32>(platform_errno(Errno::Einval)),
        },
{
    match stat_field_span(cs, k) {
        Some((a, b)) => match parse_uint_in(cs, a, b, 10, max) {
            Some(v) => Ok(v),
            None => Err(errno_code(Errno::Einval)),
        },
        None => Err(errno_code(Errno::Einval)),
    }
}

/// Field `k` after the command name of a stat line, as a `u64`.
pub fn stat_number(stat: &str, after_comm_index: usize) -> (r: Result<u64, i32>)
    ensures
        match stat_uint(stat@, after_comm_index as int, u64::MAX as nat) {
            Some(v) => r == Ok::<u64, i32>(v as u64),
            None => r == Err::<u64, i32>(platform_errno(Errno::Einval)),
        },
{
    let cs = str_chars(stat);
    stat_uint_in(&cs, after_comm_index, u64::MAX)
}

/// The command name of a stat line: the text between its first `(` and its
/// last `)`, when the `)` comes after the `(`.
pub open spec fn comm(s: Seq<char>) -> Option<Seq<char>> {
    match (find_char(s, 0, s.len() as int, '('), rfind_char(s, 0, s.len() as int, ')')) {
        (Some(open), Some(close)) => if close > open {
            Some(s.subrange(open + 1, close))
        } else {
            None
        },
        _ => None,
    }
}

/// The command name of a stat line.
pub fn parse_comm(stat: &str) -> (r: Option<String>)
    ensures
        match comm(stat@) {
            Some(c) => r matches Some(v) && v@ == c,
            None => r is None,
        },
{
    let cs = str_chars(stat);
    proof {
        lemma_find_char(cs@, 0, cs@.len() as int, '(');
        lemma_rfind_char(cs@, 0, cs@.len() as int, ')');
    }
    match (find_char_in(&cs, 0, cs.len(), '('), rfind_char_in(&cs, 0, cs.len(), ')')) {
        (Some(open), Some(close)) => {
            if close > open {
                Some(string_from(&cs, open + 1, close))
            } else {
                None
            }
        },
        _ => None,
    }
}

/// `v` ticks of a `hz` clock in microseconds, the tick-to-microsecond
/// product saturating at `u64::MAX`.
pub open spec fn spec_ticks_us(v: nat, hz: nat) -> nat {
    let scaled = if v * 1_000_000 > u64::MAX {
        u64::MAX as nat
    } else {
        v * 1_000_000
    };
    scaled / hz
}

/// Converts clock ticks to microseconds.
pub fn ticks_us(v: u64, hz: u64) -> (r: u64)
    requires
        hz > 0,
    ensures
        r as nat == spec_ticks_us(v as nat, hz as nat),
{
    let scaled = match v.checked_mul(1_000_000) {
        Some(x) => x,
        None => u64::MAX,
    };
    scaled / hz
}

/// The resident set size a stat line reports: its resident pages times the
/// page size.
pub fn read_rss_from_stat(stat: &str, page_size: u64) -> (r: Result<u64, i32>)
    ensures
        match stat_uint(stat@, 21, u64::MAX as nat) {
            Some(pages) => if pages * page_size <= u64::MAX {
                r == Ok::<u64, i32>((pages * page_size) as u64)
            } else {
                r == Err::<u64, i32>(platform_errno(Errno::Eoverflow))
            },
            None => r == Err::<u64, i32>(platform_errno(Errno::Einval)),
        },
{
    let pages = match stat_number(stat, 21) {
        Ok(v) => v,
        Err(e) => return Err(e),
    };
    match pages.checked_mul(page_size) {
        Some(v) => Ok(v),
        None => Err(errno_code(Errno::Eoverflow)),
    }
}

/// The resident pages a `/proc/<pid>/statm` line reports: its second
/// field.
pub open spec fn statm_pages(s: Seq<char>) -> Option<nat> {
    let f = fields(s, 0, s.len() as int);
    if f.len() > 1 {
        parse_uint(f[1], 10, u64::MAX as nat)
    } else {
        None
    }
}

/// The resident set size a statm line reports.
pub fn read_rss_from_statm(statm: &str, page_size: u64) -> (r: Result<u64, i32>)
    ensures
        match statm_pages(statm@) {
            Some(pages) => if pages * page_size <= u64::MAX {
                r == Ok::<u64, i32>((pages * page_size) as u64)
            } else {
                r == Err::<u64, i32>(platform_errno(Errno::Eoverflow))
            },
            None => r == Err::<u64, i32>(platform_errno(Errno::Einval)),
        },
{
    let cs = str_chars(statm);
    let pages = match nth_field_span(&cs, 0, cs.len(), 1) {
        Some((a, b)) => match parse_uint_in(&cs, a, b, 10, u64::MAX) {
            Some(v) => v,
            None => return Err(errno_code(Errno::Einval)),
        },
        None => return Err(errno_code(Errno::Einval)),
    };
    match pages.checked_mul(page_size) {
        Some(v) => Ok(v),
        None => Err(errno_code(Errno::Eoverflow)),
    }
}

/// A process's start in microseconds since the epoch: the boot time plus
/// its start tick converted at `hz`.
pub open spec fn start_time_value(ticks: nat, boot_us: nat, hz: nat) -> nat {
    boot_us + spec_ticks_us(ticks, hz)
}

/// When a stat line's start tick parses, the start time it gives fits in a
/// `u64`.
pub open spec fn start_time_fits(s: Seq<char>, boot_us: nat, hz: nat) -> bool {
    stat_uint(s, 19, u64::MAX as nat) matches Some(t) ==> start_time_value(t, boot_us, hz)
        <= u64::MAX
}

/// A process's start time, in microseconds since the epoch.
pub fn read_start_time(stat: &str, boot_us: u64, hz: u64) -> (r: Result<u64, i32>)
    requires
        hz > 0,
        start_time_fits(stat@, boot_us as nat, hz as nat),
    ensures
        match stat_uint(stat@, 19, u64::MAX as nat) {
            Some(t) => r == Ok::<u64, i32>(start_time_value(t, boot_us as nat, hz as nat) as u64),
            None => r == Err::<u64, i32>(platform_errno(Errno::Einval)),
        },
{
    let ticks = match stat_number(stat, 19) {
        Ok(v) => v,
        Err(e) => return Err(e),
    };
    let offset = ticks_us(ticks, hz);
    Ok(boot_us + offset)
}

/// A process's cumulative user plus system CPU time, in microseconds.
pub fn read_cpu_time(stat: &str, hz: u64) -> (r: Result<u64, i32>)
    requires
        hz > 0,
    ensures
        match (stat_uint(stat@, 11, u64::MAX as nat), stat_uint(stat@, 12, u64::MAX as nat)) {
            (Some(user), Some(system)) => r == Ok::<u64, i32>(
                spec_ticks_us(
                    if user + system > u64::MAX {
                        u64::MAX as nat
                    } else {
                        user + system
                    },
                    hz as nat,
                ) as u64,
            ),
            _ => r == Err::<u64, i32>(platform_errno(Errno::Einval)),
        },
{
    let cs = str_chars(stat);
    let user = match stat_uint_in(&cs, 11, u64::MAX) {
        Ok(v) => v,
        Err(e) => return Err(e),
    };
    let system = match stat_uint_in(&cs, 12, u64::MAX) {
        Ok(v) => v,
        Err(e) => return Err(e),
    };
    let total = match user.checked_add(system) {
        Some(x) => x,
        None => u64::MAX,
    };
    Ok(ticks_us(total, hz))
}

/// A stat line's scheduler state (the first character of field 0), nice
/// value (field 16, an `i32`) and thread count (field 17, a `u32`).
pub open spec fn stat_status(s: Seq<char>) -> Option<(char, int, nat)> {
    match (stat_field(s, 0), stat_field(s, 16), stat_uint(s, 17, u32::MAX as nat)) {
        (Some(state), Some(nice), Some(threads)) => if state.len() > 0 && parse_i32(nice) is Some {
            Some((state[0], parse_i32(nice)->0, threads))
        } else {
            None
        },
        _ => None,
    }
}

/// A process's state, nice value and thread count.
pub fn read_status(stat: &str) -> (r: Result<(char, i32, u32), i32>)
    ensures
        match stat_status(stat@) {
            Some(v) => r matches Ok(t) && t.0 == v.0 && t.1 as int == v.1 && t.2 as nat == v.2,
            None => r == Err::<(char, i32, u32), i32>(platform_errno(Errno::Einval)),
        },
{
    let cs = str_chars(stat);
    let state = match stat_field_span(&cs, 0) {
        Some((a, b)) => {
            if a < b {
                cs[a]
            } else {
                return Err(errno_code(Errno::Einval));
            }
        },
        None => return Err(errno_code(Errno::Einval)),
    };
    let nice = match stat_field_span(&cs, 16) {
        Some((a, b)) => match parse_i32_in(&cs, a, b) {
            Some(v) => v,
            None => return Err(errno_code(Errno::Einval)),
        },
        None => return Err(errno_code(Errno::Einval)),
    };
    let threads = match stat_uint_in(&cs, 17, u32::MAX as u64) {
        Ok(v) => v as u32,
        Err(e) => return Err(e),
    };
    Ok((state, nice, threads))
}

} // verus!

verus! {

/// Where the first NUL at or after `i` is, or the end of `b`.
pub open spec fn nul_or_end(b: Seq<u8>, i: int) -> int {
    match find_from(b, i, ByteClass::Nul, true) {
        Some(j) => j,
        None => b.len() as int,
    }
}

fn nul_or_end_in(b: &[u8], i: usize) -> (r: usize)
    requires
        i <= b@.len(),
    ensures
        r as int == nul_or_end(b@, i as int),
        i <= r <= b@.len(),
{
    proof { lemma_find_from(b@, i as int, ByteClass::Nul, true); }
    match find_in(b, i, ByteClass::Nul, true) {
        Some(j) => j,
        None => b.len(),
    }
}

/// `argv[0]` of a command line: the bytes before its first NUL.
pub open spec fn first_arg(b: Seq<u8>) -> Seq<u8> {
    b.take(nul_or_end(b, 0))
}

/// The part of a path after its last `/` (all of it when there is none).
pub open spec fn basename(t: Seq<char>) -> Seq<char> {
    match rfind_char(t, 0, t.len() as int, '/') {
        Some(k) => t.subrange(k + 1, t.len() as int),
        None => t,
    }
}

/// The name a process row carries: the base name of `argv[0]` when the
/// command line was read and both are non-empty, else the stat line's
/// command name, else the pid in decimal; tabs and line breaks become
/// spaces.
pub open spec fn process_name_of(pid: u32, stat: Seq<char>, cmdline: Option<Seq<u8>>) -> Seq<char> {
    let from_argv: Option<Seq<char>> = match cmdline {
        Some(b) => {
            let a = first_arg(b);
            if a.len() > 0 {
                argv0_name_of(utf8_lossy(a))
            } else {
                None
            }
        },
        None => None,
    };
    match from_argv {
        Some(name) => name,
        None => sanitized(
            match comm(stat) {
                Some(c) => c,
                None => decimal(pid as nat),
            },
        ),
    }
}

/// The row name `argv[0]` gives, once decoded: its base name with tabs
/// and line breaks made spaces, or nothing when the base name is empty.
pub open spec fn argv0_name_of(argv0: Seq<char>) -> Option<Seq<char>> {
    if basename(argv0).len() > 0 {
        Some(sanitized(basename(argv0)))
    } else {
        None
    }
}

/// The row name of a decoded `argv[0]`.
pub fn argv0_name(argv0: &str) -> (r: Option<String>)
    ensures
        match argv0_name_of(argv0@) {
            Some(n) => r matches Some(s) && s@ == n,
            None => r is None,
        },
{
    let base = basename_string(argv0);
    if base.as_str().is_empty() {
        None
    } else {
        Some(sanitize_name(base.as_str()))
    }
}

fn basename_string(t: &str) -> (r: String)
    ensures
        r@ == basename(t@),
{
    let cs = str_chars(t);
    proof { lemma_rfind_char(cs@, 0, cs@.len() as int, '/'); }
    match rfind_char_in(&cs, 0, cs.len(), '/') {
        Some(k) => string_from(&cs, k + 1, cs.len()),
        None => {
            assert(cs@.subrange(0, cs@.len() as int) =~= cs@);
            string_from(&cs, 0, cs.len())
        },
    }
}

/// The name of a process, from its command line when that was read.
pub fn process_name(pid: u32, stat: &str, cmdline: Result<&[u8], i32>) -> (r: String)
    ensures
        r@ == process_name_of(
            pid,
            stat@,
            match cmdline {
                Ok(b) => Some(b@),
                Err(_) => None,
            },
        ),
{
    if let Ok(bytes) = cmdline {
        let end = nul_or_end_in(bytes, 0);
        if end > 0 {
            let argv0 = slice_prefix(bytes, end);
            let text = lossy_string(argv0.as_slice());
            if let Some(name) = argv0_name(text.as_str()) {
                return name;
            }
        }
    }
    match parse_comm(stat) {
        Some(c) => sanitize_name(c.as_str()),
        None => {
            let digits = decimal_string(pid as u64);
            sanitize_name(digits.as_str())
        },
    }
}

/// The bytes `b[..n]` as a new vector.
fn slice_prefix(b: &[u8], n: usize) -> (v: Vec<u8>)
    requires
        n <= b@.len(),
    ensures
        v@ == b@.take(n as int),
{
    let mut out: Vec<u8> = Vec::new();
    let mut i: usize = 0;
    while i < n
        invariant
            i <= n <= b@.len(),
            out@ == b@.take(i as int),
        decreases n - i,
    {
        out.push(b[i]);
        assert(b@.take(i + 1) =~= b@.take(i as int).push(b@[i as int]));
        i = i + 1;
    }
    out
}

/// The parent pid and name of one process, from its stat line and (when
/// read) its command line; `EINVAL` when the stat line carries no parent
/// pid.
pub fn read_proc(pid: u32, stat: &str, cmdline: Result<&[u8], i32>) -> (r: Result<Proc, i32>)
    ensures
        match stat_uint(stat@, 1, u32::MAX as nat) {
            Some(ppid) => r matches Ok(p) && p.pid == pid && p.ppid as nat == ppid && p.name@
                == process_name_of(
                pid,
                stat@,
                match cmdline {
                    Ok(b) => Some(b@),
                    Err(_) => None,
                },
            ),
            None => r == Err::<Proc, i32>(platform_errno(Errno::Einval)),
        },
{
    let cs = str_chars(stat);
    let ppid = match stat_uint_in(&cs, 1, u32::MAX as u64) {
        Ok(v) => v as u32,
        Err(e) => return Err(e),
    };
    Ok(Proc { pid, ppid, name: process_name(pid, stat, cmdline) })
}

/// The spans of the non-empty NUL-separated arguments of a command line,
/// from `i` on.
pub open spec fn arg_spans(b: Seq<u8>, i: int) -> Seq<(int, int)>
    decreases b.len() + 1 - i,
{
    if i < 0 || i >= b.len() {
        seq![]
    } else {
        proof {
            lemma_find_from(b, i, ByteClass::Nul, true);
            assert(nul_or_end(b, i) >= i);
        }
        let k = nul_or_end(b, i);
        let rest = arg_spans(b, k + 1);
        if k > i {
            seq![(i, k)] + rest
        } else {
            rest
        }
    }
}

/// The arguments of a command line: its non-empty NUL-separated pieces,
/// each decoded lossily.
pub open spec fn argv_of(b: Seq<u8>) -> Seq<Seq<char>> {
    arg_spans(b, 0).map_values(|p: (int, int)| utf8_lossy(b.subrange(p.0, p.1)))
}

/// The full argument vector of a process's command line.
pub fn read_argv(cmdline: &[u8]) -> (r: Vec<String>)
    ensures
        r@.len() == argv_of(cmdline@).len(),
        forall|n: int| 0 <= n < r@.len() ==> (#[trigger] r@[n])@ == argv_of(cmdline@)[n],
{
    let ghost all = arg_spans(cmdline@, 0);
    let mut out: Vec<String> = Vec::new();
    let mut i: usize = 0;
    while i < cmdline.len()
        invariant
            i <= cmdline@.len(),
            all == arg_spans(cmdline@, 0),
            all.len() == out@.len() + arg_spans(cmdline@, i as int).len(),
            forall|n: int|
                0 <= n < out@.len() ==> (#[trigger] out@[n])@ == utf8_lossy(
                    cmdline@.subrange(all[n].0, all[n].1),
                ),
            forall|n: int|
                0 <= n < arg_spans(cmdline@, i as int).len() ==> #[trigger] arg_spans(
                    cmdline@,
                    i as int,
                )[n] == all[out@.len() + n],
        decreases cmdline@.len() - i,
    {
        let k = nul_or_end_in(cmdline, i);
        let ghost rest = arg_spans(cmdline@, k + 1);
        if k > i {
            proof {
                assert(arg_spans(cmdline@, i as int) == seq![(i as int, k as int)] + rest);
                assert(arg_spans(cmdline@, i as int)[0] == (i as int, k as int));
                assert forall|n: int| 0 <= n < rest.len() implies #[trigger] rest[n] == all[out@.len() + 1 + n] by {
                    assert(arg_spans(cmdline@, i as int)[n + 1] == rest[n]);
                }
            }
            let piece = slice_range(cmdline, i, k);
            out.push(lossy_string(piece.as_slice()));
        } else {
            proof {
                assert(arg_spans(cmdline@, i as int) == rest);
            }
        }
        if k >= cmdline.len() {
            assert(arg_spans(cmdline@, k + 1).len() == 0);
            i = cmdline.len();
            assert(arg_spans(cmdline@, i as int).len() == 0);
        } else {
            i = k + 1;
        }
    }
    assert(arg_spans(cmdline@, i as int).len() == 0);
    out
}

/// The bytes `b[lo..hi]` as a new vector.
fn slice_range(b: &[u8], lo: usize, hi: usize) -> (v: Vec<u8>)
    requires
        lo <= hi <= b@.len(),
    ensures
        v@ == b@.subrange(lo as int, hi as int),
{
    let mut out: Vec<u8> = Vec::new();
    let mut i = lo;
    while i < hi
        invariant
            lo <= i <= hi <= b@.len(),
            out@ == b@.subrange(lo as int, i as int),
        decreases hi - i,
    {
        out.push(b[i]);
        assert(b@.subrange(lo as int, i + 1) =~= b@.subrange(lo as int, i as int).push(b@[i as int]));
        i = i + 1;
    }
    out
}

} // verus!

verus! {

/// The span `span` of `s` starts with `p`.
pub open spec fn span_starts(s: Seq<char>, span: (int, int), p: Seq<char>) -> bool {
    p.len() <= span.1 - span.0 && s.subrange(span.0, span.0 + p.len()) == p
}

/// The rest, after `p`, of the first of `lines` (from the `n`th on) that
/// starts with `p`.
pub open spec fn first_prefixed(s: Seq<char>, lines: Seq<(int, int)>, p: Seq<char>, n: int) -> Option<
    (int, int),
>
    decreases lines.len() - n,
{
    if n < 0 || n >= lines.len() {
        None
    } else if span_starts(s, lines[n], p) {
        Some((lines[n].0 + p.len(), lines[n].1))
    } else {
        first_prefixed(s, lines, p, n + 1)
    }
}

/// The rest, after `p`, of the first line of `s` that starts with `p`.
pub open spec fn prefixed_line(s: Seq<char>, p: Seq<char>) -> Option<(int, int)> {
    first_prefixed(s, line_spans(s, 0, s.len() as int), p, 0)
}

/// The span after `prefix` of the first line of `cs` that starts with it.
fn prefixed_line_in(cs: &[char], prefix: &str) -> (r: Option<(usize, usize)>)
    ensures
        match prefixed_line(cs@, prefix@) {
            Some(p) => r matches Some(q) && q.0 as int == p.0 && q.1 as int == p.1 && p.0 <= p.1
                <= cs@.len(),
            None => r is None,
        },
{
    let pc = str_chars(prefix);
    let lines = line_spans_in(cs, 0, cs.len());
    let ghost all = line_spans(cs@, 0, cs@.len() as int);
    let mut n: usize = 0;
    while n < lines.len()
        invariant
            n <= lines@.len(),
            pc@ == prefix@,
            all == line_spans(cs@, 0, cs@.len() as int),
            lines@.len() == all.len(),
            forall|m: int|
                0 <= m < lines@.len() ==> (#[trigger] lines@[m]).0 as int == all[m].0 && lines@[m].1 as int
                    == all[m].1,
            forall|m: int| 0 <= m < lines@.len() ==> 0 <= (#[trigger] lines@[m]).0 <= lines@[m].1 <= cs@.len(),
            first_prefixed(cs@, all, prefix@, 0) == first_prefixed(cs@, all, prefix@, n as int),
        decreases lines@.len() - n,
    {
        let (a, b) = lines[n];
        if span_starts_with(cs, a, b, prefix) {
            assert(span_starts(cs@, all[n as int], prefix@));
            return Some((a + pc.len(), b));
        }
        n = n + 1;
    }
    None
}

/// The real uid a `/proc/<pid>/status` text reports: the first field
/// after `Uid:` on its first `Uid:` line.
pub open spec fn status_uid(s: Seq<char>) -> Option<nat> {
    match prefixed_line(s, "Uid:"@) {
        Some(p) => {
            let f = fields(s, p.0, p.1);
            if f.len() > 0 {
                parse_uint(f[0], 10, u32::MAX as nat)
            } else {
                None
            }
        },
        None => None,
    }
}

/// A process's real uid, from its status text.
pub fn read_uid(status: &str) -> (r: Result<u32, i32>)
    ensures
        match status_uid(status@) {
            Some(v) => r == Ok::<u32, i32>(v as u32),
            None => r == Err::<u32, i32>(platform_errno(Errno::Einval)),
        },
{
    let cs = str_chars(status);
    match prefixed_line_in(&cs, "Uid:") {
        Some((a, b)) => match nth_field_span(&cs, a, b, 0) {
            Some((x, y)) => match parse_uint_in(&cs, x, y, 10, u32::MAX as u64) {
                Some(v) => Ok(v as u32),
                None => Err(errno_code(Errno::Einval)),
            },
            None => Err(errno_code(Errno::Einval)),
        },
        None => Err(errno_code(Errno::Einval)),
    }
}

/// The boot time, in seconds since the epoch, that `/proc/stat` reports:
/// the rest of its first `btime ` line.
pub open spec fn btime(s: Seq<char>) -> Option<nat> {
    match prefixed_line(s, "btime "@) {
        Some(p) => parse_uint(s.subrange(p.0, p.1), 10, u64::MAX as nat),
        None => None,
    }
}

/// The boot time in seconds, from the text of `/proc/stat`.
pub fn boot_time_secs(stat: &str) -> (r: Result<u64, i32>)
    ensures
        match btime(stat@) {
            Some(v) => r == Ok::<u64, i32>(v as u64),
            None => r == Err::<u64, i32>(platform_errno(Errno::Einval)),
        },
{
    let cs = str_chars(stat);
    match prefixed_line_in(&cs, "btime ") {
        Some((a, b)) => match parse_uint_in(&cs, a, b, 10, u64::MAX) {
            Some(v) => Ok(v),
            None => Err(errno_code(Errno::Einval)),
        },
        None => Err(errno_code(Errno::Einval)),
    }
}

/// The boot time in microseconds, from the text of `/proc/stat`.
pub fn boot_time_us(stat: &str) -> (r: Result<u64, i32>)
    requires
        btime(stat@) matches Some(v) ==> v * 1_000_000 <= u64::MAX,
    ensures
        match btime(stat@) {
            Some(v) => r == Ok::<u64, i32>((v * 1_000_000) as u64),
            None => r == Err::<u64, i32>(platform_errno(Errno::Einval)),
        },
{
    match boot_time_secs(stat) {
        Ok(secs) => Ok(secs * 1_000_000),
        Err(e) => Err(e),
    }
}

/// The six microsecond digits of a fraction: its first six characters,
/// padded with `0` to six.
pub open spec fn micros_text(frac: Seq<char>) -> Seq<char> {
    let t = if frac.len() > 6 {
        frac.take(6)
    } else {
        frac
    };
    t + Seq::new((6 - t.len()) as nat, |i: int| '0')
}

/// The whole seconds and microseconds of a decimal seconds text such as
/// `12345.67`: the part before the first `.`, and the part after it read
/// to six places (no `.` means no fraction).
pub open spec fn decimal_seconds(s: Seq<char>) -> Option<(nat, nat)> {
    let (whole, frac) = match find_char(s, 0, s.len() as int, '.') {
        Some(k) => (s.take(k), s.skip(k + 1)),
        None => (s, Seq::<char>::empty()),
    };
    match (parse_uint(whole, 10, u64::MAX as nat), parse_uint(micros_text(frac), 10, u64::MAX as nat)) {
        (Some(w), Some(m)) => Some((w, m)),
        _ => None,
    }
}

/// The whole seconds and microseconds of a decimal seconds text.
pub fn decimal_seconds_parts(s: &str) -> (r: Option<(u64, u64)>)
    ensures
        match decimal_seconds(s@) {
            Some(v) => r == Some((v.0 as u64, v.1 as u64)),
            None => r is None,
        },
{
    let cs = str_chars(s);
    proof { lemma_find_char(cs@, 0, cs@.len() as int, '.'); }
    let (whole_end, frac_start) = match find_char_in(&cs, 0, cs.len(), '.') {
        Some(k) => (k, k + 1),
        None => (cs.len(), cs.len()),
    };
    assert(cs@.subrange(0, whole_end as int) =~= match find_char(cs@, 0, cs@.len() as int, '.') {
        Some(k) => cs@.take(k),
        None => cs@,
    });
    let whole = match parse_uint_in(&cs, 0, whole_end, 10, u64::MAX) {
        Some(v) => v,
        None => return None,
    };
    let ghost frac = cs@.subrange(frac_start as int, cs@.len() as int);
    assert(frac =~= match find_char(cs@, 0, cs@.len() as int, '.') {
        Some(k) => cs@.skip(k + 1),
        None => Seq::<char>::empty(),
    });
    let mut micros: Vec<char> = Vec::new();
    let mut i = frac_start;
    while i < cs.len() && micros.len() < 6
        invariant
            frac_start <= i <= cs@.len(),
            frac == cs@.subrange(frac_start as int, cs@.len() as int),
            micros@ == frac.take(i - frac_start),
            micros@.len() <= 6,
        decreases cs@.len() - i,
    {
        micros.push(cs[i]);
        assert(frac.take(i + 1 - frac_start) =~= frac.take(i - frac_start).push(cs@[i as int]));
        i = i + 1;
    }
    let ghost taken = micros@;
    assert(taken == if frac.len() > 6 { frac.take(6) } else { frac }) by {
        if frac.len() > 6 {
            assert(micros@.len() == 6);
        } else {
            assert(i == cs@.len());
            assert(frac.take(frac.len() as int) =~= frac);
        }
    }
    while micros.len() < 6
        invariant
            micros@.len() <= 6,
            taken.len() <= micros@.len(),
            micros@ == taken + Seq::new((micros@.len() - taken.len()) as nat, |j: int| '0'),
        decreases 6 - micros@.len(),
    {
        micros.push('0');
        assert(micros@ =~= taken + Seq::new((micros@.len() - taken.len()) as nat, |j: int| '0'));
    }
    assert(micros@ =~= micros_text(frac));
    assert(micros@.subrange(0, 6) =~= micros@);
    let fraction = match parse_uint_in(&micros, 0, 6, 10, u64::MAX) {
        Some(v) => v,
        None => return None,
    };
    Some((whole, fraction))
}

/// Decimal seconds in microseconds; `EINVAL` when either part is not a
/// number.
pub fn decimal_seconds_to_us(s: &str) -> (r: Result<u64, i32>)
    requires
        decimal_seconds(s@) matches Some(v) ==> v.0 * 1_000_000 + v.1 <= u64::MAX,
    ensures
        match decimal_seconds(s@) {
            Some(v) => r == Ok::<u64, i32>((v.0 * 1_000_000 + v.1) as u64),
            None => r == Err::<u64, i32>(platform_errno(Errno::Einval)),
        },
{
    match decimal_seconds_parts(s) {
        Some((whole, fraction)) => Ok(whole * 1_000_000 + fraction),
        None => Err(errno_code(Errno::Einval)),
    }
}

/// The uptime `/proc/uptime` reports: its first field, in decimal seconds.
pub open spec fn uptime(s: Seq<char>) -> Option<(nat, nat)> {
    let f = fields(s, 0, s.len() as int);
    if f.len() > 0 {
        decimal_seconds(f[0])
    } else {
        None
    }
}

/// The whole seconds and microseconds of the uptime `/proc/uptime`
/// reports.
pub fn uptime_parts(text: &str) -> (r: Option<(u64, u64)>)
    ensures
        match uptime(text@) {
            Some(v) => r == Some((v.0 as u64, v.1 as u64)),
            None => r is None,
        },
{
    let cs = str_chars(text);
    match nth_field_span(&cs, 0, cs.len(), 0) {
        Some((a, b)) => {
            let first = string_from(&cs, a, b);
            decimal_seconds_parts(first.as_str())
        },
        None => None,
    }
}

/// The uptime, in microseconds, from the text of `/proc/uptime`.
pub fn uptime_us(text: &str) -> (r: Result<u64, i32>)
    requires
        uptime(text@) matches Some(v) ==> v.0 * 1_000_000 + v.1 <= u64::MAX,
    ensures
        match uptime(text@) {
            Some(v) => r == Ok::<u64, i32>((v.0 * 1_000_000 + v.1) as u64),
            None => r == Err::<u64, i32>(platform_errno(Errno::Einval)),
        },
{
    let cs = str_chars(text);
    match nth_field_span(&cs, 0, cs.len(), 0) {
        Some((a, b)) => {
            let first = string_from(&cs, a, b);
            decimal_seconds_to_us(first.as_str())
        },
        None => Err(errno_code(Errno::Einval)),
    }
}

} // verus!

verus! {

/// One listening TCP socket as `/proc/net/tcp{,6}` reports it.
#[derive(Debug, Clone, PartialEq, Eq)]
pub struct Listener {
    pub inode: u64,
    pub uid: u32,
    pub port: u16,
    pub addr: Vec<u8>,
}

/// A listener by value: inode, uid, port and address bytes.
pub open spec fn listener_view(l: Listener) -> (u64, u32, u16, Seq<u8>) {
    (l.inode, l.uid, l.port, l.addr@)
}

/// Listeners by value.
pub open spec fn listener_views(s: Seq<Listener>) -> Seq<(u64, u32, u16, Seq<u8>)> {
    s.map_values(|l: Listener| listener_view(l))
}

/// `s[lo..hi]` holds `p` somewhere.
pub open spec fn span_contains(s: Seq<char>, lo: int, hi: int, p: Seq<char>) -> bool {
    exists|k: int| lo <= k && k + p.len() <= hi && #[trigger] s.subrange(k, k + p.len()) == p
}

fn span_contains_in(cs: &[char], lo: usize, hi: usize, p: &str) -> (r: bool)
    requires
        lo <= hi <= cs@.len(),
    ensures
        r == span_contains(cs@, lo as int, hi as int, p@),
{
    let pc = str_chars(p);
    if pc.len() > hi - lo {
        assert forall|k: int| lo <= k && k + p@.len() <= hi implies #[trigger] cs@.subrange(
            k,
            k + p@.len(),
        ) != p@ by {}
        return false;
    }
    if pc.len() == 0 {
        assert(cs@.subrange(lo as int, lo + p@.len()) =~= p@);
        return true;
    }
    let mut k = lo;
    while pc.len() <= hi - k
        invariant
            lo <= k <= hi,
            pc@ == p@,
            pc@.len() > 0,
            hi <= cs@.len(),
            forall|j: int| lo <= j < k ==> #[trigger] cs@.subrange(j, j + p@.len()) != p@,
        decreases hi - k,
    {
        if span_equals(cs, k, k + pc.len(), p) {
            return true;
        }
        k = k + 1;
    }
    assert forall|j: int| lo <= j && j + p@.len() <= hi implies #[trigger] cs@.subrange(
        j,
        j + p@.len(),
    ) != p@ by {}
    false
}

/// The first of `lines`, from the `n`th on, holding `p`.
pub open spec fn first_containing(s: Seq<char>, lines: Seq<(int, int)>, p: Seq<char>, n: int) -> Option<
    int,
>
    decreases lines.len() - n,
{
    if n < 0 || n >= lines.len() {
        None
    } else if span_contains(s, lines[n].0, lines[n].1, p) {
        Some(n)
    } else {
        first_containing(s, lines, p, n + 1)
    }
}

/// The listener one row of a `/proc/net/tcp` table describes, when the row
/// has at least ten columns, is in state `0A` (listen), and its local
/// `ADDR:PORT`, uid and inode all read, with a non-zero port and inode.
pub open spec fn listener_row(s: Seq<char>, line: (int, int)) -> Option<(u64, u32, u16, Seq<u8>)> {
    let cols = fields(s, line.0, line.1);
    if cols.len() < 10 || cols[3] != "0A"@ {
        None
    } else {
        let local = cols[1];
        match rfind_char(local, 0, local.len() as int, ':') {
            None => None,
            Some(c) => {
                let hex_addr = local.take(c);
                let hex_port = local.skip(c + 1);
                match (
                    parse_uint(hex_port, 16, u16::MAX as nat),
                    spec_decode_proc_hex(hex_addr),
                    parse_uint(cols[7], 10, u32::MAX as nat),
                    parse_uint(cols[9], 10, u64::MAX as nat),
                ) {
                    (Some(port), Ok(addr), Some(uid), Some(inode)) => if port > 0 && inode > 0 {
                        Some((inode as u64, uid as u32, port as u16, addr))
                    } else {
                        None
                    },
                    _ => None,
                }
            },
        }
    }
}

/// The listeners of `lines[n..]`, in order.
pub open spec fn listener_rows(s: Seq<char>, lines: Seq<(int, int)>, n: int) -> Seq<
    (u64, u32, u16, Seq<u8>),
>
    decreases lines.len() - n,
{
    if n < 0 || n >= lines.len() {
        seq![]
    } else {
        let rest = listener_rows(s, lines, n + 1);
        match listener_row(s, lines[n]) {
            Some(l) => seq![l] + rest,
            None => rest,
        }
    }
}

/// The listeners a `/proc/net/tcp{,6}` table lists, in table order: the
/// rows after its header line (the first line holding `local_address`);
/// `None` when there is no header.
pub open spec fn proc_net_listeners(s: Seq<char>) -> Option<Seq<(u64, u32, u16, Seq<u8>)>> {
    let lines = line_spans(s, 0, s.len() as int);
    match first_containing(s, lines, "local_address"@, 0) {
        Some(h) => Some(listener_rows(s, lines, h + 1)),
        None => None,
    }
}

fn listener_row_in(cs: &[char], a: usize, b: usize) -> (r: Option<Listener>)
    requires
        a <= b <= cs@.len(),
    ensures
        match listener_row(cs@, (a as int, b as int)) {
            Some(v) => r matches Some(l) && listener_view(l) == v,
            None => r is None,
        },
{
    let cols = field_spans_in(cs, a, b);
    let ghost f = fields(cs@, a as int, b as int);
    let ghost spans = field_spans(cs@, a as int, b as int);
    assert(f.len() == cols@.len());
    if cols.len() < 10 {
        return None;
    }
    proof {
        assert forall|n: int| 0 <= n < cols@.len() implies f[n] == cs@.subrange(
            (#[trigger] cols@[n]).0 as int,
            cols@[n].1 as int,
        ) by {
            assert(f[n] == cs@.subrange(spans[n].0, spans[n].1));
        }
    }
    let (s3a, s3b) = cols[3];
    if !span_equals(cs, s3a, s3b, "0A") {
        return None;
    }
    let (la, lb) = cols[1];
    let ghost local = cs@.subrange(la as int, lb as int);
    proof { lemma_rfind_char(cs@, la as int, lb as int, ':'); }
    let colon = match rfind_char_in(cs, la, lb, ':') {
        Some(c) => c,
        None => {
            proof {
                lemma_rfind_char(local, 0, local.len() as int, ':');
                if rfind_char(local, 0, local.len() as int, ':') is Some {
                    let c = rfind_char(local, 0, local.len() as int, ':')->0;
                    assert(cs@[la + c] == local[c]);
                }
            }
            return None;
        },
    };
    proof {
        lemma_rfind_char(local, 0, local.len() as int, ':');
        let c = colon - la;
        assert(local[c] == ':');
        assert forall|k: int| c < k < local.len() implies local[k] != ':' by {
            assert(local[k] == cs@[la + k]);
        }
        assert(rfind_char(local, 0, local.len() as int, ':') == Some(c)) by {
            match rfind_char(local, 0, local.len() as int, ':') {
                Some(j) => {
                    if j < c {
                    } else if j > c {
                        assert(local[j] == cs@[la + j]);
                    }
                },
                None => {},
            }
        }
        assert(local.take(c) =~= cs@.subrange(la as int, colon as int));
        assert(local.skip(c + 1) =~= cs@.subrange(colon + 1, lb as int));
    }
    let port = parse_uint_in(cs, colon + 1, lb, 16, u16::MAX as u64);
    let hex_addr = string_from(cs, la, colon);
    let addr = decode_proc_hex(hex_addr.as_str());
    let (s7a, s7b) = cols[7];
    let (s9a, s9b) = cols[9];
    let uid = parse_uint_in(cs, s7a, s7b, 10, u32::MAX as u64);
    let inode = parse_uint_in(cs, s9a, s9b, 10, u64::MAX);
    match (port, addr, uid, inode) {
        (Some(port), Ok(addr), Some(uid), Some(inode)) => {
            if port > 0 && inode > 0 {
                Some(Listener { inode, uid: uid as u32, port: port as u16, addr })
            } else {
                None
            }
        },
        _ => None,
    }
}

/// Appends the listeners of a `/proc/net/tcp{,6}` table, in table order;
/// `Err` (and nothing appended) when the table has no header line.
pub fn parse_proc_net(body: &str, out: &mut Vec<Listener>) -> (r: Result<(), ()>)
    ensures
        match proc_net_listeners(body@) {
            Some(rows) => r is Ok && final(out)@.len() == old(out)@.len() + rows.len()
                && final(out)@.take(old(out)@.len() as int) == old(out)@ && forall|n: int|
                0 <= n < rows.len() ==> listener_view(
                #[trigger] final(out)@[old(out)@.len() + n],
            ) == rows[n],
            None => r is Err && final(out)@ == old(out)@,
        },
{
    let cs = str_chars(body);
    let lines = line_spans_in(&cs, 0, cs.len());
    let ghost all = line_spans(cs@, 0, cs@.len() as int);
    let mut h: usize = 0;
    let mut found = false;
    while h < lines.len() && !found
        invariant
            h <= lines@.len(),
            all == line_spans(cs@, 0, cs@.len() as int),
            lines@.len() == all.len(),
            forall|m: int|
                0 <= m < lines@.len() ==> (#[trigger] lines@[m]).0 as int == all[m].0 && lines@[m].1 as int
                    == all[m].1,
            forall|m: int| 0 <= m < lines@.len() ==> 0 <= (#[trigger] lines@[m]).0 <= lines@[m].1 <= cs@.len(),
            first_containing(cs@, all, "local_address"@, 0) == first_containing(
                cs@,
                all,
                "local_address"@,
                h as int,
            ),
            found ==> h < lines@.len() && span_contains(
                cs@,
                all[h as int].0,
                all[h as int].1,
                "local_address"@,
            ),
        decreases lines@.len() - h + (if found {
            0int
        } else {
            1int
        }),
    {
        let (a, b) = lines[h];
        if span_contains_in(&cs, a, b, "local_address") {
            found = true;
        } else {
            h = h + 1;
        }
    }
    if !found {
        return Err(());
    }
    assert(first_containing(cs@, all, "local_address"@, 0) == Some(h as int));
    let ghost start = out@;
    let ghost rows = listener_rows(cs@, all, h + 1);
    let mut n = h + 1;
    while n < lines.len()
        invariant
            h < n <= lines@.len(),
            all == line_spans(cs@, 0, cs@.len() as int),
            lines@.len() == all.len(),
            forall|m: int|
                0 <= m < lines@.len() ==> (#[trigger] lines@[m]).0 as int == all[m].0 && lines@[m].1 as int
                    == all[m].1,
            forall|m: int| 0 <= m < lines@.len() ==> 0 <= (#[trigger] lines@[m]).0 <= lines@[m].1 <= cs@.len(),
            rows == listener_rows(cs@, all, h + 1),
            out@.take(start.len() as int) == start,
            out@.len() >= start.len(),
            rows.len() == (out@.len() - start.len()) + listener_rows(cs@, all, n as int).len(),
            forall|k: int|
                0 <= k < out@.len() - start.len() ==> listener_view(#[trigger] out@[start.len() + k])
                    == rows[k],
            forall|k: int|
                0 <= k < listener_rows(cs@, all, n as int).len() ==> #[trigger] listener_rows(
                    cs@,
                    all,
                    n as int,
                )[k] == rows[(out@.len() - start.len()) + k],
        decreases lines@.len() - n,
    {
        let (a, b) = lines[n];
        let ghost rest = listener_rows(cs@, all, n + 1);
        let ghost done = out@.len() - start.len();
        match listener_row_in(&cs, a, b) {
            Some(l) => {
                proof {
                    assert(listener_rows(cs@, all, n as int) == seq![listener_view(l)] + rest);
                    assert(listener_rows(cs@, all, n as int)[0] == listener_view(l));
                    assert forall|k: int| 0 <= k < rest.len() implies #[trigger] rest[k] == rows[done + 1 + k] by {
                        assert(listener_rows(cs@, all, n as int)[k + 1] == rest[k]);
                    }
                }
                let ghost before = out@;
                out.push(l);
                proof {
                    assert(out@.take(start.len() as int) =~= start) by {
                        assert(before.take(start.len() as int) == start);
                        assert forall|k: int| 0 <= k < start.len() implies out@[k] == start[k] by {
                            assert(before.take(start.len() as int)[k] == start[k]);
                        }
                    }
                    assert forall|k: int| 0 <= k < out@.len() - start.len() implies listener_view(
                        #[trigger] out@[start.len() + k],
                    ) == rows[k] by {
                        if k < done {
                            assert(out@[start.len() + k] == before[start.len() + k]);
                        }
                    }
                }
            },
            None => {
                proof {
                    assert(listener_rows(cs@, all, n as int) == rest);
                }
            },
        }
        n = n + 1;
    }
    proof {
        assert(proc_net_listeners(body@) == Some(rows));
    }
    Ok(())
}

} // verus!

verus! {

/// Listener rows with every repeated inode after its first row dropped:
/// the inode is the socket's identity.
pub open spec fn unique_inodes(rows: Seq<(u64, u32, u16, Seq<u8>)>) -> Seq<(u64, u32, u16, Seq<u8>)>
    decreases rows.len(),
{
    if rows.len() == 0 {
        rows
    } else {
        let d = unique_inodes(rows.drop_last());
        if exists|i: int| 0 <= i < d.len() && (#[trigger] d[i]).0 == rows.last().0 {
            d
        } else {
            d.push(rows.last())
        }
    }
}

/// Drops every listener whose inode an earlier one already carries.
pub fn dedup_inodes(rows: Vec<Listener>) -> (r: Vec<Listener>)
    ensures
        listener_views(r@) == unique_inodes(
            listener_views(rows@),
        ),
{
    let ghost views = listener_views(rows@);
    let mut out: Vec<Listener> = Vec::new();
    let mut i: usize = 0;
    while i < rows.len()
        invariant
            i <= rows@.len(),
            views == listener_views(rows@),
            listener_views(out@) == unique_inodes(views.take(i as int)),
        decreases rows@.len() - i,
    {
        let ghost d = listener_views(out@);
        let inode = rows[i].inode;
        let mut seen = false;
        let mut j: usize = 0;
        while j < out.len()
            invariant
                j <= out@.len(),
                d == listener_views(out@),
                seen == exists|k: int| 0 <= k < j && (#[trigger] d[k]).0 == inode,
            decreases out@.len() - j,
        {
            if out[j].inode == inode {
                assert(d[j as int].0 == inode);
                seen = true;
            }
            j = j + 1;
        }
        proof {
            assert(views.take(i + 1).drop_last() =~= views.take(i as int));
            assert(views.take(i + 1).last() == listener_view(rows@[i as int]));
        }
        if !seen {
            let row = rows[i].clone_listener();
            out.push(row);
            assert(listener_views(out@) =~= d.push(
                listener_view(rows@[i as int]),
            ));
        }
        i = i + 1;
    }
    assert(views.take(rows@.len() as int) =~= views);
    out
}

impl Listener {
    /// A copy of this listener.
    pub fn clone_listener(&self) -> (r: Listener)
        ensures
            listener_view(r) == listener_view(*self),
    {
        let mut addr: Vec<u8> = Vec::new();
        let mut i: usize = 0;
        while i < self.addr.len()
            invariant
                i <= self.addr@.len(),
                addr@ == self.addr@.take(i as int),
            decreases self.addr@.len() - i,
        {
            addr.push(self.addr[i]);
            assert(self.addr@.take(i + 1) =~= self.addr@.take(i as int).push(self.addr@[i as int]));
            i = i + 1;
        }
        assert(self.addr@.take(self.addr@.len() as int) =~= self.addr@);
        Listener { inode: self.inode, uid: self.uid, port: self.port, addr }
    }
}

/// The outcome of reading the two listener tables: the listeners of
/// `/proc/net/tcp` then `/proc/net/tcp6`, one per inode, or the source that
/// failed and its errno. A missing `tcp6` (`ENOENT`, no IPv6) is no
/// failure; a table without its header reports `EIO`.
pub open spec fn listeners_outcome(tcp: Result<Seq<char>, i32>, tcp6: Result<Seq<char>, i32>) -> Result<
    Seq<(u64, u32, u16, Seq<u8>)>,
    (Seq<char>, i32),
> {
    match tcp {
        Err(e) => Err(("proc_net_tcp"@, e)),
        Ok(t) => match proc_net_listeners(t) {
            None => Err(("proc_net_tcp"@, platform_errno(Errno::Eio))),
            Some(a) => match tcp6 {
                Err(e) => if e == platform_errno(Errno::Enoent) {
                    Ok(unique_inodes(a))
                } else {
                    Err(("proc_net_tcp6"@, e))
                },
                Ok(t6) => match proc_net_listeners(t6) {
                    None => Err(("proc_net_tcp6"@, platform_errno(Errno::Eio))),
                    Some(b) => Ok(unique_inodes(a + b)),
                },
            },
        },
    }
}

/// Every listening TCP socket, from the text of `/proc/net/tcp` and
/// `/proc/net/tcp6` (or the errno reading each failed with).
pub fn load_listeners(tcp: Result<&str, i32>, tcp6: Result<&str, i32>) -> (r: Result<
    Vec<Listener>,
    (&'static str, i32),
>)
    ensures
        match listeners_outcome(
            match tcp {
                Ok(t) => Ok(t@),
                Err(e) => Err(e),
            },
            match tcp6 {
                Ok(t) => Ok(t@),
                Err(e) => Err(e),
            },
        ) {
            Ok(rows) => r matches Ok(v) && listener_views(v@) == rows,
            Err(f) => r matches Err(g) && g.0@ == f.0 && g.1 == f.1,
        },
{
    let mut out: Vec<Listener> = Vec::new();
    let body = match tcp {
        Ok(t) => t,
        Err(e) => return Err(("proc_net_tcp", e)),
    };
    if parse_proc_net(body, &mut out).is_err() {
        return Err(("proc_net_tcp", errno_code(Errno::Eio)));
    }
    let ghost out1 = out@;
    let ghost a = proc_net_listeners(body@)->0;
    proof {
        assert forall|k: int| 0 <= k < a.len() implies listener_view(out1[k]) == a[k] by {
            assert(listener_view(out1[0 + k]) == a[k]);
        }
        assert(listener_views(out1) =~= a);
    }
    match tcp6 {
        Ok(body6) => {
            if parse_proc_net(body6, &mut out).is_err() {
                return Err(("proc_net_tcp6", errno_code(Errno::Eio)));
            }
            proof {
                let b = proc_net_listeners(body6@)->0;
                assert forall|k: int| 0 <= k < out@.len() implies #[trigger] listener_views(out@)[k]
                    == (a + b)[k] by {
                    if k < a.len() {
                        assert(out@.take(out1.len() as int)[k] == out@[k]);
                        assert(listener_view(out1[k]) == a[k]);
                    } else {
                        assert(listener_view(out@[out1.len() + (k - a.len())]) == b[k - a.len()]);
                    }
                }
                assert(listener_views(out@) =~= a + b);
            }
        },
        Err(e) => {
            if e != errno_code(Errno::Enoent) {
                return Err(("proc_net_tcp6", e));
            }
        },
    }
    Ok(dedup_inodes(out))
}

} // verus!

verus! {

/// The first of the readable pids whose socket inodes hold `inode`.
pub open spec fn claimant(holdings: Seq<(u32, Seq<u64>)>, inode: u64) -> Option<u32>
    decreases holdings.len(),
{
    if holdings.len() == 0 {
        None
    } else if holdings[0].1.contains(inode) {
        Some(holdings[0].0)
    } else {
        claimant(holdings.drop_first(), inode)
    }
}

/// The readable pids and their socket inodes, by value.
pub open spec fn holdings_view(h: Seq<(u32, Vec<u64>)>) -> Seq<(u32, Seq<u64>)> {
    h.map_values(|e: (u32, Vec<u64>)| (e.0, e.1@))
}

/// The attribution of a socket: the first readable pid holding it, or
/// nobody.
pub open spec fn attribution_of(holdings: Seq<(u32, Seq<u64>)>, inode: u64) -> Attribution {
    match claimant(holdings, inode) {
        Some(pid) => Attribution::Claimed { pid },
        None => Attribution::Unclaimed,
    }
}

fn claimant_in(holdings: &[(u32, Vec<u64>)], inode: u64) -> (r: Option<u32>)
    ensures
        r == claimant(holdings_view(holdings@), inode),
{
    let ghost h = holdings_view(holdings@);
    assert(h.skip(0) =~= h);
    let mut i: usize = 0;
    while i < holdings.len()
        invariant
            i <= holdings@.len(),
            h == holdings_view(holdings@),
            claimant(h, inode) == claimant(h.skip(i as int), inode),
        decreases holdings@.len() - i,
    {
        let inodes = &holdings[i].1;
        let mut found = false;
        let mut j: usize = 0;
        while j < inodes.len()
            invariant
                j <= inodes@.len(),
                found == inodes@.take(j as int).contains(inode),
            decreases inodes@.len() - j,
        {
            proof {
                let t = inodes@.take(j + 1);
                assert(t =~= inodes@.take(j as int).push(inodes@[j as int]));
                if inodes@[j as int] == inode {
                    assert(t[j as int] == inode);
                } else if t.contains(inode) {
                    let k = choose|k: int| 0 <= k < t.len() && t[k] == inode;
                    assert(inodes@.take(j as int)[k] == inode);
                }
                if inodes@.take(j as int).contains(inode) {
                    let k = choose|k: int| 0 <= k < j && inodes@.take(j as int)[k] == inode;
                    assert(t[k] == inode);
                }
            }
            if inodes[j] == inode {
                found = true;
            }
            j = j + 1;
        }
        proof {
            assert(inodes@.take(inodes@.len() as int) =~= inodes@);
            assert(h.skip(i as int)[0] == (holdings@[i as int].0, inodes@));
            assert(h.skip(i as int).drop_first() =~= h.skip(i + 1));
        }
        if found {
            return Some(holdings[i].0);
        }
        i = i + 1;
    }
    None
}

/// The listener rows of a Linux snapshot: each listener in order, claimed
/// by the first readable pid holding its inode, with its owning uid and
/// its address in hex.
pub fn attribute_listeners(listeners: &[Listener], holdings: &[(u32, Vec<u64>)]) -> (r: Vec<Port>)
    ensures
        r@.len() == listeners@.len(),
        forall|n: int|
            0 <= n < r@.len() ==> {
                let p = #[trigger] r@[n];
                let l = listeners@[n];
                &&& p.attribution == attribution_of(holdings_view(holdings@), l.inode)
                &&& p.uid == Some(l.uid)
                &&& p.port == l.port
                &&& p.address@ == spec_encode_hex(l.addr@)
            },
{
    let mut out: Vec<Port> = Vec::new();
    let mut i: usize = 0;
    while i < listeners.len()
        invariant
            i <= listeners@.len(),
            out@.len() == i,
            forall|n: int|
                0 <= n < i ==> {
                    let p = #[trigger] out@[n];
                    let l = listeners@[n];
                    &&& p.attribution == attribution_of(holdings_view(holdings@), l.inode)
                    &&& p.uid == Some(l.uid)
                    &&& p.port == l.port
                    &&& p.address@ == spec_encode_hex(l.addr@)
                },
        decreases listeners@.len() - i,
    {
        let l = &listeners[i];
        let attribution = match claimant_in(holdings, l.inode) {
            Some(pid) => Attribution::Claimed { pid },
            None => Attribution::Unclaimed,
        };
        out.push(
            Port {
                attribution,
                uid: Some(l.uid),
                port: l.port,
                address: hex_bytes(l.addr.as_slice()),
            },
        );
        i = i + 1;
    }
    out
}

/// The socket inode an fd link target such as `socket:[12345]` names.
pub open spec fn socket_link_inode(target: Seq<char>) -> Option<nat> {
    let p = "socket:["@;
    if target.len() >= p.len() + 1 && target.take(p.len() as int) == p && target.last() == ']' {
        parse_uint(target.subrange(p.len() as int, target.len() - 1), 10, u64::MAX as nat)
    } else {
        None
    }
}

/// The socket inode an fd's link target names, when it names a socket.
pub fn socket_inode(target: &str) -> (r: Option<u64>)
    ensures
        match socket_link_inode(target@) {
            Some(v) => r == Some(v as u64),
            None => r is None,
        },
{
    let cs = str_chars(target);
    let pc = str_chars("socket:[");
    if cs.len() <= pc.len() {
        return None;
    }
    if !span_starts_with(&cs, 0, cs.len(), "socket:[") {
        return None;
    }
    if cs[cs.len() - 1] != ']' {
        return None;
    }
    parse_uint_in(&cs, pc.len(), cs.len() - 1, 10, u64::MAX)
}

} // verus!

verus! {

/// The key and value of one `/proc/meminfo` line: the text before its
/// first `:`, and the first field after it as a number of KiB.
pub open spec fn meminfo_entry(s: Seq<char>, line: (int, int)) -> Option<(Seq<char>, nat)> {
    match find_char(s, line.0, line.1, ':') {
        Some(c) => {
            let f = fields(s, c + 1, line.1);
            if f.len() > 0 {
                match parse_uint(f[0], 10, u64::MAX as nat) {
                    Some(n) => Some((s.subrange(line.0, c), n)),
                    None => None,
                }
            } else {
                None
            }
        },
        None => None,
    }
}

/// The value of the last of `lines[..n]` whose key is `key`.
pub open spec fn meminfo_last(s: Seq<char>, lines: Seq<(int, int)>, key: Seq<char>, n: int) -> Option<
    nat,
>
    decreases n,
{
    if n <= 0 || n > lines.len() {
        None
    } else {
        match meminfo_entry(s, lines[n - 1]) {
            Some(e) => if e.0 == key {
                Some(e.1)
            } else {
                meminfo_last(s, lines, key, n - 1)
            },
            None => meminfo_last(s, lines, key, n - 1),
        }
    }
}

/// The value `/proc/meminfo` gives `key`, in KiB: the last line naming it.
pub open spec fn meminfo_value(s: Seq<char>, key: Seq<char>) -> Option<nat> {
    let lines = line_spans(s, 0, s.len() as int);
    meminfo_last(s, lines, key, lines.len() as int)
}

/// An optional number as a `u64`.
pub open spec fn opt_u64(v: Option<nat>) -> Option<u64> {
    match v {
        Some(x) => Some(x as u64),
        None => None,
    }
}

/// Every value of `/proc/meminfo` converts to bytes within a `u64`.
pub open spec fn meminfo_fits(s: Seq<char>) -> bool {
    let lines = line_spans(s, 0, s.len() as int);
    forall|n: int|
        0 <= n < lines.len() ==> (#[trigger] meminfo_entry(s, lines[n]) matches Some(e) ==> e.1
            * 1024 <= u64::MAX)
}

/// Host RAM and swap as `/proc/meminfo` reports them, in bytes: total and
/// available memory, total swap and swap in use (never below zero).
pub open spec fn host_memory_of(s: Seq<char>) -> Option<(nat, nat, nat, nat)> {
    match (
        meminfo_value(s, "MemTotal"@),
        meminfo_value(s, "MemAvailable"@),
        meminfo_value(s, "SwapTotal"@),
        meminfo_value(s, "SwapFree"@),
    ) {
        (Some(total), Some(available), Some(swap_total), Some(swap_free)) => Some(
            (
                total * 1024,
                available * 1024,
                swap_total * 1024,
                if swap_free * 1024 >= swap_total * 1024 {
                    0
                } else {
                    (swap_total * 1024 - swap_free * 1024) as nat
                },
            ),
        ),
        _ => None,
    }
}

fn meminfo_entry_in(cs: &[char], a: usize, b: usize) -> (r: Option<(usize, u64)>)
    requires
        a <= b <= cs@.len(),
    ensures
        match meminfo_entry(cs@, (a as int, b as int)) {
            Some(e) => r matches Some(p) && a <= p.0 <= b && cs@.subrange(a as int, p.0 as int)
                == e.0 && p.1 as nat == e.1,
            None => r is None,
        },
{
    proof { lemma_find_char(cs@, a as int, b as int, ':'); }
    match find_char_in(cs, a, b, ':') {
        Some(c) => match nth_field_span(cs, c + 1, b, 0) {
            Some((x, y)) => match parse_uint_in(cs, x, y, 10, u64::MAX) {
                Some(n) => Some((c, n)),
                None => None,
            },
            None => None,
        },
        None => None,
    }
}

/// Every value of a `/proc/meminfo` text converts to bytes within a `u64`.
pub fn meminfo_sizes_fit(text: &str) -> (r: bool)
    ensures
        r == meminfo_fits(text@),
{
    let cs = str_chars(text);
    let lines = line_spans_in(&cs, 0, cs.len());
    let ghost all = line_spans(cs@, 0, cs@.len() as int);
    let mut n: usize = 0;
    while n < lines.len()
        invariant
            cs@ == text@,
            n <= lines@.len(),
            all == line_spans(cs@, 0, cs@.len() as int),
            lines@.len() == all.len(),
            forall|m: int|
                0 <= m < lines@.len() ==> (#[trigger] lines@[m]).0 as int == all[m].0 && lines@[m].1 as int
                    == all[m].1,
            forall|m: int| 0 <= m < lines@.len() ==> 0 <= (#[trigger] lines@[m]).0 <= lines@[m].1 <= cs@.len(),
            forall|m: int|
                0 <= m < n ==> (#[trigger] meminfo_entry(cs@, all[m]) matches Some(e) ==> e.1 * 1024
                    <= u64::MAX),
        decreases lines@.len() - n,
    {
        let (a, b) = lines[n];
        match meminfo_entry_in(&cs, a, b) {
            Some((_, v)) => {
                if v > u64::MAX / 1024 {
                    proof {
                        let e = meminfo_entry(cs@, all[n as int])->0;
                        assert(meminfo_entry(cs@, all[n as int]) == Some(e));
                        assert(e.1 * 1024 > u64::MAX);
                        assert(!(meminfo_entry(cs@, all[n as int]) matches Some(e) ==> e.1 * 1024
                            <= u64::MAX));
                        assert(!meminfo_fits(cs@));
                    }
                    return false;
                }
            },
            None => {},
        }
        n = n + 1;
    }
    true
}

/// Host RAM and swap, from the text of `/proc/meminfo`; `EINVAL` when one
/// of the four values it needs is missing.
pub fn read_host_memory(text: &str) -> (r: Result<(HostMemory, Swap), i32>)
    requires
        meminfo_fits(text@),
    ensures
        match host_memory_of(text@) {
            Some(v) => r matches Ok(p) && p.0.total_bytes as nat == v.0 && p.0.available_bytes as nat
                == v.1 && p.1.total_bytes as nat == v.2 && p.1.used_bytes as nat == v.3,
            None => r == Err::<(HostMemory, Swap), i32>(platform_errno(Errno::Einval)),
        },
{
    let cs = str_chars(text);
    let lines = line_spans_in(&cs, 0, cs.len());
    let ghost all = line_spans(cs@, 0, cs@.len() as int);
    let mut total: Option<u64> = None;
    let mut available: Option<u64> = None;
    let mut swap_total: Option<u64> = None;
    let mut swap_free: Option<u64> = None;
    let mut n: usize = 0;
    while n < lines.len()
        invariant
            n <= lines@.len(),
            all == line_spans(cs@, 0, cs@.len() as int),
            lines@.len() == all.len(),
            meminfo_fits(cs@),
            forall|m: int|
                0 <= m < lines@.len() ==> (#[trigger] lines@[m]).0 as int == all[m].0 && lines@[m].1 as int
                    == all[m].1,
            forall|m: int| 0 <= m < lines@.len() ==> 0 <= (#[trigger] lines@[m]).0 <= lines@[m].1 <= cs@.len(),
            total == opt_u64(meminfo_last(cs@, all, "MemTotal"@, n as int)),
            available == opt_u64(meminfo_last(cs@, all, "MemAvailable"@, n as int)),
            swap_total == opt_u64(meminfo_last(cs@, all, "SwapTotal"@, n as int)),
            swap_free == opt_u64(meminfo_last(cs@, all, "SwapFree"@, n as int)),
        decreases lines@.len() - n,
    {
        let (a, b) = lines[n];
        match meminfo_entry_in(&cs, a, b) {
            Some((c, v)) => {
                if span_equals(&cs, a, c, "MemTotal") {
                    total = Some(v);
                }
                if span_equals(&cs, a, c, "MemAvailable") {
                    available = Some(v);
                }
                if span_equals(&cs, a, c, "SwapTotal") {
                    swap_total = Some(v);
                }
                if span_equals(&cs, a, c, "SwapFree") {
                    swap_free = Some(v);
                }
            },
            None => {},
        }
        n = n + 1;
    }
    proof {
        assert forall|m: int| 0 <= m < all.len() implies (#[trigger] meminfo_entry(cs@, all[m]) matches Some(e)
            ==> e.1 * 1024 <= u64::MAX) by {}
    }
    match (total, available, swap_total, swap_free) {
        (Some(t), Some(av), Some(st), Some(sf)) => {
            proof {
                lemma_meminfo_last_fits(cs@, all, "MemTotal"@, n as int);
                lemma_meminfo_last_fits(cs@, all, "MemAvailable"@, n as int);
                lemma_meminfo_last_fits(cs@, all, "SwapTotal"@, n as int);
                lemma_meminfo_last_fits(cs@, all, "SwapFree"@, n as int);
            }
            let st_bytes = st * 1024;
            let sf_bytes = sf * 1024;
            let used = if sf_bytes >= st_bytes {
                0
            } else {
                st_bytes - sf_bytes
            };
            Ok(
                (
                    HostMemory { total_bytes: t * 1024, available_bytes: av * 1024 },
                    Swap { total_bytes: st_bytes, used_bytes: used },
                ),
            )
        },
        _ => Err(errno_code(Errno::Einval)),
    }
}

proof fn lemma_meminfo_last_fits(s: Seq<char>, lines: Seq<(int, int)>, key: Seq<char>, n: int)
    requires
        0 <= n <= lines.len(),
        forall|m: int|
            0 <= m < lines.len() ==> (#[trigger] meminfo_entry(s, lines[m]) matches Some(e) ==> e.1
                * 1024 <= u64::MAX),
    ensures
        meminfo_last(s, lines, key, n) matches Some(v) ==> v * 1024 <= u64::MAX,
    decreases n,
{
    if n > 0 {
        let _ = meminfo_entry(s, lines[n - 1]);
        lemma_meminfo_last_fits(s, lines, key, n - 1);
    }
}

} // verus!

verus! {

/// The end of `s[lo..hi]` with trailing whitespace dropped.
pub open spec fn trim_end(s: Seq<char>, lo: int, hi: int) -> int
    decreases hi - lo,
{
    if hi <= lo {
        lo
    } else if !is_whitespace(s[hi - 1]) {
        hi
    } else {
        trim_end(s, lo, hi - 1)
    }
}

/// `s[lo..hi]` without leading and trailing whitespace: what `str::trim`
/// leaves.
pub open spec fn trimmed(s: Seq<char>, lo: int, hi: int) -> Seq<char> {
    let start = scan_ws(s, lo, hi, false);
    s.subrange(start, trim_end(s, start, hi))
}

pub proof fn lemma_trim_end(s: Seq<char>, lo: int, hi: int)
    requires
        lo <= hi,
    ensures
        lo <= trim_end(s, lo, hi) <= hi,
    decreases hi - lo,
{
    if hi > lo && is_whitespace(s[hi - 1]) {
        lemma_trim_end(s, lo, hi - 1);
    }
}

/// The span of `cs[lo..hi]` without leading and trailing whitespace.
pub fn trim_span(cs: &[char], lo: usize, hi: usize) -> (r: (usize, usize))
    requires
        lo <= hi <= cs@.len(),
    ensures
        lo <= r.0 <= r.1 <= hi,
        cs@.subrange(r.0 as int, r.1 as int) == trimmed(cs@, lo as int, hi as int),
{
    let mut start = lo;
    while start < hi && char_is_whitespace(cs[start])
        invariant
            lo <= start <= hi <= cs@.len(),
            scan_ws(cs@, lo as int, hi as int, false) == scan_ws(cs@, start as int, hi as int, false),
        decreases hi - start,
    {
        start = start + 1;
    }
    let mut end = hi;
    while end > start && char_is_whitespace(cs[end - 1])
        invariant
            start <= end <= hi <= cs@.len(),
            trim_end(cs@, start as int, hi as int) == trim_end(cs@, start as int, end as int),
        decreases end - start,
    {
        end = end - 1;
    }
    (start, end)
}

/// The interface one `/proc/net/dev` row describes: its name (before the
/// first `:`, trimmed, delimiters made spaces) and its received and
/// transmitted bytes (the first and ninth field after the `:`), when the
/// row has at least nine fields and both counters read.
pub open spec fn network_row(s: Seq<char>, line: (int, int)) -> Option<(Seq<char>, nat, nat)> {
    match find_char(s, line.0, line.1, ':') {
        Some(c) => {
            let f = fields(s, c + 1, line.1);
            if f.len() < 9 {
                None
            } else {
                match (parse_uint(f[0], 10, u64::MAX as nat), parse_uint(f[8], 10, u64::MAX as nat)) {
                    (Some(rx), Some(tx)) => Some((sanitized(trimmed(s, line.0, c)), rx, tx)),
                    _ => None,
                }
            }
        },
        None => None,
    }
}

/// The interfaces of `lines[n..]`, in order.
pub open spec fn network_rows(s: Seq<char>, lines: Seq<(int, int)>, n: int) -> Seq<
    (Seq<char>, nat, nat),
>
    decreases lines.len() - n,
{
    if n < 0 || n >= lines.len() {
        seq![]
    } else {
        let rest = network_rows(s, lines, n + 1);
        match network_row(s, lines[n]) {
            Some(r) => seq![r] + rest,
            None => rest,
        }
    }
}

/// The interfaces `/proc/net/dev` lists: its rows after the two header
/// lines.
pub open spec fn networks_of(s: Seq<char>) -> Seq<(Seq<char>, nat, nat)> {
    network_rows(s, line_spans(s, 0, s.len() as int), 2)
}

/// A network row by value.
pub open spec fn network_view(n: Network) -> (Seq<char>, nat, nat) {
    (n.name@, n.rx_bytes as nat, n.tx_bytes as nat)
}

fn network_row_in(cs: &[char], a: usize, b: usize) -> (r: Option<Network>)
    requires
        a <= b <= cs@.len(),
    ensures
        match network_row(cs@, (a as int, b as int)) {
            Some(v) => r matches Some(n) && network_view(n) == v,
            None => r is None,
        },
{
    proof { lemma_find_char(cs@, a as int, b as int, ':'); }
    let c = match find_char_in(cs, a, b, ':') {
        Some(c) => c,
        None => return None,
    };
    let f = field_spans_in(cs, c + 1, b);
    let ghost spans = field_spans(cs@, c + 1, b as int);
    if f.len() < 9 {
        return None;
    }
    let (x0, y0) = f[0];
    let (x8, y8) = f[8];
    proof {
        assert(fields(cs@, c + 1, b as int)[0] == cs@.subrange(spans[0].0, spans[0].1));
        assert(fields(cs@, c + 1, b as int)[8] == cs@.subrange(spans[8].0, spans[8].1));
    }
    let rx = parse_uint_in(cs, x0, y0, 10, u64::MAX);
    let tx = parse_uint_in(cs, x8, y8, 10, u64::MAX);
    match (rx, tx) {
        (Some(rx), Some(tx)) => {
            let (s, e) = trim_span(cs, a, c);
            let raw = string_from(cs, s, e);
            Some(Network { name: sanitize_name(raw.as_str()), rx_bytes: rx, tx_bytes: tx })
        },
        _ => None,
    }
}

/// The network interfaces and their byte counters, from the text of
/// `/proc/net/dev`. Whether an empty list means blindness is the caller's
/// decision.
pub fn read_networks(text: &str) -> (r: Vec<Network>)
    ensures
        r@.map_values(|n: Network| network_view(n)) == networks_of(text@),
{
    let cs = str_chars(text);
    let lines = line_spans_in(&cs, 0, cs.len());
    let ghost all = line_spans(cs@, 0, cs@.len() as int);
    let ghost rows = network_rows(cs@, all, 2);
    let mut out: Vec<Network> = Vec::new();
    let mut n: usize = 2;
    if lines.len() < 2 {
        assert(rows.len() == 0);
        assert(out@.map_values(|n: Network| network_view(n)) =~= rows);
        return out;
    }
    while n < lines.len()
        invariant
            2 <= n <= lines@.len(),
            cs@ == text@,
            all == line_spans(cs@, 0, cs@.len() as int),
            lines@.len() == all.len(),
            forall|m: int|
                0 <= m < lines@.len() ==> (#[trigger] lines@[m]).0 as int == all[m].0 && lines@[m].1 as int
                    == all[m].1,
            forall|m: int| 0 <= m < lines@.len() ==> 0 <= (#[trigger] lines@[m]).0 <= lines@[m].1 <= cs@.len(),
            rows == network_rows(cs@, all, 2),
            rows =~= out@.map_values(|n: Network| network_view(n)) + network_rows(cs@, all, n as int),
        decreases lines@.len() - n,
    {
        let (a, b) = lines[n];
        let ghost rest = network_rows(cs@, all, n + 1);
        let ghost before = out@.map_values(|n: Network| network_view(n));
        match network_row_in(&cs, a, b) {
            Some(row) => {
                proof {
                    assert(network_rows(cs@, all, n as int) == seq![network_view(row)] + rest);
                }
                out.push(row);
                proof {
                    assert(out@.map_values(|n: Network| network_view(n)) =~= before.push(network_view(row)));
                    assert(rows =~= out@.map_values(|n: Network| network_view(n)) + rest);
                }
            },
            None => {
                proof {
                    assert(network_rows(cs@, all, n as int) == rest);
                }
            },
        }
        n = n + 1;
    }
    assert(out@.map_values(|n: Network| network_view(n)) =~= rows);
    out
}

} // verus!

verus! {

/// What `/proc/cpuinfo` says of one logical CPU: its model name and its
/// clock in whole MHz (when the host reports a non-zero one).
#[derive(Debug, Clone, PartialEq, Eq)]
pub struct CpuMetadata {
    pub core: u32,
    pub model: String,
    pub frequency_mhz: Option<u64>,
}

/// CPU metadata by value.
pub open spec fn metadata_view(m: Seq<CpuMetadata>) -> Seq<(u32, Seq<char>, Option<u64>)> {
    m.map_values(|e: CpuMetadata| (e.core, e.model@, e.frequency_mhz))
}

/// The metadata of `core`: the last entry naming it.
pub open spec fn metadata_of(meta: Seq<(u32, Seq<char>, Option<u64>)>, core: nat) -> Option<
    (Seq<char>, Option<u64>),
>
    decreases meta.len(),
{
    if meta.len() == 0 {
        None
    } else if meta.last().0 as nat == core {
        Some((meta.last().1, meta.last().2))
    } else {
        metadata_of(meta.drop_last(), core)
    }
}

/// The values of a run of fields, when each reads as a `u64`.
pub open spec fn all_counters(f: Seq<Seq<char>>) -> Option<Seq<nat>>
    decreases f.len(),
{
    if f.len() == 0 {
        Some(seq![])
    } else {
        match (all_counters(f.drop_last()), parse_uint(f.last(), 10, u64::MAX as nat)) {
            (Some(v), Some(x)) => Some(v.push(x)),
            _ => None,
        }
    }
}

/// One line of `/proc/stat` as a per-CPU line: `None` for any other line
/// (no fields, a first field that is not `cpu` plus a `u32` core number);
/// an error when one of its counters does not read; else the core and its
/// counters.
pub open spec fn cpu_line(s: Seq<char>, line: (int, int)) -> Option<Result<(nat, Seq<nat>), ()>> {
    let f = fields(s, line.0, line.1);
    if f.len() == 0 {
        None
    } else {
        let name = f[0];
        if name.len() <= 3 || name.take(3) != "cpu"@ {
            None
        } else {
            match parse_uint(name.skip(3), 10, u32::MAX as nat) {
                None => None,
                Some(core) => match all_counters(f.skip(1)) {
                    None => Some(Err(())),
                    Some(vals) => Some(Ok((core, vals))),
                },
            }
        }
    }
}

/// Counter `i` of a CPU line, 0 past its end.
pub open spec fn counter(vals: Seq<nat>, i: int) -> nat {
    if i < vals.len() {
        vals[i]
    } else {
        0
    }
}

/// One CPU row by value: core, user, system, idle and other time in
/// microseconds, model and MHz.
pub type CpuRowView = (u32, nat, nat, nat, nat, Seq<char>, Option<u64>);

/// Where a walk over `/proc/stat` ends: the CPU rows, the source that
/// failed, or a counter sum past `u64` (where the reader cannot go on).
pub enum CpuWalk {
    Rows(Seq<CpuRowView>),
    Fail(Seq<char>),
    Overflow,
}

/// The user+nice sum and the sum of the six other counters fit in a `u64`.
pub open spec fn counters_fit(vals: Seq<nat>) -> bool {
    counter(vals, 0) + counter(vals, 1) <= u64::MAX && counter(vals, 4) + counter(vals, 5)
        + counter(vals, 6) + counter(vals, 7) + counter(vals, 8) + counter(vals, 9) <= u64::MAX
}

/// The row a per-CPU line gives at `hz`: user is user+nice, other is the
/// six counters after idle.
pub open spec fn cpu_row(core: nat, vals: Seq<nat>, model: Seq<char>, mhz: Option<u64>, hz: nat) -> CpuRowView {
    (
        core as u32,
        spec_ticks_us(counter(vals, 0) + counter(vals, 1), hz),
        spec_ticks_us(counter(vals, 2), hz),
        spec_ticks_us(counter(vals, 3), hz),
        spec_ticks_us(
            counter(vals, 4) + counter(vals, 5) + counter(vals, 6) + counter(vals, 7) + counter(
                vals,
                8,
            ) + counter(vals, 9),
            hz,
        ),
        model,
        mhz,
    )
}

/// The walk over `lines[n..]`: per-CPU lines become rows in order; the
/// first bad line ends it with `proc_stat_cpu` (a counter that does not
/// read, fewer than four counters) or `proc_cpuinfo` (a core with no
/// metadata).
pub open spec fn cpu_walk(
    s: Seq<char>,
    lines: Seq<(int, int)>,
    n: int,
    meta: Seq<(u32, Seq<char>, Option<u64>)>,
    hz: nat,
) -> CpuWalk
    decreases lines.len() - n,
{
    if n < 0 || n >= lines.len() {
        CpuWalk::Rows(seq![])
    } else {
        match cpu_line(s, lines[n]) {
            None => cpu_walk(s, lines, n + 1, meta, hz),
            Some(Err(())) => CpuWalk::Fail("proc_stat_cpu"@),
            Some(Ok((core, vals))) => if vals.len() < 4 {
                CpuWalk::Fail("proc_stat_cpu"@)
            } else {
                match metadata_of(meta, core) {
                    None => CpuWalk::Fail("proc_cpuinfo"@),
                    Some((model, mhz)) => if !counters_fit(vals) {
                        CpuWalk::Overflow
                    } else {
                        match cpu_walk(s, lines, n + 1, meta, hz) {
                            CpuWalk::Rows(rest) => CpuWalk::Rows(
                                seq![cpu_row(core, vals, model, mhz, hz)] + rest,
                            ),
                            other => other,
                        }
                    },
                }
            },
        }
    }
}

/// The CPU rows `/proc/stat` gives with this metadata: the walk over all
/// its lines, where no row at all is a `proc_stat_cpu` failure.
pub open spec fn cpus_of(s: Seq<char>, meta: Seq<(u32, Seq<char>, Option<u64>)>, hz: nat) -> CpuWalk {
    match cpu_walk(s, line_spans(s, 0, s.len() as int), 0, meta, hz) {
        CpuWalk::Rows(r) => if r.len() == 0 {
            CpuWalk::Fail("proc_stat_cpu"@)
        } else {
            CpuWalk::Rows(r)
        },
        other => other,
    }
}

/// A CPU row by value.
pub open spec fn cpu_view(c: Cpu) -> CpuRowView {
    (
        c.core,
        c.user_us as nat,
        c.system_us as nat,
        c.idle_us as nat,
        c.other_us as nat,
        c.model@,
        c.frequency_mhz,
    )
}

} // verus!

verus! {

/// Counter values by value.
pub open spec fn counters_view(v: Seq<u64>) -> Seq<nat> {
    v.map_values(|x: u64| x as nat)
}

fn cpu_line_in(cs: &[char], a: usize, b: usize) -> (r: Option<Result<(u32, Vec<u64>), ()>>)
    requires
        a <= b <= cs@.len(),
    ensures
        match cpu_line(cs@, (a as int, b as int)) {
            None => r is None,
            Some(Err(())) => r matches Some(Err(())),
            Some(Ok(p)) => r matches Some(Ok(q)) && q.0 as nat == p.0 && counters_view(q.1@) == p.1,
        },
{
    let f = field_spans_in(cs, a, b);
    let ghost spans = field_spans(cs@, a as int, b as int);
    let ghost fs = fields(cs@, a as int, b as int);
    if f.len() == 0 {
        return None;
    }
    let (x, y) = f[0];
    proof {
        reveal_strlit("cpu");
        assert(fs[0] == cs@.subrange(spans[0].0, spans[0].1));
    }
    if y - x <= 3 {
        return None;
    }
    if !span_starts_with(cs, x, y, "cpu") {
        proof {
            assert(fs[0].take(3) =~= cs@.subrange(x as int, x + 3));
        }
        return None;
    }
    proof {
        assert(fs[0].take(3) =~= cs@.subrange(x as int, x + 3));
        assert(fs[0].skip(3) =~= cs@.subrange(x + 3, y as int));
    }
    let core = match parse_uint_in(cs, x + 3, y, 10, u32::MAX as u64) {
        Some(c) => c as u32,
        None => return None,
    };
    let ghost rest = fs.skip(1);
    let mut vals: Vec<u64> = Vec::new();
    let mut k: usize = 1;
    assert(rest.take(0) =~= seq![]);
    while k < f.len()
        invariant
            1 <= k <= f@.len(),
            f@.len() == spans.len(),
            spans == field_spans(cs@, a as int, b as int),
            fs == fields(cs@, a as int, b as int),
            rest == fs.skip(1),
            forall|n: int|
                0 <= n < f@.len() ==> (#[trigger] f@[n]).0 as int == spans[n].0 && f@[n].1 as int
                    == spans[n].1,
            forall|n: int| 0 <= n < f@.len() ==> a <= (#[trigger] f@[n]).0 < f@[n].1 <= b,
            b <= cs@.len(),
            all_counters(rest.take(k - 1)) == Some(counters_view(vals@)),
            fs.len() > 0,
            fs[0].len() > 3 && fs[0].take(3) == "cpu"@,
            parse_uint(fs[0].skip(3), 10, u32::MAX as nat) == Some(core as nat),
        decreases f@.len() - k,
    {
        let (p, q) = f[k];
        proof {
            assert(fs[k as int] == cs@.subrange(spans[k as int].0, spans[k as int].1));
            assert(rest.take(k as int).drop_last() =~= rest.take(k - 1));
            assert(rest.take(k as int).last() == fs[k as int]);
        }
        match parse_uint_in(cs, p, q, 10, u64::MAX) {
            Some(v) => {
                vals.push(v);
                assert(counters_view(vals@) =~= counters_view(vals@.drop_last()).push(v as nat));
                assert(vals@.drop_last() =~= vals@.take(vals@.len() - 1));
            },
            None => {
                proof {
                    lemma_all_counters_prefix(rest, k as int);
                }
                return Some(Err(()));
            },
        }
        k = k + 1;
    }
    assert(rest.take(k - 1) =~= rest);
    Some(Ok((core, vals)))
}

proof fn lemma_all_counters_prefix(f: Seq<Seq<char>>, k: int)
    requires
        0 <= k <= f.len(),
        all_counters(f.take(k)) is None,
    ensures
        all_counters(f) is None,
    decreases f.len() - k,
{
    if k < f.len() {
        assert(f.take(k + 1).drop_last() =~= f.take(k));
        lemma_all_counters_prefix(f, k + 1);
    } else {
        assert(f.take(k) =~= f);
    }
}

fn metadata_in(meta: &[CpuMetadata], core: u32) -> (r: Option<usize>)
    ensures
        match metadata_of(metadata_view(meta@), core as nat) {
            Some(m) => r matches Some(i) && i < meta@.len() && meta@[i as int].model@ == m.0
                && meta@[i as int].frequency_mhz == m.1,
            None => r is None,
        },
{
    let ghost mv = metadata_view(meta@);
    assert(mv.take(meta@.len() as int) =~= mv);
    let mut i = meta.len();
    while i > 0
        invariant
            i <= meta@.len(),
            mv == metadata_view(meta@),
            metadata_of(mv, core as nat) == metadata_of(mv.take(i as int), core as nat),
        decreases i,
    {
        proof {
            assert(mv.take(i as int).drop_last() =~= mv.take(i - 1));
        }
        if meta[i - 1].core == core {
            return Some(i - 1);
        }
        i = i - 1;
    }
    None
}

/// A walk over `/proc/stat` as the reader runs it.
pub enum CpuScan {
    Rows(Vec<Cpu>),
    Fail(&'static str),
    Overflow,
}

fn cpu_scan(stat: &str, metadata: &[CpuMetadata], hz: u64) -> (r: CpuScan)
    requires
        hz > 0,
    ensures
        match cpus_of(stat@, metadata_view(metadata@), hz as nat) {
            CpuWalk::Rows(rows) => r matches CpuScan::Rows(v) && v@.map_values(|c: Cpu| cpu_view(c))
                == rows,
            CpuWalk::Fail(src) => r matches CpuScan::Fail(g) && g@ == src,
            CpuWalk::Overflow => r is Overflow,
        },
{
    let cs = str_chars(stat);
    let lines = line_spans_in(&cs, 0, cs.len());
    let ghost all = line_spans(cs@, 0, cs@.len() as int);
    let ghost mv = metadata_view(metadata@);
    let ghost whole = cpu_walk(cs@, all, 0, mv, hz as nat);
    let mut out: Vec<Cpu> = Vec::new();
    let mut n: usize = 0;
    while n < lines.len()
        invariant
            n <= lines@.len(),
            hz > 0,
            cs@ == stat@,
            mv == metadata_view(metadata@),
            all == line_spans(cs@, 0, cs@.len() as int),
            lines@.len() == all.len(),
            forall|m: int|
                0 <= m < lines@.len() ==> (#[trigger] lines@[m]).0 as int == all[m].0 && lines@[m].1 as int
                    == all[m].1,
            forall|m: int| 0 <= m < lines@.len() ==> 0 <= (#[trigger] lines@[m]).0 <= lines@[m].1 <= cs@.len(),
            whole == cpu_walk(cs@, all, 0, mv, hz as nat),
            whole == match cpu_walk(cs@, all, n as int, mv, hz as nat) {
                CpuWalk::Rows(rest) => CpuWalk::Rows(out@.map_values(|c: Cpu| cpu_view(c)) + rest),
                other => other,
            },
        decreases lines@.len() - n,
    {
        let (a, b) = lines[n];
        match cpu_line_in(&cs, a, b) {
            None => {},
            Some(Err(())) => {
                return CpuScan::Fail("proc_stat_cpu");
            },
            Some(Ok((core, vals))) => {
                if vals.len() < 4 {
                    return CpuScan::Fail("proc_stat_cpu");
                }
                let m = match metadata_in(metadata, core) {
                    Some(i) => i,
                    None => {
                        return CpuScan::Fail("proc_cpuinfo");
                    },
                };
                let g0 = vals[0];
                let g1 = vals[1];
                let g2 = vals[2];
                let g3 = vals[3];
                let g4 = if vals.len() > 4 { vals[4] } else { 0 };
                let g5 = if vals.len() > 5 { vals[5] } else { 0 };
                let g6 = if vals.len() > 6 { vals[6] } else { 0 };
                let g7 = if vals.len() > 7 { vals[7] } else { 0 };
                let g8 = if vals.len() > 8 { vals[8] } else { 0 };
                let g9 = if vals.len() > 9 { vals[9] } else { 0 };
                let ghost gv = counters_view(vals@);
                assert(g0 as nat == counter(gv, 0) && g1 as nat == counter(gv, 1) && g2 as nat
                    == counter(gv, 2) && g3 as nat == counter(gv, 3) && g4 as nat == counter(gv, 4)
                    && g5 as nat == counter(gv, 5) && g6 as nat == counter(gv, 6) && g7 as nat
                    == counter(gv, 7) && g8 as nat == counter(gv, 8) && g9 as nat == counter(gv, 9));
                if g0 > u64::MAX - g1 {
                    return CpuScan::Overflow;
                }
                let user = g0 + g1;
                let mut other: u64 = g4;
                if other > u64::MAX - g5 {
                    return CpuScan::Overflow;
                }
                other = other + g5;
                if other > u64::MAX - g6 {
                    return CpuScan::Overflow;
                }
                other = other + g6;
                if other > u64::MAX - g7 {
                    return CpuScan::Overflow;
                }
                other = other + g7;
                if other > u64::MAX - g8 {
                    return CpuScan::Overflow;
                }
                other = other + g8;
                if other > u64::MAX - g9 {
                    return CpuScan::Overflow;
                }
                other = other + g9;
                let row = Cpu {
                    core,
                    user_us: ticks_us(user, hz),
                    system_us: ticks_us(g2, hz),
                    idle_us: ticks_us(g3, hz),
                    other_us: ticks_us(other, hz),
                    model: metadata[m].model.clone(),
                    frequency_mhz: metadata[m].frequency_mhz,
                };
                let ghost before = out@.map_values(|c: Cpu| cpu_view(c));
                out.push(row);
                assert(out@.map_values(|c: Cpu| cpu_view(c)) =~= before.push(cpu_view(row)));
                proof {
                    let rest_walk = cpu_walk(cs@, all, n + 1, mv, hz as nat);
                    assert(cpu_line(cs@, all[n as int]) == Some(Ok::<(nat, Seq<nat>), ()>((core as nat, gv))));
                    assert(metadata_of(mv, core as nat) == Some(
                        (metadata@[m as int].model@, metadata@[m as int].frequency_mhz),
                    ));
                    assert(cpu_row(core as nat, gv, metadata@[m as int].model@, metadata@[m as int].frequency_mhz, hz as nat)
                        == cpu_view(row));
                    match rest_walk {
                        CpuWalk::Rows(r) => {
                            assert(before + (seq![cpu_view(row)] + r) =~= before.push(cpu_view(row)) + r);
                        },
                        _ => {},
                    }
                }
            },
        }
        n = n + 1;
    }
    proof {
        assert(out@.map_values(|c: Cpu| cpu_view(c)) + seq![] =~= out@.map_values(|c: Cpu| cpu_view(c)));
    }
    if out.len() == 0 {
        return CpuScan::Fail("proc_stat_cpu");
    }
    CpuScan::Rows(out)
}

} // verus!

verus! {

/// The per-CPU lines of `/proc/stat` can be summed within a `u64`.
pub fn cpu_counters_fit(stat: &str, metadata: &[CpuMetadata], hz: u64) -> (r: bool)
    requires
        hz > 0,
    ensures
        r == !(cpus_of(stat@, metadata_view(metadata@), hz as nat) is Overflow),
{
    match cpu_scan(stat, metadata, hz) {
        CpuScan::Overflow => false,
        _ => true,
    }
}

/// The CPU rows of a host document, from the text of `/proc/stat`, the
/// metadata of `/proc/cpuinfo` and the tick rate; on failure, the source
/// to blame and `EINVAL`.
pub fn cpu_rows(stat: &str, metadata: &[CpuMetadata], hz: u64) -> (r: Result<
    Vec<Cpu>,
    (&'static str, i32),
>)
    requires
        hz > 0,
        !(cpus_of(stat@, metadata_view(metadata@), hz as nat) is Overflow),
    ensures
        match cpus_of(stat@, metadata_view(metadata@), hz as nat) {
            CpuWalk::Rows(rows) => r matches Ok(v) && v@.map_values(|c: Cpu| cpu_view(c)) == rows,
            CpuWalk::Fail(src) => r matches Err(g) && g.0@ == src && g.1 == platform_errno(
                Errno::Einval,
            ),
            CpuWalk::Overflow => false,
        },
{
    match cpu_scan(stat, metadata, hz) {
        CpuScan::Rows(v) => Ok(v),
        CpuScan::Fail(src) => Err((src, errno_code(Errno::Einval))),
        CpuScan::Overflow => Err(("proc_stat_cpu", errno_code(Errno::Einval))),
    }
}

} // verus!

verus! {

/// Where the first blank-line separator (`\n\n`) at or after `i` starts.
pub open spec fn find_separator(s: Seq<char>, i: int) -> Option<int>
    decreases s.len() - i,
{
    if i < 0 || i + 1 >= s.len() {
        None
    } else if s[i] == '\n' && s[i + 1] == '\n' {
        Some(i)
    } else {
        find_separator(s, i + 1)
    }
}

pub proof fn lemma_find_separator(s: Seq<char>, i: int)
    requires
        0 <= i,
    ensures
        find_separator(s, i) matches Some(k) ==> i <= k && k + 1 < s.len(),
    decreases s.len() - i,
{
    if i + 1 < s.len() && !(s[i] == '\n' && s[i + 1] == '\n') {
        lemma_find_separator(s, i + 1);
    }
}

/// The spans of the blocks of `s` from `i` on: what `str::split("\n\n")`
/// yields, an empty text being one empty block.
pub open spec fn block_spans(s: Seq<char>, i: int) -> Seq<(int, int)>
    decreases s.len() + 1 - i,
{
    if i < 0 || i > s.len() {
        seq![]
    } else {
        match find_separator(s, i) {
            Some(k) => {
                proof { lemma_find_separator(s, i); }
                seq![(i, k)] + block_spans(s, k + 2)
            },
            None => seq![(i, s.len() as int)],
        }
    }
}

/// What the lines of one `/proc/cpuinfo` block say so far: the core number,
/// the model name and the clock text (each the last of its kind), and
/// every clock text in order.
pub type BlockState = (Option<nat>, Option<Seq<char>>, Option<Seq<char>>, Seq<Seq<char>>);

/// One `key : value` line read into the block state: `processor` must be
/// a `u32`; keys and values are trimmed; other lines change nothing.
pub open spec fn cpuinfo_line(s: Seq<char>, line: (int, int), st: BlockState) -> Result<BlockState, ()> {
    match find_char(s, line.0, line.1, ':') {
        None => Ok(st),
        Some(c) => {
            let key = trimmed(s, line.0, c);
            let value = trimmed(s, c + 1, line.1);
            if key == "processor"@ {
                match parse_uint(value, 10, u32::MAX as nat) {
                    Some(v) => Ok((Some(v), st.1, st.2, st.3)),
                    None => Err(()),
                }
            } else if key == "model name"@ {
                Ok((st.0, Some(value), st.2, st.3))
            } else if key == "cpu MHz"@ {
                Ok((st.0, st.1, Some(value), st.3.push(value)))
            } else {
                Ok(st)
            }
        },
    }
}

/// The block state after `lines[..n]`.
pub open spec fn block_fold(s: Seq<char>, lines: Seq<(int, int)>, n: int) -> Result<BlockState, ()>
    decreases n,
{
    if n <= 0 || n > lines.len() {
        Ok((None, None, None, seq![]))
    } else {
        match block_fold(s, lines, n - 1) {
            Err(()) => Err(()),
            Ok(st) => cpuinfo_line(s, lines[n - 1], st),
        }
    }
}

/// One CPU's `/proc/cpuinfo` entry by value: core, model, last clock text.
pub type CpuInfoView = (u32, Seq<char>, Option<Seq<char>>);

/// The entries and clock texts of `blocks[..n]`. A block that names a
/// core must name a non-empty model.
pub open spec fn blocks_fold(s: Seq<char>, blocks: Seq<(int, int)>, n: int) -> Result<
    (Seq<CpuInfoView>, Seq<Seq<char>>),
    (),
>
    decreases n,
{
    if n <= 0 || n > blocks.len() {
        Ok((seq![], seq![]))
    } else {
        match blocks_fold(s, blocks, n - 1) {
            Err(()) => Err(()),
            Ok(acc) => {
                let lines = line_spans(s, blocks[n - 1].0, blocks[n - 1].1);
                match block_fold(s, lines, lines.len() as int) {
                    Err(()) => Err(()),
                    Ok(st) => {
                        let clocks = acc.1 + st.3;
                        match st.0 {
                            None => Ok((acc.0, clocks)),
                            Some(core) => match st.1 {
                                Some(model) => if model.len() > 0 {
                                    Ok((acc.0.push((core as u32, model, st.2)), clocks))
                                } else {
                                    Err(())
                                },
                                None => Err(()),
                            },
                        }
                    },
                }
            },
        }
    }
}

/// What `/proc/cpuinfo` says of each CPU (in block order), and every clock
/// text it carries (each of which must read as a non-negative number);
/// `None` when it names no CPU or a block is malformed.
pub open spec fn cpuinfo_of(s: Seq<char>) -> Option<(Seq<CpuInfoView>, Seq<Seq<char>>)> {
    let blocks = block_spans(s, 0);
    match blocks_fold(s, blocks, blocks.len() as int) {
        Ok(r) => if r.0.len() > 0 {
            Some(r)
        } else {
            None
        },
        Err(()) => None,
    }
}

/// One CPU as `/proc/cpuinfo` describes it, its clock still as text.
#[derive(Debug, Clone, PartialEq, Eq)]
pub struct CpuInfo {
    pub core: u32,
    pub model: String,
    pub mhz: Option<String>,
}

/// A cpuinfo entry by value.
pub open spec fn cpu_info_view(c: CpuInfo) -> CpuInfoView {
    (
        c.core,
        c.model@,
        match c.mhz {
            Some(t) => Some(t@),
            None => None,
        },
    )
}

/// The block spans of `cs` from `i` on.
fn block_spans_in(cs: &[char]) -> (v: Vec<(usize, usize)>)
    ensures
        v@.len() == block_spans(cs@, 0).len(),
        forall|n: int|
            0 <= n < v@.len() ==> (#[trigger] v@[n]).0 as int == block_spans(cs@, 0)[n].0
                && v@[n].1 as int == block_spans(cs@, 0)[n].1 && v@[n].0 <= v@[n].1 <= cs@.len(),
{
    let ghost all = block_spans(cs@, 0);
    let mut out: Vec<(usize, usize)> = Vec::new();
    let mut i: usize = 0;
    let mut done = false;
    while !done
        invariant
            i <= cs@.len(),
            all == block_spans(cs@, 0),
            !done ==> all.len() == out@.len() + block_spans(cs@, i as int).len(),
            done ==> all.len() == out@.len(),
            forall|n: int|
                0 <= n < out@.len() ==> (#[trigger] out@[n]).0 as int == all[n].0 && out@[n].1 as int
                    == all[n].1 && out@[n].0 <= out@[n].1 <= cs@.len(),
            !done ==> forall|n: int|
                0 <= n < block_spans(cs@, i as int).len() ==> #[trigger] block_spans(
                    cs@,
                    i as int,
                )[n] == all[out@.len() + n],
        decreases cs@.len() + 1 - i + (if done {
            0int
        } else {
            1int
        }),
    {
        let mut k = i;
        let mut found = false;
        while cs.len() > 0 && k < cs.len() - 1 && !found
            invariant
                i <= k <= cs@.len(),
                find_separator(cs@, i as int) == if found {
                    Some(k as int)
                } else {
                    find_separator(cs@, k as int)
                },
                found ==> k + 1 < cs@.len(),
            decreases cs@.len() - k + (if found {
                0int
            } else {
                1int
            }),
        {
            if cs[k] == '\n' && cs[k + 1] == '\n' {
                found = true;
            } else {
                k = k + 1;
            }
        }
        proof { lemma_find_separator(cs@, i as int); }
        if found {
            proof {
                let rest = block_spans(cs@, k + 2);
                assert(block_spans(cs@, i as int) == seq![(i as int, k as int)] + rest);
                assert(block_spans(cs@, i as int)[0] == (i as int, k as int));
                assert forall|n: int| 0 <= n < rest.len() implies #[trigger] rest[n] == all[out@.len() + 1 + n] by {
                    assert(block_spans(cs@, i as int)[n + 1] == rest[n]);
                }
            }
            out.push((i, k));
            i = k + 2;
        } else {
            proof {
                assert(block_spans(cs@, i as int) == seq![(i as int, cs@.len() as int)]);
                assert(block_spans(cs@, i as int)[0] == (i as int, cs@.len() as int));
            }
            out.push((i, cs.len()));
            done = true;
        }
    }
    out
}

} // verus!

verus! {

/// A span's text.
pub open spec fn span_text(s: Seq<char>, p: (usize, usize)) -> Seq<char> {
    s.subrange(p.0 as int, p.1 as int)
}

/// Spans' texts.
pub open spec fn span_texts(s: Seq<char>, v: Seq<(usize, usize)>) -> Seq<Seq<char>> {
    v.map_values(|p: (usize, usize)| span_text(s, p))
}

/// The block state a reader's variables stand for.
pub open spec fn block_state_of(
    s: Seq<char>,
    core: Option<u32>,
    model: Option<(usize, usize)>,
    mhz: Option<(usize, usize)>,
    clocks: Seq<(usize, usize)>,
) -> BlockState {
    (
        match core {
            Some(c) => Some(c as nat),
            None => None,
        },
        match model {
            Some(p) => Some(span_text(s, p)),
            None => None,
        },
        match mhz {
            Some(p) => Some(span_text(s, p)),
            None => None,
        },
        span_texts(s, clocks),
    )
}

fn cpuinfo_block_in(cs: &[char], a: usize, b: usize) -> (r: Result<
    (Option<u32>, Option<(usize, usize)>, Option<(usize, usize)>, Vec<(usize, usize)>),
    (),
>)
    requires
        a <= b <= cs@.len(),
    ensures
        match block_fold(
            cs@,
            line_spans(cs@, a as int, b as int),
            line_spans(cs@, a as int, b as int).len() as int,
        ) {
            Ok(st) => r matches Ok(q) && block_state_of(cs@, q.0, q.1, q.2, q.3@) == st && (q.1 matches Some(p) ==> p.0 <= p.1 <= cs@.len()) && (q.2 matches Some(p) ==> p.0 <= p.1 <= cs@.len()) && forall|n: int| 0 <= n < q.3@.len() ==> (#[trigger] q.3@[n]).0 <= q.3@[n].1 <= cs@.len(),
            Err(()) => r is Err,
        },
{
    let lines = line_spans_in(cs, a, b);
    let ghost all = line_spans(cs@, a as int, b as int);
    let mut core: Option<u32> = None;
    let mut model: Option<(usize, usize)> = None;
    let mut mhz: Option<(usize, usize)> = None;
    let mut clocks: Vec<(usize, usize)> = Vec::new();
    assert(span_texts(cs@, clocks@) =~= seq![]);
    let mut n: usize = 0;
    while n < lines.len()
        invariant
            n <= lines@.len(),
            a <= b <= cs@.len(),
            all == line_spans(cs@, a as int, b as int),
            lines@.len() == all.len(),
            forall|m: int|
                0 <= m < lines@.len() ==> (#[trigger] lines@[m]).0 as int == all[m].0 && lines@[m].1 as int
                    == all[m].1,
            forall|m: int| 0 <= m < lines@.len() ==> a <= (#[trigger] lines@[m]).0 <= lines@[m].1 <= b,
            block_fold(cs@, all, n as int) == Ok::<BlockState, ()>(
                block_state_of(cs@, core, model, mhz, clocks@),
            ),
            model matches Some(p) ==> p.0 <= p.1 <= cs@.len(),
            mhz matches Some(p) ==> p.0 <= p.1 <= cs@.len(),
            forall|m: int| 0 <= m < clocks@.len() ==> (#[trigger] clocks@[m]).0 <= clocks@[m].1 <= cs@.len(),
        decreases lines@.len() - n,
    {
        let (x, y) = lines[n];
        let ghost st = block_state_of(cs@, core, model, mhz, clocks@);
        proof { lemma_find_char(cs@, x as int, y as int, ':'); }
        match find_char_in(cs, x, y, ':') {
            None => {},
            Some(c) => {
                let (ks, ke) = trim_span(cs, x, c);
                let (vs, ve) = trim_span(cs, c + 1, y);
                if span_equals(cs, ks, ke, "processor") {
                    match parse_uint_in(cs, vs, ve, 10, u32::MAX as u64) {
                        Some(v) => {
                            core = Some(v as u32);
                        },
                        None => {
                            proof {
                                lemma_block_fold_err(cs@, all, n + 1);
                            }
                            return Err(());
                        },
                    }
                } else if span_equals(cs, ks, ke, "model name") {
                    model = Some((vs, ve));
                } else if span_equals(cs, ks, ke, "cpu MHz") {
                    mhz = Some((vs, ve));
                    let ghost before = clocks@;
                    clocks.push((vs, ve));
                    assert(span_texts(cs@, clocks@) =~= span_texts(cs@, before).push(
                        span_text(cs@, (vs, ve)),
                    ));
                }
            },
        }
        n = n + 1;
    }
    Ok((core, model, mhz, clocks))
}

proof fn lemma_block_fold_err(s: Seq<char>, lines: Seq<(int, int)>, n: int)
    requires
        1 <= n <= lines.len(),
        block_fold(s, lines, n) is Err,
    ensures
        block_fold(s, lines, lines.len() as int) is Err,
    decreases lines.len() - n,
{
    if n < lines.len() {
        lemma_block_fold_err(s, lines, n + 1);
    }
}

proof fn lemma_blocks_fold_err(s: Seq<char>, blocks: Seq<(int, int)>, n: int)
    requires
        1 <= n <= blocks.len(),
        blocks_fold(s, blocks, n) is Err,
    ensures
        blocks_fold(s, blocks, blocks.len() as int) is Err,
    decreases blocks.len() - n,
{
    if n < blocks.len() {
        lemma_blocks_fold_err(s, blocks, n + 1);
    }
}

/// What `/proc/cpuinfo` says of each CPU, and every clock text it carries
/// in order; `EINVAL` when it names no CPU, a `processor` is not a
/// number, or a CPU's block lacks a model name.
pub fn read_cpu_metadata(text: &str) -> (r: Result<(Vec<CpuInfo>, Vec<String>), i32>)
    ensures
        match cpuinfo_of(text@) {
            Some(v) => r matches Ok(p) && p.0@.map_values(|c: CpuInfo| cpu_info_view(c)) == v.0
                && p.1@.map_values(|t: String| t@) == v.1,
            None => r == Err::<(Vec<CpuInfo>, Vec<String>), i32>(platform_errno(Errno::Einval)),
        },
{
    let cs = str_chars(text);
    let blocks = block_spans_in(&cs);
    let ghost all = block_spans(cs@, 0);
    let mut entries: Vec<CpuInfo> = Vec::new();
    let mut clocks: Vec<String> = Vec::new();
    assert(entries@.map_values(|c: CpuInfo| cpu_info_view(c)) =~= seq![]);
    assert(clocks@.map_values(|t: String| t@) =~= seq![]);
    let mut n: usize = 0;
    while n < blocks.len()
        invariant
            n <= blocks@.len(),
            cs@ == text@,
            all == block_spans(cs@, 0),
            blocks@.len() == all.len(),
            forall|m: int|
                0 <= m < blocks@.len() ==> (#[trigger] blocks@[m]).0 as int == all[m].0
                    && blocks@[m].1 as int == all[m].1 && blocks@[m].0 <= blocks@[m].1 <= cs@.len(),
            blocks_fold(cs@, all, n as int) == Ok::<(Seq<CpuInfoView>, Seq<Seq<char>>), ()>(
                (
                    entries@.map_values(|c: CpuInfo| cpu_info_view(c)),
                    clocks@.map_values(|t: String| t@),
                ),
            ),
        decreases blocks@.len() - n,
    {
        let (a, b) = blocks[n];
        let ghost acc_e = entries@.map_values(|c: CpuInfo| cpu_info_view(c));
        let ghost acc_c = clocks@.map_values(|t: String| t@);
        match cpuinfo_block_in(&cs, a, b) {
            Err(()) => {
                proof {
                    lemma_blocks_fold_err(cs@, all, n + 1);
                }
                return Err(errno_code(Errno::Einval));
            },
            Ok((core, model, mhz, block_clocks)) => {
                let ghost st = block_state_of(cs@, core, model, mhz, block_clocks@);
                let mut k: usize = 0;
                while k < block_clocks.len()
                    invariant
                        k <= block_clocks@.len(),
                        forall|m: int| 0 <= m < block_clocks@.len() ==> (#[trigger] block_clocks@[m]).0 <= block_clocks@[m].1 <= cs@.len(),
                        clocks@.map_values(|t: String| t@) == acc_c + span_texts(cs@, block_clocks@.take(k as int)),
                    decreases block_clocks@.len() - k,
                {
                    let (p, q) = block_clocks[k];
                    let ghost before = clocks@.map_values(|t: String| t@);
                    clocks.push(string_from(&cs, p, q));
                    proof {
                        assert(span_texts(cs@, block_clocks@.take(k + 1)) =~= span_texts(cs@, block_clocks@.take(k as int)).push(span_text(cs@, (p, q))));
                        assert(clocks@.map_values(|t: String| t@) =~= before.push(span_text(cs@, (p, q))));
                    }
                    k = k + 1;
                }
                assert(block_clocks@.take(k as int) =~= block_clocks@);
                match core {
                    None => {},
                    Some(c) => {
                        match model {
                            Some((ms, me)) => {
                                if ms >= me {
                                    proof {
                                        assert(span_text(cs@, (ms, me)).len() == 0);
                                        lemma_blocks_fold_err(cs@, all, n + 1);
                                    }
                                    return Err(errno_code(Errno::Einval));
                                }
                                let text_model = string_from(&cs, ms, me);
                                let text_mhz = match mhz {
                                    Some((p, q)) => Some(string_from(&cs, p, q)),
                                    None => None,
                                };
                                let entry = CpuInfo { core: c, model: text_model, mhz: text_mhz };
                                let ghost before = entries@.map_values(|c: CpuInfo| cpu_info_view(c));
                                entries.push(entry);
                                assert(entries@.map_values(|c: CpuInfo| cpu_info_view(c)) =~= before.push(cpu_info_view(entry)));
                            },
                            None => {
                                proof {
                                    lemma_blocks_fold_err(cs@, all, n + 1);
                                }
                                return Err(errno_code(Errno::Einval));
                            },
                        }
                    },
                }
            },
        }
        n = n + 1;
    }
    if entries.len() == 0 {
        return Err(errno_code(Errno::Einval));
    }
    Ok((entries, clocks))
}

} // verus!

verus! {

/// The numbers among some fields, in order: each field that reads as a
/// `u32`; the others are skipped.
pub open spec fn u32_fields(fs: Seq<Seq<char>>) -> Seq<u32>
    decreases fs.len(),
{
    if fs.len() == 0 {
        seq![]
    } else {
        let rest = u32_fields(fs.drop_last());
        match parse_uint(fs.last(), 10, u32::MAX as nat) {
            Some(v) => rest.push(v as u32),
            None => rest,
        }
    }
}

/// The pids a `/proc/<pid>/task/<tid>/children` file lists: its
/// whitespace-separated fields that read as pids, in order.
pub open spec fn child_pids_of(s: Seq<char>) -> Seq<u32> {
    u32_fields(fields(s, 0, s.len() as int))
}

/// Reads the child pids a `children` file lists.
pub fn child_pids(text: &str) -> (v: Vec<u32>)
    ensures
        v@ == child_pids_of(text@),
{
    let cs = str_chars(text);
    let spans = field_spans_in(&cs, 0, cs.len());
    let ghost fs = fields(cs@, 0, cs@.len() as int);
    let mut out: Vec<u32> = Vec::new();
    let mut i: usize = 0;
    assert(fs.take(0) =~= Seq::<Seq<char>>::empty());
    while i < spans.len()
        invariant
            i <= spans@.len(),
            spans@.len() == fs.len(),
            fs == fields(cs@, 0, cs@.len() as int),
            forall|n: int|
                0 <= n < spans@.len() ==> 0 <= (#[trigger] spans@[n]).0 < spans@[n].1 <= cs@.len(),
            forall|n: int|
                0 <= n < spans@.len() ==> fs[n] == cs@.subrange(
                    (#[trigger] spans@[n]).0 as int,
                    spans@[n].1 as int,
                ),
            out@ == u32_fields(fs.take(i as int)),
        decreases spans@.len() - i,
    {
        let (a, b) = spans[i];
        proof {
            assert(fs.take(i + 1).drop_last() =~= fs.take(i as int));
            assert(fs.take(i + 1).last() == fs[i as int]);
        }
        match parse_uint_in(&cs, a, b, 10, u32::MAX as u64) {
            Some(v) => {
                out.push(v as u32);
            },
            None => {},
        }
        i = i + 1;
    }
    assert(fs.take(spans@.len() as int) =~= fs);
    out
}

} // verus!

verus! {

/// The pids of a host, from the names of the entries of `/proc`: every
/// name that reads as a pid, in ascending order.
pub open spec fn host_pids_of(names: Seq<Seq<char>>) -> Seq<u32> {
    stable_sorted(u32_fields(names))
}

/// Reads the pids of a host from the names of the entries of `/proc`.
pub fn host_pid_list(names: &[String]) -> (v: Vec<u32>)
    ensures
        v@ == host_pids_of(names@.map_values(|s: String| s@)),
        forall|i: int, j: int| 0 <= i < j < v@.len() ==> v@[i] <= v@[j],
{
    let ghost fs = names@.map_values(|s: String| s@);
    let mut out: Vec<u32> = Vec::new();
    let mut i: usize = 0;
    assert(fs.take(0) =~= Seq::<Seq<char>>::empty());
    while i < names.len()
        invariant
            i <= names@.len(),
            fs == names@.map_values(|s: String| s@),
            out@ == u32_fields(fs.take(i as int)),
        decreases names@.len() - i,
    {
        let cs = str_chars(names[i].as_str());
        proof {
            assert(fs.take(i + 1).drop_last() =~= fs.take(i as int));
            assert(fs.take(i + 1).last() == fs[i as int]);
            assert(cs@.subrange(0, cs@.len() as int) =~= fs[i as int]);
        }
        match parse_uint_in(&cs, 0, cs.len(), 10, u32::MAX as u64) {
            Some(v) => {
                out.push(v as u32);
            },
            None => {},
        }
        i = i + 1;
    }
    assert(fs.take(names@.len() as int) =~= fs);
    proof {
        lemma_stable_sorted(out@);
    }
    sort_rows(&mut out);
    out
}

} // verus!
