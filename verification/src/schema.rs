//! The versioned fact set: one shape behind the TSV and JSON documents.
use vstd::prelude::*;
use crate::errno::{errno_code, errno_name, errno_spelling, errno_word, platform_errno, Errno};
use crate::json::{encode_tsv_string, encode_tsv_strings, json_string, json_string_array};
use crate::order::{
    bytes_lex_le, dedup_rows, dedup_runs, lemma_lex_total, lemma_lex_transitive, lex_le, sort_rows,
    stable_sorted, RowOrder,
};
use crate::proc_addr::{encode_hex, spec_encode_hex};
use crate::text::{decimal, push_char, push_decimal, push_signed_decimal, push_str, signed_decimal};
use vstd::utf8::encode_utf8;
use vstd::std_specs::iter::IteratorSpec;

verus! {

/// The schema version every document opens with.
pub const SCHEMA_VERSION: u32 = 2;

/// The facet vocabulary: the one noun `U` and `E` rows are spelled in.
#[derive(Debug, Clone, Copy, PartialEq, Eq, PartialOrd, Ord, Hash, Structural)]
pub enum Facet {
    Proc,
    Ports,
    PortsUnclaimed,
    PortsUid,
    Mem,
    StartTime,
    CpuTime,
    Uid,
    Cwd,
    Status,
    StatusThreads,
    Argv,
    SocketHolders,
    Uptime,
    Load,
    Cpu,
    Net,
    Disk,
}

/// The wire spelling of a facet.
pub open spec fn facet_name(f: Facet) -> Seq<char> {
    match f {
        Facet::Proc => "proc"@,
        Facet::Ports => "ports"@,
        Facet::PortsUnclaimed => "ports_unclaimed"@,
        Facet::PortsUid => "ports_uid"@,
        Facet::Mem => "mem"@,
        Facet::StartTime => "start_time"@,
        Facet::CpuTime => "cpu_time"@,
        Facet::Uid => "uid"@,
        Facet::Cwd => "cwd"@,
        Facet::Status => "status"@,
        Facet::StatusThreads => "status_threads"@,
        Facet::Argv => "argv"@,
        Facet::SocketHolders => "socket_holders"@,
        Facet::Uptime => "uptime"@,
        Facet::Load => "load"@,
        Facet::Cpu => "cpu"@,
        Facet::Net => "net"@,
        Facet::Disk => "disk"@,
    }
}

/// The position of a facet in declaration order, which is also its order.
pub open spec fn facet_rank(f: Facet) -> int {
    match f {
        Facet::Proc => 0,
        Facet::Ports => 1,
        Facet::PortsUnclaimed => 2,
        Facet::PortsUid => 3,
        Facet::Mem => 4,
        Facet::StartTime => 5,
        Facet::CpuTime => 6,
        Facet::Uid => 7,
        Facet::Cwd => 8,
        Facet::Status => 9,
        Facet::StatusThreads => 10,
        Facet::Argv => 11,
        Facet::SocketHolders => 12,
        Facet::Uptime => 13,
        Facet::Load => 14,
        Facet::Cpu => 15,
        Facet::Net => 16,
        Facet::Disk => 17,
    }
}

impl Facet {
    /// The wire spelling.
    pub fn as_str(self) -> (s: &'static str)
        ensures
            s@ == facet_name(self),
    {
        match self {
            Facet::Proc => "proc",
            Facet::Ports => "ports",
            Facet::PortsUnclaimed => "ports_unclaimed",
            Facet::PortsUid => "ports_uid",
            Facet::Mem => "mem",
            Facet::StartTime => "start_time",
            Facet::CpuTime => "cpu_time",
            Facet::Uid => "uid",
            Facet::Cwd => "cwd",
            Facet::Status => "status",
            Facet::StatusThreads => "status_threads",
            Facet::Argv => "argv",
            Facet::SocketHolders => "socket_holders",
            Facet::Uptime => "uptime",
            Facet::Load => "load",
            Facet::Cpu => "cpu",
            Facet::Net => "net",
            Facet::Disk => "disk",
        }
    }

    /// The facet's position in declaration order.
    pub fn rank(self) -> (r: u8)
        ensures
            r as int == facet_rank(self),
    {
        match self {
            Facet::Proc => 0,
            Facet::Ports => 1,
            Facet::PortsUnclaimed => 2,
            Facet::PortsUid => 3,
            Facet::Mem => 4,
            Facet::StartTime => 5,
            Facet::CpuTime => 6,
            Facet::Uid => 7,
            Facet::Cwd => 8,
            Facet::Status => 9,
            Facet::StatusThreads => 10,
            Facet::Argv => 11,
            Facet::SocketHolders => 12,
            Facet::Uptime => 13,
            Facet::Load => 14,
            Facet::Cpu => 15,
            Facet::Net => 16,
            Facet::Disk => 17,
        }
    }

    /// Facets a `U` row can name: what one unreadable pid costs.
    pub const UNREADABLE: [Facet; 10] = [
        Facet::Proc,
        Facet::Ports,
        Facet::Mem,
        Facet::StartTime,
        Facet::CpuTime,
        Facet::Uid,
        Facet::Cwd,
        Facet::Status,
        Facet::StatusThreads,
        Facet::Argv,
    ];

    /// Facets an `E` row of the `snapshot` verb can name: what one blind
    /// source costs.
    pub const SNAPSHOT_SOURCE: [Facet; 11] = [
        Facet::Proc,
        Facet::Ports,
        Facet::PortsUnclaimed,
        Facet::PortsUid,
        Facet::Mem,
        Facet::StartTime,
        Facet::CpuTime,
        Facet::Uid,
        Facet::Cwd,
        Facet::Status,
        Facet::Argv,
    ];

    /// Facets an `E` row of the `socket-holders` verb can name: only the
    /// holder set itself. A holder whose name cannot be read costs that one
    /// holder a `U` row, never a blind source.
    pub const SOCKET_HOLDERS_SOURCE: [Facet; 1] = [Facet::SocketHolders];

    /// Facets an `E` row of the `host` verb can name.
    pub const HOST_SOURCE: [Facet; 6] = [
        Facet::Uptime,
        Facet::Load,
        Facet::Mem,
        Facet::Cpu,
        Facet::Net,
        Facet::Disk,
    ];
}

/// Who claims a listener or holds a socket: a readable pid, or nobody this
/// reading could name.
#[derive(Debug, Clone, Copy, PartialEq, Eq, Structural)]
pub enum Attribution {
    Claimed { pid: u32 },
    Unclaimed,
}

/// One listening socket.
#[derive(Debug, Clone, PartialEq, Eq)]
pub struct Port {
    pub attribution: Attribution,
    pub uid: Option<u32>,
    pub port: u16,
    pub address: String,
}

/// One pid whose facet could not be read.
#[derive(Debug, Clone, PartialEq, Eq)]
pub struct Unreadable {
    pub pid: u32,
    pub facet: Facet,
    pub errno: String,
}

/// A source that could not be read, and the facet its silence costs.
#[derive(Debug, Clone, PartialEq, Eq)]
pub struct SourceError {
    pub source: String,
    pub facet: Facet,
    pub code: String,
}

/// The code a source reports when it cannot tell gated from genuinely
/// empty.
pub open spec fn blind_or_empty_code() -> Seq<char> {
    "BLIND_OR_EMPTY"@
}

/// One `E` row: a source that could not be read, and the facet it costs.
pub fn source_error(source: &str, facet: Facet, err: i32) -> (e: SourceError)
    ensures
        e.source@ == source@,
        e.facet == facet,
        e.code@ == errno_spelling(err),
        forall|which: Errno| err == platform_errno(which) ==> e.code@ == #[trigger] errno_word(which),
{
    SourceError { source: source.to_owned(), facet, code: errno_name(err) }
}

/// One `E` row for the indistinguishable-empty condition.
pub fn blind_or_empty(source: &str, facet: Facet) -> (e: SourceError)
    ensures
        e.source@ == source@,
        e.facet == facet,
        e.code@ == blind_or_empty_code(),
{
    SourceError { source: source.to_owned(), facet, code: String::from_str("BLIND_OR_EMPTY") }
}

} // verus!

verus! {

/// One process: its pid, parent pid and short name.
#[derive(Debug, Clone, PartialEq, Eq)]
pub struct Proc {
    pub pid: u32,
    pub ppid: u32,
    pub name: String,
}

/// One process's resident set size.
#[derive(Debug, Clone, Copy, PartialEq, Eq)]
pub struct Memory {
    pub pid: u32,
    pub rss_bytes: u64,
}

/// One process's start time, in microseconds since the epoch.
#[derive(Debug, Clone, Copy, PartialEq, Eq)]
pub struct StartTime {
    pub pid: u32,
    pub start_unix_us: u64,
}

/// One process's cumulative user plus system CPU time, in microseconds.
#[derive(Debug, Clone, Copy, PartialEq, Eq)]
pub struct ProcessCpuTime {
    pub pid: u32,
    pub cpu_time_us: u64,
}

/// One process's real uid.
#[derive(Debug, Clone, Copy, PartialEq, Eq)]
pub struct ProcessUid {
    pub pid: u32,
    pub uid: u32,
}

/// One process's working directory.
#[derive(Debug, Clone, PartialEq, Eq)]
pub struct ProcessCwd {
    pub pid: u32,
    pub cwd: String,
}

/// One process's scheduler state, nice value and thread count (when the
/// platform reports one).
#[derive(Debug, Clone, Copy, PartialEq, Eq)]
pub struct ProcessStatus {
    pub pid: u32,
    pub state: char,
    pub nice: i32,
    pub threads: Option<u32>,
}

/// One process's full argument vector.
#[derive(Debug, Clone, PartialEq, Eq)]
pub struct ProcessArgv {
    pub pid: u32,
    pub argv: Vec<String>,
}

/// A TSV row type: what one row renders to, line feed included.
pub trait TsvRow {
    spec fn tsv_line(&self) -> Seq<char>;

    fn push_tsv_line(&self, out: &mut String)
        ensures
            final(out)@ == old(out)@ + self.tsv_line(),
    ;
}

/// The TSV lines of a block of rows, in order.
pub open spec fn tsv_lines<T: TsvRow>(rows: Seq<T>) -> Seq<char>
    decreases rows.len(),
{
    if rows.len() == 0 {
        seq![]
    } else {
        tsv_lines(rows.drop_last()) + rows.last().tsv_line()
    }
}

/// Appends the TSV lines of a block of rows.
pub fn push_tsv_lines<T: TsvRow>(out: &mut String, rows: &[T])
    ensures
        final(out)@ == old(out)@ + tsv_lines(rows@),
{
    let ghost start = out@;
    let mut i: usize = 0;
    while i < rows.len()
        invariant
            i <= rows@.len(),
            out@ == start + tsv_lines(rows@.take(i as int)),
        decreases rows@.len() - i,
    {
        rows[i].push_tsv_line(out);
        proof {
            assert(rows@.take(i + 1).drop_last() =~= rows@.take(i as int));
            assert(start + tsv_lines(rows@.take(i as int)) + rows@[i as int].tsv_line() =~= start
                + tsv_lines(rows@.take(i + 1)));
        }
        i = i + 1;
    }
    assert(rows@.take(rows@.len() as int) =~= rows@);
}

/// An optional number as a TSV column: the number, or `-`.
pub open spec fn optional_column(v: Option<u32>) -> Seq<char> {
    match v {
        Some(x) => decimal(x as nat),
        None => "-"@,
    }
}

/// The status word of an attribution.
pub open spec fn attribution_status(a: Attribution) -> Seq<char> {
    match a {
        Attribution::Claimed { .. } => "claimed"@,
        Attribution::Unclaimed => "unclaimed"@,
    }
}

/// The pid column of an attribution: the pid, or `-` when unclaimed.
pub open spec fn attribution_pid(a: Attribution) -> Seq<char> {
    match a {
        Attribution::Claimed { pid } => decimal(pid as nat),
        Attribution::Unclaimed => "-"@,
    }
}

fn push_optional(out: &mut String, v: Option<u32>)
    ensures
        final(out)@ == old(out)@ + optional_column(v),
{
    match v {
        Some(x) => push_decimal(out, x as u64),
        None => push_str(out, "-"),
    }
}

/// Appends the two TSV columns an attribution occupies: the status word,
/// then the pid (or `-`). One writer for the `L` and `H` rows alike.
fn push_attribution(out: &mut String, a: Attribution)
    ensures
        final(out)@ == old(out)@ + attribution_status(a) + "\t"@ + attribution_pid(a),
{
    match a {
        Attribution::Claimed { pid } => {
            push_str(out, "claimed");
            push_str(out, "\t");
            push_decimal(out, pid as u64);
        },
        Attribution::Unclaimed => {
            push_str(out, "unclaimed");
            push_str(out, "\t");
            push_str(out, "-");
        },
    }
}

impl TsvRow for Proc {
    open spec fn tsv_line(&self) -> Seq<char> {
        "P\t"@ + decimal(self.pid as nat) + "\t"@ + decimal(self.ppid as nat) + "\t"@ + self.name@
            + "\n"@
    }

    fn push_tsv_line(&self, out: &mut String) {
        push_str(out, "P\t");
        push_decimal(out, self.pid as u64);
        push_str(out, "\t");
        push_decimal(out, self.ppid as u64);
        push_str(out, "\t");
        push_str(out, self.name.as_str());
        push_str(out, "\n");
    }
}

impl TsvRow for Memory {
    open spec fn tsv_line(&self) -> Seq<char> {
        "M\t"@ + decimal(self.pid as nat) + "\t"@ + decimal(self.rss_bytes as nat) + "\n"@
    }

    fn push_tsv_line(&self, out: &mut String) {
        push_str(out, "M\t");
        push_decimal(out, self.pid as u64);
        push_str(out, "\t");
        push_decimal(out, self.rss_bytes);
        push_str(out, "\n");
    }
}

impl TsvRow for StartTime {
    open spec fn tsv_line(&self) -> Seq<char> {
        "S\t"@ + decimal(self.pid as nat) + "\t"@ + decimal(self.start_unix_us as nat) + "\n"@
    }

    fn push_tsv_line(&self, out: &mut String) {
        push_str(out, "S\t");
        push_decimal(out, self.pid as u64);
        push_str(out, "\t");
        push_decimal(out, self.start_unix_us);
        push_str(out, "\n");
    }
}

impl TsvRow for ProcessCpuTime {
    open spec fn tsv_line(&self) -> Seq<char> {
        "C\t"@ + decimal(self.pid as nat) + "\t"@ + decimal(self.cpu_time_us as nat) + "\n"@
    }

    fn push_tsv_line(&self, out: &mut String) {
        push_str(out, "C\t");
        push_decimal(out, self.pid as u64);
        push_str(out, "\t");
        push_decimal(out, self.cpu_time_us);
        push_str(out, "\n");
    }
}

impl TsvRow for ProcessUid {
    open spec fn tsv_line(&self) -> Seq<char> {
        "UID\t"@ + decimal(self.pid as nat) + "\t"@ + decimal(self.uid as nat) + "\n"@
    }

    fn push_tsv_line(&self, out: &mut String) {
        push_str(out, "UID\t");
        push_decimal(out, self.pid as u64);
        push_str(out, "\t");
        push_decimal(out, self.uid as u64);
        push_str(out, "\n");
    }
}

impl TsvRow for ProcessCwd {
    open spec fn tsv_line(&self) -> Seq<char> {
        "CWD\t"@ + decimal(self.pid as nat) + "\t"@ + json_string(self.cwd@) + "\n"@
    }

    fn push_tsv_line(&self, out: &mut String) {
        push_str(out, "CWD\t");
        push_decimal(out, self.pid as u64);
        push_str(out, "\t");
        let encoded = encode_tsv_string(self.cwd.as_str());
        push_str(out, encoded.as_str());
        push_str(out, "\n");
    }
}

impl TsvRow for ProcessStatus {
    open spec fn tsv_line(&self) -> Seq<char> {
        "STAT\t"@ + decimal(self.pid as nat) + "\t"@ + seq![self.state] + "\t"@ + signed_decimal(
            self.nice as int,
        ) + "\t"@ + optional_column(self.threads) + "\n"@
    }

    fn push_tsv_line(&self, out: &mut String) {
        push_str(out, "STAT\t");
        push_decimal(out, self.pid as u64);
        push_str(out, "\t");
        push_char(out, self.state);
        push_str(out, "\t");
        push_signed_decimal(out, self.nice as i64);
        push_str(out, "\t");
        push_optional(out, self.threads);
        push_str(out, "\n");
    }
}

impl TsvRow for ProcessArgv {
    open spec fn tsv_line(&self) -> Seq<char> {
        "ARGV\t"@ + decimal(self.pid as nat) + "\t"@ + json_string_array(
            self.argv@.map_values(|v: String| v@),
        ) + "\n"@
    }

    fn push_tsv_line(&self, out: &mut String) {
        push_str(out, "ARGV\t");
        push_decimal(out, self.pid as u64);
        push_str(out, "\t");
        let encoded = encode_tsv_strings(self.argv.as_slice());
        push_str(out, encoded.as_str());
        push_str(out, "\n");
    }
}

impl TsvRow for Port {
    open spec fn tsv_line(&self) -> Seq<char> {
        "L\t"@ + attribution_status(self.attribution) + "\t"@ + attribution_pid(self.attribution)
            + "\t"@ + optional_column(self.uid) + "\t"@ + decimal(self.port as nat) + "\t"@
            + self.address@ + "\n"@
    }

    fn push_tsv_line(&self, out: &mut String) {
        push_str(out, "L\t");
        push_attribution(out, self.attribution);
        push_str(out, "\t");
        push_optional(out, self.uid);
        push_str(out, "\t");
        push_decimal(out, self.port as u64);
        push_str(out, "\t");
        push_str(out, self.address.as_str());
        push_str(out, "\n");
    }
}

impl TsvRow for Unreadable {
    open spec fn tsv_line(&self) -> Seq<char> {
        "U\t"@ + decimal(self.pid as nat) + "\t"@ + facet_name(self.facet) + "\t"@ + self.errno@
            + "\n"@
    }

    fn push_tsv_line(&self, out: &mut String) {
        push_str(out, "U\t");
        push_decimal(out, self.pid as u64);
        push_str(out, "\t");
        push_str(out, self.facet.as_str());
        push_str(out, "\t");
        push_str(out, self.errno.as_str());
        push_str(out, "\n");
    }
}

impl TsvRow for SourceError {
    open spec fn tsv_line(&self) -> Seq<char> {
        "E\t"@ + self.source@ + "\t"@ + facet_name(self.facet) + "\t"@ + self.code@ + "\n"@
    }

    fn push_tsv_line(&self, out: &mut String) {
        push_str(out, "E\t");
        push_str(out, self.source.as_str());
        push_str(out, "\t");
        push_str(out, self.facet.as_str());
        push_str(out, "\t");
        push_str(out, self.code.as_str());
        push_str(out, "\n");
    }
}

impl TsvRow for Attribution {
    open spec fn tsv_line(&self) -> Seq<char> {
        "H\t"@ + attribution_status(*self) + "\t"@ + attribution_pid(*self) + "\n"@
    }

    fn push_tsv_line(&self, out: &mut String) {
        push_str(out, "H\t");
        push_attribution(out, *self);
        push_str(out, "\n");
    }
}

} // verus!

verus! {

impl RowOrder for Proc {
    open spec fn ranks_before(self, other: Self) -> bool {
        self.pid <= other.pid
    }

    proof fn lemma_total(a: Self, b: Self) {
    }

    proof fn lemma_transitive(a: Self, b: Self, c: Self) {
    }

    fn precedes(&self, other: &Self) -> (r: bool) {
        self.pid <= other.pid
    }
}

impl RowOrder for Memory {
    open spec fn ranks_before(self, other: Self) -> bool {
        self.pid <= other.pid
    }

    proof fn lemma_total(a: Self, b: Self) {
    }

    proof fn lemma_transitive(a: Self, b: Self, c: Self) {
    }

    fn precedes(&self, other: &Self) -> (r: bool) {
        self.pid <= other.pid
    }
}

impl RowOrder for StartTime {
    open spec fn ranks_before(self, other: Self) -> bool {
        self.pid <= other.pid
    }

    proof fn lemma_total(a: Self, b: Self) {
    }

    proof fn lemma_transitive(a: Self, b: Self, c: Self) {
    }

    fn precedes(&self, other: &Self) -> (r: bool) {
        self.pid <= other.pid
    }
}

impl RowOrder for ProcessCpuTime {
    open spec fn ranks_before(self, other: Self) -> bool {
        self.pid <= other.pid
    }

    proof fn lemma_total(a: Self, b: Self) {
    }

    proof fn lemma_transitive(a: Self, b: Self, c: Self) {
    }

    fn precedes(&self, other: &Self) -> (r: bool) {
        self.pid <= other.pid
    }
}

impl RowOrder for ProcessUid {
    open spec fn ranks_before(self, other: Self) -> bool {
        self.pid <= other.pid
    }

    proof fn lemma_total(a: Self, b: Self) {
    }

    proof fn lemma_transitive(a: Self, b: Self, c: Self) {
    }

    fn precedes(&self, other: &Self) -> (r: bool) {
        self.pid <= other.pid
    }
}

impl RowOrder for ProcessCwd {
    open spec fn ranks_before(self, other: Self) -> bool {
        self.pid <= other.pid
    }

    proof fn lemma_total(a: Self, b: Self) {
    }

    proof fn lemma_transitive(a: Self, b: Self, c: Self) {
    }

    fn precedes(&self, other: &Self) -> (r: bool) {
        self.pid <= other.pid
    }
}

impl RowOrder for ProcessStatus {
    open spec fn ranks_before(self, other: Self) -> bool {
        self.pid <= other.pid
    }

    proof fn lemma_total(a: Self, b: Self) {
    }

    proof fn lemma_transitive(a: Self, b: Self, c: Self) {
    }

    fn precedes(&self, other: &Self) -> (r: bool) {
        self.pid <= other.pid
    }
}

impl RowOrder for ProcessArgv {
    open spec fn ranks_before(self, other: Self) -> bool {
        self.pid <= other.pid
    }

    proof fn lemma_total(a: Self, b: Self) {
    }

    proof fn lemma_transitive(a: Self, b: Self, c: Self) {
    }

    fn precedes(&self, other: &Self) -> (r: bool) {
        self.pid <= other.pid
    }
}

/// The claim column a listener sorts by: the pid, with unclaimed rows
/// after every claimed one.
pub open spec fn claim_rank(a: Attribution) -> u32 {
    match a {
        Attribution::Claimed { pid } => pid,
        Attribution::Unclaimed => u32::MAX,
    }
}

fn claim_rank_of(a: Attribution) -> (r: u32)
    ensures
        r == claim_rank(a),
{
    match a {
        Attribution::Claimed { pid } => pid,
        Attribution::Unclaimed => u32::MAX,
    }
}

/// Listener rows order by port, then claiming pid (unclaimed last), then
/// address text: a total order, since several sockets may share a port.
impl RowOrder for Port {
    open spec fn ranks_before(self, other: Self) -> bool {
        ||| self.port < other.port
        ||| self.port == other.port && claim_rank(self.attribution) < claim_rank(other.attribution)
        ||| self.port == other.port && claim_rank(self.attribution) == claim_rank(other.attribution)
            && lex_le(encode_utf8(self.address@), encode_utf8(other.address@))
    }

    proof fn lemma_total(a: Self, b: Self) {
        lemma_lex_total(encode_utf8(a.address@), encode_utf8(b.address@));
    }

    proof fn lemma_transitive(a: Self, b: Self, c: Self) {
        if a.port == b.port && b.port == c.port && claim_rank(a.attribution) == claim_rank(
            b.attribution,
        ) && claim_rank(b.attribution) == claim_rank(c.attribution) {
            lemma_lex_transitive(
                encode_utf8(a.address@),
                encode_utf8(b.address@),
                encode_utf8(c.address@),
            );
        }
    }

    fn precedes(&self, other: &Self) -> (r: bool) {
        let a = claim_rank_of(self.attribution);
        let b = claim_rank_of(other.attribution);
        if self.port != other.port {
            self.port < other.port
        } else if a != b {
            a < b
        } else {
            bytes_lex_le(self.address.as_str().as_bytes(), other.address.as_str().as_bytes())
        }
    }
}

/// Unreadable rows order by pid, then facet: the pair that also
/// identifies one fact.
impl RowOrder for Unreadable {
    open spec fn ranks_before(self, other: Self) -> bool {
        self.pid < other.pid || (self.pid == other.pid && facet_rank(self.facet) <= facet_rank(
            other.facet,
        ))
    }

    proof fn lemma_total(a: Self, b: Self) {
    }

    proof fn lemma_transitive(a: Self, b: Self, c: Self) {
    }

    fn precedes(&self, other: &Self) -> (r: bool) {
        self.pid < other.pid || (self.pid == other.pid && self.facet.rank() <= other.facet.rank())
    }
}

/// The sort key of a holder row: claimed rows by pid, then the one
/// unclaimed row.
pub open spec fn holder_key(a: Attribution) -> (int, int) {
    match a {
        Attribution::Claimed { pid } => (0, pid as int),
        Attribution::Unclaimed => (1, 0),
    }
}

impl RowOrder for Attribution {
    open spec fn ranks_before(self, other: Self) -> bool {
        holder_key(self).0 < holder_key(other).0 || (holder_key(self).0 == holder_key(other).0
            && holder_key(self).1 <= holder_key(other).1)
    }

    proof fn lemma_total(a: Self, b: Self) {
    }

    proof fn lemma_transitive(a: Self, b: Self, c: Self) {
    }

    fn precedes(&self, other: &Self) -> (r: bool) {
        match (*self, *other) {
            (Attribution::Claimed { pid: a }, Attribution::Claimed { pid: b }) => a <= b,
            (Attribution::Claimed { .. }, Attribution::Unclaimed) => true,
            (Attribution::Unclaimed, Attribution::Claimed { .. }) => false,
            (Attribution::Unclaimed, Attribution::Unclaimed) => true,
        }
    }
}

} // verus!

verus! {

/// Appends one `U` row: the pid, the facet, and the errno's spelling.
fn push_unreadable_row(rows: &mut Vec<Unreadable>, pid: u32, facet: Facet, err: i32)
    ensures
        final(rows)@.len() == old(rows)@.len() + 1,
        final(rows)@.take(old(rows)@.len() as int) == old(rows)@,
        final(rows)@.last().pid == pid,
        final(rows)@.last().facet == facet,
        final(rows)@.last().errno@ == errno_spelling(err),
        forall|which: Errno|
            err == platform_errno(which) ==> final(rows)@.last().errno@ == #[trigger] errno_word(which),
{
    rows.push(Unreadable { pid, facet, errno: errno_name(err) });
    assert(rows@.take(rows@.len() - 1) =~= old(rows)@);
}

/// `U` rows in document order: by (pid, facet), one row per pair, the row
/// read first surviving.
pub open spec fn normal_unreadable(rows: Seq<Unreadable>) -> Seq<Unreadable> {
    dedup_runs(stable_sorted(rows))
}

/// Orders and collapses a document's `U` rows.
fn normalize_unreadable(rows: &mut Vec<Unreadable>)
    ensures
        final(rows)@ == normal_unreadable(old(rows)@),
{
    sort_rows(rows);
    dedup_rows(rows);
}

/// The `V` line every document opens with.
pub open spec fn version_line(version: u32) -> Seq<char> {
    "V\t"@ + decimal(version as nat) + "\n"@
}

fn push_version_line(out: &mut String, version: u32)
    ensures
        final(out)@ == old(out)@ + version_line(version),
{
    push_str(out, "V\t");
    push_decimal(out, version as u64);
    push_str(out, "\n");
}

/// The process-scoped document of the `snapshot` verb.
#[derive(Debug)]
pub struct Snapshot {
    pub version: u32,
    pub procs: Vec<Proc>,
    pub memory: Vec<Memory>,
    pub start_times: Vec<StartTime>,
    pub cpu_times: Vec<ProcessCpuTime>,
    pub uids: Vec<ProcessUid>,
    pub cwds: Vec<ProcessCwd>,
    pub statuses: Vec<ProcessStatus>,
    pub argv: Vec<ProcessArgv>,
    pub ports: Vec<Port>,
    pub unreadable: Vec<Unreadable>,
    pub errors: Vec<SourceError>,
}

/// One document the binary can emit. The three verbs answer different
/// questions, but they all obey one emit-and-exit law ([`exit_code`]).
pub trait Document: Sized {
    /// The document's TSV text.
    spec fn tsv_text(&self) -> Seq<char>;

    /// The document carries at least one fact.
    spec fn carries_facts(&self) -> bool;

    /// The sources that went blind.
    spec fn source_errors(&self) -> Seq<SourceError>;

    /// `self` is `before` put in document order.
    spec fn normal_form_of(&self, before: Self) -> bool;

    /// Renders the TSV document.
    fn to_tsv(&self) -> (s: String)
        ensures
            s@ == self.tsv_text(),
    ;

    /// Did this reading carry any fact?
    fn has_facts(&self) -> (b: bool)
        ensures
            b == self.carries_facts(),
    ;

    /// The sources that went blind: what the exit code is decided against.
    fn errors(&self) -> (e: &[SourceError])
        ensures
            e@ == self.source_errors(),
    ;

    /// Puts the rows in their total, platform-independent order.
    fn normalize(&mut self)
        ensures
            final(self).normal_form_of(*old(self)),
    ;
}

/// The process status a document exits with: 0 when it carried a fact or
/// no source went blind, 1 when it holds nothing but blindness.
pub open spec fn spec_exit_code<D: Document>(doc: D) -> u8 {
    if doc.source_errors().len() == 0 || doc.carries_facts() {
        0
    } else {
        1
    }
}

/// The exit status of an emitted document. A partial reading is a success:
/// only a document with nothing but blindness in it exits non-zero.
pub fn exit_code<D: Document>(doc: &D) -> (code: u8)
    ensures
        code == spec_exit_code(*doc),
        code == 0 <==> (doc.source_errors().len() == 0 || doc.carries_facts()),
{
    if doc.errors().len() == 0 || doc.has_facts() {
        0
    } else {
        1
    }
}

impl Snapshot {
    /// An empty snapshot of the current schema version.
    pub fn new() -> (s: Self)
        ensures
            s.version == SCHEMA_VERSION,
            s.procs@.len() == 0,
            s.memory@.len() == 0,
            s.start_times@.len() == 0,
            s.cpu_times@.len() == 0,
            s.uids@.len() == 0,
            s.cwds@.len() == 0,
            s.statuses@.len() == 0,
            s.argv@.len() == 0,
            s.ports@.len() == 0,
            s.unreadable@.len() == 0,
            s.errors@.len() == 0,
    {
        Snapshot {
            version: SCHEMA_VERSION,
            procs: Vec::new(),
            memory: Vec::new(),
            start_times: Vec::new(),
            cpu_times: Vec::new(),
            uids: Vec::new(),
            cwds: Vec::new(),
            statuses: Vec::new(),
            argv: Vec::new(),
            ports: Vec::new(),
            unreadable: Vec::new(),
            errors: Vec::new(),
        }
    }

    /// Records that one pid's facet could not be read. Duplicates are
    /// collapsed by `normalize`, not here.
    pub fn push_unreadable(&mut self, pid: u32, facet: Facet, err: i32)
        ensures
            final(self).unreadable@.len() == old(self).unreadable@.len() + 1,
            final(self).unreadable@.take(old(self).unreadable@.len() as int)
                == old(self).unreadable@,
            final(self).unreadable@.last().pid == pid,
            final(self).unreadable@.last().facet == facet,
            final(self).unreadable@.last().errno@ == errno_spelling(err),
            forall|which: Errno|
                err == platform_errno(which) ==> final(self).unreadable@.last().errno@
                    == #[trigger] errno_word(which),
            final(self).version == old(self).version,
            final(self).procs == old(self).procs,
            final(self).memory == old(self).memory,
            final(self).start_times == old(self).start_times,
            final(self).cpu_times == old(self).cpu_times,
            final(self).uids == old(self).uids,
            final(self).cwds == old(self).cwds,
            final(self).statuses == old(self).statuses,
            final(self).argv == old(self).argv,
            final(self).ports == old(self).ports,
            final(self).errors == old(self).errors,
    {
        push_unreadable_row(&mut self.unreadable, pid, facet, err);
    }

    /// Records one blind source for each facet it costs, in order.
    pub fn push_source_errors(&mut self, source: &str, facets: &[Facet], err: i32)
        ensures
            final(self).errors@.len() == old(self).errors@.len() + facets@.len(),
            final(self).errors@.take(old(self).errors@.len() as int) == old(self).errors@,
            forall|i: int|
                0 <= i < facets@.len() ==> {
                    let e = #[trigger] final(self).errors@[old(self).errors@.len() + i];
                    e.source@ == source@ && e.facet == facets@[i] && e.code@ == errno_spelling(
                        err,
                    )
                },
            final(self).version == old(self).version,
            final(self).procs == old(self).procs,
            final(self).memory == old(self).memory,
            final(self).start_times == old(self).start_times,
            final(self).cpu_times == old(self).cpu_times,
            final(self).uids == old(self).uids,
            final(self).cwds == old(self).cwds,
            final(self).statuses == old(self).statuses,
            final(self).argv == old(self).argv,
            final(self).ports == old(self).ports,
            final(self).unreadable == old(self).unreadable,
    {
        let ghost start = self.errors@;
        let mut i: usize = 0;
        while i < facets.len()
            invariant
                i <= facets@.len(),
                self.errors@.len() == start.len() + i,
                self.errors@.take(start.len() as int) == start,
                forall|k: int|
                    0 <= k < i ==> {
                        let e = #[trigger] self.errors@[start.len() + k];
                        e.source@ == source@ && e.facet == facets@[k] && e.code@
                            == errno_spelling(err)
                    },
                self.version == old(self).version,
                self.procs == old(self).procs,
                self.memory == old(self).memory,
                self.start_times == old(self).start_times,
                self.cpu_times == old(self).cpu_times,
                self.uids == old(self).uids,
                self.cwds == old(self).cwds,
                self.statuses == old(self).statuses,
                self.argv == old(self).argv,
                self.ports == old(self).ports,
                self.unreadable == old(self).unreadable,
                start == old(self).errors@,
            decreases facets@.len() - i,
        {
            let row = source_error(source, facets[i], err);
            let ghost before = self.errors@;
            self.errors.push(row);
            proof {
                assert(self.errors@.take(start.len() as int) =~= start) by {
                    assert forall|k: int| 0 <= k < start.len() implies self.errors@[k] == start[k] by {
                        assert(before.take(start.len() as int)[k] == start[k]);
                    }
                }
                assert forall|k: int| 0 <= k < i + 1 implies {
                    let e = #[trigger] self.errors@[start.len() + k];
                    e.source@ == source@ && e.facet == facets@[k] && e.code@ == errno_spelling(
                        err,
                    )
                } by {
                    if k < i {
                        assert(self.errors@[start.len() + k] == before[start.len() + k]);
                    }
                }
            }
            i = i + 1;
        }
    }
}

/// The TSV text of a snapshot: the version line, then the `P M S C UID CWD
/// STAT ARGV L U E` blocks in that order.
pub open spec fn snapshot_tsv(s: Snapshot) -> Seq<char> {
    version_line(s.version) + tsv_lines(s.procs@) + tsv_lines(s.memory@) + tsv_lines(
        s.start_times@,
    ) + tsv_lines(s.cpu_times@) + tsv_lines(s.uids@) + tsv_lines(s.cwds@) + tsv_lines(
        s.statuses@,
    ) + tsv_lines(s.argv@) + tsv_lines(s.ports@) + tsv_lines(s.unreadable@) + tsv_lines(
        s.errors@,
    )
}

impl Document for Snapshot {
    open spec fn tsv_text(&self) -> Seq<char> {
        snapshot_tsv(*self)
    }

    /// Every row but a source error is a fact, `U` rows included.
    open spec fn carries_facts(&self) -> bool {
        self.procs@.len() > 0 || self.memory@.len() > 0 || self.start_times@.len() > 0
            || self.cpu_times@.len() > 0 || self.uids@.len() > 0 || self.cwds@.len() > 0
            || self.statuses@.len() > 0 || self.argv@.len() > 0 || self.ports@.len() > 0
            || self.unreadable@.len() > 0
    }

    open spec fn source_errors(&self) -> Seq<SourceError> {
        self.errors@
    }

    /// Per-pid rows by pid, listeners by (port, pid, address), `U` rows by
    /// (pid, facet) with one row per pair; every sort stable. The version
    /// and the source errors keep their order.
    open spec fn normal_form_of(&self, before: Self) -> bool {
        &&& self.version == before.version
        &&& self.procs@ == stable_sorted(before.procs@)
        &&& self.memory@ == stable_sorted(before.memory@)
        &&& self.start_times@ == stable_sorted(before.start_times@)
        &&& self.cpu_times@ == stable_sorted(before.cpu_times@)
        &&& self.uids@ == stable_sorted(before.uids@)
        &&& self.cwds@ == stable_sorted(before.cwds@)
        &&& self.statuses@ == stable_sorted(before.statuses@)
        &&& self.argv@ == stable_sorted(before.argv@)
        &&& self.ports@ == stable_sorted(before.ports@)
        &&& self.unreadable@ == normal_unreadable(before.unreadable@)
        &&& self.errors@ == before.errors@
    }

    fn to_tsv(&self) -> (s: String) {
        let mut out = String::new();
        push_version_line(&mut out, self.version);
        push_tsv_lines(&mut out, self.procs.as_slice());
        push_tsv_lines(&mut out, self.memory.as_slice());
        push_tsv_lines(&mut out, self.start_times.as_slice());
        push_tsv_lines(&mut out, self.cpu_times.as_slice());
        push_tsv_lines(&mut out, self.uids.as_slice());
        push_tsv_lines(&mut out, self.cwds.as_slice());
        push_tsv_lines(&mut out, self.statuses.as_slice());
        push_tsv_lines(&mut out, self.argv.as_slice());
        push_tsv_lines(&mut out, self.ports.as_slice());
        push_tsv_lines(&mut out, self.unreadable.as_slice());
        push_tsv_lines(&mut out, self.errors.as_slice());
        out
    }

    fn has_facts(&self) -> (b: bool) {
        self.procs.len() > 0 || self.memory.len() > 0 || self.start_times.len() > 0
            || self.cpu_times.len() > 0 || self.uids.len() > 0 || self.cwds.len() > 0
            || self.statuses.len() > 0 || self.argv.len() > 0 || self.ports.len() > 0
            || self.unreadable.len() > 0
    }

    fn errors(&self) -> (e: &[SourceError]) {
        self.errors.as_slice()
    }

    fn normalize(&mut self) {
        sort_rows(&mut self.procs);
        sort_rows(&mut self.memory);
        sort_rows(&mut self.start_times);
        sort_rows(&mut self.cpu_times);
        sort_rows(&mut self.uids);
        sort_rows(&mut self.cwds);
        sort_rows(&mut self.statuses);
        sort_rows(&mut self.argv);
        sort_rows(&mut self.ports);
        normalize_unreadable(&mut self.unreadable);
    }
}

} // verus!

verus! {

/// A name made safe for one TSV column: tab, line feed and carriage return
/// become spaces; every other character stays.
pub open spec fn sanitized(name: Seq<char>) -> Seq<char> {
    name.map_values(|c: char| if c == '\t' || c == '\n' || c == '\r' { ' ' } else { c })
}

/// Replaces the TSV delimiters in a name with spaces.
pub fn sanitize_name(name: &str) -> (s: String)
    ensures
        s@ == sanitized(name@),
{
    broadcast use vstd::string::axiom_spec_iter, vstd::string::next_postcondition;

    let mut out = String::new();
    let mut chars = name.chars();
    let ghost mut done: Seq<char> = seq![];
    loop
        invariant_except_break
            done + chars.remaining() == name@,
            out@ == sanitized(done),
            chars.decrease() is Some,
        ensures
            out@ == sanitized(name@),
        decreases chars.decrease()->0,
    {
        match chars.next() {
            Some(c) => {
                let d = if c == '\t' || c == '\n' || c == '\r' {
                    ' '
                } else {
                    c
                };
                push_char(&mut out, d);
                proof {
                    assert(sanitized(done.push(c)) =~= sanitized(done).push(d));
                    assert(done.push(c) + chars.remaining() =~= done + seq![c] + chars.remaining());
                    done = done.push(c);
                }
            },
            None => {
                assert(done =~= name@);
                break;
            },
        }
    }
    out
}

/// Lowercase hex of raw bytes: the address column of an `L` row.
pub fn hex_bytes(bytes: &[u8]) -> (s: String)
    ensures
        s@ == spec_encode_hex(bytes@),
{
    encode_hex(bytes)
}

} // verus!

verus! {

/// What the `socket-holders` verb returns: who holds one unix socket path.
/// An empty holder set with no error is the affirmative answer "nobody
/// holds it".
#[derive(Debug)]
pub struct SocketHolders {
    pub version: u32,
    pub holders: Vec<Attribution>,
    /// Holder identity, only when `--procs` was asked.
    pub procs: Vec<Proc>,
    pub unreadable: Vec<Unreadable>,
    pub errors: Vec<SourceError>,
}

impl SocketHolders {
    /// An empty holder document of the current schema version.
    pub fn new() -> (s: Self)
        ensures
            s.version == SCHEMA_VERSION,
            s.holders@.len() == 0,
            s.procs@.len() == 0,
            s.unreadable@.len() == 0,
            s.errors@.len() == 0,
    {
        SocketHolders {
            version: SCHEMA_VERSION,
            holders: Vec::new(),
            procs: Vec::new(),
            unreadable: Vec::new(),
            errors: Vec::new(),
        }
    }

    /// The answer a build with no sensor for this host gives: not an empty
    /// document (that would say nobody holds the path) but one `E` row on
    /// the `socket_holders` facet, with `ENOTSUP`.
    pub fn unsupported_platform(source: &str) -> (s: Self)
        ensures
            s.version == SCHEMA_VERSION,
            s.holders@.len() == 0,
            s.procs@.len() == 0,
            s.unreadable@.len() == 0,
            s.errors@.len() == 1,
            s.errors@[0].source@ == source@,
            s.errors@[0].facet == Facet::SocketHolders,
            s.errors@[0].code@ == errno_spelling(platform_errno(Errno::Enotsup)),
            s.errors@[0].code@ == "ENOTSUP"@,
    {
        let mut out = SocketHolders::new();
        let code = errno_code(Errno::Enotsup);
        out.errors.push(source_error(source, Facet::SocketHolders, code));
        out
    }

    /// Records that one holder's facet could not be read. Duplicates are
    /// collapsed by `normalize`.
    pub fn push_unreadable(&mut self, pid: u32, facet: Facet, err: i32)
        ensures
            final(self).unreadable@.len() == old(self).unreadable@.len() + 1,
            final(self).unreadable@.take(old(self).unreadable@.len() as int)
                == old(self).unreadable@,
            final(self).unreadable@.last().pid == pid,
            final(self).unreadable@.last().facet == facet,
            final(self).unreadable@.last().errno@ == errno_spelling(err),
            forall|which: Errno|
                err == platform_errno(which) ==> final(self).unreadable@.last().errno@
                    == #[trigger] errno_word(which),
            final(self).version == old(self).version,
            final(self).holders == old(self).holders,
            final(self).procs == old(self).procs,
            final(self).errors == old(self).errors,
    {
        push_unreadable_row(&mut self.unreadable, pid, facet, err);
    }
}

/// The TSV text of a holder document: the version line, then the `H`, `P`,
/// `U` and `E` blocks.
pub open spec fn socket_holders_tsv(s: SocketHolders) -> Seq<char> {
    version_line(s.version) + tsv_lines(s.holders@) + tsv_lines(s.procs@) + tsv_lines(
        s.unreadable@,
    ) + tsv_lines(s.errors@)
}

impl Document for SocketHolders {
    open spec fn tsv_text(&self) -> Seq<char> {
        socket_holders_tsv(*self)
    }

    /// An empty holder set is not a fact: with no error it is the
    /// affirmative "nobody holds it", which succeeds through the error arm.
    open spec fn carries_facts(&self) -> bool {
        self.holders@.len() > 0 || self.procs@.len() > 0 || self.unreadable@.len() > 0
    }

    open spec fn source_errors(&self) -> Seq<SourceError> {
        self.errors@
    }

    /// Holders by pid with the unclaimed row last, one row per holder;
    /// processes by pid; `U` rows by (pid, facet), one per pair.
    open spec fn normal_form_of(&self, before: Self) -> bool {
        &&& self.version == before.version
        &&& self.holders@ == dedup_runs(stable_sorted(before.holders@))
        &&& self.procs@ == stable_sorted(before.procs@)
        &&& self.unreadable@ == normal_unreadable(before.unreadable@)
        &&& self.errors@ == before.errors@
    }

    fn to_tsv(&self) -> (s: String) {
        let mut out = String::new();
        push_version_line(&mut out, self.version);
        push_tsv_lines(&mut out, self.holders.as_slice());
        push_tsv_lines(&mut out, self.procs.as_slice());
        push_tsv_lines(&mut out, self.unreadable.as_slice());
        push_tsv_lines(&mut out, self.errors.as_slice());
        out
    }

    fn has_facts(&self) -> (b: bool) {
        self.holders.len() > 0 || self.procs.len() > 0 || self.unreadable.len() > 0
    }

    fn errors(&self) -> (e: &[SourceError]) {
        self.errors.as_slice()
    }

    fn normalize(&mut self) {
        sort_rows(&mut self.holders);
        dedup_rows(&mut self.holders);
        sort_rows(&mut self.procs);
        normalize_unreadable(&mut self.unreadable);
    }
}

} // verus!

verus! {

/// The host's one-, five- and fifteen-minute load averages, each held as
/// the decimal text its `HLOAD` column carries.
#[derive(Debug, Clone, PartialEq, Eq)]
pub struct Load {
    pub one: String,
    pub five: String,
    pub fifteen: String,
}

/// Host RAM.
#[derive(Debug, Clone, Copy, PartialEq, Eq)]
pub struct HostMemory {
    pub total_bytes: u64,
    pub available_bytes: u64,
}

/// Host swap.
#[derive(Debug, Clone, Copy, PartialEq, Eq)]
pub struct Swap {
    pub total_bytes: u64,
    pub used_bytes: u64,
}

/// One logical CPU: cumulative times in microseconds, its model name, and
/// its clock in MHz when the host reports a non-zero one.
#[derive(Debug, Clone, PartialEq, Eq)]
pub struct Cpu {
    pub core: u32,
    pub user_us: u64,
    pub system_us: u64,
    pub idle_us: u64,
    pub other_us: u64,
    pub model: String,
    pub frequency_mhz: Option<u64>,
}

/// One network interface's cumulative byte counters.
#[derive(Debug, Clone, PartialEq, Eq)]
pub struct Network {
    pub name: String,
    pub rx_bytes: u64,
    pub tx_bytes: u64,
}

/// One mounted filesystem's capacity.
#[derive(Debug, Clone, PartialEq, Eq)]
pub struct Disk {
    pub mount: String,
    pub total_bytes: u64,
    pub available_bytes: u64,
    pub free_bytes: u64,
}

/// An optional 64-bit number as a TSV column: the number, or `-`.
pub open spec fn optional_u64_column(v: Option<u64>) -> Seq<char> {
    match v {
        Some(x) => decimal(x as nat),
        None => "-"@,
    }
}

fn push_optional_u64(out: &mut String, v: Option<u64>)
    ensures
        final(out)@ == old(out)@ + optional_u64_column(v),
{
    match v {
        Some(x) => push_decimal(out, x),
        None => push_str(out, "-"),
    }
}

impl TsvRow for Load {
    open spec fn tsv_line(&self) -> Seq<char> {
        "HLOAD\t"@ + self.one@ + "\t"@ + self.five@ + "\t"@ + self.fifteen@ + "\n"@
    }

    fn push_tsv_line(&self, out: &mut String) {
        push_str(out, "HLOAD\t");
        push_str(out, self.one.as_str());
        push_str(out, "\t");
        push_str(out, self.five.as_str());
        push_str(out, "\t");
        push_str(out, self.fifteen.as_str());
        push_str(out, "\n");
    }
}

impl TsvRow for HostMemory {
    open spec fn tsv_line(&self) -> Seq<char> {
        "HMEM\t"@ + decimal(self.total_bytes as nat) + "\t"@ + decimal(self.available_bytes as nat)
            + "\n"@
    }

    fn push_tsv_line(&self, out: &mut String) {
        push_str(out, "HMEM\t");
        push_decimal(out, self.total_bytes);
        push_str(out, "\t");
        push_decimal(out, self.available_bytes);
        push_str(out, "\n");
    }
}

impl TsvRow for Swap {
    open spec fn tsv_line(&self) -> Seq<char> {
        "HSWAP\t"@ + decimal(self.total_bytes as nat) + "\t"@ + decimal(self.used_bytes as nat)
            + "\n"@
    }

    fn push_tsv_line(&self, out: &mut String) {
        push_str(out, "HSWAP\t");
        push_decimal(out, self.total_bytes);
        push_str(out, "\t");
        push_decimal(out, self.used_bytes);
        push_str(out, "\n");
    }
}

impl TsvRow for Cpu {
    open spec fn tsv_line(&self) -> Seq<char> {
        "HCPU\t"@ + decimal(self.core as nat) + "\t"@ + decimal(self.user_us as nat) + "\t"@
            + decimal(self.system_us as nat) + "\t"@ + decimal(self.idle_us as nat) + "\t"@
            + decimal(self.other_us as nat) + "\t"@ + json_string(self.model@) + "\t"@
            + optional_u64_column(self.frequency_mhz) + "\n"@
    }

    fn push_tsv_line(&self, out: &mut String) {
        push_str(out, "HCPU\t");
        push_decimal(out, self.core as u64);
        push_str(out, "\t");
        push_decimal(out, self.user_us);
        push_str(out, "\t");
        push_decimal(out, self.system_us);
        push_str(out, "\t");
        push_decimal(out, self.idle_us);
        push_str(out, "\t");
        push_decimal(out, self.other_us);
        push_str(out, "\t");
        let model = encode_tsv_string(self.model.as_str());
        push_str(out, model.as_str());
        push_str(out, "\t");
        push_optional_u64(out, self.frequency_mhz);
        push_str(out, "\n");
    }
}

impl TsvRow for Network {
    open spec fn tsv_line(&self) -> Seq<char> {
        "HNET\t"@ + self.name@ + "\t"@ + decimal(self.rx_bytes as nat) + "\t"@ + decimal(
            self.tx_bytes as nat,
        ) + "\n"@
    }

    fn push_tsv_line(&self, out: &mut String) {
        push_str(out, "HNET\t");
        push_str(out, self.name.as_str());
        push_str(out, "\t");
        push_decimal(out, self.rx_bytes);
        push_str(out, "\t");
        push_decimal(out, self.tx_bytes);
        push_str(out, "\n");
    }
}

impl TsvRow for Disk {
    open spec fn tsv_line(&self) -> Seq<char> {
        "HDISK\t"@ + self.mount@ + "\t"@ + decimal(self.total_bytes as nat) + "\t"@ + decimal(
            self.available_bytes as nat,
        ) + "\t"@ + decimal(self.free_bytes as nat) + "\n"@
    }

    fn push_tsv_line(&self, out: &mut String) {
        push_str(out, "HDISK\t");
        push_str(out, self.mount.as_str());
        push_str(out, "\t");
        push_decimal(out, self.total_bytes);
        push_str(out, "\t");
        push_decimal(out, self.available_bytes);
        push_str(out, "\t");
        push_decimal(out, self.free_bytes);
        push_str(out, "\n");
    }
}

/// The line of an optional row: the row's line, or nothing.
pub open spec fn optional_line<T: TsvRow>(v: Option<T>) -> Seq<char> {
    match v {
        Some(row) => row.tsv_line(),
        None => seq![],
    }
}

fn push_optional_line<T: TsvRow>(out: &mut String, v: &Option<T>)
    ensures
        final(out)@ == old(out)@ + optional_line(*v),
{
    match v {
        Some(row) => row.push_tsv_line(out),
        None => {},
    }
}

/// The `HUP` line: uptime in microseconds, when read.
pub open spec fn uptime_line(v: Option<u64>) -> Seq<char> {
    match v {
        Some(us) => "HUP\t"@ + decimal(us as nat) + "\n"@,
        None => seq![],
    }
}

/// The machine-scoped document of the `host` verb.
#[derive(Debug)]
pub struct HostSnapshot {
    pub version: u32,
    pub load: Option<Load>,
    pub memory: Option<HostMemory>,
    pub swap: Option<Swap>,
    pub uptime_us: Option<u64>,
    pub cpus: Vec<Cpu>,
    pub networks: Vec<Network>,
    pub disks: Vec<Disk>,
    pub errors: Vec<SourceError>,
}

impl HostSnapshot {
    /// An empty host document of the current schema version.
    pub fn new() -> (s: Self)
        ensures
            s.version == SCHEMA_VERSION,
            s.load is None,
            s.memory is None,
            s.swap is None,
            s.uptime_us is None,
            s.cpus@.len() == 0,
            s.networks@.len() == 0,
            s.disks@.len() == 0,
            s.errors@.len() == 0,
    {
        HostSnapshot {
            version: SCHEMA_VERSION,
            load: None,
            memory: None,
            swap: None,
            uptime_us: None,
            cpus: Vec::new(),
            networks: Vec::new(),
            disks: Vec::new(),
            errors: Vec::new(),
        }
    }
}

/// The TSV text of a host document: the version line, then `HLOAD HMEM
/// HSWAP HUP` when present, the `HCPU HNET HDISK` blocks, and the `E` rows.
pub open spec fn host_tsv(s: HostSnapshot) -> Seq<char> {
    version_line(s.version) + optional_line(s.load) + optional_line(s.memory) + optional_line(
        s.swap,
    ) + uptime_line(s.uptime_us) + tsv_lines(s.cpus@) + tsv_lines(s.networks@) + tsv_lines(
        s.disks@,
    ) + tsv_lines(s.errors@)
}

/// A host document has no per-pid rows to order: its lists keep the host's
/// own enumeration order, so normalizing it changes nothing.
impl Document for HostSnapshot {
    open spec fn tsv_text(&self) -> Seq<char> {
        host_tsv(*self)
    }

    open spec fn carries_facts(&self) -> bool {
        self.load is Some || self.memory is Some || self.swap is Some || self.uptime_us is Some
            || self.cpus@.len() > 0 || self.networks@.len() > 0 || self.disks@.len() > 0
    }

    open spec fn source_errors(&self) -> Seq<SourceError> {
        self.errors@
    }

    open spec fn normal_form_of(&self, before: Self) -> bool {
        *self == before
    }

    fn to_tsv(&self) -> (s: String) {
        let mut out = String::new();
        push_version_line(&mut out, self.version);
        push_optional_line(&mut out, &self.load);
        push_optional_line(&mut out, &self.memory);
        push_optional_line(&mut out, &self.swap);
        match self.uptime_us {
            Some(us) => {
                push_str(&mut out, "HUP\t");
                push_decimal(&mut out, us);
                push_str(&mut out, "\n");
            },
            None => {},
        }
        push_tsv_lines(&mut out, self.cpus.as_slice());
        push_tsv_lines(&mut out, self.networks.as_slice());
        push_tsv_lines(&mut out, self.disks.as_slice());
        push_tsv_lines(&mut out, self.errors.as_slice());
        out
    }

    fn has_facts(&self) -> (b: bool) {
        self.load.is_some() || self.memory.is_some() || self.swap.is_some()
            || self.uptime_us.is_some() || self.cpus.len() > 0 || self.networks.len() > 0
            || self.disks.len() > 0
    }

    fn errors(&self) -> (e: &[SourceError]) {
        self.errors.as_slice()
    }

    fn normalize(&mut self) {
    }
}

} // verus!
