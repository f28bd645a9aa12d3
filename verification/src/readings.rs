//! How one pass of a sensor becomes a document: each reading that
//! succeeded adds its fact, each that failed adds the row its failure
//! costs, and a failed reading never erases a sibling's fact.
use vstd::prelude::*;
use crate::errno::{errno_code, errno_spelling, platform_errno, Errno};
use crate::procfs::{attribution_of, holdings_view, Listener};
use crate::proc_addr::spec_encode_hex;
use crate::text::push_str;
use crate::cli::{asked_facets_of, host_asked_facets_of, HostArgs, SnapshotArgs};
use crate::schema::{
    blind_or_empty, blind_or_empty_code, source_error, Attribution, Cpu, Disk, Facet, HostMemory,
    HostSnapshot, Load, Memory, Network, Proc, ProcessArgv, ProcessCpuTime, ProcessCwd,
    ProcessStatus, ProcessUid, Snapshot, SocketHolders, SourceError, StartTime, Swap, SCHEMA_VERSION,
};

verus! {

/// The error rows after one more: the old rows, then a row for `source`,
/// `facet` and `code`.
pub open spec fn one_more_error(
    before: Seq<SourceError>,
    after: Seq<SourceError>,
    source: Seq<char>,
    facet: Facet,
    code: Seq<char>,
) -> bool {
    &&& after.len() == before.len() + 1
    &&& after.take(before.len() as int) == before
    &&& after.last().source@ == source
    &&& after.last().facet == facet
    &&& after.last().code@ == code
}

fn push_error(errors: &mut Vec<SourceError>, row: SourceError)
    ensures
        final(errors)@ == old(errors)@.push(row),
{
    errors.push(row);
}

impl HostSnapshot {
    /// The uptime reading: `HUP`, or `E proc_uptime uptime`.
    pub fn record_uptime(&mut self, reading: Result<u64, i32>)
        ensures
            match reading {
                Ok(v) => final(self).uptime_us == Some(v) && final(self).errors == old(self).errors,
                Err(e) => final(self).uptime_us == old(self).uptime_us && one_more_error(
                    old(self).errors@,
                    final(self).errors@,
                    "proc_uptime"@,
                    Facet::Uptime,
                    errno_spelling(e),
                ),
            },
            final(self).version == old(self).version,
            final(self).load == old(self).load,
            final(self).memory == old(self).memory,
            final(self).swap == old(self).swap,
            final(self).cpus == old(self).cpus,
            final(self).networks == old(self).networks,
            final(self).disks == old(self).disks,
    {
        match reading {
            Ok(v) => self.uptime_us = Some(v),
            Err(e) => {
                let row = source_error("proc_uptime", Facet::Uptime, e);
                push_error(&mut self.errors, row);
                assert(self.errors@.take(old(self).errors@.len() as int) =~= old(self).errors@);
            },
        }
    }

    /// The load reading: `HLOAD`, or `E proc_loadavg load`.
    pub fn record_load(&mut self, reading: Result<Load, i32>)
        ensures
            match reading {
                Ok(v) => final(self).load == Some(v) && final(self).errors == old(self).errors,
                Err(e) => final(self).load == old(self).load && one_more_error(
                    old(self).errors@,
                    final(self).errors@,
                    "proc_loadavg"@,
                    Facet::Load,
                    errno_spelling(e),
                ),
            },
            final(self).version == old(self).version,
            final(self).memory == old(self).memory,
            final(self).swap == old(self).swap,
            final(self).uptime_us == old(self).uptime_us,
            final(self).cpus == old(self).cpus,
            final(self).networks == old(self).networks,
            final(self).disks == old(self).disks,
    {
        match reading {
            Ok(v) => self.load = Some(v),
            Err(e) => {
                let row = source_error("proc_loadavg", Facet::Load, e);
                push_error(&mut self.errors, row);
                assert(self.errors@.take(old(self).errors@.len() as int) =~= old(self).errors@);
            },
        }
    }

    /// The memory reading: `HMEM` and `HSWAP` together, or
    /// `E proc_meminfo mem`.
    pub fn record_memory(&mut self, reading: Result<(HostMemory, Swap), i32>)
        ensures
            match reading {
                Ok(v) => final(self).memory == Some(v.0) && final(self).swap == Some(v.1)
                    && final(self).errors == old(self).errors,
                Err(e) => final(self).memory == old(self).memory && final(self).swap == old(
                    self,
                ).swap && one_more_error(
                    old(self).errors@,
                    final(self).errors@,
                    "proc_meminfo"@,
                    Facet::Mem,
                    errno_spelling(e),
                ),
            },
            final(self).version == old(self).version,
            final(self).load == old(self).load,
            final(self).uptime_us == old(self).uptime_us,
            final(self).cpus == old(self).cpus,
            final(self).networks == old(self).networks,
            final(self).disks == old(self).disks,
    {
        match reading {
            Ok((m, s)) => {
                self.memory = Some(m);
                self.swap = Some(s);
            },
            Err(e) => {
                let row = source_error("proc_meminfo", Facet::Mem, e);
                push_error(&mut self.errors, row);
                assert(self.errors@.take(old(self).errors@.len() as int) =~= old(self).errors@);
            },
        }
    }

    /// The CPU reading: the `HCPU` rows, or an `E` row on the `cpu` facet
    /// naming the source that failed.
    pub fn record_cpus(&mut self, reading: Result<Vec<Cpu>, (&str, i32)>)
        ensures
            match reading {
                Ok(v) => final(self).cpus == v && final(self).errors == old(self).errors,
                Err(f) => final(self).cpus == old(self).cpus && one_more_error(
                    old(self).errors@,
                    final(self).errors@,
                    f.0@,
                    Facet::Cpu,
                    errno_spelling(f.1),
                ),
            },
            final(self).version == old(self).version,
            final(self).load == old(self).load,
            final(self).memory == old(self).memory,
            final(self).swap == old(self).swap,
            final(self).uptime_us == old(self).uptime_us,
            final(self).networks == old(self).networks,
            final(self).disks == old(self).disks,
    {
        match reading {
            Ok(v) => self.cpus = v,
            Err((source, e)) => {
                let row = source_error(source, Facet::Cpu, e);
                push_error(&mut self.errors, row);
                assert(self.errors@.take(old(self).errors@.len() as int) =~= old(self).errors@);
            },
        }
    }

    /// The interface reading. The loopback interface always exists, so a
    /// table that parses to nothing went blind: `E proc_net_dev net
    /// BLIND_OR_EMPTY`; a failed read is `E proc_net_dev net` with its
    /// errno.
    pub fn record_networks(&mut self, reading: Result<Vec<Network>, i32>)
        ensures
            match reading {
                Ok(v) => if v@.len() == 0 {
                    final(self).networks == old(self).networks && one_more_error(
                        old(self).errors@,
                        final(self).errors@,
                        "proc_net_dev"@,
                        Facet::Net,
                        blind_or_empty_code(),
                    )
                } else {
                    final(self).networks == v && final(self).errors == old(self).errors
                },
                Err(e) => final(self).networks == old(self).networks && one_more_error(
                    old(self).errors@,
                    final(self).errors@,
                    "proc_net_dev"@,
                    Facet::Net,
                    errno_spelling(e),
                ),
            },
            final(self).version == old(self).version,
            final(self).load == old(self).load,
            final(self).memory == old(self).memory,
            final(self).swap == old(self).swap,
            final(self).uptime_us == old(self).uptime_us,
            final(self).cpus == old(self).cpus,
            final(self).disks == old(self).disks,
    {
        match reading {
            Ok(v) => {
                if v.len() == 0 {
                    let row = blind_or_empty("proc_net_dev", Facet::Net);
                    push_error(&mut self.errors, row);
                    assert(self.errors@.take(old(self).errors@.len() as int) =~= old(self).errors@);
                } else {
                    self.networks = v;
                }
            },
            Err(e) => {
                let row = source_error("proc_net_dev", Facet::Net, e);
                push_error(&mut self.errors, row);
                assert(self.errors@.take(old(self).errors@.len() as int) =~= old(self).errors@);
            },
        }
    }

    /// The root filesystem reading: one `HDISK` row, or
    /// `E statvfs_root disk`.
    pub fn record_root_disk(&mut self, reading: Result<Disk, i32>)
        ensures
            match reading {
                Ok(v) => final(self).disks@ == old(self).disks@.push(v) && final(self).errors
                    == old(self).errors,
                Err(e) => final(self).disks == old(self).disks && one_more_error(
                    old(self).errors@,
                    final(self).errors@,
                    "statvfs_root"@,
                    Facet::Disk,
                    errno_spelling(e),
                ),
            },
            final(self).version == old(self).version,
            final(self).load == old(self).load,
            final(self).memory == old(self).memory,
            final(self).swap == old(self).swap,
            final(self).uptime_us == old(self).uptime_us,
            final(self).cpus == old(self).cpus,
            final(self).networks == old(self).networks,
    {
        match reading {
            Ok(v) => self.disks.push(v),
            Err(e) => {
                let row = source_error("statvfs_root", Facet::Disk, e);
                push_error(&mut self.errors, row);
                assert(self.errors@.take(old(self).errors@.len() as int) =~= old(self).errors@);
            },
        }
    }
}

/// Who holds a unix socket bound under some inodes: for each inode in
/// order, every readable pid whose descriptors hold it (in pid order), or
/// one unclaimed holder when no readable pid does.
pub open spec fn holders_for(inodes: Seq<u64>, holdings: Seq<(u32, Seq<u64>)>) -> Seq<Attribution>
    decreases inodes.len(),
{
    if inodes.len() == 0 {
        seq![]
    } else {
        holders_for(inodes.drop_last(), holdings) + holders_of_inode(inodes.last(), holdings)
    }
}

/// The holders of one inode: every readable pid holding it, in order, or
/// one unclaimed holder.
pub open spec fn holders_of_inode(inode: u64, holdings: Seq<(u32, Seq<u64>)>) -> Seq<Attribution> {
    let claimed = claimants(inode, holdings);
    if claimed.len() == 0 {
        seq![Attribution::Unclaimed]
    } else {
        claimed
    }
}

/// Every readable pid holding `inode`, in order, as claimed holders.
pub open spec fn claimants(inode: u64, holdings: Seq<(u32, Seq<u64>)>) -> Seq<Attribution>
    decreases holdings.len(),
{
    if holdings.len() == 0 {
        seq![]
    } else {
        claimants(inode, holdings.drop_last()) + if holdings.last().1.contains(inode) {
            seq![Attribution::Claimed { pid: holdings.last().0 }]
        } else {
            seq![]
        }
    }
}

fn holds(inodes: &Vec<u64>, inode: u64) -> (r: bool)
    ensures
        r == inodes@.contains(inode),
{
    let mut i: usize = 0;
    while i < inodes.len()
        invariant
            i <= inodes@.len(),
            forall|k: int| 0 <= k < i ==> inodes@[k] != inode,
        decreases inodes@.len() - i,
    {
        if inodes[i] == inode {
            assert(inodes@[i as int] == inode);
            return true;
        }
        i = i + 1;
    }
    false
}

fn push_claimants(out: &mut Vec<Attribution>, inode: u64, holdings: &[(u32, Vec<u64>)])
    ensures
        final(out)@ == old(out)@ + holders_of_inode(inode, holdings_view(holdings@)),
{
    let ghost start = out@;
    let ghost h = holdings_view(holdings@);
    let start_len = out.len();
    let mut i: usize = 0;
    while i < holdings.len()
        invariant
            i <= holdings@.len(),
            h == holdings_view(holdings@),
            out@ == start + claimants(inode, h.take(i as int)),
            start_len == start.len(),
        decreases holdings@.len() - i,
    {
        proof {
            assert(h.take(i + 1).drop_last() =~= h.take(i as int));
            assert(h.take(i + 1).last() == (holdings@[i as int].0, holdings@[i as int].1@));
        }
        if holds(&holdings[i].1, inode) {
            out.push(Attribution::Claimed { pid: holdings[i].0 });
            assert(out@ =~= start + claimants(inode, h.take(i + 1)));
        } else {
            assert(out@ =~= start + claimants(inode, h.take(i + 1)));
        }
        i = i + 1;
    }
    assert(h.take(holdings@.len() as int) =~= h);
    if out.len() == start_len {
        assert(claimants(inode, h).len() == 0);
        out.push(Attribution::Unclaimed);
        assert(out@ =~= start + holders_of_inode(inode, h));
    }
}

impl SocketHolders {
    /// The holder rows for the inodes a path is bound under, given every
    /// readable pid's socket inodes.
    pub fn record_holders(&mut self, inodes: &[u64], holdings: &[(u32, Vec<u64>)])
        ensures
            final(self).holders@ == old(self).holders@ + holders_for(inodes@, holdings_view(holdings@)),
            final(self).version == old(self).version,
            final(self).procs == old(self).procs,
            final(self).unreadable == old(self).unreadable,
            final(self).errors == old(self).errors,
    {
        let ghost start = self.holders@;
        let mut i: usize = 0;
        while i < inodes.len()
            invariant
                i <= inodes@.len(),
                self.holders@ == start + holders_for(inodes@.take(i as int), holdings_view(holdings@)),
                self.version == old(self).version,
                self.procs == old(self).procs,
                self.unreadable == old(self).unreadable,
                self.errors == old(self).errors,
            decreases inodes@.len() - i,
        {
            proof {
                assert(inodes@.take(i + 1).drop_last() =~= inodes@.take(i as int));
                assert(inodes@.take(i + 1).last() == inodes@[i as int]);
            }
            push_claimants(&mut self.holders, inodes[i], holdings);
            assert(self.holders@ =~= start + holders_for(inodes@.take(i + 1), holdings_view(holdings@)));
            i = i + 1;
        }
        assert(inodes@.take(inodes@.len() as int) =~= inodes@);
    }

    /// The holder source could not be read: `E <source> socket_holders`.
    pub fn record_blind(&mut self, source: &str, err: i32)
        ensures
            one_more_error(
                old(self).errors@,
                final(self).errors@,
                source@,
                Facet::SocketHolders,
                errno_spelling(err),
            ),
            final(self).version == old(self).version,
            final(self).holders == old(self).holders,
            final(self).procs == old(self).procs,
            final(self).unreadable == old(self).unreadable,
    {
        let row = source_error(source, Facet::SocketHolders, err);
        push_error(&mut self.errors, row);
        assert(self.errors@.take(old(self).errors@.len() as int) =~= old(self).errors@);
    }

    /// One holder's name reading under `--procs`: a `P` row, or that
    /// holder's `U … proc` row.
    pub fn record_holder_proc(&mut self, pid: u32, reading: Result<Proc, i32>)
        ensures
            match reading {
                Ok(p) => final(self).procs@ == old(self).procs@.push(p) && final(self).unreadable
                    == old(self).unreadable,
                Err(e) => final(self).procs == old(self).procs
                    && final(self).unreadable@.len() == old(self).unreadable@.len() + 1
                    && final(self).unreadable@.take(old(self).unreadable@.len() as int) == old(
                    self,
                ).unreadable@ && final(self).unreadable@.last().pid == pid
                    && final(self).unreadable@.last().facet == Facet::Proc
                    && final(self).unreadable@.last().errno@ == errno_spelling(e),
            },
            final(self).version == old(self).version,
            final(self).holders == old(self).holders,
            final(self).errors == old(self).errors,
    {
        match reading {
            Ok(p) => self.procs.push(p),
            Err(e) => self.push_unreadable(pid, Facet::Proc, e),
        }
    }
}

} // verus!

verus! {

/// The `U` rows after one more: the old rows, then one for `pid`, `facet`
/// and `err`.
pub open spec fn one_more_unreadable(
    before: Seq<crate::schema::Unreadable>,
    after: Seq<crate::schema::Unreadable>,
    pid: u32,
    facet: Facet,
    err: i32,
) -> bool {
    &&& after.len() == before.len() + 1
    &&& after.take(before.len() as int) == before
    &&& after.last().pid == pid
    &&& after.last().facet == facet
    &&& after.last().errno@ == errno_spelling(err)
}

/// Every row block of `b` but block `k` (0 processes, 1 memory, 2 start
/// times, 3 CPU times, 4 uids, 5 cwds, 6 statuses, 7 argv) and the `U`
/// rows is as in `a`.
pub open spec fn keeps_other_blocks(a: Snapshot, b: Snapshot, k: int) -> bool {
    &&& a.version == b.version
    &&& a.ports == b.ports
    &&& a.errors == b.errors
    &&& k != 0 ==> a.procs == b.procs
    &&& k != 1 ==> a.memory == b.memory
    &&& k != 2 ==> a.start_times == b.start_times
    &&& k != 3 ==> a.cpu_times == b.cpu_times
    &&& k != 4 ==> a.uids == b.uids
    &&& k != 5 ==> a.cwds == b.cwds
    &&& k != 6 ==> a.statuses == b.statuses
    &&& k != 7 ==> a.argv == b.argv
}

impl Snapshot {
    /// One process's name reading: a `P` row, or its `U … proc` row.
    pub fn record_proc(&mut self, pid: u32, reading: Result<Proc, i32>)
        ensures
            keeps_other_blocks(*old(self), *final(self), 0),
            match reading {
                Ok(p) => final(self).procs@ == old(self).procs@.push(p) && final(self).unreadable
                    == old(self).unreadable,
                Err(e) => final(self).procs == old(self).procs && one_more_unreadable(
                    old(self).unreadable@,
                    final(self).unreadable@,
                    pid,
                    Facet::Proc,
                    e,
                ),
            },
    {
        match reading {
            Ok(p) => self.procs.push(p),
            Err(e) => self.push_unreadable(pid, Facet::Proc, e),
        }
    }

    /// One process's resident set reading: an `M` row, or `U … mem`.
    pub fn record_memory(&mut self, pid: u32, reading: Result<u64, i32>)
        ensures
            keeps_other_blocks(*old(self), *final(self), 1),
            match reading {
                Ok(v) => final(self).memory@ == old(self).memory@.push(Memory { pid, rss_bytes: v })
                    && final(self).unreadable == old(self).unreadable,
                Err(e) => final(self).memory == old(self).memory && one_more_unreadable(
                    old(self).unreadable@,
                    final(self).unreadable@,
                    pid,
                    Facet::Mem,
                    e,
                ),
            },
    {
        match reading {
            Ok(v) => self.memory.push(Memory { pid, rss_bytes: v }),
            Err(e) => self.push_unreadable(pid, Facet::Mem, e),
        }
    }

    /// One process's start time reading: an `S` row, or `U … start_time`.
    pub fn record_start_time(&mut self, pid: u32, reading: Result<u64, i32>)
        ensures
            keeps_other_blocks(*old(self), *final(self), 2),
            match reading {
                Ok(v) => final(self).start_times@ == old(self).start_times@.push(
                    StartTime { pid, start_unix_us: v },
                ) && final(self).unreadable == old(self).unreadable,
                Err(e) => final(self).start_times == old(self).start_times && one_more_unreadable(
                    old(self).unreadable@,
                    final(self).unreadable@,
                    pid,
                    Facet::StartTime,
                    e,
                ),
            },
    {
        match reading {
            Ok(v) => self.start_times.push(StartTime { pid, start_unix_us: v }),
            Err(e) => self.push_unreadable(pid, Facet::StartTime, e),
        }
    }

    /// One process's CPU time reading: a `C` row, or `U … cpu_time`.
    pub fn record_cpu_time(&mut self, pid: u32, reading: Result<u64, i32>)
        ensures
            keeps_other_blocks(*old(self), *final(self), 3),
            match reading {
                Ok(v) => final(self).cpu_times@ == old(self).cpu_times@.push(
                    ProcessCpuTime { pid, cpu_time_us: v },
                ) && final(self).unreadable == old(self).unreadable,
                Err(e) => final(self).cpu_times == old(self).cpu_times && one_more_unreadable(
                    old(self).unreadable@,
                    final(self).unreadable@,
                    pid,
                    Facet::CpuTime,
                    e,
                ),
            },
    {
        match reading {
            Ok(v) => self.cpu_times.push(ProcessCpuTime { pid, cpu_time_us: v }),
            Err(e) => self.push_unreadable(pid, Facet::CpuTime, e),
        }
    }

    /// One process's uid reading: a `UID` row, or `U … uid`.
    pub fn record_uid(&mut self, pid: u32, reading: Result<u32, i32>)
        ensures
            keeps_other_blocks(*old(self), *final(self), 4),
            match reading {
                Ok(v) => final(self).uids@ == old(self).uids@.push(ProcessUid { pid, uid: v })
                    && final(self).unreadable == old(self).unreadable,
                Err(e) => final(self).uids == old(self).uids && one_more_unreadable(
                    old(self).unreadable@,
                    final(self).unreadable@,
                    pid,
                    Facet::Uid,
                    e,
                ),
            },
    {
        match reading {
            Ok(v) => self.uids.push(ProcessUid { pid, uid: v }),
            Err(e) => self.push_unreadable(pid, Facet::Uid, e),
        }
    }

    /// One process's working directory reading: a `CWD` row, or `U … cwd`.
    pub fn record_cwd(&mut self, pid: u32, reading: Result<String, i32>)
        ensures
            keeps_other_blocks(*old(self), *final(self), 5),
            match reading {
                Ok(v) => final(self).cwds@.len() == old(self).cwds@.len() + 1 && final(self).cwds@.take(
                    old(self).cwds@.len() as int,
                ) == old(self).cwds@ && final(self).cwds@.last().pid == pid
                    && final(self).cwds@.last().cwd@ == v@ && final(self).unreadable == old(
                    self,
                ).unreadable,
                Err(e) => final(self).cwds == old(self).cwds && one_more_unreadable(
                    old(self).unreadable@,
                    final(self).unreadable@,
                    pid,
                    Facet::Cwd,
                    e,
                ),
            },
    {
        match reading {
            Ok(v) => {
                self.cwds.push(ProcessCwd { pid, cwd: v });
                assert(self.cwds@.take(old(self).cwds@.len() as int) =~= old(self).cwds@);
            },
            Err(e) => self.push_unreadable(pid, Facet::Cwd, e),
        }
    }

    /// One process's scheduler reading: a `STAT` row with its thread
    /// count, or `U … status`.
    pub fn record_status(&mut self, pid: u32, reading: Result<(char, i32, u32), i32>)
        ensures
            keeps_other_blocks(*old(self), *final(self), 6),
            match reading {
                Ok(v) => final(self).statuses@ == old(self).statuses@.push(
                    ProcessStatus { pid, state: v.0, nice: v.1, threads: Some(v.2) },
                ) && final(self).unreadable == old(self).unreadable,
                Err(e) => final(self).statuses == old(self).statuses && one_more_unreadable(
                    old(self).unreadable@,
                    final(self).unreadable@,
                    pid,
                    Facet::Status,
                    e,
                ),
            },
    {
        match reading {
            Ok((state, nice, threads)) => self.statuses.push(
                ProcessStatus { pid, state, nice, threads: Some(threads) },
            ),
            Err(e) => self.push_unreadable(pid, Facet::Status, e),
        }
    }

    /// One process's argument vector reading: an `ARGV` row, or
    /// `U … argv`.
    pub fn record_argv(&mut self, pid: u32, reading: Result<Vec<String>, i32>)
        ensures
            keeps_other_blocks(*old(self), *final(self), 7),
            match reading {
                Ok(v) => final(self).argv@.len() == old(self).argv@.len() + 1 && final(self).argv@.take(
                    old(self).argv@.len() as int,
                ) == old(self).argv@ && final(self).argv@.last().pid == pid
                    && final(self).argv@.last().argv == v && final(self).unreadable == old(
                    self,
                ).unreadable,
                Err(e) => final(self).argv == old(self).argv && one_more_unreadable(
                    old(self).unreadable@,
                    final(self).unreadable@,
                    pid,
                    Facet::Argv,
                    e,
                ),
            },
    {
        match reading {
            Ok(v) => {
                self.argv.push(ProcessArgv { pid, argv: v });
                assert(self.argv@.take(old(self).argv@.len() as int) =~= old(self).argv@);
            },
            Err(e) => self.push_unreadable(pid, Facet::Argv, e),
        }
    }
}

} // verus!

verus! {

/// `s` holds no value twice.
pub open spec fn no_repeats(s: Seq<u32>) -> bool {
    forall|i: int, j: int| 0 <= i < j < s.len() ==> s[i] != s[j]
}

/// The values of `children` not yet in `seen`, each once, in order.
pub open spec fn fresh_children(seen: Seq<u32>, children: Seq<u32>) -> Seq<u32>
    decreases children.len(),
{
    if children.len() == 0 {
        seq![]
    } else {
        let before = fresh_children(seen, children.drop_last());
        let c = children.last();
        if seen.contains(c) || before.contains(c) {
            before
        } else {
            before.push(c)
        }
    }
}

/// A walk down the process tree from some roots: the pids seen so far,
/// the pids the scope covers (in discovery order), and the parents whose
/// children are still to be read.
pub struct PidWalk {
    seen: Vec<u32>,
    found: Vec<u32>,
    queue: Vec<u32>,
}

impl PidWalk {
    /// The pids seen so far.
    pub closed spec fn seen_pids(&self) -> Seq<u32> {
        self.seen@
    }

    /// The pids the walk has found, in order.
    pub closed spec fn found_pids(&self) -> Seq<u32> {
        self.found@
    }

    /// The parents still to read, the next one last.
    pub closed spec fn pending(&self) -> Seq<u32> {
        self.queue@
    }

    /// Nothing is seen twice or found twice, and everything found was
    /// seen.
    pub closed spec fn wf(&self) -> bool {
        &&& no_repeats(self.seen@)
        &&& no_repeats(self.found@)
        &&& forall|i: int| 0 <= i < self.found@.len() ==> self.seen@.contains(#[trigger] self.found@[i])
    }

    /// A walk that has seen nothing.
    pub fn new() -> (w: Self)
        ensures
            w.wf(),
            w.seen_pids().len() == 0,
            w.found_pids().len() == 0,
            w.pending().len() == 0,
    {
        PidWalk { seen: Vec::new(), found: Vec::new(), queue: Vec::new() }
    }

    fn seen_contains(&self, pid: u32) -> (r: bool)
        ensures
            r == self.seen@.contains(pid),
    {
        let mut i: usize = 0;
        while i < self.seen.len()
            invariant
                i <= self.seen@.len(),
                forall|k: int| 0 <= k < i ==> self.seen@[k] != pid,
            decreases self.seen@.len() - i,
        {
            if self.seen[i] == pid {
                assert(self.seen@[i as int] == pid);
                return true;
            }
            i = i + 1;
        }
        false
    }

    /// Marks `root` seen: `true` when it was not seen before. A root seen
    /// before (a repeated root, or one inside an earlier root's subtree)
    /// is skipped.
    pub fn visit_root(&mut self, root: u32) -> (fresh: bool)
        requires
            old(self).wf(),
        ensures
            final(self).wf(),
            fresh == !old(self).seen_pids().contains(root),
            final(self).seen_pids() == if fresh {
                old(self).seen_pids().push(root)
            } else {
                old(self).seen_pids()
            },
            final(self).found_pids() == old(self).found_pids(),
            final(self).pending() == old(self).pending(),
    {
        if self.seen_contains(root) {
            return false;
        }
        let ghost before = self.seen@;
        self.seen.push(root);
        proof {
            assert forall|i: int| 0 <= i < self.found@.len() implies self.seen@.contains(
                #[trigger] self.found@[i],
            ) by {
                assert(before.contains(self.found@[i]));
                let k = choose|k: int| 0 <= k < before.len() && before[k] == self.found@[i];
                assert(self.seen@[k] == before[k]);
            }
        }
        true
    }

    /// Starts the descent under a root the walk just visited: the root is
    /// found, and its children are the next to read.
    pub fn enter_root(&mut self, root: u32)
        requires
            old(self).wf(),
            old(self).seen_pids().contains(root),
            !old(self).found_pids().contains(root),
        ensures
            final(self).wf(),
            final(self).seen_pids() == old(self).seen_pids(),
            final(self).found_pids() == old(self).found_pids().push(root),
            final(self).pending() == seq![root],
    {
        let ghost before = self.found@;
        self.found.push(root);
        self.queue = Vec::new();
        self.queue.push(root);
        assert(self.queue@ =~= seq![root]);
        proof {
            assert forall|i: int, j: int| 0 <= i < j < self.found@.len() implies self.found@[i]
                != self.found@[j] by {
                if j == before.len() {
                    assert(self.found@[i] == before[i]);
                }
            }
            assert forall|i: int| 0 <= i < self.found@.len() implies self.seen@.contains(
                #[trigger] self.found@[i],
            ) by {
                if i < before.len() {
                    assert(self.found@[i] == before[i]);
                }
            }
        }
    }

    /// The next parent whose children are to be read, if any.
    pub fn next_parent(&mut self) -> (p: Option<u32>)
        requires
            old(self).wf(),
        ensures
            final(self).wf(),
            final(self).seen_pids() == old(self).seen_pids(),
            final(self).found_pids() == old(self).found_pids(),
            old(self).pending().len() == 0 ==> p is None && final(self).pending() == old(self).pending(),
            old(self).pending().len() > 0 ==> p == Some(old(self).pending().last())
                && final(self).pending() == old(self).pending().drop_last(),
    {
        self.queue.pop()
    }

    /// Takes in the children of a parent: each not seen before is seen,
    /// found and queued, once, in order.
    pub fn adopt(&mut self, children: &[u32])
        requires
            old(self).wf(),
        ensures
            final(self).wf(),
            final(self).seen_pids() == old(self).seen_pids() + fresh_children(
                old(self).seen_pids(),
                children@,
            ),
            final(self).found_pids() == old(self).found_pids() + fresh_children(
                old(self).seen_pids(),
                children@,
            ),
            final(self).pending() == old(self).pending() + fresh_children(
                old(self).seen_pids(),
                children@,
            ),
    {
        let ghost seen0 = self.seen@;
        let ghost found0 = self.found@;
        let ghost queue0 = self.queue@;
        let mut i: usize = 0;
        while i < children.len()
            invariant
                i <= children@.len(),
                self.wf(),
                self.seen@ == seen0 + fresh_children(seen0, children@.take(i as int)),
                self.found@ == found0 + fresh_children(seen0, children@.take(i as int)),
                self.queue@ == queue0 + fresh_children(seen0, children@.take(i as int)),
            decreases children@.len() - i,
        {
            let c = children[i];
            let ghost fresh = fresh_children(seen0, children@.take(i as int));
            proof {
                assert(children@.take(i + 1).drop_last() =~= children@.take(i as int));
                assert(children@.take(i + 1).last() == c);
            }
            if !self.seen_contains(c) {
                proof {
                    assert(!seen0.contains(c)) by {
                        if seen0.contains(c) {
                            let k = choose|k: int| 0 <= k < seen0.len() && seen0[k] == c;
                            assert(self.seen@[k] == c);
                        }
                    }
                    assert(!fresh.contains(c)) by {
                        if fresh.contains(c) {
                            let k = choose|k: int| 0 <= k < fresh.len() && fresh[k] == c;
                            assert(self.seen@[seen0.len() + k] == c);
                        }
                    }
                }
                let ghost seen_before = self.seen@;
                let ghost found_before = self.found@;
                self.seen.push(c);
                self.found.push(c);
                self.queue.push(c);
                proof {
                    assert(fresh_children(seen0, children@.take(i + 1)) == fresh.push(c));
                    assert(self.seen@ =~= seen0 + fresh.push(c));
                    assert(self.found@ =~= found0 + fresh.push(c));
                    assert(self.queue@ =~= queue0 + fresh.push(c));
                    assert forall|a: int, b: int| 0 <= a < b < self.seen@.len() implies self.seen@[a]
                        != self.seen@[b] by {
                        if b == seen_before.len() {
                            assert(self.seen@[a] == seen_before[a]);
                            if seen_before[a] == c {
                                assert(seen_before.contains(c));
                            }
                        } else {
                            assert(self.seen@[a] == seen_before[a]);
                            assert(self.seen@[b] == seen_before[b]);
                        }
                    }
                    assert forall|a: int, b: int| 0 <= a < b < self.found@.len() implies self.found@[a]
                        != self.found@[b] by {
                        if b == found_before.len() {
                            if self.found@[a] == c {
                                assert(found_before[a] == c);
                                assert(seen_before.contains(c));
                            }
                        }
                    }
                    assert forall|a: int| 0 <= a < self.found@.len() implies self.seen@.contains(
                        #[trigger] self.found@[a],
                    ) by {
                        if a < found_before.len() {
                            assert(seen_before.contains(found_before[a]));
                            let k = choose|k: int| 0 <= k < seen_before.len() && seen_before[k]
                                == found_before[a];
                            assert(self.seen@[k] == seen_before[k]);
                        } else {
                            assert(self.seen@[seen_before.len() as int] == c);
                        }
                    }
                }
            } else {
                proof {
                    if !seen0.contains(c) {
                        let k = choose|k: int| 0 <= k < self.seen@.len() && self.seen@[k] == c;
                        if k < seen0.len() {
                            assert(seen0[k] == c);
                        } else {
                            assert(fresh[k - seen0.len()] == c);
                        }
                    }
                    assert(fresh_children(seen0, children@.take(i + 1)) == fresh);
                }
            }
            i = i + 1;
        }
        assert(children@.take(children@.len() as int) =~= children@);
    }

    /// The pids the walk found, in discovery order.
    pub fn into_pids(self) -> (v: Vec<u32>)
        requires
            self.wf(),
        ensures
            v@ == self.found_pids(),
            no_repeats(v@),
    {
        self.found
    }
}

} // verus!

verus! {

/// `count` blocks of `block` bytes, saturating at the largest `u64`.
pub open spec fn saturating_bytes(count: u64, block: u64) -> u64 {
    if count * block > u64::MAX {
        u64::MAX
    } else {
        (count * block) as u64
    }
}

fn bytes_of_blocks(count: u64, block: u64) -> (r: u64)
    ensures
        r == saturating_bytes(count, block),
{
    match count.checked_mul(block) {
        Some(v) => v,
        None => u64::MAX,
    }
}

/// The root filesystem row, from what `statvfs("/")` reports: the
/// fragment size and the total, available and free block counts. Both
/// free meanings the kernel gives are kept: `available` is what an
/// unprivileged writer may use, `free` includes the reserved blocks.
pub fn root_disk(fragment: u64, blocks: u64, available: u64, free: u64) -> (d: Disk)
    ensures
        d.mount@ == "/"@,
        d.total_bytes == saturating_bytes(blocks, fragment),
        d.available_bytes == saturating_bytes(available, fragment),
        d.free_bytes == saturating_bytes(free, fragment),
{
    let mut mount = String::new();
    push_str(&mut mount, "/");
    proof {
        assert(mount@ =~= "/"@);
    }
    Disk {
        mount,
        total_bytes: bytes_of_blocks(blocks, fragment),
        available_bytes: bytes_of_blocks(available, fragment),
        free_bytes: bytes_of_blocks(free, fragment),
    }
}

} // verus!

verus! {

/// A host constant as `sysconf` reports it: a positive value is the
/// constant; zero or a negative value means it could not be read, which is
/// `EIO`.
pub fn host_constant(value: i64) -> (r: Result<u64, i32>)
    ensures
        value > 0 ==> r == Ok::<u64, i32>(value as u64),
        value <= 0 ==> r == Err::<u64, i32>(platform_errno(Errno::Eio)),
{
    if value <= 0 {
        Err(errno_code(Errno::Eio))
    } else {
        Ok(value as u64)
    }
}

} // verus!

verus! {

/// Which host-global constants a snapshot ask needs read: the boot time
/// (for start times), the clock tick rate (for start and CPU times) and
/// the page size (for resident memory).
pub open spec fn constants_needed_of(a: SnapshotArgs) -> (bool, bool, bool) {
    (a.start_time, a.start_time || a.cpu_time, a.mem)
}

/// Which host-global constants to read for an ask, each read once.
pub fn constants_needed(args: &SnapshotArgs) -> (r: (bool, bool, bool))
    ensures
        r == constants_needed_of(*args),
{
    (args.start_time, args.start_time || args.cpu_time, args.mem)
}

/// The per-pid facets that need a host-global constant and may be read,
/// each with the constants it uses: start times with the boot time and
/// tick rate, CPU times with the tick rate, resident memory with the page
/// size. A facet that was not asked, or whose constant failed, is absent.
#[derive(Debug, Clone, Copy, PartialEq, Eq)]
pub struct ReadPlan {
    pub start_time: Option<(u64, u64)>,
    pub cpu_time: Option<u64>,
    pub mem: Option<u64>,
}

/// A constant's reading failed: its errno.
pub open spec fn failure_of(r: Option<Result<u64, i32>>) -> Option<i32> {
    match r {
        Some(Err(e)) => Some(e),
        _ => None,
    }
}

/// A constant's reading succeeded: its value.
pub open spec fn value_of(r: Option<Result<u64, i32>>) -> Option<u64> {
    match r {
        Some(Ok(v)) => Some(v),
        _ => None,
    }
}

/// One row a failed source adds, if `asked`: its source, the facet it
/// costs, and its errno.
pub open spec fn cost_row(asked: bool, source: Seq<char>, facet: Facet, failure: Option<i32>) -> Seq<
    (Seq<char>, Facet, i32),
> {
    match failure {
        Some(e) => if asked {
            seq![(source, facet, e)]
        } else {
            seq![]
        },
        None => seq![],
    }
}

/// The `E` rows failed host-global constants cost: one row per failed
/// constant per asked facet it serves. The boot time serves start times;
/// the tick rate serves start times, then CPU times; the page size serves
/// resident memory. Never a row per pid.
pub open spec fn constant_cost_rows(
    a: SnapshotArgs,
    boot_us: Option<Result<u64, i32>>,
    clk_hz: Option<Result<u64, i32>>,
    page: Option<Result<u64, i32>>,
) -> Seq<(Seq<char>, Facet, i32)> {
    cost_row(a.start_time, "proc_stat_btime"@, Facet::StartTime, failure_of(boot_us)) + cost_row(
        a.start_time,
        "sysconf_clk_tck"@,
        Facet::StartTime,
        failure_of(clk_hz),
    ) + cost_row(a.cpu_time, "sysconf_clk_tck"@, Facet::CpuTime, failure_of(clk_hz)) + cost_row(
        a.mem,
        "sysconf_pagesize"@,
        Facet::Mem,
        failure_of(page),
    )
}

/// `errs` are the `E` rows `want` describes, in order.
pub open spec fn spells_rows(errs: Seq<SourceError>, want: Seq<(Seq<char>, Facet, i32)>) -> bool {
    &&& errs.len() == want.len()
    &&& forall|i: int|
        0 <= i < want.len() ==> (#[trigger] errs[i]).source@ == want[i].0 && errs[i].facet
            == want[i].1 && errs[i].code@ == errno_spelling(want[i].2)
}

/// Every block of `b` but its `E` rows is that of `a`.
pub open spec fn only_errors_differ(a: Snapshot, b: Snapshot) -> bool {
    &&& a.version == b.version
    &&& a.procs == b.procs
    &&& a.memory == b.memory
    &&& a.start_times == b.start_times
    &&& a.cpu_times == b.cpu_times
    &&& a.uids == b.uids
    &&& a.cwds == b.cwds
    &&& a.statuses == b.statuses
    &&& a.argv == b.argv
    &&& a.ports == b.ports
    &&& a.unreadable == b.unreadable
}

/// Rows appended in two steps are the rows of both steps, in order.
proof fn lemma_rows_extend(
    a: Seq<SourceError>,
    b: Seq<SourceError>,
    c: Seq<SourceError>,
    wa: Seq<(Seq<char>, Facet, i32)>,
    wb: Seq<(Seq<char>, Facet, i32)>,
)
    requires
        b.len() >= a.len(),
        b.take(a.len() as int) == a,
        spells_rows(b.skip(a.len() as int), wa),
        c.len() >= b.len(),
        c.take(b.len() as int) == b,
        spells_rows(c.skip(b.len() as int), wb),
    ensures
        c.len() >= a.len(),
        c.take(a.len() as int) == a,
        spells_rows(c.skip(a.len() as int), wa + wb),
{
    let n = a.len() as int;
    let m = b.len() as int;
    assert(c.take(n) =~= b.take(n)) by {
        assert forall|i: int| 0 <= i < n implies c.take(n)[i] == b.take(n)[i] by {
            assert(c.take(m)[i] == c[i]);
        }
    }
    let tail = c.skip(n);
    let want = wa + wb;
    assert forall|i: int| 0 <= i < want.len() implies (#[trigger] tail[i]).source@ == want[i].0
        && tail[i].facet == want[i].1 && tail[i].code@ == errno_spelling(want[i].2) by {
        if i < wa.len() {
            assert(tail[i] == c[n + i]);
            assert(c[n + i] == c.take(m)[n + i]);
            assert(b.skip(n)[i] == b[n + i]);
        } else {
            assert(tail[i] == c.skip(m)[i - wa.len()]);
        }
    }
}

impl Snapshot {
    fn push_cost_row(&mut self, asked: bool, source: &str, facet: Facet, reading: Option<Result<u64, i32>>)
        ensures
            only_errors_differ(*old(self), *final(self)),
            final(self).errors@.len() >= old(self).errors@.len(),
            final(self).errors@.take(old(self).errors@.len() as int) == old(self).errors@,
            spells_rows(
                final(self).errors@.skip(old(self).errors@.len() as int),
                cost_row(asked, source@, facet, failure_of(reading)),
            ),
    {
        let ghost before = self.errors@;
        match reading {
            Some(Err(e)) => {
                if asked {
                    let row = source_error(source, facet, e);
                    push_error(&mut self.errors, row);
                    assert(self.errors@.take(before.len() as int) =~= before);
                    assert(self.errors@.skip(before.len() as int) =~= seq![row]);
                } else {
                    assert(self.errors@.skip(before.len() as int) =~= Seq::<SourceError>::empty());
                }
            },
            _ => {
                assert(self.errors@.skip(before.len() as int) =~= Seq::<SourceError>::empty());
            },
        }
        assert(self.errors@.take(before.len() as int) =~= before);
    }

    /// Records the host-global constants one snapshot read, once for the
    /// whole host: each that failed costs one `E` row per asked facet it
    /// serves (see [`constant_cost_rows`]), never a `U` row per pid, and
    /// the plan says which per-pid facets may still be read, with the
    /// constants they use. `None` stands for a constant that was not read.
    #[verifier::spinoff_prover]
    pub fn cost_host_constants(
        &mut self,
        args: &SnapshotArgs,
        boot_us: Option<Result<u64, i32>>,
        clk_hz: Option<Result<u64, i32>>,
        page: Option<Result<u64, i32>>,
    ) -> (plan: ReadPlan)
        ensures
            plan.start_time == (if args.start_time && value_of(boot_us) is Some && value_of(
                clk_hz,
            ) is Some {
                Some((value_of(boot_us)->Some_0, value_of(clk_hz)->Some_0))
            } else {
                None
            }),
            plan.cpu_time == (if args.cpu_time {
                value_of(clk_hz)
            } else {
                None
            }),
            plan.mem == (if args.mem {
                value_of(page)
            } else {
                None
            }),
            only_errors_differ(*old(self), *final(self)),
            final(self).errors@.len() >= old(self).errors@.len(),
            final(self).errors@.take(old(self).errors@.len() as int) == old(self).errors@,
            spells_rows(
                final(self).errors@.skip(old(self).errors@.len() as int),
                constant_cost_rows(*args, boot_us, clk_hz, page),
            ),
    {
        let ghost e0 = self.errors@;
        self.push_cost_row(args.start_time, "proc_stat_btime", Facet::StartTime, boot_us);
        let ghost e1 = self.errors@;
        assert(e1.take(e0.len() as int) == e0);
        self.push_cost_row(args.start_time, "sysconf_clk_tck", Facet::StartTime, clk_hz);
        let ghost e2 = self.errors@;
        assert(e2.take(e1.len() as int) == e1);
        self.push_cost_row(args.cpu_time, "sysconf_clk_tck", Facet::CpuTime, clk_hz);
        let ghost e3 = self.errors@;
        assert(e3.take(e2.len() as int) == e2);
        self.push_cost_row(args.mem, "sysconf_pagesize", Facet::Mem, page);
        assert(self.errors@.take(e3.len() as int) == e3);
        proof {
            let w0 = cost_row(args.start_time, "proc_stat_btime"@, Facet::StartTime, failure_of(boot_us));
            let w1 = cost_row(args.start_time, "sysconf_clk_tck"@, Facet::StartTime, failure_of(clk_hz));
            let w2 = cost_row(args.cpu_time, "sysconf_clk_tck"@, Facet::CpuTime, failure_of(clk_hz));
            let w3 = cost_row(args.mem, "sysconf_pagesize"@, Facet::Mem, failure_of(page));
            lemma_rows_extend(e0, e1, e2, w0, w1);
            lemma_rows_extend(e0, e2, e3, w0 + w1, w2);
            lemma_rows_extend(e0, e3, self.errors@, w0 + w1 + w2, w3);
        }
        let clk = match clk_hz {
            Some(Ok(v)) => Some(v),
            _ => None,
        };
        let start_time = if args.start_time {
            match (boot_us, clk) {
                (Some(Ok(b)), Some(h)) => Some((b, h)),
                _ => None,
            }
        } else {
            None
        };
        let cpu_time = if args.cpu_time {
            clk
        } else {
            None
        };
        let mem = if args.mem {
            match page {
                Some(Ok(v)) => Some(v),
                _ => None,
            }
        } else {
            None
        };
        ReadPlan { start_time, cpu_time, mem }
    }

    /// Records the listing of the pids a snapshot covers: the pids, or,
    /// when the listing failed, one `E proc_readdir` row per asked facet,
    /// since every facet of the ask comes from that listing.
    pub fn record_pid_listing(&mut self, args: &SnapshotArgs, listing: Result<Vec<u32>, i32>) -> (pids:
        Option<Vec<u32>>)
        ensures
            only_errors_differ(*old(self), *final(self)),
            final(self).errors@.take(old(self).errors@.len() as int) == old(self).errors@,
            match listing {
                Ok(v) => pids matches Some(p) && p@ == v@ && final(self).errors == old(
                    self,
                ).errors,
                Err(e) => pids is None && final(self).errors@.len() == old(self).errors@.len()
                    + asked_facets_of(*args).len() && forall|i: int|
                    0 <= i < asked_facets_of(*args).len() ==> {
                        let r = #[trigger] final(self).errors@[old(self).errors@.len() + i];
                        r.source@ == "proc_readdir"@ && r.facet == asked_facets_of(*args)[i]
                            && r.code@ == errno_spelling(e)
                    },
            },
    {
        match listing {
            Ok(v) => Some(v),
            Err(e) => {
                let facets = args.asked_facets();
                self.push_source_errors("proc_readdir", facets.as_slice(), e);
                None
            },
        }
    }
}

/// Which of a pid's shared files an ask reads, once per pid so sibling
/// facets see one instant: `stat` (names, start and CPU times, status) and
/// `cmdline` (names and argument vectors).
pub open spec fn pid_files_needed_of(a: SnapshotArgs) -> (bool, bool) {
    (a.procs || a.start_time || a.cpu_time || a.status, a.procs || a.argv)
}

/// Which of a pid's shared files to read for an ask.
pub fn pid_files_needed(args: &SnapshotArgs) -> (r: (bool, bool))
    ensures
        r == pid_files_needed_of(*args),
{
    (args.procs || args.start_time || args.cpu_time || args.status, args.procs || args.argv)
}

/// The fd walks that could be read, in order, each with its inodes.
pub open spec fn readable_holdings(r: Seq<(u32, Result<Vec<u64>, i32>)>) -> Seq<(u32, Seq<u64>)>
    decreases r.len(),
{
    if r.len() == 0 {
        seq![]
    } else {
        let rest = readable_holdings(r.drop_last());
        match r.last().1 {
            Ok(v) => rest.push((r.last().0, v@)),
            Err(_) => rest,
        }
    }
}

/// The fd walks that failed, in order, each with its errno.
pub open spec fn holding_failures(r: Seq<(u32, Result<Vec<u64>, i32>)>) -> Seq<(u32, i32)>
    decreases r.len(),
{
    if r.len() == 0 {
        seq![]
    } else {
        let rest = holding_failures(r.drop_last());
        match r.last().1 {
            Ok(_) => rest,
            Err(e) => rest.push((r.last().0, e)),
        }
    }
}

/// `rows` are the `U` rows on `facet` that `want` describes, in order.
pub open spec fn spells_unreadable(rows: Seq<crate::schema::Unreadable>, want: Seq<(u32, i32)>, facet: Facet) -> bool {
    &&& rows.len() == want.len()
    &&& forall|i: int|
        0 <= i < want.len() ==> (#[trigger] rows[i]).pid == want[i].0 && rows[i].facet == facet
            && rows[i].errno@ == errno_spelling(want[i].1)
}

impl Snapshot {
    /// Records the listener tables' reading: the listeners, or, when a
    /// table could not be read, one `E` row on `ports`, since those tables
    /// are the only listener source and their silence costs the whole set.
    pub fn record_listener_source(&mut self, reading: Result<Vec<Listener>, (&str, i32)>) -> (r:
        Option<Vec<Listener>>)
        ensures
            only_errors_differ(*old(self), *final(self)),
            match reading {
                Ok(v) => r matches Some(l) && l@ == v@ && final(self).errors == old(self).errors,
                Err((source, e)) => r is None && one_more_error(
                    old(self).errors@,
                    final(self).errors@,
                    source@,
                    Facet::Ports,
                    errno_spelling(e),
                ),
            },
    {
        match reading {
            Ok(v) => Some(v),
            Err((source, e)) => {
                let row = source_error(source, Facet::Ports, e);
                push_error(&mut self.errors, row);
                assert(self.errors@.take(old(self).errors@.len() as int) =~= old(self).errors@);
                None
            },
        }
    }

    /// Records the listener rows: each pid whose fd walk failed gets a
    /// `U … ports` row, in order, and the listeners are attributed to the
    /// pids whose walks could be read.
    #[verifier::spinoff_prover]
    pub fn record_ports(&mut self, listeners: &[Listener], walks: Vec<(u32, Result<Vec<u64>, i32>)>)
        ensures
            final(self).version == old(self).version,
            final(self).procs == old(self).procs,
            final(self).memory == old(self).memory,
            final(self).start_times == old(self).start_times,
            final(self).cpu_times == old(self).cpu_times,
            final(self).uids == old(self).uids,
            final(self).cwds == old(self).cwds,
            final(self).statuses == old(self).statuses,
            final(self).argv == old(self).argv,
            final(self).errors == old(self).errors,
            final(self).unreadable@.len() >= old(self).unreadable@.len(),
            final(self).unreadable@.take(old(self).unreadable@.len() as int)
                == old(self).unreadable@,
            spells_unreadable(
                final(self).unreadable@.skip(old(self).unreadable@.len() as int),
                holding_failures(walks@),
                Facet::Ports,
            ),
            final(self).ports@.len() == listeners@.len(),
            forall|n: int|
                0 <= n < final(self).ports@.len() ==> {
                    let p = #[trigger] final(self).ports@[n];
                    let l = listeners@[n];
                    &&& p.attribution == attribution_of(readable_holdings(walks@), l.inode)
                    &&& p.uid == Some(l.uid)
                    &&& p.port == l.port
                    &&& p.address@ == spec_encode_hex(l.addr@)
                },
    {
        let ghost all = walks@;
        let ghost u0 = self.unreadable@;
        let mut walks = walks;
        let mut held: Vec<(u32, Vec<u64>)> = Vec::new();
        let mut k: usize = 0;
        let total = walks.len();
        while walks.len() > 0
            invariant
                k + walks@.len() == all.len(),
                total == all.len(),
                walks@ == all.skip(k as int),
                holdings_view(held@) == readable_holdings(all.take(k as int)),
                self.unreadable@.len() >= u0.len(),
                self.unreadable@.take(u0.len() as int) == u0,
                spells_unreadable(
                    self.unreadable@.skip(u0.len() as int),
                    holding_failures(all.take(k as int)),
                    Facet::Ports,
                ),
                self.version == old(self).version,
                self.procs == old(self).procs,
                self.memory == old(self).memory,
                self.start_times == old(self).start_times,
                self.cpu_times == old(self).cpu_times,
                self.uids == old(self).uids,
                self.cwds == old(self).cwds,
                self.statuses == old(self).statuses,
                self.argv == old(self).argv,
                self.ports == old(self).ports,
                self.errors == old(self).errors,
            decreases walks@.len(),
        {
            let (pid, result) = walks.remove(0);
            proof {
                assert(all.take(k + 1).drop_last() =~= all.take(k as int));
                assert(all.take(k + 1).last() == all[k as int]);
                assert(all.skip(k + 1) =~= all.skip(k as int).remove(0));
            }
            let ghost before_u = self.unreadable@;
            let ghost before_h = held@;
            match result {
                Ok(inodes) => {
                    held.push((pid, inodes));
                    assert(holdings_view(held@) =~= holdings_view(before_h).push((pid, inodes@)));
                },
                Err(e) => {
                    self.push_unreadable(pid, Facet::Ports, e);
                    proof {
                        let w = holding_failures(all.take(k as int));
                        let t = self.unreadable@.skip(u0.len() as int);
                        assert(self.unreadable@.take(before_u.len() as int) == before_u);
                        assert(self.unreadable@.take(u0.len() as int) =~= u0);
                        assert(t =~= before_u.skip(u0.len() as int).push(self.unreadable@.last()));
                        assert forall|i: int| 0 <= i < w.len() + 1 implies (#[trigger] t[i]).pid
                            == w.push((pid, e))[i].0 && t[i].facet == Facet::Ports && t[i].errno@
                            == errno_spelling(w.push((pid, e))[i].1) by {
                            if i < w.len() {
                                assert(t[i] == before_u.skip(u0.len() as int)[i]);
                            }
                        }
                    }
                },
            }
            k = k + 1;
        }
        assert(all.take(k as int) =~= all);
        self.ports = crate::procfs::attribute_listeners(listeners, held.as_slice());
    }
}

} // verus!

verus! {

/// `c` is one of the children read for `p`.
pub open spec fn kid_edge(kids: Map<u32, Seq<u32>>, p: u32, c: u32) -> bool {
    kids.dom().contains(p) && kids[p].contains(c)
}

/// The pids at most `n` child links below `start`.
pub open spec fn reach_within(kids: Map<u32, Seq<u32>>, start: Set<u32>, n: nat) -> Set<u32>
    decreases n,
{
    if n == 0 {
        start
    } else {
        let w = reach_within(kids, start, (n - 1) as nat);
        w.union(Set::new(|c: u32| exists|p: u32| #[trigger] w.contains(p) && kid_edge(kids, p, c)))
    }
}

/// `x` is one of `start` or below one of them.
pub open spec fn reachable_from(kids: Map<u32, Seq<u32>>, start: Set<u32>, x: u32) -> bool {
    exists|n: nat| #[trigger] reach_within(kids, start, n).contains(x)
}

/// What holds of a `--roots` walk whose reads of children gave `kids`,
/// after entering the roots `entered`: nothing is found twice or queued
/// twice, everything queued and every root entered was found, everything
/// found is a root or below one, and every found pid whose children were
/// read has all its children found.
pub open spec fn walk_invariant(
    kids: Map<u32, Seq<u32>>,
    entered: Set<u32>,
    found: Seq<u32>,
    pending: Seq<u32>,
) -> bool {
    &&& no_repeats(found)
    &&& no_repeats(pending)
    &&& forall|x: u32| pending.contains(x) ==> found.contains(x)
    &&& forall|x: u32| entered.contains(x) ==> found.contains(x)
    &&& forall|x: u32| found.contains(x) ==> reachable_from(kids, entered, x)
    &&& forall|x: u32, c: u32|
        found.contains(x) && !pending.contains(x) && kid_edge(kids, x, c) ==> found.contains(c)
}

proof fn lemma_fresh_children(seen: Seq<u32>, ch: Seq<u32>)
    ensures
        forall|x: u32| fresh_children(seen, ch).contains(x) <==> ch.contains(x) && !seen.contains(x),
        no_repeats(fresh_children(seen, ch)),
    decreases ch.len(),
{
    if ch.len() > 0 {
        let d = ch.drop_last();
        let c = ch.last();
        lemma_fresh_children(seen, d);
        let b = fresh_children(seen, d);
        assert forall|x: u32| ch.contains(x) <==> d.contains(x) || x == c by {
            if ch.contains(x) {
                let k = choose|k: int| 0 <= k < ch.len() && ch[k] == x;
                if k < d.len() {
                    assert(d[k] == x);
                }
            }
            if d.contains(x) {
                let k = choose|k: int| 0 <= k < d.len() && d[k] == x;
                assert(ch[k] == x);
            }
            if x == c {
                assert(ch[ch.len() - 1] == x);
            }
        }
        if !(seen.contains(c) || b.contains(c)) {
            let f = b.push(c);
            assert forall|x: u32| f.contains(x) <==> b.contains(x) || x == c by {
                if f.contains(x) {
                    let k = choose|k: int| 0 <= k < f.len() && f[k] == x;
                    if k < b.len() {
                        assert(b[k] == x);
                    }
                }
                if b.contains(x) {
                    let k = choose|k: int| 0 <= k < b.len() && b[k] == x;
                    assert(f[k] == x);
                }
                if x == c {
                    assert(f[b.len() as int] == x);
                }
            }
            assert forall|i: int, j: int| 0 <= i < j < f.len() implies f[i] != f[j] by {
                if j == b.len() {
                    assert(b.contains(f[i]));
                }
            }
        }
    }
}

proof fn lemma_reach_step(kids: Map<u32, Seq<u32>>, start: Set<u32>, p: u32, c: u32, n: nat)
    requires
        reach_within(kids, start, n).contains(p),
        kid_edge(kids, p, c),
    ensures
        reach_within(kids, start, n + 1).contains(c),
{
    let w = reach_within(kids, start, n);
    assert(reach_within(kids, start, n + 1) == w.union(
        Set::new(|c: u32| exists|p: u32| #[trigger] w.contains(p) && kid_edge(kids, p, c)),
    ));
}

proof fn lemma_reach_grows(kids: Map<u32, Seq<u32>>, start: Set<u32>, r: u32, n: nat)
    ensures
        forall|x: u32|
            reach_within(kids, start, n).contains(x) ==> reach_within(kids, start.insert(r), n).contains(
                x,
            ),
    decreases n,
{
    if n > 0 {
        lemma_reach_grows(kids, start, r, (n - 1) as nat);
        let w = reach_within(kids, start, (n - 1) as nat);
        let v = reach_within(kids, start.insert(r), (n - 1) as nat);
        assert forall|x: u32| reach_within(kids, start, n).contains(x) implies reach_within(
            kids,
            start.insert(r),
            n,
        ).contains(x) by {
            if !w.contains(x) {
                let p = choose|p: u32| #[trigger] w.contains(p) && kid_edge(kids, p, x);
                lemma_reach_step(kids, start.insert(r), p, x, (n - 1) as nat);
            }
        }
    }
}

proof fn lemma_closed_holds_reach(kids: Map<u32, Seq<u32>>, start: Set<u32>, found: Seq<u32>, n: nat)
    requires
        forall|x: u32| start.contains(x) ==> found.contains(x),
        forall|x: u32, c: u32| found.contains(x) && kid_edge(kids, x, c) ==> found.contains(c),
    ensures
        forall|x: u32| reach_within(kids, start, n).contains(x) ==> found.contains(x),
    decreases n,
{
    if n > 0 {
        lemma_closed_holds_reach(kids, start, found, (n - 1) as nat);
        let w = reach_within(kids, start, (n - 1) as nat);
        assert forall|x: u32| reach_within(kids, start, n).contains(x) implies found.contains(x) by {
            if !w.contains(x) {
                let p = choose|p: u32| #[trigger] w.contains(p) && kid_edge(kids, p, x);
            }
        }
    }
}

/// A walk that has entered no root is closed.
pub proof fn an_empty_walk_is_closed(kids: Map<u32, Seq<u32>>)
    ensures
        walk_invariant(kids, Set::empty(), seq![], seq![]),
{
}

/// Visiting a root between walks keeps the walk closed: a root not found
/// yet is found and queued ([`PidWalk::visit_root`] then
/// [`PidWalk::enter_root`]); a root already found is skipped.
pub proof fn visiting_a_root_keeps_the_walk_closed(
    kids: Map<u32, Seq<u32>>,
    entered: Set<u32>,
    found: Seq<u32>,
    r: u32,
)
    requires
        walk_invariant(kids, entered, found, seq![]),
    ensures
        !found.contains(r) ==> walk_invariant(kids, entered.insert(r), found.push(r), seq![r]),
        found.contains(r) ==> walk_invariant(kids, entered.insert(r), found, seq![]),
{
    let e2 = entered.insert(r);
    assert forall|x: u32| found.contains(x) implies reachable_from(kids, e2, x) by {
        let n = choose|n: nat| #[trigger] reach_within(kids, entered, n).contains(x);
        lemma_reach_grows(kids, entered, r, n);
    }
    assert(reach_within(kids, e2, 0).contains(r));
    if !found.contains(r) {
        let f = found.push(r);
        assert forall|x: u32| f.contains(x) <==> found.contains(x) || x == r by {
            if f.contains(x) {
                let k = choose|k: int| 0 <= k < f.len() && f[k] == x;
                if k < found.len() {
                    assert(found[k] == x);
                }
            }
            if found.contains(x) {
                let k = choose|k: int| 0 <= k < found.len() && found[k] == x;
                assert(f[k] == x);
            }
            if x == r {
                assert(f[found.len() as int] == x);
            }
        }
        assert forall|i: int, j: int| 0 <= i < j < f.len() implies f[i] != f[j] by {
            if j == found.len() {
                assert(found.contains(f[i]));
            }
        }
        assert forall|x: u32| seq![r].contains(x) implies x == r by {
            let k = choose|k: int| 0 <= k < 1 && seq![r][k] == x;
        }
        assert(seq![r][0] == r);
    }
}

/// Reading the children `kids[p]` of the last queued parent `p` and
/// adopting them ([`PidWalk::next_parent`] then [`PidWalk::adopt`]) keeps
/// the walk closed.
#[verifier::spinoff_prover]
pub proof fn reading_a_parent_keeps_the_walk_closed(
    kids: Map<u32, Seq<u32>>,
    entered: Set<u32>,
    found: Seq<u32>,
    pending: Seq<u32>,
)
    requires
        walk_invariant(kids, entered, found, pending),
        pending.len() > 0,
        kids.dom().contains(pending.last()),
    ensures
        walk_invariant(
            kids,
            entered,
            found + fresh_children(found, kids[pending.last()]),
            pending.drop_last() + fresh_children(found, kids[pending.last()]),
        ),
{
    let p = pending.last();
    let ch = kids[p];
    let fresh = fresh_children(found, ch);
    lemma_fresh_children(found, ch);
    let f2 = found + fresh;
    let q = pending.drop_last();
    let q2 = q + fresh;
    assert forall|x: u32| f2.contains(x) <==> found.contains(x) || fresh.contains(x) by {
        if f2.contains(x) {
            let k = choose|k: int| 0 <= k < f2.len() && f2[k] == x;
            if k < found.len() {
                assert(found[k] == x);
            } else {
                assert(fresh[k - found.len()] == x);
            }
        }
        if found.contains(x) {
            let k = choose|k: int| 0 <= k < found.len() && found[k] == x;
            assert(f2[k] == x);
        }
        if fresh.contains(x) {
            let k = choose|k: int| 0 <= k < fresh.len() && fresh[k] == x;
            assert(f2[found.len() + k] == x);
        }
    }
    assert forall|x: u32| q.contains(x) <==> pending.contains(x) && x != p by {
        if q.contains(x) {
            let k = choose|k: int| 0 <= k < q.len() && q[k] == x;
            assert(pending[k] == x);
            assert(pending[pending.len() - 1] == p);
        }
        if pending.contains(x) && x != p {
            let k = choose|k: int| 0 <= k < pending.len() && pending[k] == x;
            assert(k < pending.len() - 1);
            assert(q[k] == x);
        }
    }
    assert(pending[pending.len() - 1] == p);
    assert(pending.contains(p));
    assert forall|x: u32| q2.contains(x) <==> q.contains(x) || fresh.contains(x) by {
        if q2.contains(x) {
            let k = choose|k: int| 0 <= k < q2.len() && q2[k] == x;
            if k < q.len() {
                assert(q[k] == x);
            } else {
                assert(fresh[k - q.len()] == x);
            }
        }
        if q.contains(x) {
            let k = choose|k: int| 0 <= k < q.len() && q[k] == x;
            assert(q2[k] == x);
        }
        if fresh.contains(x) {
            let k = choose|k: int| 0 <= k < fresh.len() && fresh[k] == x;
            assert(q2[q.len() + k] == x);
        }
    }
    assert forall|i: int, j: int| 0 <= i < j < f2.len() implies f2[i] != f2[j] by {
        if j >= found.len() && i < found.len() {
            assert(found.contains(f2[i]));
            assert(fresh.contains(f2[j]));
        } else if i >= found.len() {
            assert(f2[i] == fresh[i - found.len()] && f2[j] == fresh[j - found.len()]);
        }
    }
    assert forall|i: int, j: int| 0 <= i < j < q2.len() implies q2[i] != q2[j] by {
        if j >= q.len() && i < q.len() {
            assert(q.contains(q2[i]));
            assert(pending.contains(q2[i]));
            assert(fresh.contains(q2[j]));
        } else if i >= q.len() {
            assert(q2[i] == fresh[i - q.len()] && q2[j] == fresh[j - q.len()]);
        } else {
            assert(q2[i] == pending[i] && q2[j] == pending[j]);
        }
    }
    assert forall|x: u32| f2.contains(x) implies reachable_from(kids, entered, x) by {
        if fresh.contains(x) {
            assert(ch.contains(x));
            assert(found.contains(p));
            let n = choose|n: nat| #[trigger] reach_within(kids, entered, n).contains(p);
            lemma_reach_step(kids, entered, p, x, n);
        }
    }
    assert forall|x: u32, c: u32|
        f2.contains(x) && !q2.contains(x) && kid_edge(kids, x, c) implies f2.contains(c) by {
        if fresh.contains(x) {
            assert(q2.contains(x));
        } else if x == p {
            if !found.contains(c) {
                assert(fresh.contains(c));
            }
        } else {
            assert(!pending.contains(x));
        }
    }
}

/// A walk with nothing left to read has found exactly the entered roots
/// and every pid below them, each once.
pub proof fn a_finished_walk_is_the_subtree(
    kids: Map<u32, Seq<u32>>,
    entered: Set<u32>,
    found: Seq<u32>,
)
    requires
        walk_invariant(kids, entered, found, seq![]),
    ensures
        no_repeats(found),
        forall|x: u32| found.contains(x) <==> reachable_from(kids, entered, x),
{
    assert forall|x: u32, c: u32| found.contains(x) && kid_edge(kids, x, c) implies found.contains(c) by {
        assert(!seq![].contains(x));
    }
    assert forall|x: u32| reachable_from(kids, entered, x) implies found.contains(x) by {
        let n = choose|n: nat| #[trigger] reach_within(kids, entered, n).contains(x);
        lemma_closed_holds_reach(kids, entered, found, n);
    }
}

} // verus!

verus! {

/// `errs` are one `E` row per facet of `facets`, in order, each from
/// `source` with the spelling `code`.
pub open spec fn one_row_per_facet(errs: Seq<SourceError>, source: Seq<char>, facets: Seq<Facet>, code: Seq<
    char,
>) -> bool {
    &&& errs.len() == facets.len()
    &&& forall|i: int|
        0 <= i < facets.len() ==> (#[trigger] errs[i]).source@ == source && errs[i].facet
            == facets[i] && errs[i].code@ == code
}

fn blind_rows(source: &str, facets: &[Facet]) -> (errs: Vec<SourceError>)
    ensures
        one_row_per_facet(errs@, source@, facets@, "ENOTSUP"@),
{
    let code = errno_code(Errno::Enotsup);
    let mut out: Vec<SourceError> = Vec::new();
    let mut i: usize = 0;
    while i < facets.len()
        invariant
            i <= facets@.len(),
            code == platform_errno(Errno::Enotsup),
            forall|other: Errno| other != Errno::Enotsup ==> code != #[trigger] platform_errno(other),
            one_row_per_facet(out@, source@, facets@.take(i as int), "ENOTSUP"@),
        decreases facets@.len() - i,
    {
        let row = source_error(source, facets[i], code);
        out.push(row);
        i = i + 1;
    }
    assert(facets@.take(facets@.len() as int) =~= facets@);
    out
}

impl Snapshot {
    /// The answer of a build with no process sensor for this host: no
    /// facts, and one `E unsupported_platform <facet> ENOTSUP` row per
    /// asked facet, so that it reads as blindness and exits 1, never as an
    /// empty host.
    pub fn unsupported_platform(args: &SnapshotArgs) -> (s: Self)
        ensures
            s.version == SCHEMA_VERSION,
            s.procs@.len() == 0,
            s.memory@.len() == 0,
            s.start_times@.len() == 0,
            s.cpu_times@.len() == 0,
            s.uids@.len() == 0,
            s.cwds@.len() == 0,
            s.statuses@.len() == 0,
            s.argv@.len() == 0,
            s.ports@.len() == 0,
            s.unreadable@.len() == 0,
            one_row_per_facet(s.errors@, "unsupported_platform"@, asked_facets_of(*args), "ENOTSUP"@),
    {
        let mut s = Snapshot::new();
        let facets = args.asked_facets();
        s.errors = blind_rows("unsupported_platform", facets.as_slice());
        s
    }
}

impl HostSnapshot {
    /// The answer of a build with no host sensor for this host: no gauges,
    /// and one `E unsupported_platform <facet> ENOTSUP` row per asked
    /// facet, the uptime included.
    pub fn unsupported_platform(args: &HostArgs) -> (s: Self)
        ensures
            s.version == SCHEMA_VERSION,
            s.load is None,
            s.memory is None,
            s.swap is None,
            s.uptime_us is None,
            s.cpus@.len() == 0,
            s.networks@.len() == 0,
            s.disks@.len() == 0,
            one_row_per_facet(s.errors@, "unsupported_platform"@, host_asked_facets_of(*args), "ENOTSUP"@),
    {
        let mut s = HostSnapshot::new();
        let facets = args.asked_facets();
        s.errors = blind_rows("unsupported_platform", facets.as_slice());
        s
    }
}

} // verus!
