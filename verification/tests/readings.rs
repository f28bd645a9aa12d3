//! One sensor pass: how readings become rows, and the process-tree walk.

use osfacts::procfs::Listener;
use osfacts::{Document, Facet, HostSnapshot, PidWalk, Proc, Snapshot, SocketHolders};
use osfacts::{Attribution, Network};
use osfacts::readings::{host_constant, root_disk};

#[test]
fn a_failed_reading_costs_its_own_facet_only() {
    let mut snap = Snapshot::new();
    snap.record_uid(4, Ok(1000));
    snap.record_cwd(4, Err(libc::EACCES));
    snap.record_memory(4, Ok(8192));
    assert_eq!(snap.uids.len(), 1);
    assert_eq!(snap.memory[0].rss_bytes, 8192);
    assert!(snap.cwds.is_empty());
    assert_eq!(snap.unreadable.len(), 1);
    assert_eq!(snap.unreadable[0].facet, Facet::Cwd);
    assert_eq!(snap.unreadable[0].errno, "EACCES");
}

#[test]
fn status_rows_carry_their_thread_count() {
    let mut snap = Snapshot::new();
    snap.record_status(2, Ok(('R', 0, 4)));
    assert_eq!(snap.statuses[0].threads, Some(4));
    snap.record_proc(2, Ok(Proc { pid: 2, ppid: 1, name: "x".into() }));
    snap.record_argv(2, Ok(vec!["x".into()]));
    snap.record_start_time(2, Err(libc::ESRCH));
    snap.record_cpu_time(2, Ok(5));
    assert_eq!(snap.argv[0].argv, vec!["x".to_owned()]);
    assert_eq!(snap.unreadable[0].facet, Facet::StartTime);
    assert_eq!(snap.cpu_times[0].cpu_time_us, 5);
}

#[test]
fn a_blind_source_costs_every_facet_the_ask_named() {
    let mut snap = Snapshot::new();
    snap.push_source_errors("proc_readdir", &[Facet::Proc, Facet::Mem], libc::EACCES);
    assert_eq!(snap.errors.len(), 2);
    assert_eq!(snap.errors[0].facet, Facet::Proc);
    assert_eq!(snap.errors[1].facet, Facet::Mem);
    assert!(snap.errors.iter().all(|e| e.source == "proc_readdir" && e.code == "EACCES"));
}

#[test]
fn an_empty_interface_table_is_blindness() {
    let mut host = HostSnapshot::new();
    host.record_networks(Ok(Vec::new()));
    assert_eq!(host.errors.len(), 1);
    assert_eq!(host.errors[0].code, "BLIND_OR_EMPTY");
    host.record_networks(Ok(vec![Network { name: "lo".into(), rx_bytes: 1, tx_bytes: 2 }]));
    assert_eq!(host.networks.len(), 1);
    host.record_uptime(Err(libc::ENOENT));
    assert_eq!(host.uptime_us, None);
    assert_eq!(host.errors[1].source, "proc_uptime");
    host.record_cpus(Err(("proc_cpuinfo", libc::EINVAL)));
    assert_eq!(host.errors[2].source, "proc_cpuinfo");
    assert_eq!(host.errors[2].facet, Facet::Cpu);
}

#[test]
fn holders_are_every_pid_holding_an_inode_or_one_unclaimed_row() {
    let mut doc = SocketHolders::new();
    let holdings = vec![(10u32, vec![7u64, 8]), (11u32, vec![8u64]), (12u32, vec![9u64])];
    doc.record_holders(&[8, 99], &holdings);
    assert_eq!(
        doc.holders,
        vec![
            Attribution::Claimed { pid: 10 },
            Attribution::Claimed { pid: 11 },
            Attribution::Unclaimed,
        ]
    );
    doc.record_holder_proc(10, Err(libc::EACCES));
    assert_eq!(doc.unreadable[0].facet, Facet::Proc);
    doc.record_blind("proc_net_unix", libc::EACCES);
    assert_eq!(doc.errors[0].facet, Facet::SocketHolders);
}

#[test]
fn the_tree_walk_finds_each_pid_once() {
    let mut walk = PidWalk::new();
    assert!(walk.visit_root(1));
    walk.enter_root(1);
    let mut reads = 0;
    while let Some(parent) = walk.next_parent() {
        reads += 1;
        match parent {
            1 => walk.adopt(&[2, 3, 2]),
            2 => walk.adopt(&[4, 1]),
            _ => walk.adopt(&[]),
        }
    }
    assert_eq!(reads, 4);
    assert!(!walk.visit_root(4));
    assert_eq!(walk.into_pids(), vec![1, 2, 3, 4]);
}

#[test]
fn a_listener_value_is_copied_whole() {
    let l = Listener { inode: 1, uid: 2, port: 3, addr: vec![4, 5] };
    assert_eq!(l.clone_listener(), l);
}

#[test]
fn a_vanished_pid_is_unreadable_in_every_asked_facet() {
    let mut snap = Snapshot::new();
    let pid = u32::MAX;
    snap.record_uid(pid, Err(libc::ENOENT));
    snap.record_cwd(pid, Err(libc::ENOENT));
    snap.record_status(pid, Err(libc::ENOENT));
    snap.record_argv(pid, Err(libc::ENOENT));
    snap.normalize();
    let facets: Vec<Facet> = snap.unreadable.iter().map(|u| u.facet).collect();
    assert_eq!(facets, vec![Facet::Uid, Facet::Cwd, Facet::Status, Facet::Argv]);
    assert!(snap.uids.is_empty() && snap.cwds.is_empty());
    assert!(snap.statuses.is_empty() && snap.argv.is_empty());
    assert_eq!(
        snap.to_tsv(),
        "V\t2\nU\t4294967295\tuid\tENOENT\nU\t4294967295\tcwd\tENOENT\nU\t4294967295\tstatus\tENOENT\nU\t4294967295\targv\tENOENT\n"
    );
}

#[test]
fn the_root_disk_keeps_both_free_meanings_and_saturates() {
    let d = root_disk(4096, 1000, 200, 250);
    assert_eq!(d.mount, "/");
    assert_eq!(d.total_bytes, 4_096_000);
    assert_eq!(d.available_bytes, 819_200);
    assert_eq!(d.free_bytes, 1_024_000);
    let big = root_disk(1 << 40, 1 << 30, 0, 1);
    assert_eq!(big.total_bytes, u64::MAX);
    assert_eq!(big.available_bytes, 0);
    assert_eq!(big.free_bytes, 1 << 40);
}

#[test]
fn a_host_constant_that_is_not_positive_is_eio() {
    assert_eq!(host_constant(100), Ok(100));
    assert_eq!(host_constant(0), Err(libc::EIO));
    assert_eq!(host_constant(-1), Err(libc::EIO));
}
