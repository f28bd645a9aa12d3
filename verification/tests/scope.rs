//! What a snapshot's scope and host-global constants cost, and the
//! `--roots` closure over a whole process table.

use osfacts::cli::{Scope, SnapshotArgs};
use osfacts::procfs::Listener;
use osfacts::readings::{constants_needed, pid_files_needed};
use osfacts::subtree::{darwin_subtree, roots_to_reprobe};
use osfacts::{Attribution, Facet, Snapshot};

fn ask(start_time: bool, cpu_time: bool, mem: bool) -> SnapshotArgs {
    SnapshotArgs {
        scope: Scope::Host,
        procs: false,
        ports: false,
        mem,
        start_time,
        cpu_time,
        uid: false,
        cwd: false,
        status: false,
        argv: false,
        json: false,
    }
}

fn rows(snap: &Snapshot) -> Vec<(String, Facet, String)> {
    snap.errors.iter().map(|e| (e.source.clone(), e.facet, e.code.clone())).collect()
}

#[test]
fn a_failed_host_constant_costs_one_row_per_facet_it_serves() {
    let args = ask(true, true, true);
    assert_eq!(constants_needed(&args), (true, true, true));
    let mut snap = Snapshot::new();
    let plan = snap.cost_host_constants(
        &args,
        Some(Err(libc::EACCES)),
        Some(Ok(100)),
        Some(Err(libc::EIO)),
    );
    assert_eq!(plan.start_time, None);
    assert_eq!(plan.cpu_time, Some(100));
    assert_eq!(plan.mem, None);
    assert_eq!(
        rows(&snap),
        vec![
            ("proc_stat_btime".to_owned(), Facet::StartTime, "EACCES".to_owned()),
            ("sysconf_pagesize".to_owned(), Facet::Mem, "EIO".to_owned()),
        ]
    );
    assert!(snap.unreadable.is_empty());
}

#[test]
fn a_failed_tick_rate_costs_each_facet_that_uses_it() {
    let args = ask(true, true, false);
    let mut snap = Snapshot::new();
    let plan = snap.cost_host_constants(&args, Some(Ok(7)), Some(Err(libc::EINVAL)), None);
    assert_eq!((plan.start_time, plan.cpu_time, plan.mem), (None, None, None));
    assert_eq!(
        rows(&snap),
        vec![
            ("sysconf_clk_tck".to_owned(), Facet::StartTime, "EINVAL".to_owned()),
            ("sysconf_clk_tck".to_owned(), Facet::CpuTime, "EINVAL".to_owned()),
        ]
    );
    let mut ok = Snapshot::new();
    let plan = ok.cost_host_constants(&ask(true, false, true), Some(Ok(7)), Some(Ok(100)), Some(Ok(4096)));
    assert_eq!((plan.start_time, plan.cpu_time, plan.mem), (Some((7, 100)), None, Some(4096)));
    assert!(ok.errors.is_empty());
}

#[test]
fn a_failed_pid_listing_costs_every_asked_facet() {
    let mut args = ask(true, false, true);
    args.procs = true;
    assert_eq!(pid_files_needed(&args), (true, true));
    let mut snap = Snapshot::new();
    assert_eq!(snap.record_pid_listing(&args, Err(libc::EACCES)), None);
    assert_eq!(
        snap.errors.iter().map(|e| e.facet).collect::<Vec<_>>(),
        vec![Facet::Proc, Facet::Mem, Facet::StartTime]
    );
    assert!(snap.errors.iter().all(|e| e.source == "proc_readdir" && e.code == "EACCES"));
    let mut ok = Snapshot::new();
    assert_eq!(ok.record_pid_listing(&args, Ok(vec![1, 2])), Some(vec![1, 2]));
    assert!(ok.errors.is_empty());
}

#[test]
fn listener_rows_cost_the_walks_that_failed() {
    let mut snap = Snapshot::new();
    assert_eq!(snap.record_listener_source(Err(("proc_net_tcp", libc::EACCES))), None);
    assert_eq!(rows(&snap), vec![("proc_net_tcp".to_owned(), Facet::Ports, "EACCES".to_owned())]);
    let mut snap = Snapshot::new();
    let listeners = vec![Listener { inode: 9, uid: 0, port: 22, addr: vec![0, 0, 0, 0] }];
    let got = snap.record_listener_source(Ok(listeners.clone())).expect("tables read");
    snap.record_ports(&got, vec![(3, Err(libc::EACCES)), (4, Ok(vec![9]))]);
    assert_eq!(snap.ports.len(), 1);
    assert_eq!(snap.ports[0].attribution, Attribution::Claimed { pid: 4 });
    assert_eq!(snap.unreadable.len(), 1);
    assert_eq!((snap.unreadable[0].pid, snap.unreadable[0].facet), (3, Facet::Ports));
}

#[test]
fn a_roots_scope_is_the_roots_and_everything_below_them() {
    let table = vec![
        (1u32, Ok(0u32)),
        (2, Ok(1)),
        (3, Ok(2)),
        (4, Ok(1)),
        (5, Ok(9)),
        (6, Err(libc::EPERM)),
        (8, Err(libc::EPERM)),
    ];
    let roots = vec![2u32, 6, 77, 8];
    assert_eq!(roots_to_reprobe(&roots, &table), vec![6, 8]);
    let reprobe = vec![(6u32, Err(libc::EACCES)), (8u32, Ok(1u32))];
    let mut snap = Snapshot::new();
    let mut pids = darwin_subtree(&roots, &table, &reprobe, &mut snap);
    pids.sort();
    assert_eq!(pids, vec![2, 3, 8]);
    let u: Vec<(u32, Facet, String)> =
        snap.unreadable.iter().map(|u| (u.pid, u.facet, u.errno.clone())).collect();
    assert_eq!(
        u,
        vec![
            (6, Facet::Proc, "EACCES".to_owned()),
            (77, Facet::Proc, "ESRCH".to_owned()),
        ]
    );
    let mut snap = Snapshot::new();
    let mut all = darwin_subtree(&[1, 1], &table, &[], &mut snap);
    all.sort();
    assert_eq!(all, vec![1, 2, 3, 4]);
    assert!(snap.unreadable.is_empty());
}

#[test]
fn a_platform_without_a_sensor_reports_every_asked_facet_blind() {
    let mut args = ask(false, true, false);
    args.uid = true;
    let snap = Snapshot::unsupported_platform(&args);
    assert_eq!(
        rows(&snap),
        vec![
            ("unsupported_platform".to_owned(), Facet::CpuTime, "ENOTSUP".to_owned()),
            ("unsupported_platform".to_owned(), Facet::Uid, "ENOTSUP".to_owned()),
        ]
    );
    assert_eq!(osfacts::exit_code(&snap), 1);
    let host_args = osfacts::cli::HostArgs {
        load: true,
        mem: false,
        cpu: false,
        net: false,
        disk: true,
        json: false,
    };
    let host = osfacts::HostSnapshot::unsupported_platform(&host_args);
    let facets: Vec<Facet> = host.errors.iter().map(|e| e.facet).collect();
    assert_eq!(facets, vec![Facet::Uptime, Facet::Load, Facet::Disk]);
    assert!(host.errors.iter().all(|e| e.code == "ENOTSUP"));
    assert_eq!(osfacts::exit_code(&host), 1);
}
