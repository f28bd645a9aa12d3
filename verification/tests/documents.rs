//! The documents: their TSV text, their row order, and what one sensor
//! pass records into them.

use osfacts::{
    Attribution, Cpu, Disk, Document, Facet, HostMemory, HostSnapshot, Load,
    Memory, Network, Port, Proc, ProcessArgv, ProcessCwd, ProcessStatus, Snapshot,
    SocketHolders, Swap,
};

#[test]
fn an_empty_document_is_its_version_line() {
    assert_eq!(Snapshot::new().to_tsv(), "V\t2\n");
    assert_eq!(SocketHolders::new().to_tsv(), "V\t2\n");
    assert_eq!(HostSnapshot::new().to_tsv(), "V\t2\n");
}

#[test]
fn snapshot_rows_render_in_block_order() {
    let mut snap = Snapshot::new();
    snap.unreadable.push(osfacts::Unreadable { pid: 3, facet: Facet::Cwd, errno: "EACCES".into() });
    snap.memory.push(Memory { pid: 1, rss_bytes: 4096 });
    snap.procs.push(Proc { pid: 1, ppid: 0, name: "init".into() });
    snap.cwds.push(ProcessCwd { pid: 1, cwd: "/a\tb".into() });
    snap.statuses.push(ProcessStatus { pid: 1, state: 'S', nice: -5, threads: None });
    snap.argv.push(ProcessArgv { pid: 1, argv: vec!["x".into(), "y z".into()] });
    snap.ports.push(Port {
        attribution: Attribution::Unclaimed,
        uid: Some(0),
        port: 22,
        address: "00000000".into(),
    });
    snap.errors.push(osfacts::blind_or_empty("proc_net_tcp", Facet::Ports));
    assert_eq!(
        snap.to_tsv(),
        "V\t2\nP\t1\t0\tinit\nM\t1\t4096\nCWD\t1\t\"/a\\tb\"\nSTAT\t1\tS\t-5\t-\nARGV\t1\t[\"x\",\"y z\"]\nL\tunclaimed\t-\t0\t22\t00000000\nU\t3\tcwd\tEACCES\nE\tproc_net_tcp\tports\tBLIND_OR_EMPTY\n"
    );
}

#[test]
fn normalize_orders_rows_and_collapses_repeated_blindness() {
    let mut snap = Snapshot::new();
    snap.procs.push(Proc { pid: 9, ppid: 1, name: "b".into() });
    snap.procs.push(Proc { pid: 2, ppid: 1, name: "a".into() });
    snap.push_unreadable(5, Facet::Uid, libc::EACCES);
    snap.push_unreadable(5, Facet::Proc, libc::EPERM);
    snap.push_unreadable(5, Facet::Uid, libc::ESRCH);
    snap.push_unreadable(1, Facet::Argv, libc::EACCES);
    snap.normalize();
    assert_eq!(snap.procs.iter().map(|p| p.pid).collect::<Vec<_>>(), vec![2, 9]);
    let u: Vec<(u32, Facet, String)> = snap
        .unreadable
        .iter()
        .map(|r| (r.pid, r.facet, r.errno.clone()))
        .collect();
    assert_eq!(
        u,
        vec![
            (1, Facet::Argv, "EACCES".to_owned()),
            (5, Facet::Proc, "EPERM".to_owned()),
            (5, Facet::Uid, "EACCES".to_owned()),
        ]
    );
}

#[test]
fn listener_rows_order_by_port_then_claimant_then_address() {
    let port = |attribution, port, address: &str| Port {
        attribution,
        uid: None,
        port,
        address: address.into(),
    };
    let mut snap = Snapshot::new();
    snap.ports.push(port(Attribution::Unclaimed, 80, "00000000"));
    snap.ports.push(port(Attribution::Claimed { pid: 7 }, 80, "7f000001"));
    snap.ports.push(port(Attribution::Claimed { pid: 7 }, 80, "00000000"));
    snap.ports.push(port(Attribution::Claimed { pid: 3 }, 443, "00000000"));
    snap.normalize();
    let order: Vec<(u16, Attribution, String)> = snap
        .ports
        .iter()
        .map(|p| (p.port, p.attribution, p.address.clone()))
        .collect();
    assert_eq!(
        order,
        vec![
            (80, Attribution::Claimed { pid: 7 }, "00000000".to_owned()),
            (80, Attribution::Claimed { pid: 7 }, "7f000001".to_owned()),
            (80, Attribution::Unclaimed, "00000000".to_owned()),
            (443, Attribution::Claimed { pid: 3 }, "00000000".to_owned()),
        ]
    );
}

#[test]
fn holders_collapse_to_one_row_per_holder_with_unclaimed_last() {
    let mut doc = SocketHolders::new();
    doc.holders.push(Attribution::Unclaimed);
    doc.holders.push(Attribution::Claimed { pid: 12 });
    doc.holders.push(Attribution::Claimed { pid: 3 });
    doc.holders.push(Attribution::Claimed { pid: 12 });
    doc.holders.push(Attribution::Unclaimed);
    doc.normalize();
    assert_eq!(
        doc.holders,
        vec![
            Attribution::Claimed { pid: 3 },
            Attribution::Claimed { pid: 12 },
            Attribution::Unclaimed,
        ]
    );
    assert_eq!(doc.to_tsv(), "V\t2\nH\tclaimed\t3\nH\tclaimed\t12\nH\tunclaimed\t-\n");
}

#[test]
fn host_rows_render_in_block_order() {
    let mut host = HostSnapshot::new();
    host.load = Some(Load { one: "0.5".into(), five: "1".into(), fifteen: "2.25".into() });
    host.memory = Some(HostMemory { total_bytes: 10, available_bytes: 5 });
    host.swap = Some(Swap { total_bytes: 4, used_bytes: 1 });
    host.uptime_us = Some(99);
    host.cpus.push(Cpu {
        core: 0,
        user_us: 1,
        system_us: 2,
        idle_us: 3,
        other_us: 4,
        model: "M \"x\"".into(),
        frequency_mhz: None,
    });
    host.networks.push(Network { name: "lo".into(), rx_bytes: 7, tx_bytes: 8 });
    host.disks.push(Disk { mount: "/".into(), total_bytes: 30, available_bytes: 10, free_bytes: 20 });
    assert_eq!(
        host.to_tsv(),
        "V\t2\nHLOAD\t0.5\t1\t2.25\nHMEM\t10\t5\nHSWAP\t4\t1\nHUP\t99\nHCPU\t0\t1\t2\t3\t4\t\"M \\\"x\\\"\"\t-\nHNET\tlo\t7\t8\nHDISK\t/\t30\t10\t20\n"
    );
}

#[test]
fn the_facet_vocabulary_is_spelled_once() {
    assert_eq!(Facet::PortsUnclaimed.as_str(), "ports_unclaimed");
    assert_eq!(Facet::SocketHolders.as_str(), "socket_holders");
    assert_eq!(Facet::StatusThreads.as_str(), "status_threads");
    assert_eq!(Facet::UNREADABLE.len(), 10);
    assert_eq!(Facet::HOST_SOURCE[2], Facet::Mem);
}

#[test]
fn a_uid_only_ask_can_report_uid_blindness() {
    assert!(Facet::SNAPSHOT_SOURCE.contains(&Facet::Uid));
    assert!(Facet::SNAPSHOT_SOURCE.contains(&Facet::Status));
    assert!(Facet::SNAPSHOT_SOURCE.contains(&Facet::StartTime));
}

#[test]
fn errno_names_spell_the_known_codes_and_number_the_rest() {
    assert_eq!(osfacts::errno_name(libc::EACCES), "EACCES");
    assert_eq!(osfacts::errno_name(libc::EINVAL), "EINVAL");
    assert_eq!(osfacts::errno_name(libc::EOVERFLOW), libc::EOVERFLOW.to_string());
    assert_eq!(osfacts::errno_name(-3), "-3");
    assert_eq!(osfacts::errno_name(libc::ENOENT), "ENOENT");
    assert_eq!(osfacts::errno_name(libc::ENOTSUP), "ENOTSUP");
}

#[test]
fn sanitized_names_hold_no_delimiters_on_hostile_input() {
    let s = osfacts::sanitize_name("a\tb\nc\rd\u{2028}e");
    assert_eq!(s, "a b c d\u{2028}e");
    let row = format!("P\t1\t0\t{s}");
    assert_eq!(row.split('\t').count(), 4);
}

#[test]
fn json_fields_round_trip_hostile_text() {
    let value = "tab\there \"quoted\" \\ back\u{1}";
    let encoded = osfacts::encode_tsv_string(value);
    assert!(!encoded.contains('\t') && !encoded.contains('\n'));
    let decoded: String = serde_json::from_str(&encoded).expect("decode");
    assert_eq!(decoded, value);
    let values = vec!["a\nb".to_owned(), String::new()];
    let encoded = osfacts::encode_tsv_strings(&values);
    assert_eq!(encoded, "[\"a\\nb\",\"\"]");
}

#[test]
fn hex_bytes_are_lowercase_pairs() {
    assert_eq!(osfacts::hex_bytes(&[0xab, 0x01]), "ab01");
}

#[test]
fn normalizing_keeps_the_exit_code() {
    let mut snap = Snapshot::new();
    snap.push_unreadable(3, Facet::Mem, libc::EACCES);
    snap.push_unreadable(3, Facet::Mem, libc::EACCES);
    snap.errors.push(osfacts::blind_or_empty("proc_readdir", Facet::Proc));
    let before = osfacts::exit_code(&snap);
    snap.normalize();
    assert_eq!(snap.unreadable.len(), 1);
    assert_eq!(osfacts::exit_code(&snap), before);
    assert_eq!(before, 0);
}

#[test]
fn row_order_does_not_depend_on_reading_order() {
    let rows = |pids: &[u32]| {
        let mut snap = Snapshot::new();
        for &pid in pids {
            snap.memory.push(Memory { pid, rss_bytes: u64::from(pid) * 10 });
        }
        snap.normalize();
        snap.to_tsv()
    };
    assert_eq!(rows(&[3, 1, 2]), rows(&[2, 3, 1]));
    assert_eq!(rows(&[3, 1, 2]), "V\t2\nM\t1\t10\nM\t2\t20\nM\t3\t30\n");
}

#[test]
fn hostile_text_keeps_each_row_at_its_arity() {
    let mut snap = Snapshot::new();
    snap.procs.push(Proc { pid: 1, ppid: 0, name: osfacts::sanitize_name("x\ty\nz") });
    snap.cwds.push(ProcessCwd { pid: 1, cwd: "/a\tb\nc".into() });
    snap.argv.push(ProcessArgv { pid: 1, argv: vec!["\t".into(), "\n\r".into()] });
    let text = snap.to_tsv();
    let lines: Vec<&str> = text.lines().collect();
    assert_eq!(lines.len(), 4);
    assert_eq!(lines[1].split('\t').count(), 4);
    assert_eq!(lines[2].split('\t').count(), 3);
    assert_eq!(lines[3].split('\t').count(), 3);
}
