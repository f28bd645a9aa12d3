//! The one emit-and-exit law every document obeys: a document that carried
//! a fact succeeds even when a source went blind, and only a document with
//! nothing but blindness in it exits non-zero.

use osfacts::{
    blind_or_empty, exit_code, source_error, Attribution, Facet,
    HostSnapshot, Proc, Snapshot, SocketHolders,
};

#[test]
fn partial_source_failure_does_not_discard_good_facts() {
    let mut snap = Snapshot::new();
    snap.procs.push(Proc {
        pid: 42,
        ppid: 1,
        name: "readable".into(),
    });
    snap.errors
        .push(blind_or_empty("darwin_tcp_pcblist", Facet::PortsUnclaimed));

    assert_eq!(exit_code(&snap), 0);
}

#[test]
fn source_failure_without_any_facts_is_fatal() {
    let mut snap = Snapshot::new();
    snap.errors.push(source_error(
        "proc_listpids",
        Facet::Proc,
        libc::EPERM,
    ));

    assert_eq!(exit_code(&snap), 1);
}

/// A host-global constant that fails costs the facet once, as one `E`
/// row, never N per-pid `U` rows.
#[test]
fn a_failed_host_global_constant_is_one_source_error_not_n_pid_rows() {
    let mut snap = Snapshot::new();
    snap.errors.push(source_error(
        "sysconf_pagesize",
        Facet::Mem,
        libc::EIO,
    ));

    assert!(snap.unreadable.is_empty());
    assert_eq!(exit_code(&snap), 1);
}

/// "Nobody holds this path" is an answer, not a failure.
#[test]
fn an_unheld_socket_is_a_successful_empty_answer() {
    let holders = SocketHolders::new();

    assert!(!osfacts::Document::has_facts(&holders));
    assert_eq!(exit_code(&holders), 0);
}

/// A build with no sensor must never say "nobody holds it".
#[test]
fn a_sensorless_build_reports_blindness_not_absence() {
    let holders = SocketHolders::unsupported_platform("unsupported_platform");

    assert!(!osfacts::Document::has_facts(&holders));
    assert!(holders
        .errors
        .iter()
        .any(|row| row.facet == Facet::SocketHolders));
    assert_eq!(exit_code(&holders), 1);
}

#[test]
fn a_blind_socket_holder_source_without_facts_is_fatal() {
    let mut holders = SocketHolders::new();
    holders.errors.push(source_error(
        "proc_net_unix",
        Facet::SocketHolders,
        libc::EACCES,
    ));

    assert_eq!(exit_code(&holders), 1);
}

/// A bound socket no readable pid claims is a fact, so a `--procs` ask
/// that also lost holder names still succeeds, carrying both.
#[test]
fn a_holder_whose_name_is_unreadable_is_still_an_answer() {
    let mut holders = SocketHolders::new();
    holders.holders.push(Attribution::Claimed { pid: 7 });
    holders.push_unreadable(7, Facet::Proc, libc::EACCES);

    assert_eq!(exit_code(&holders), 0);
    assert!(holders.errors.is_empty());
    assert!(!Facet::SOCKET_HOLDERS_SOURCE.contains(&Facet::Proc));
}

#[test]
fn partial_host_source_failure_does_not_discard_good_facts() {
    let mut host = HostSnapshot::new();
    host.uptime_us = Some(1);
    host.errors.push(source_error(
        "net_rt_iflist2",
        Facet::Net,
        libc::EPERM,
    ));

    assert_eq!(exit_code(&host), 0);
}

#[test]
fn an_unsupported_platform_row_spells_enotsup() {
    let holders = SocketHolders::unsupported_platform("unsupported_platform");
    assert_eq!(holders.errors.len(), 1);
    assert_eq!(holders.errors[0].source, "unsupported_platform");
    assert_eq!(holders.errors[0].code, "ENOTSUP");
    assert_eq!(holders.errors[0].code, osfacts::errno_name(libc::ENOTSUP));
}

#[test]
fn an_empty_snapshot_with_no_errors_succeeds() {
    assert_eq!(exit_code(&Snapshot::new()), 0);
    assert_eq!(exit_code(&HostSnapshot::new()), 0);
}

#[test]
fn unreadable_rows_alone_are_facts() {
    let mut snap = Snapshot::new();
    snap.push_unreadable(9, Facet::Cwd, libc::EACCES);
    snap.errors.push(blind_or_empty("proc_readdir", Facet::Proc));
    assert_eq!(exit_code(&snap), 0);
}
