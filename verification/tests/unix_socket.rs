//! The unix socket name decoders: the `/proc/net/unix` row rules and the
//! darwin `sockaddr_un` slot rules.

use osfacts::unix_socket::{
    darwin_sockaddr_un_path, unix_socket_inodes, AF_UNIX_FAMILY, DARWIN_SUN_PATH_LEN,
};

/// A `SOCK_MAXADDRLEN` slot carrying `family` and `path`, as the kernel
/// fills one.
fn slot(family: u8, path: &[u8]) -> [u8; 255] {
    let mut out = [0u8; 255];
    out[0] = (2 + path.len() + 1) as u8; // sun_len, which we never read
    out[1] = family;
    out[2..2 + path.len()].copy_from_slice(path);
    out
}

#[test]
fn a_bound_slot_yields_its_path() {
    assert_eq!(
        darwin_sockaddr_un_path(&slot(AF_UNIX_FAMILY, b"/run/user/501/kaval.sock")),
        Some(&b"/run/user/501/kaval.sock"[..])
    );
}

/// The union's other arms are addresses, not names. Reading `sun_path`
/// off an AF_INET record would report raw address bytes as a socket path.
#[test]
fn a_slot_of_another_family_names_nothing() {
    assert_eq!(darwin_sockaddr_un_path(&slot(2 /* AF_INET */, b"/not/a/path")), None);
}

/// An unnamed socket is an absence, not a holder of the empty path.
#[test]
fn an_empty_path_is_an_absence() {
    assert_eq!(darwin_sockaddr_un_path(&slot(AF_UNIX_FAMILY, b"")), None);
}

/// A path that fills `sun_path` exactly has no NUL to stop at.
#[test]
fn a_path_that_fills_the_field_is_read_whole() {
    let full = vec![b'x'; DARWIN_SUN_PATH_LEN];

    assert_eq!(
        darwin_sockaddr_un_path(&slot(AF_UNIX_FAMILY, &full)),
        Some(&full[..])
    );
}

/// A short buffer is not a short path — refusing it is what keeps the
/// decoder from reading past a record the kernel truncated.
#[test]
fn a_slot_too_short_to_hold_sun_path_is_refused() {
    let short = slot(AF_UNIX_FAMILY, b"/run/a.sock");

    assert_eq!(darwin_sockaddr_un_path(&short[..2 + DARWIN_SUN_PATH_LEN - 1]), None);
}

/// The real column layout, as the kernel prints it.
const TABLE: &[u8] = b"\
Num       RefCount Protocol Flags    Type St Inode Path
ffff9a0000000000: 00000002 00000000 00010000 0001 01 41231 /run/user/1000/padi.sock
ffff9a0000000001: 00000003 00000000 00000000 0001 03 41232
ffff9a0000000002: 00000002 00000000 00010000 0001 01 41233 /tmp/my state/pty-host.sock
ffff9a0000000003: 00000002 00000000 00010000 0001 01 41234 /tmp/trailing\x20
ffff9a0000000004: 00000002 00000000 00010000 0001 01 41235  /tmp/leading
ffff9a0000000005: 00000002 00000000 00010000 0001 01 41236 /tmp/carriage\r\n";

/// A body with the kernel's header, for a case that needs its own rows.
fn table(body: &str) -> Vec<u8> {
    let mut out = Vec::from(&b"Num       RefCount Protocol Flags    Type St Inode Path\n"[..]);
    out.extend_from_slice(body.as_bytes());
    out
}

#[test]
fn a_bound_path_resolves_to_its_inode() {
    assert_eq!(
        unix_socket_inodes(TABLE, b"/run/user/1000/padi.sock").expect("a real table"),
        vec![41231]
    );
}

/// The defect a `split_whitespace().nth(7)` ships: the path is truncated
/// at its first space, so the socket looks unbound and a supervisor spawns
/// a second daemon onto a live rendezvous.
#[test]
fn a_path_containing_a_space_is_matched_whole() {
    assert_eq!(
        unix_socket_inodes(TABLE, b"/tmp/my state/pty-host.sock").expect("a real table"),
        vec![41233]
    );
    assert!(unix_socket_inodes(TABLE, b"/tmp/my").expect("a real table").is_empty());
}

/// The mirror defect a `trim()` ships. A trailing space is part of the
/// name the kernel bound.
#[test]
fn a_path_ending_in_a_space_keeps_it() {
    assert_eq!(unix_socket_inodes(TABLE, b"/tmp/trailing ").expect("a real table"), vec![41234]);
    assert!(unix_socket_inodes(TABLE, b"/tmp/trailing").expect("a real table").is_empty());
}

/// The byte after the inode column ENDS that column; every byte after it is
/// the name. Skipping a whitespace RUN there ate the leading space of a
/// path that begins with one — and a socket whose name starts with a space
/// then read as unheld, which is the affirmative answer manufactured out of
#[test]
fn a_path_beginning_with_a_space_keeps_it() {
    assert_eq!(
        unix_socket_inodes(TABLE, b" /tmp/leading").expect("a real table"),
        vec![41235]
    );
    assert!(unix_socket_inodes(TABLE, b"/tmp/leading")
        .expect("a real table")
        .is_empty());
}

/// The mirror rule at the other end. `/proc/net/unix` is LF-framed, so a
/// trailing `\r` is a byte of the name, not framing to strip.
#[test]
fn a_path_ending_in_a_carriage_return_keeps_it() {
    assert_eq!(
        unix_socket_inodes(TABLE, b"/tmp/carriage\r").expect("a real table"),
        vec![41236]
    );
    assert!(unix_socket_inodes(TABLE, b"/tmp/carriage")
        .expect("a real table")
        .is_empty());
}

/// "No row matched a real table" is proof of absence; "this is not a table"
/// is blindness. A decoder that returned an empty vec for both would hand
/// linux the dangerous one — an empty read or a drifted kernel format would
/// become the affirmative *nobody holds it*.
#[test]
fn a_document_that_is_not_the_table_is_refused_not_read_as_empty() {
    for not_a_table in [
        &b""[..],
        b"\n",
        b"garbage\n",
        b"Num RefCount Protocol\n",
        // A counterfeit: it MENTIONS the token a substring check looks
        // for, so it would pass one and hand back absence.
        b"garbage Inode garbage\n",
        // The real columns, out of order.
        b"Num RefCount Protocol Flags Type St Path Inode\n",
        // The real columns plus one the kernel does not print.
        b"Num RefCount Protocol Flags Type St Inode Path Extra\n",
    ] {
        assert!(
            unix_socket_inodes(not_a_table, b"/run/a.sock").is_err(),
            "{not_a_table:?} must not read as a table with no matching row"
        );
    }
    // And the real thing, with no matching row, IS absence.
    assert_eq!(
        unix_socket_inodes(TABLE, b"/run/nobody.sock").expect("a real table"),
        Vec::<u64>::new()
    );
}

#[test]
fn a_row_with_no_path_and_the_header_are_skipped() {
    // Every inode this table discloses belongs to a row WITH a path, so no
    // query can ever resolve to the path-less peer's 41232.
    for path in ["", "Path", "41232"] {
        assert!(
            unix_socket_inodes(TABLE, path.as_bytes()).expect("a real table").is_empty(),
            "{path:?} must not match a row"
        );
    }
}

/// Inode 0 is the table's "not disclosed" marker. Matching it would
/// attribute every fd whose inode we equally cannot read.
#[test]
fn an_undisclosed_inode_is_not_a_socket_identity() {
    let body = table("ffff: 00000002 00000000 00010000 0001 01 0 /run/gated.sock\n");

    assert!(unix_socket_inodes(&body, b"/run/gated.sock")
        .expect("a real table")
        .is_empty());
}

/// The host-wide table names sockets this binary did not create, so one
/// process binding a non-UTF-8 name must not cost every OTHER row. A
/// whole-file `String` decode is what made that possible: any unprivileged
/// process could blind the verb for the entire host by binding one bad byte.
#[test]
fn a_non_utf8_row_costs_only_itself() {
    let mut body = table("ffff: 00000002 00000000 00010000 0001 01 10 /run/");
    body.push(0xff); // a byte no UTF-8 decode accepts
    body.extend_from_slice(b".sock\n");
    body.extend_from_slice(b"ffff: 00000002 00000000 00010000 0001 01 11 /run/kaval.sock\n");

    assert_eq!(
        unix_socket_inodes(&body, b"/run/kaval.sock").expect("a real table"),
        vec![11]
    );
    // And the bad row is still matchable, by the bytes it really carries.
    assert_eq!(
        unix_socket_inodes(&body, b"/run/\xff.sock").expect("a real table"),
        vec![10],
        "the row's own bytes must still resolve"
    );
}

/// `SO_REUSEPORT`-style duplication and a moving row can both put the same
/// path on several inodes; each is a distinct socket to attribute, but one
/// inode listed twice is one socket.
#[test]
fn one_path_can_carry_several_distinct_inodes_but_no_repeats() {
    let body = table(
        "ffff: 00000002 00000000 00010000 0001 01 10 /run/a.sock\n\
ffff: 00000002 00000000 00010000 0001 01 11 /run/a.sock\n\
ffff: 00000002 00000000 00010000 0001 01 10 /run/a.sock\n",
    );

    assert_eq!(
        unix_socket_inodes(&body, b"/run/a.sock").expect("a real table"),
        vec![10, 11]
    );
}

