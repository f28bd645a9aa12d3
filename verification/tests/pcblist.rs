//! The darwin host-wide listener table: decoding `pcblist_n` buffers and
//! the union with the same-uid fd walk. The buffers are built here in the
//! kernel's framing: an opening header, `xinpcb_n` / `xtcpcb_n` record
//! pairs on 8-byte boundaries, and a closing record.

use osfacts::{attribute_host_listeners, decode_host_listeners, Attribution};

const XSO_INPCB: u32 = 0x010;
const XSO_TCPCB: u32 = 0x020;
const INPCB_LEN: usize = 104;
const TCPCB_LEN: usize = 40;

fn record(kind: u32, len: usize) -> Vec<u8> {
    let mut r = vec![0u8; len];
    r[0..4].copy_from_slice(&(len as u32).to_le_bytes());
    r[4..8].copy_from_slice(&kind.to_le_bytes());
    r
}

/// An address record for a v4 listener and the TCP record that says it
/// listens (`state` 1) or not.
fn listener(port: u16, addr: [u8; 4], state: u32) -> Vec<u8> {
    let mut inp = record(XSO_INPCB, INPCB_LEN);
    inp[18..20].copy_from_slice(&port.to_be_bytes());
    inp[64 + 12..64 + 16].copy_from_slice(&addr);
    let mut tcp = record(XSO_TCPCB, TCPCB_LEN);
    tcp[36..40].copy_from_slice(&state.to_le_bytes());
    inp.extend_from_slice(&tcp);
    inp
}

/// A v6 listener on `addr`.
fn listener_v6(port: u16, addr: [u8; 16]) -> Vec<u8> {
    let mut inp = record(XSO_INPCB, INPCB_LEN);
    inp[18..20].copy_from_slice(&port.to_be_bytes());
    inp[44] = 0x2;
    inp[64..80].copy_from_slice(&addr);
    let mut tcp = record(XSO_TCPCB, TCPCB_LEN);
    tcp[36..40].copy_from_slice(&1u32.to_le_bytes());
    inp.extend_from_slice(&tcp);
    inp
}

/// A whole table: header, body, an optional filler record that brings the
/// buffer to `total` bytes, and the closing record.
fn table(body: &[u8], total: Option<usize>) -> Vec<u8> {
    let mut out = record(0, 24);
    out.extend_from_slice(body);
    if let Some(total) = total {
        let filler = total - out.len() - 24;
        out.extend_from_slice(&record(0x1, filler));
    }
    out.extend_from_slice(&record(0, 24));
    out
}

/// A table of 29 listeners, 54 872 bytes long, none on port 54314.
fn platform() -> Vec<u8> {
    let mut body = Vec::new();
    for i in 0..29u16 {
        body.extend_from_slice(&listener(5000 + i, [127, 0, 0, 1], 1));
    }
    table(&body, Some(54_872))
}

/// The ad-hoc shape: the opening header and the closing record, no socket.
fn adhoc() -> Vec<u8> {
    table(&[], None)
}

#[test]
fn macos_27_platform_pcblist_decodes_every_netstat_listener() {
    let platform = platform();
    let rows = decode_host_listeners(&platform).expect("decode platform-signed capture");

    assert_eq!(platform.len(), 54_872);
    assert_eq!(rows.len(), 29);
    assert!(rows
        .iter()
        .all(|(port, address)| *port != 0 && !address.is_empty()));
}

#[test]
fn macos_27_adhoc_pcblist_is_the_detectable_empty_shape() {
    let adhoc = adhoc();
    let rows = decode_host_listeners(&adhoc).expect("decode ad-hoc capture");

    assert_eq!(adhoc.len(), 48);
    assert!(
        rows.is_empty(),
        "the empty table must reach BLIND_OR_EMPTY detection"
    );
}

#[test]
fn a_truncated_pcblist_record_is_loud_blindness_not_a_short_table() {
    let platform = platform();
    assert_eq!(
        decode_host_listeners(&platform[..20_000]),
        Err(libc::EINVAL)
    );
    assert_eq!(
        decode_host_listeners(&platform[..platform.len() - 1]),
        Err(libc::EINVAL)
    );
}

#[test]
fn a_header_that_overshoots_the_buffer_is_loud_drift_not_an_empty_table() {
    let mut bytes = platform();
    bytes[..4].copy_from_slice(&0xffff_0000u32.to_le_bytes());

    assert_eq!(decode_host_listeners(&bytes), Err(libc::EINVAL));
}

#[test]
fn an_enormous_record_length_is_loud_drift() {
    let platform = platform();
    let header_len = u32::from_le_bytes(platform[..4].try_into().expect("four bytes")) as usize;
    let first = (header_len + 7) & !7;
    let mut bytes = platform.clone();
    bytes[first..first + 4].copy_from_slice(&u32::MAX.to_le_bytes());

    assert_eq!(decode_host_listeners(&bytes), Err(libc::EINVAL));
}

#[test]
fn macos_27_gate_keeps_same_uid_fd_claims() {
    let host_rows = decode_host_listeners(&adhoc()).expect("decode ad-hoc capture");
    let claims = vec![((54314u16, "7f000001".to_owned()), 4242u32)];

    let rows = attribute_host_listeners(host_rows, &claims);

    assert_eq!(rows.len(), 1);
    assert!(matches!(
        rows[0].attribution,
        Attribution::Claimed { pid: 4242 }
    ));
    assert_eq!(rows[0].port, 54314);
    assert_eq!(rows[0].address, "7f000001");
}

#[test]
fn a_partially_gated_host_table_cannot_delete_an_observed_claim() {
    let host_rows = decode_host_listeners(&platform()).expect("decode platform-signed capture");
    let claimed = (54314u16, "7f000001".to_owned());
    assert!(
        !host_rows.contains(&claimed),
        "fixture must not already list it"
    );
    let claims = vec![(claimed, 4242u32)];

    let rows = attribute_host_listeners(host_rows, &claims);

    assert_eq!(rows.len(), 30, "the union keeps every listener");
    let ours = rows
        .iter()
        .find(|row| row.port == 54314 && row.address == "7f000001")
        .expect("the fd walk observed this listener; the union must keep it");
    assert!(matches!(
        ours.attribution,
        Attribution::Claimed { pid: 4242 }
    ));
}

#[test]
fn a_non_listening_socket_is_not_a_listener() {
    let mut body = listener(80, [10, 0, 0, 1], 4);
    body.extend_from_slice(&listener(443, [10, 0, 0, 2], 1));
    let rows = decode_host_listeners(&table(&body, None)).expect("decode");
    assert_eq!(rows, vec![(443, "0a000002".to_owned())]);
}

#[test]
fn a_port_zero_listener_is_dropped() {
    let rows = decode_host_listeners(&table(&listener(0, [127, 0, 0, 1], 1), None)).expect("decode");
    assert!(rows.is_empty());
}

#[test]
fn a_v6_listener_carries_all_sixteen_bytes() {
    let mut addr = [0u8; 16];
    addr[15] = 1;
    let rows = decode_host_listeners(&table(&listener_v6(8080, addr), None)).expect("decode");
    assert_eq!(
        rows,
        vec![(8080, "00000000000000000000000000000001".to_owned())]
    );
}

#[test]
fn a_buffer_too_short_for_a_header_is_an_empty_table() {
    assert_eq!(decode_host_listeners(&[1, 2, 3]), Ok(vec![]));
}

#[test]
fn a_record_shorter_than_the_closing_record_is_drift() {
    let mut bytes = record(0, 24);
    bytes.extend_from_slice(&record(XSO_INPCB, 16));
    bytes.extend_from_slice(&record(0, 24));
    assert_eq!(decode_host_listeners(&bytes), Err(libc::EINVAL));
}

#[test]
fn the_union_is_sorted_and_unclaimed_rows_stay() {
    let rows = vec![(9000u16, "7f000001".to_owned()), (22u16, "00000000".to_owned())];
    let claims = vec![((22u16, "00000000".to_owned()), 1u32)];
    let ports = attribute_host_listeners(rows, &claims);
    assert_eq!(ports.len(), 2);
    assert_eq!(ports[0].port, 22);
    assert_eq!(ports[0].attribution, Attribution::Claimed { pid: 1 });
    assert_eq!(ports[1].port, 9000);
    assert_eq!(ports[1].attribution, Attribution::Unclaimed);
    assert!(ports.iter().all(|p| p.uid.is_none()));
}

#[test]
fn each_claimed_listener_keeps_its_own_pid() {
    let rows = vec![(80u16, "00000000".to_owned())];
    let claims = vec![
        ((443u16, "7f000001".to_owned()), 7u32),
        ((80u16, "00000000".to_owned()), 9u32),
    ];
    let ports = attribute_host_listeners(rows, &claims);
    assert_eq!(ports.len(), 2);
    assert_eq!((ports[0].port, ports[0].attribution), (80, Attribution::Claimed { pid: 9 }));
    assert_eq!((ports[1].port, ports[1].attribution), (443, Attribution::Claimed { pid: 7 }));
}
