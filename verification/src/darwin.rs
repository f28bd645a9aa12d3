//! Pure pieces of the darwin sensor: what it makes of the fixed-size
//! fields libproc fills.
use vstd::prelude::*;
use crate::procfs::first_arg;
use crate::scan::{find_in, lemma_find_from, ByteClass};
use crate::text::{lossy_string, utf8_lossy};
use crate::decode::{reads_v4_slot, slot_from_vflag, AddressSlot};
use crate::pcblist::HostListener;
use crate::proc_addr::spec_encode_hex;
use crate::schema::hex_bytes;

verus! {

/// The text of a fixed-size C string field: the bytes before its first
/// NUL (or all of them), decoded lossily; `None` when that is empty.
pub open spec fn cstr_text(buf: Seq<u8>) -> Option<Seq<char>> {
    if first_arg(buf).len() == 0 {
        None
    } else {
        Some(utf8_lossy(first_arg(buf)))
    }
}

/// Reads a fixed-size C string field, such as `pbi_comm`.
pub fn cstr_field(buf: &[u8]) -> (r: Option<String>)
    ensures
        match cstr_text(buf@) {
            Some(t) => r matches Some(s) && s@ == t,
            None => r is None,
        },
{
    proof { lemma_find_from(buf@, 0, ByteClass::Nul, true); }
    let end = match find_in(buf, 0, ByteClass::Nul, true) {
        Some(j) => j,
        None => buf.len(),
    };
    if end == 0 {
        return None;
    }
    let mut text: Vec<u8> = Vec::new();
    let mut i: usize = 0;
    while i < end
        invariant
            i <= end <= buf@.len(),
            text@ == buf@.take(i as int),
        decreases end - i,
    {
        text.push(buf[i]);
        assert(buf@.take(i + 1) =~= buf@.take(i as int).push(buf@[i as int]));
        i = i + 1;
    }
    Some(lossy_string(text.as_slice()))
}

} // verus!

verus! {

/// libproc's `PROX_FDTYPE_SOCKET`: the descriptor is a socket.
pub const PROX_FDTYPE_SOCKET: u32 = 2;

/// The size of libproc's `struct socket_fdinfo`: a shorter answer is not
/// a socket description.
pub const SOCKET_FDINFO_LEN: i32 = 792;

/// libproc's `SOCKINFO_TCP`: the socket description is a TCP one.
pub const SOCKINFO_TCP: i32 = 2;

/// libproc's `TSI_S_LISTEN`: the TCP socket is listening.
pub const TSI_S_LISTEN: i32 = 1;

/// The port of `insi_lport`, which holds it in network byte order: the
/// low two bytes, read as a big-endian number.
pub open spec fn network_port(lport: i32) -> int {
    let raw = (lport as u16) as int;
    (raw % 256) * 256 + raw / 256
}

/// The bytes of the bind address in `insi_laddr`: the 4-byte slot (its
/// last four bytes) or the whole 16-byte slot, as the address-slot rule
/// picks.
pub open spec fn bind_address(family: i32, vflag: u8, laddr: Seq<u8>) -> Seq<u8> {
    if reads_v4_slot(family, vflag) {
        laddr.subrange(12, 16)
    } else {
        laddr
    }
}

/// What one file descriptor adds to the listeners a process claims: a
/// TCP socket in LISTEN on a non-zero port gives its port and the
/// lowercase hex of its bind address; anything else gives nothing.
pub open spec fn fd_listener_of(
    fd_type: u32,
    info_len: i32,
    kind: i32,
    tcp_state: i32,
    lport: i32,
    family: i32,
    vflag: u8,
    laddr: Seq<u8>,
) -> Option<(u16, Seq<char>)> {
    if fd_type != PROX_FDTYPE_SOCKET || info_len < SOCKET_FDINFO_LEN || kind != SOCKINFO_TCP
        || tcp_state != TSI_S_LISTEN || network_port(lport) == 0 {
        None
    } else {
        Some((network_port(lport) as u16, spec_encode_hex(bind_address(family, vflag, laddr))))
    }
}

/// Reads one file descriptor's libproc description: the listener it is, if
/// it is one. `info_len` is how many bytes `proc_pidfdinfo` filled; the
/// other values are its `soi_kind`, `tcpsi_state`, `insi_lport`,
/// `soi_family`, `insi_vflag` and the 16 bytes of `insi_laddr`.
pub fn fd_listener(
    fd_type: u32,
    info_len: i32,
    kind: i32,
    tcp_state: i32,
    lport: i32,
    family: i32,
    vflag: u8,
    laddr: [u8; 16],
) -> (r: Option<HostListener>)
    ensures
        match fd_listener_of(fd_type, info_len, kind, tcp_state, lport, family, vflag, laddr@) {
            Some((port, address)) => r matches Some(l) && l.0 == port && l.1@ == address,
            None => r is None,
        },
{
    if fd_type != PROX_FDTYPE_SOCKET || info_len < SOCKET_FDINFO_LEN || kind != SOCKINFO_TCP
        || tcp_state != TSI_S_LISTEN {
        return None;
    }
    let raw: u16 = #[verifier::truncate] (lport as u16);
    let port: u16 = (raw % 256) * 256 + raw / 256;
    if port == 0 {
        return None;
    }
    let v4 = match slot_from_vflag(family, vflag) {
        AddressSlot::V4 => true,
        AddressSlot::V6 => false,
    };
    let start: usize = if v4 {
        12
    } else {
        0
    };
    let mut bytes: Vec<u8> = Vec::new();
    let mut i: usize = start;
    while i < 16
        invariant
            start <= i <= 16,
            laddr@.len() == 16,
            bytes@ == laddr@.subrange(start as int, i as int),
        decreases 16 - i,
    {
        bytes.push(laddr[i]);
        assert(laddr@.subrange(start as int, i + 1) =~= laddr@.subrange(start as int, i as int).push(
            laddr@[i as int],
        ));
        i = i + 1;
    }
    proof {
        if !v4 {
            assert(laddr@.subrange(0, 16) =~= laddr@);
        }
    }
    let address = hex_bytes(bytes.as_slice());
    Some((port, address))
}

} // verus!
