//! Darwin `insi_vflag` address-slot decision.
//!
//! `soi_family` does not say which slot of `insi_laddr` holds the address;
//! `insi_vflag` does, and the IPv6 flag is tested first because a dual-stack
//! socket sets both flags.
use vstd::prelude::*;

verus! {

/// Darwin `AF_INET`.
pub const AF_INET: i32 = 2;

/// Darwin `AF_INET6` (30 on macOS, not the linux 10).
pub const AF_INET6: i32 = 30;

/// `INI_IPV4` from `<netinet/in_pcb.h>`.
pub const INI_IPV4: u8 = 0x1;

/// `INI_IPV6` from `<netinet/in_pcb.h>`.
pub const INI_IPV6: u8 = 0x2;

/// Which slot of `insi_laddr` holds the bind address.
#[derive(Debug, Clone, Copy, PartialEq, Eq, Structural)]
pub enum AddressSlot {
    /// The 4-byte slot (AF_INET or v4-mapped).
    V4,
    /// The 16-byte slot (genuine v6, including dual-stack `::`).
    V6,
}

/// True when the socket's address lives in the 4-byte slot: an AF_INET
/// socket always, otherwise only when the v4 flag is set and the v6 flag is
/// not (a dual-stack socket sets both and belongs to the v6 slot).
pub open spec fn reads_v4_slot(family: i32, vflag: u8) -> bool {
    family == AF_INET || (vflag & INI_IPV6 == 0 && vflag & INI_IPV4 != 0)
}

/// Decide the address slot from `soi_family` and `insi_vflag`.
pub fn slot_from_vflag(family: i32, vflag: u8) -> (slot: AddressSlot)
    ensures
        slot == AddressSlot::V4 <==> reads_v4_slot(family, vflag),
{
    if family == AF_INET {
        AddressSlot::V4
    } else if vflag & INI_IPV6 != 0 {
        AddressSlot::V6
    } else if vflag & INI_IPV4 != 0 {
        AddressSlot::V4
    } else {
        AddressSlot::V6
    }
}

} // verus!
