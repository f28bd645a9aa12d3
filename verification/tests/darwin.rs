//! The fixed-size fields the darwin process table and descriptor
//! descriptions fill.

use osfacts::darwin::{cstr_field, fd_listener};
use osfacts::{AF_INET, AF_INET6, INI_IPV4, INI_IPV6};

#[test]
fn a_c_string_field_is_read_up_to_its_first_nul() {
    assert_eq!(cstr_field(b"launchd\0\0\0junk"), Some("launchd".to_owned()));
    assert_eq!(cstr_field(b"full"), Some("full".to_owned()));
    assert_eq!(cstr_field(b"\0name"), None);
    assert_eq!(cstr_field(b""), None);
    assert_eq!(cstr_field(b"a\xffb\0"), Some("a\u{fffd}b".to_owned()));
}

fn v4_loopback() -> [u8; 16] {
    let mut a = [0u8; 16];
    a[12..16].copy_from_slice(&[127, 0, 0, 1]);
    a
}

#[test]
fn a_listening_tcp_descriptor_is_a_listener() {
    // Port 8080 in network order, read as a little-endian word.
    let lport = 0x901f;
    assert_eq!(
        fd_listener(2, 792, 2, 1, lport, AF_INET, INI_IPV4, v4_loopback()),
        Some((8080, "7f000001".to_owned()))
    );
    let any6 = [0u8; 16];
    assert_eq!(
        fd_listener(2, 792, 2, 1, lport, AF_INET6, INI_IPV4 | INI_IPV6, any6),
        Some((8080, "0".repeat(32)))
    );
    assert_eq!(
        fd_listener(2, 792, 2, 1, lport, AF_INET6, INI_IPV4, v4_loopback()),
        Some((8080, "7f000001".to_owned()))
    );
}

#[test]
fn other_descriptors_are_not_listeners() {
    let a = v4_loopback();
    assert_eq!(fd_listener(1, 792, 2, 1, 0x901f, AF_INET, INI_IPV4, a), None);
    assert_eq!(fd_listener(2, 791, 2, 1, 0x901f, AF_INET, INI_IPV4, a), None);
    assert_eq!(fd_listener(2, 792, 1, 1, 0x901f, AF_INET, INI_IPV4, a), None);
    assert_eq!(fd_listener(2, 792, 2, 4, 0x901f, AF_INET, INI_IPV4, a), None);
    assert_eq!(fd_listener(2, 792, 2, 1, 0x10000, AF_INET, INI_IPV4, a), None);
}
