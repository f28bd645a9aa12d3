//! Address decode: the darwin slot decision and the two hex dialects.

use osfacts::{
    decode_network_hex, decode_proc_hex, encode_hex, encode_proc_hex, slot_from_vflag,
    AddressSlot, AF_INET, AF_INET6, INI_IPV4, INI_IPV6,
};

#[test]
fn dual_stack_both_flags_is_v6_slot() {
    // vflag = 0x03 must NOT collapse to the v4 wildcard.
    assert_eq!(
        slot_from_vflag(AF_INET6, INI_IPV4 | INI_IPV6),
        AddressSlot::V6
    );
}

#[test]
fn v4_mapped_flag_is_v4_slot() {
    assert_eq!(slot_from_vflag(AF_INET6, INI_IPV4), AddressSlot::V4);
}

#[test]
fn af_inet_always_v4_slot() {
    assert_eq!(slot_from_vflag(AF_INET, 0), AddressSlot::V4);
    assert_eq!(
        slot_from_vflag(AF_INET, INI_IPV4 | INI_IPV6),
        AddressSlot::V4
    );
}

fn sample_bytes(len: usize, seed: u8) -> Vec<u8> {
    (0..len).map(|i| (i as u8).wrapping_mul(37).wrapping_add(seed)).collect()
}

#[test]
fn network_hex_roundtrip() {
    for seed in [0u8, 1, 0x7f, 0x80, 0xff] {
        let bytes = sample_bytes(4, seed);
        let hex = encode_hex(&bytes);
        assert_eq!(decode_network_hex(&hex), Ok(bytes));
    }
}

#[test]
fn network_hex_roundtrip_v6() {
    for seed in [0u8, 3, 0x55, 0xaa, 0xfe] {
        let bytes = sample_bytes(16, seed);
        let hex = encode_hex(&bytes);
        assert_eq!(decode_network_hex(&hex), Ok(bytes));
    }
}

#[test]
fn proc_hex_roundtrip_v4() {
    for seed in [0u8, 9, 0x42, 0xc0, 0xff] {
        let bytes = sample_bytes(4, seed);
        let hex = encode_proc_hex(&bytes).expect("encode");
        assert_eq!(decode_proc_hex(&hex), Ok(bytes));
    }
}

#[test]
fn proc_hex_roundtrip_v6() {
    for seed in [0u8, 7, 0x31, 0x99, 0xee] {
        let bytes = sample_bytes(16, seed);
        let hex = encode_proc_hex(&bytes).expect("encode");
        assert_eq!(decode_proc_hex(&hex), Ok(bytes));
    }
}

#[test]
fn encode_hex_is_lowercase_two_digits_per_byte() {
    assert_eq!(encode_hex(&[0x7f, 0x00, 0x00, 0x01]), "7f000001");
    assert_eq!(encode_hex(&[0xab, 0xcd]), "abcd");
    assert_eq!(encode_hex(&[]), "");
}

#[test]
fn proc_hex_swaps_each_word() {
    // 127.0.0.1 as /proc/net/tcp prints it on a little-endian host.
    assert_eq!(decode_proc_hex("0100007F"), Ok(vec![127, 0, 0, 1]));
    assert_eq!(encode_proc_hex(&[127, 0, 0, 1]), Ok("0100007f".to_owned()));
    // ::1 in /proc/net/tcp6.
    assert_eq!(
        decode_proc_hex("00000000000000000000000001000000"),
        Ok(vec![0, 0, 0, 0, 0, 0, 0, 0, 0, 0, 0, 0, 0, 0, 0, 1])
    );
}

#[test]
fn hex_decoders_refuse_bad_shapes() {
    assert_eq!(decode_network_hex("7f00001"), Err(()));
    assert_eq!(decode_network_hex("7f00000g"), Err(()));
    assert_eq!(decode_network_hex("7f0000é1"), Err(()));
    assert_eq!(decode_proc_hex(""), Err(()));
    assert_eq!(decode_proc_hex("0100007F00"), Err(()));
    assert_eq!(encode_proc_hex(&[1, 2, 3]), Err(()));
    assert_eq!(decode_network_hex("7F000001"), Ok(vec![127, 0, 0, 1]));
}
