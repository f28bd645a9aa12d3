//! Address codecs, no OS and no I/O.
//!
//! Two hex dialects exist because two kernels print different things:
//! network hex (one byte, two digits, left to right) and `/proc` hex, where
//! each 32-bit word is printed in host order.
use vstd::prelude::*;
use vstd::string::StringSliceAdditionalSpecFns;
use crate::text::{
    hex_digit_value, hex_value, is_hex_digit, is_lower_hex_digit, lemma_hex_value_range,
    lemma_lower_digit_roundtrip, lemma_lower_hex_char, lower_hex_char, nibble_char, pair_value,
    push_char,
};

verus! {

/// Network-order bytes as lowercase hex: two digits per byte, in order.
pub open spec fn spec_encode_hex(bytes: Seq<u8>) -> Seq<char> {
    Seq::new(2 * bytes.len(), |i: int| lower_hex_char(
        if i % 2 == 0 { bytes[i / 2] as int / 16 } else { bytes[i / 2] as int % 16 }
    ))
}

/// The text is a v4 or v6 address in hex: 8 or 32 hex digits.
pub open spec fn is_address_hex(hex: Seq<char>) -> bool {
    &&& (hex.len() == 8 || hex.len() == 32)
    &&& forall|i: int| 0 <= i < hex.len() ==> is_hex_digit(#[trigger] hex[i])
}

/// Network hex back to bytes: byte `i` is spelled by digits `2i` and `2i+1`.
pub open spec fn spec_decode_network_hex(hex: Seq<char>) -> Result<Seq<u8>, ()> {
    if is_address_hex(hex) {
        Ok(Seq::new(hex.len() / 2, |i: int| pair_value(hex[2 * i], hex[2 * i + 1])))
    } else {
        Err(())
    }
}

/// Where byte `i` of an address sits in `/proc` hex: each 4-byte word is
/// printed least significant byte last, so the bytes of a word appear in
/// reverse.
pub open spec fn proc_pair_start(i: int) -> int {
    8 * (i / 4) + 2 * (3 - i % 4)
}

/// `/proc/net/tcp{,6}` address hex to network-order bytes.
pub open spec fn spec_decode_proc_hex(hex: Seq<char>) -> Result<Seq<u8>, ()> {
    if is_address_hex(hex) {
        Ok(Seq::new(hex.len() / 2, |i: int| pair_value(
            hex[proc_pair_start(i)], hex[proc_pair_start(i) + 1])))
    } else {
        Err(())
    }
}

/// Network-order bytes to `/proc` hex, for 4- and 16-byte addresses.
pub open spec fn spec_encode_proc_hex(bytes: Seq<u8>) -> Result<Seq<char>, ()> {
    if bytes.len() == 4 || bytes.len() == 16 {
        Ok(Seq::new(2 * bytes.len(), |k: int| lower_hex_char(
            if k % 2 == 0 {
                bytes[4 * (k / 8) + 3 - (k % 8) / 2] as int / 16
            } else {
                bytes[4 * (k / 8) + 3 - (k % 8) / 2] as int % 16
            }
        )))
    } else {
        Err(())
    }
}

/// Network-order bytes to lowercase hex (the L-row form).
pub fn encode_hex(bytes: &[u8]) -> (s: String)
    ensures
        s@ == spec_encode_hex(bytes@),
{
    let mut s = String::new();
    let mut i: usize = 0;
    while i < bytes.len()
        invariant
            i <= bytes@.len(),
            s@ =~= spec_encode_hex(bytes@.take(i as int)),
        decreases bytes@.len() - i,
    {
        let b = bytes[i];
        let ghost before = s@;
        push_char(&mut s, nibble_char(b / 16));
        push_char(&mut s, nibble_char(b % 16));
        proof {
            let t = bytes@.take(i + 1);
            assert forall|k: int| 0 <= k < 2 * t.len() implies s@[k] == spec_encode_hex(t)[k] by {
                if k < 2 * i {
                    assert(t[k / 2] == bytes@.take(i as int)[k / 2]);
                }
            }
        }
        i = i + 1;
    }
    proof {
        assert(bytes@.take(bytes@.len() as int) =~= bytes@);
    }
    s
}

/// The bytes of an all-ASCII string are its characters.
proof fn lemma_ascii_bytes(hex: &str)
    requires
        vstd::string::is_ascii(hex),
    ensures
        hex.spec_bytes() =~= Seq::new(hex@.len(), |i: int| hex@[i] as u8),
        hex.spec_bytes().len() == hex@.len(),
{
    vstd::string::is_ascii_spec_bytes(hex);
}

/// Checks the address shape over the bytes of an ASCII string.
fn check_address_hex(hex: &str) -> (ok: bool)
    ensures
        ok == is_address_hex(hex@),
        ok ==> hex.spec_bytes() =~= Seq::new(hex@.len(), |i: int| hex@[i] as u8),
{
    if !hex.is_ascii() {
        proof {
            // a non-ASCII character is never a hex digit
            let j = choose|j: int| 0 <= j < hex@.len() && !('\0' <= #[trigger] hex@[j] <= '\u{7f}');
            assert(!is_hex_digit(hex@[j]));
        }
        return false;
    }
    proof { lemma_ascii_bytes(hex); }
    let raw = hex.as_bytes();
    if raw.len() != 8 && raw.len() != 32 {
        return false;
    }
    let mut i: usize = 0;
    while i < raw.len()
        invariant
            i <= raw@.len(),
            raw@ == hex.spec_bytes(),
            hex.spec_bytes() =~= Seq::new(hex@.len(), |j: int| hex@[j] as u8),
            raw@.len() == hex@.len(),
            vstd::string::is_ascii(hex),
            forall|j: int| 0 <= j < i ==> is_hex_digit(#[trigger] hex@[j]),
        decreases raw@.len() - i,
    {
        proof {
            assert(raw@[i as int] == hex@[i as int] as u8);
            assert('\0' <= hex@[i as int] <= '\u{7f}');
            assert((hex@[i as int] as u8) as char == hex@[i as int]);
        }
        if hex_digit_value(raw[i]).is_none() {
            assert(!is_hex_digit(hex@[i as int]));
            return false;
        }
        i = i + 1;
    }
    true
}

/// Network hex back to bytes. Accepts only 8 or 32 hex digits (v4 / v6).
pub fn decode_network_hex(hex: &str) -> (r: Result<Vec<u8>, ()>)
    ensures
        r matches Ok(v) ==> spec_decode_network_hex(hex@) == Ok::<Seq<u8>, ()>(v@),
        r is Err <==> spec_decode_network_hex(hex@) is Err,
{
    if !check_address_hex(hex) {
        return Err(());
    }
    let raw = hex.as_bytes();
    let mut bytes: Vec<u8> = Vec::new();
    let mut i: usize = 0;
    while i < raw.len() / 2
        invariant
            raw@ =~= Seq::new(hex@.len(), |j: int| hex@[j] as u8),
            is_address_hex(hex@),
            i <= raw@.len() / 2,
            bytes@.len() == i,
            forall|j: int| 0 <= j < i ==> #[trigger] bytes@[j] == pair_value(hex@[2 * j], hex@[2 * j + 1]),
        decreases raw@.len() / 2 - i,
    {
        let hi = hex_digit_value(raw[2 * i]);
        let lo = hex_digit_value(raw[2 * i + 1]);
        proof {
            assert(is_hex_digit(hex@[2 * i as int]));
            assert(is_hex_digit(hex@[2 * i + 1]));
        }
        let (h, l) = match (hi, lo) {
            (Some(h), Some(l)) => (h, l),
            _ => { return Err(()); }
        };
        bytes.push(h * 16 + l);
        i = i + 1;
    }
    proof {
        assert(bytes@ =~= Seq::new(hex@.len() / 2, |j: int| pair_value(hex@[2 * j], hex@[2 * j + 1])));
    }
    Ok(bytes)
}

/// `/proc/net/tcp{,6}` local_address hex to network-order bytes.
///
/// The kernel prints each 32-bit word in host order; this reverses per word.
pub fn decode_proc_hex(hex: &str) -> (r: Result<Vec<u8>, ()>)
    ensures
        r matches Ok(v) ==> spec_decode_proc_hex(hex@) == Ok::<Seq<u8>, ()>(v@),
        r is Err <==> spec_decode_proc_hex(hex@) is Err,
{
    if !check_address_hex(hex) {
        return Err(());
    }
    let raw = hex.as_bytes();
    let mut bytes: Vec<u8> = Vec::new();
    let mut i: usize = 0;
    while i < raw.len() / 2
        invariant
            raw@ =~= Seq::new(hex@.len(), |j: int| hex@[j] as u8),
            is_address_hex(hex@),
            i <= raw@.len() / 2,
            bytes@.len() == i,
            forall|j: int| 0 <= j < i ==> #[trigger] bytes@[j] == pair_value(
                hex@[proc_pair_start(j)], hex@[proc_pair_start(j) + 1]),
        decreases raw@.len() / 2 - i,
    {
        let start = 8 * (i / 4) + 2 * (3 - i % 4);
        assert(start == proc_pair_start(i as int));
        assert(start + 1 < raw@.len());
        let hi = hex_digit_value(raw[start]);
        let lo = hex_digit_value(raw[start + 1]);
        proof {
            assert(is_hex_digit(hex@[start as int]));
            assert(is_hex_digit(hex@[start + 1]));
        }
        let (h, l) = match (hi, lo) {
            (Some(h), Some(l)) => (h, l),
            _ => { return Err(()); }
        };
        bytes.push(h * 16 + l);
        i = i + 1;
    }
    proof {
        assert(bytes@ =~= Seq::new(hex@.len() / 2, |j: int| pair_value(
            hex@[proc_pair_start(j)], hex@[proc_pair_start(j) + 1])));
    }
    Ok(bytes)
}

/// Host-order `/proc` hex for network-order bytes: the inverse of
/// [`decode_proc_hex`]. Only 4- and 16-byte addresses are encodable.
pub fn encode_proc_hex(bytes: &[u8]) -> (r: Result<String, ()>)
    ensures
        r matches Ok(s) ==> spec_encode_proc_hex(bytes@) == Ok::<Seq<char>, ()>(s@),
        r is Err <==> spec_encode_proc_hex(bytes@) is Err,
{
    if bytes.len() != 4 && bytes.len() != 16 {
        return Err(());
    }
    let ghost want = spec_encode_proc_hex(bytes@)->Ok_0;
    let mut s = String::new();
    let mut k: usize = 0;
    while k < 2 * bytes.len()
        invariant
            bytes@.len() == 4 || bytes@.len() == 16,
            want == spec_encode_proc_hex(bytes@)->Ok_0,
            want.len() == 2 * bytes@.len(),
            k <= 2 * bytes@.len(),
            k % 2 == 0,
            s@ =~= want.take(k as int),
        decreases 2 * bytes@.len() - k,
    {
        let b = bytes[4 * (k / 8) + 3 - (k % 8) / 2];
        push_char(&mut s, nibble_char(b / 16));
        push_char(&mut s, nibble_char(b % 16));
        proof {
            assert((k + 1) / 8 == k / 8 && ((k + 1) % 8) / 2 == (k % 8) / 2);
            assert(s@ =~= want.take(k + 2));
        }
        k = k + 2;
    }
    assert(want.take(want.len() as int) =~= want);
    Ok(s)
}

/// Network hex undoes network encoding: every 4- or 16-byte address
/// encodes to hex that decodes back to the same bytes.
pub proof fn network_hex_roundtrip(bytes: Seq<u8>)
    requires
        bytes.len() == 4 || bytes.len() == 16,
    ensures
        spec_decode_network_hex(spec_encode_hex(bytes)) == Ok::<Seq<u8>, ()>(bytes),
{
    let hex = spec_encode_hex(bytes);
    assert forall|i: int| 0 <= i < hex.len() implies is_hex_digit(#[trigger] hex[i]) by {
        lemma_lower_hex_char(if i % 2 == 0 { bytes[i / 2] as int / 16 } else { bytes[i / 2] as int % 16 });
    }
    let back = Seq::new(hex.len() / 2, |i: int| pair_value(hex[2 * i], hex[2 * i + 1]));
    assert forall|i: int| 0 <= i < bytes.len() implies back[i] == bytes[i] by {
        lemma_lower_hex_char(bytes[i] as int / 16);
        lemma_lower_hex_char(bytes[i] as int % 16);
        assert((2 * i) / 2 == i && (2 * i + 1) / 2 == i);
        assert((2 * i) % 2 == 0 && (2 * i + 1) % 2 == 1);
    }
    assert(back =~= bytes);
}

/// `/proc` hex undoes `/proc` encoding: every 4- or 16-byte address encodes
/// to word-swapped hex that decodes back to the same bytes.
pub proof fn proc_hex_roundtrip(bytes: Seq<u8>)
    requires
        bytes.len() == 4 || bytes.len() == 16,
    ensures
        spec_encode_proc_hex(bytes) matches Ok(hex) && spec_decode_proc_hex(hex)
            == Ok::<Seq<u8>, ()>(bytes),
{
    let hex = spec_encode_proc_hex(bytes)->Ok_0;
    assert forall|k: int| 0 <= k < hex.len() implies is_hex_digit(#[trigger] hex[k]) by {
        let b = bytes[4 * (k / 8) + 3 - (k % 8) / 2] as int;
        lemma_lower_hex_char(if k % 2 == 0 { b / 16 } else { b % 16 });
    }
    let back = Seq::new(hex.len() / 2, |i: int| pair_value(
        hex[proc_pair_start(i)], hex[proc_pair_start(i) + 1]));
    assert forall|i: int| 0 <= i < bytes.len() implies back[i] == bytes[i] by {
        let p = proc_pair_start(i);
        assert(p % 2 == 0 && (p + 1) % 2 == 1);
        assert(4 * (p / 8) + 3 - (p % 8) / 2 == i);
        assert(4 * ((p + 1) / 8) + 3 - ((p + 1) % 8) / 2 == i);
        lemma_lower_hex_char(bytes[i] as int / 16);
        lemma_lower_hex_char(bytes[i] as int % 16);
    }
    assert(back =~= bytes);
}

/// Decoding then re-encoding network hex gives back the text, lowercased:
/// for text already in lowercase, exactly the text.
pub proof fn network_hex_lowercase_fixpoint(hex: Seq<char>)
    requires
        is_address_hex(hex),
        forall|i: int| 0 <= i < hex.len() ==> is_lower_hex_digit(#[trigger] hex[i]),
    ensures
        spec_decode_network_hex(hex) matches Ok(bytes) && spec_encode_hex(bytes) == hex,
{
    let bytes = spec_decode_network_hex(hex)->Ok_0;
    let again = spec_encode_hex(bytes);
    assert forall|k: int| 0 <= k < hex.len() implies again[k] == hex[k] by {
        let j = k / 2;
        let hi = hex[2 * j];
        let lo = hex[2 * j + 1];
        lemma_hex_value_range(hi);
        lemma_hex_value_range(lo);
        lemma_lower_digit_roundtrip(hi);
        lemma_lower_digit_roundtrip(lo);
        assert(pair_value(hi, lo) as int == hex_value(hi) * 16 + hex_value(lo));
        assert(bytes[j] as int / 16 == hex_value(hi));
        assert(bytes[j] as int % 16 == hex_value(lo));
    }
    assert(again =~= hex);
}

} // verus!
