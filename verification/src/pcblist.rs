//! The darwin host-wide listener table: pure decode and pure merge.
//!
//! `net.inet.tcp.pcblist_n` is read by the darwin sensor, but interpreting
//! its bytes touches no OS, so it lives here and runs on every platform.
//! The table is produced by the darwin kernel, and every machine darwin
//! runs on is little-endian, so its words are read little-endian here on
//! every host.
use vstd::prelude::*;
use crate::errno::{errno_code, platform_errno, Errno};
use crate::order::{
    bytes_lex_le, lemma_lex_total, lemma_lex_transitive, lemma_stable_sorted, lex_le, sort_rows,
    stable_sorted, RowOrder,
};
use crate::proc_addr::{encode_hex, spec_encode_hex};
use crate::schema::{Attribution, Port};
use vstd::utf8::encode_utf8;

verus! {

/// `XSO_INPCB`: the record kind carrying a socket's local address.
pub const XSO_INPCB: u32 = 0x010;
/// `XSO_TCPCB`: the record kind carrying a TCP socket's state.
pub const XSO_TCPCB: u32 = 0x020;
/// `INP_IPV6` in `xinpcb_n`'s vflag.
pub const INP_IPV6: u8 = 0x2;
/// The TCP state a listening socket reports.
pub const TCP_STATE_LISTEN: u32 = 1;
/// `xinpcb_n` offsets (Apple declares the record under `#pragma pack(4)`).
pub const XINPCB_LPORT_OFFSET: usize = 18;
pub const XINPCB_VFLAG_OFFSET: usize = 44;
pub const XINPCB_LADDR_OFFSET: usize = 64;
/// `xtcpcb_n` offset of the state word.
pub const XTCPCB_STATE_OFFSET: usize = 36;
/// The size of the closing record that ends every table; anything shorter
/// is malformed, not a terminator.
pub const CLOSING_RECORD_LEN: usize = 24;

/// One listener as the host-wide table reports it: a port and a hex bind
/// address. The table carries no uid.
pub type HostListener = (u16, String);

/// A listener by value: port and address text.
pub open spec fn listener_view(r: HostListener) -> (u16, Seq<char>) {
    (r.0, r.1@)
}

/// A pending listener by value.
pub open spec fn pending_view(p: Option<HostListener>) -> Option<(u16, Seq<char>)> {
    match p {
        Some(r) => Some(listener_view(r)),
        None => None,
    }
}

/// The little-endian 32-bit word at `o`.
pub open spec fn le_u32(b: Seq<u8>, o: int) -> int {
    b[o] as int + 256 * b[o + 1] as int + 65536 * b[o + 2] as int + 16777216 * b[o + 3] as int
}

/// `v` rounded up to the next multiple of 8, when that fits in a `usize`.
pub open spec fn spec_round_up_8(v: int) -> Option<int> {
    if v + 7 <= usize::MAX {
        Some((v + 7) - (v + 7) % 8)
    } else {
        None
    }
}

pub proof fn lemma_round_up_8(v: int)
    ensures
        spec_round_up_8(v) matches Some(n) ==> v <= n <= v + 7 && n % 8 == 0,
{
}

/// The listener an `xinpcb_n` record at `o` describes: the big-endian
/// local port, and the local address in hex — all 16 bytes for a v6
/// socket, the last 4 otherwise.
pub open spec fn inpcb_listener(b: Seq<u8>, o: int) -> (u16, Seq<char>) {
    let port = (b[o + 18] as int * 256 + b[o + 19] as int) as u16;
    let local = b.subrange(o + 64, o + 80);
    if b[o + 44] & INP_IPV6 != 0 {
        (port, spec_encode_hex(local))
    } else {
        (port, spec_encode_hex(local.subrange(12, 16)))
    }
}

/// The record at `o` says the pending socket is listening.
pub open spec fn is_listen_record(b: Seq<u8>, o: int) -> bool {
    le_u32(b, o + 4) == XSO_TCPCB && le_u32(b, o) >= 40 && le_u32(b, o + 36) == TCP_STATE_LISTEN
}

/// The listeners of the record stream from `offset` on, given the address
/// record still waiting for its state (`pending`).
///
/// Each record opens with its length and kind. A length shorter than the
/// closing record, or one that runs past the buffer, is drift and an error;
/// a bare closing record ends the table. An address record becomes pending;
/// a TCP record in the listen state emits the pending listener (unless its
/// port is 0), and any TCP record clears it. Records start on 8-byte
/// boundaries.
pub open spec fn walk_records(b: Seq<u8>, offset: int, pending: Option<(u16, Seq<char>)>) -> Result<
    Seq<(u16, Seq<char>)>,
    (),
>
    decreases b.len() + 8 - offset,
{
    if offset < 0 || offset + 8 > b.len() {
        Ok(seq![])
    } else {
        let len = le_u32(b, offset);
        let end = offset + len;
        if len < CLOSING_RECORD_LEN || end > b.len() {
            Err(())
        } else if len == CLOSING_RECORD_LEN {
            Ok(seq![])
        } else {
            let kind = le_u32(b, offset + 4);
            let emitted = if is_listen_record(b, offset) {
                match pending {
                    Some(r) => if r.0 != 0 { seq![r] } else { seq![] },
                    None => seq![],
                }
            } else {
                seq![]
            };
            let next_pending = if kind == XSO_INPCB && len >= 84 {
                Some(inpcb_listener(b, offset))
            } else if kind == XSO_TCPCB && len >= 40 {
                None
            } else {
                pending
            };
            proof {
                lemma_round_up_8(end);
                assert(spec_round_up_8(end) matches Some(n) ==> n > offset);
            }
            match spec_round_up_8(end) {
                None => Err(()),
                Some(next) => match walk_records(b, next, next_pending) {
                    Err(()) => Err(()),
                    Ok(rest) => Ok(emitted + rest),
                },
            }
        }
    }
}

/// Every listening socket a `pcblist_n` buffer lists, in table order; `Err`
/// when a record cannot be framed. A buffer too short to hold the opening
/// length is an empty table; an opening header that overshoots the buffer
/// is drift.
pub open spec fn spec_decode_host_listeners(b: Seq<u8>) -> Result<Seq<(u16, Seq<char>)>, ()> {
    if b.len() < 4 {
        Ok(seq![])
    } else {
        match spec_round_up_8(le_u32(b, 0)) {
            None => Err(()),
            Some(o) => if o > b.len() {
                Err(())
            } else {
                walk_records(b, o, None)
            },
        }
    }
}

/// The outcome of the walk so far, followed by the rest of the walk.
pub open spec fn then_rest(done: Seq<(u16, Seq<char>)>, rest: Result<Seq<(u16, Seq<char>)>, ()>) -> Result<
    Seq<(u16, Seq<char>)>,
    (),
> {
    match rest {
        Ok(r) => Ok(done + r),
        Err(()) => Err(()),
    }
}

/// The little-endian 32-bit word at `o`.
fn read_u32(bytes: &[u8], o: usize) -> (v: u32)
    requires
        o + 4 <= bytes@.len(),
    ensures
        v as int == le_u32(bytes@, o as int),
{
    bytes[o] as u32 + 256 * (bytes[o + 1] as u32) + 65536 * (bytes[o + 2] as u32) + 16777216 * (
    bytes[o + 3] as u32)
}

/// Round to the next 8-byte boundary, or `None` if that would overflow.
fn round_up_8(value: usize) -> (r: Option<usize>)
    ensures
        r matches Some(v) ==> spec_round_up_8(value as int) == Some(v as int),
        r is None ==> spec_round_up_8(value as int) is None,
{
    match value.checked_add(7) {
        Some(v) => Some(v - v % 8),
        None => None,
    }
}

/// Walk the record stream and return every listening socket.
///
/// Fails loudly, with `EINVAL`, on a record it cannot frame: returning the
/// rows read so far would hand the caller a silently short listener set
/// that looks healthy.
#[verifier::rlimit(60)]
pub fn decode_host_listeners(bytes: &[u8]) -> (r: Result<Vec<HostListener>, i32>)
    ensures
        r matches Ok(v) ==> spec_decode_host_listeners(bytes@) == Ok::<Seq<(u16, Seq<char>)>, ()>(
            v@.map_values(|x: HostListener| listener_view(x))),
        r matches Err(e) ==> e == platform_errno(Errno::Einval),
        r is Err <==> spec_decode_host_listeners(bytes@) is Err,
{
    let ghost b = bytes@;
    if bytes.len() < 4 {
        let empty: Vec<HostListener> = Vec::new();
        assert(empty@.map_values(|x: HostListener| listener_view(x)) =~= seq![]);
        return Ok(empty);
    }
    let einval = errno_code(Errno::Einval);
    let header_len = read_u32(bytes, 0) as usize;
    let mut offset = match round_up_8(header_len) {
        Some(v) => v,
        None => return Err(einval),
    };
    if offset > bytes.len() {
        return Err(einval);
    }
    let mut pending: Option<HostListener> = None;
    let mut out: Vec<HostListener> = Vec::new();
    loop
        invariant
            b == bytes@,
            b.len() >= 4,
            offset <= b.len() + 7,
            einval == platform_errno(Errno::Einval),
            spec_decode_host_listeners(b) == then_rest(
                out@.map_values(|x: HostListener| listener_view(x)),
                walk_records(b, offset as int, pending_view(pending)),
            ),
        decreases b.len() + 8 - offset,
    {
        let ghost pview = pending_view(pending);
        let ghost done = out@.map_values(|x: HostListener| listener_view(x));
        if offset > bytes.len() || bytes.len() - offset < 8 {
            assert(done + seq![] =~= done);
            return Ok(out);
        }
        let len = read_u32(bytes, offset) as usize;
        let end = match offset.checked_add(len) {
            Some(e) => e,
            None => return Err(einval),
        };
        if len < CLOSING_RECORD_LEN || end > bytes.len() {
            return Err(einval);
        }
        if len == CLOSING_RECORD_LEN {
            assert(done + seq![] =~= done);
            return Ok(out);
        }
        let kind = read_u32(bytes, offset + 4);
        let ghost emitted: Seq<(u16, Seq<char>)> = if is_listen_record(b, offset as int) {
            match pview {
                Some(r) => if r.0 != 0 { seq![r] } else { seq![] },
                None => seq![],
            }
        } else {
            seq![]
        };
        if kind == XSO_INPCB && len >= 84 {
            let port = (bytes[offset + XINPCB_LPORT_OFFSET] as u16) * 256 + bytes[offset
                + XINPCB_LPORT_OFFSET + 1] as u16;
            let vflag = bytes[offset + XINPCB_VFLAG_OFFSET];
            let local_start = offset + XINPCB_LADDR_OFFSET;
            let address = if vflag & INP_IPV6 != 0 {
                encode_hex(&bytes[local_start..local_start + 16])
            } else {
                encode_hex(&bytes[local_start + 12..local_start + 16])
            };
            proof {
                let local = b.subrange(offset + 64, offset + 80);
                assert(b.subrange(local_start + 12, local_start + 16) =~= local.subrange(12, 16));
            }
            pending = Some((port, address));
            assert(emitted =~= seq![]);
        } else if kind == XSO_TCPCB && len >= 40 {
            let state = read_u32(bytes, offset + XTCPCB_STATE_OFFSET);
            if state == TCP_STATE_LISTEN {
                let taken = pending;
                pending = None;
                match taken {
                    Some(row) => {
                        if row.0 != 0 {
                            out.push(row);
                            assert(out@.map_values(|x: HostListener| listener_view(x)) =~= done
                                + emitted);
                        } else {
                            assert(done + emitted =~= done);
                        }
                    },
                    None => {
                        assert(done + emitted =~= done);
                    },
                }
            } else {
                pending = None;
                assert(done + emitted =~= done);
            }
        } else {
            assert(done + emitted =~= done);
        }
        proof { lemma_round_up_8(end as int); }
        offset = match round_up_8(end) {
            Some(v) => v,
            None => return Err(einval),
        };
        proof {
            let rest = walk_records(b, offset as int, pending_view(pending));
            assert(out@.map_values(|x: HostListener| listener_view(x)) == done + emitted);
            match rest {
                Ok(r) => {
                    assert(done + (emitted + r) =~= (done + emitted) + r);
                },
                Err(()) => {},
            }
        }
    }
}

} // verus!

verus! {

/// The order listeners are reported in: by port, then by the address
/// text's bytes (the order of `(u16, String)`).
pub open spec fn listener_before(a: (u16, Seq<char>), b: (u16, Seq<char>)) -> bool {
    a.0 < b.0 || (a.0 == b.0 && lex_le(encode_utf8(a.1), encode_utf8(b.1)))
}

impl RowOrder for (u16, String) {
    open spec fn ranks_before(self, other: Self) -> bool {
        listener_before(listener_view(self), listener_view(other))
    }

    proof fn lemma_total(a: Self, b: Self) {
        lemma_lex_total(encode_utf8(a.1@), encode_utf8(b.1@));
    }

    proof fn lemma_transitive(a: Self, b: Self, c: Self) {
        if a.0 == b.0 && b.0 == c.0 {
            lemma_lex_transitive(encode_utf8(a.1@), encode_utf8(b.1@), encode_utf8(c.1@));
        }
    }

    fn precedes(&self, other: &Self) -> (r: bool) {
        if self.0 != other.0 {
            self.0 < other.0
        } else {
            bytes_lex_le(self.1.as_str().as_bytes(), other.1.as_str().as_bytes())
        }
    }
}

/// A claimed listener by value.
pub open spec fn claim_view(c: (HostListener, u32)) -> ((u16, Seq<char>), u32) {
    (listener_view(c.0), c.1)
}

/// No two claims are on the same port and address: each listener has at
/// most one claimant, as a map from listener to pid holds it.
pub open spec fn distinct_claims(claims: Seq<(HostListener, u32)>) -> bool {
    forall|i: int, j: int|
        0 <= i < j < claims.len() ==> listener_view(#[trigger] claims[i].0) != listener_view(
            #[trigger] claims[j].0,
        )
}

/// Who claims a listener: the pid of the claim on exactly that port and
/// address, else nobody.
pub open spec fn claim_for(claims: Seq<((u16, Seq<char>), u32)>, key: (u16, Seq<char>)) -> Attribution
    decreases claims.len(),
{
    if claims.len() == 0 {
        Attribution::Unclaimed
    } else if claims[0].0 == key {
        Attribution::Claimed { pid: claims[0].1 }
    } else {
        claim_for(claims.drop_first(), key)
    }
}

/// The claimed listeners the host table does not list, each once, in claim
/// order.
pub open spec fn claimed_extra(rows: Seq<HostListener>, claims: Seq<(HostListener, u32)>) -> Seq<
    HostListener,
>
    decreases claims.len(),
{
    if claims.len() == 0 {
        seq![]
    } else {
        let e = claimed_extra(rows, claims.drop_last());
        let k = claims.last().0;
        if rows.map_values(|r: HostListener| listener_view(r)).contains(listener_view(k))
            || e.map_values(|r: HostListener| listener_view(r)).contains(listener_view(k)) {
            e
        } else {
            e.push(k)
        }
    }
}

/// The port row for a listener: its claim (if any) and no uid, since
/// neither darwin listener source carries the owning uid.
pub open spec fn listener_port(claims: Seq<((u16, Seq<char>), u32)>, r: HostListener, p: Port) -> bool {
    &&& p.port == r.0
    &&& p.address@ == r.1@
    &&& p.uid is None
    &&& p.attribution == claim_for(claims, listener_view(r))
}

/// `r` is in `v`, compared by value.
fn lists(v: &Vec<HostListener>, r: &HostListener) -> (found: bool)
    ensures
        found == v@.map_values(|x: HostListener| listener_view(x)).contains(listener_view(*r)),
{
    let ghost vv = v@.map_values(|x: HostListener| listener_view(x));
    let mut i: usize = 0;
    while i < v.len()
        invariant
            i <= v@.len(),
            vv == v@.map_values(|x: HostListener| listener_view(x)),
            forall|k: int| 0 <= k < i ==> vv[k] != listener_view(*r),
        decreases v@.len() - i,
    {
        if v[i].0 == r.0 && v[i].1 == r.1 {
            assert(vv[i as int] == listener_view(*r));
            return true;
        }
        i = i + 1;
    }
    false
}

/// Who claims `key`: the first claim on it.
fn lookup_claim(claims: &[(HostListener, u32)], key: &HostListener) -> (a: Attribution)
    ensures
        a == claim_for(claims@.map_values(|c: (HostListener, u32)| claim_view(c)), listener_view(
            *key,
        )),
{
    let ghost cv = claims@.map_values(|c: (HostListener, u32)| claim_view(c));
    let mut j: usize = 0;
    assert(cv.skip(0) =~= cv);
    while j < claims.len()
        invariant
            j <= claims@.len(),
            cv == claims@.map_values(|c: (HostListener, u32)| claim_view(c)),
            claim_for(cv, listener_view(*key)) == claim_for(cv.skip(j as int), listener_view(*key)),
        decreases claims@.len() - j,
    {
        assert(cv.skip(j as int)[0] == claim_view(claims@[j as int]));
        if (claims[j].0).0 == key.0 && (claims[j].0).1 == key.1 {
            return Attribution::Claimed { pid: claims[j].1 };
        }
        assert(cv.skip(j as int).drop_first() =~= cv.skip(j + 1));
        j = j + 1;
    }
    Attribution::Unclaimed
}

/// Merge the host-wide table with the same-uid fd walk.
///
/// Always a union: a listener the fd walk observed is kept even when the
/// host table omits it, so a partially gated table cannot delete a claim.
/// Rows come out sorted by port and address, each with the pid that claims
/// it (or unclaimed) and no uid. `claims` maps listeners to pids: each
/// listener is claimed at most once.
pub fn attribute_host_listeners(rows: Vec<HostListener>, claims: &[(HostListener, u32)]) -> (ports:
    Vec<Port>)
    requires
        distinct_claims(claims@),
    ensures
        ({
            let all = stable_sorted(rows@ + claimed_extra(rows@, claims@));
            &&& ports@.len() == all.len()
            &&& forall|i: int| 0 <= i < all.len() ==> listener_port(
                claims@.map_values(|c: (HostListener, u32)| claim_view(c)),
                #[trigger] all[i],
                ports@[i],
            )
        }),
{
    let ghost given = rows@;
    let mut rows = rows;
    let mut j: usize = 0;
    let mut extra: Vec<HostListener> = Vec::new();
    while j < claims.len()
        invariant
            j <= claims@.len(),
            rows@ == given,
            extra@ == claimed_extra(given, claims@.take(j as int)),
        decreases claims@.len() - j,
    {
        let key = &claims[j].0;
        proof {
            assert(claims@.take(j + 1).drop_last() =~= claims@.take(j as int));
            assert(claims@.take(j + 1).last() == claims@[j as int]);
        }
        if !lists(&rows, key) && !lists(&extra, key) {
            extra.push((key.0, key.1.clone()));
        }
        j = j + 1;
    }
    assert(claims@.take(claims@.len() as int) =~= claims@);
    let ghost joined = given + extra@;
    rows.append(&mut extra);
    assert(rows@ == joined);
    sort_rows(&mut rows);
    let ghost all = rows@;
    let ghost cv = claims@.map_values(|c: (HostListener, u32)| claim_view(c));
    let mut ports: Vec<Port> = Vec::new();
    let mut i: usize = 0;
    while i < rows.len()
        invariant
            i <= rows@.len(),
            rows@ == all,
            cv == claims@.map_values(|c: (HostListener, u32)| claim_view(c)),
            ports@.len() == i,
            forall|k: int| 0 <= k < i ==> listener_port(cv, #[trigger] all[k], ports@[k]),
        decreases rows@.len() - i,
    {
        let attribution = lookup_claim(claims, &rows[i]);
        let address = rows[i].1.clone();
        ports.push(Port { attribution, uid: None, port: rows[i].0, address });
        i = i + 1;
    }
    ports
}

/// With one claim per listener, every claimed listener is attributed to the
/// pid that claims it.
pub proof fn each_claim_keeps_its_pid(claims: Seq<(HostListener, u32)>)
    requires
        distinct_claims(claims),
    ensures
        forall|j: int|
            0 <= j < claims.len() ==> claim_for(
                claims.map_values(|c: (HostListener, u32)| claim_view(c)),
                listener_view(#[trigger] claims[j].0),
            ) == (Attribution::Claimed { pid: claims[j].1 }),
    decreases claims.len(),
{
    if claims.len() > 0 {
        let rest = claims.drop_first();
        assert(distinct_claims(rest)) by {
            assert forall|i: int, j: int| 0 <= i < j < rest.len() implies listener_view(
                #[trigger] rest[i].0,
            ) != listener_view(#[trigger] rest[j].0) by {
                assert(rest[i] == claims[i + 1] && rest[j] == claims[j + 1]);
            }
        }
        each_claim_keeps_its_pid(rest);
        let cv = claims.map_values(|c: (HostListener, u32)| claim_view(c));
        assert(cv.drop_first() =~= rest.map_values(|c: (HostListener, u32)| claim_view(c)));
        assert forall|j: int| 0 <= j < claims.len() implies claim_for(
            cv,
            listener_view(#[trigger] claims[j].0),
        ) == (Attribution::Claimed { pid: claims[j].1 }) by {
            assert(cv[0] == claim_view(claims[0]));
            if j > 0 {
                assert(claims[j] == rest[j - 1]);
                assert(listener_view(claims[0].0) != listener_view(claims[j].0));
            }
        }
    }
}

/// The union keeps every listener: every row of the host table and every
/// claimed listener is reported, claimed listeners with their pid.
pub proof fn union_keeps_every_listener(rows: Seq<HostListener>, claims: Seq<(HostListener, u32)>)
    ensures
        ({
            let all = stable_sorted(rows + claimed_extra(rows, claims));
            let keys = all.map_values(|r: HostListener| listener_view(r));
            &&& forall|i: int| 0 <= i < rows.len() ==> keys.contains(listener_view(#[trigger] rows[i]))
            &&& forall|j: int| 0 <= j < claims.len() ==> keys.contains(
                listener_view(#[trigger] claims[j].0),
            )
        }),
{
    let joined = rows + claimed_extra(rows, claims);
    let all = stable_sorted(joined);
    lemma_stable_sorted(joined);
    let keys = all.map_values(|r: HostListener| listener_view(r));
    assert forall|i: int| 0 <= i < rows.len() implies keys.contains(listener_view(#[trigger] rows[i])) by {
        lemma_member_survives(joined, all, i);
        assert(joined[i] == rows[i]);
    }
    assert forall|j: int| 0 <= j < claims.len() implies keys.contains(
        listener_view(#[trigger] claims[j].0),
    ) by {
        lemma_claim_in_union(rows, claims, j);
        let k = choose|k: int| 0 <= k < joined.len() && listener_view(joined[k]) == listener_view(
            claims[j].0,
        );
        lemma_member_survives(joined, all, k);
    }
}

/// A row of a sequence is still in any sequence holding the same rows.
proof fn lemma_member_survives(joined: Seq<HostListener>, all: Seq<HostListener>, i: int)
    requires
        0 <= i < joined.len(),
        all.to_multiset() == joined.to_multiset(),
    ensures
        all.map_values(|r: HostListener| listener_view(r)).contains(listener_view(joined[i])),
{
    vstd::seq_lib::to_multiset_contains(joined, joined[i]);
    vstd::seq_lib::to_multiset_contains(all, joined[i]);
    assert(joined.contains(joined[i]));
    let k = choose|k: int| 0 <= k < all.len() && all[k] == joined[i];
    assert(all.map_values(|r: HostListener| listener_view(r))[k] == listener_view(joined[i]));
}

/// Every claimed listener is in the host rows or among the extra rows.
proof fn lemma_claim_in_union(rows: Seq<HostListener>, claims: Seq<(HostListener, u32)>, j: int)
    requires
        0 <= j < claims.len(),
    ensures
        exists|k: int| 0 <= k < (rows + claimed_extra(rows, claims)).len() && listener_view(
            (rows + claimed_extra(rows, claims))[k],
        ) == listener_view(claims[j].0),
    decreases claims.len(),
{
    let joined = rows + claimed_extra(rows, claims);
    let e = claimed_extra(rows, claims.drop_last());
    let rv = rows.map_values(|r: HostListener| listener_view(r));
    let ev = e.map_values(|r: HostListener| listener_view(r));
    if j < claims.len() - 1 {
        lemma_claim_in_union(rows, claims.drop_last(), j);
        assert(claims.drop_last()[j] == claims[j]);
        let k = choose|k: int| 0 <= k < (rows + e).len() && listener_view((rows + e)[k])
            == listener_view(claims[j].0);
        if k < rows.len() {
            assert(joined[k] == rows[k]);
        } else {
            assert(claimed_extra(rows, claims) == e || claimed_extra(rows, claims) == e.push(
                claims.last().0,
            ));
            assert(joined[k] == (rows + e)[k]);
        }
    } else {
        let key = listener_view(claims.last().0);
        if rv.contains(key) {
            let k = choose|k: int| 0 <= k < rv.len() && rv[k] == key;
            assert(joined[k] == rows[k]);
        } else if ev.contains(key) {
            let k = choose|k: int| 0 <= k < ev.len() && ev[k] == key;
            assert(joined[rows.len() + k] == e[k]);
        } else {
            assert(joined[joined.len() - 1] == claims.last().0);
        }
    }
}

} // verus!
