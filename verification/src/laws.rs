//! What holds of the library as a whole: laws that tie its functions
//! together, each proved over the specifications their contracts state.
use vstd::prelude::*;
use crate::cli::{
    asked_facets_of, lemma_snapshot_fold_err, pid_list, pids_fold, snapshot_ask, snapshot_flags,
    snapshot_fold, split_spans, SnapshotArgs, Token,
};
use crate::order::{
    is_sorted, lemma_collapse_keeps_first_read, lemma_dedup_runs_covers, lemma_dedup_runs_sorted, lemma_dedup_runs_subset,
    lemma_stable_sorted, lemma_stable_sorted_members, same_rank, stable_sorted, dedup_runs, RowOrder,
};
use crate::procfs::{listener_row, listener_rows, listeners_outcome, proc_net_listeners, unique_inodes};
use crate::errno::{platform_errno, Errno};
use crate::schema::{
    facet_rank, holder_key, normal_unreadable, sanitized, snapshot_tsv, socket_holders_tsv,
    host_tsv, spec_exit_code, version_line, Attribution, Document, HostSnapshot, Snapshot,
    SocketHolders, Unreadable, Proc, ProcessArgv, ProcessCwd, TsvRow,
};
use crate::chars::line_spans;
use vstd::utf8::encode_utf8;
use crate::json::{json_list_items, json_string, json_string_array, json_string_has_no_delimiters};
use crate::text::{decimal, digit_char};
use crate::pcblist::{
    inpcb_listener, is_listen_record, le_u32, spec_decode_host_listeners, spec_round_up_8,
    walk_records, CLOSING_RECORD_LEN, XSO_INPCB, XSO_TCPCB,
};
use crate::readings::holders_for;
use crate::unix_socket::{first_occurrences, matching_inodes, spec_split_unix_row, spec_unix_socket_inodes};

verus! {

/// A document with no fact and at least one blind source exits non-zero;
/// any other document exits 0.
pub proof fn only_pure_blindness_fails<D: Document>(doc: D)
    ensures
        spec_exit_code(doc) == 1 <==> (!doc.carries_facts() && doc.source_errors().len() > 0),
        spec_exit_code(doc) == 0 || spec_exit_code(doc) == 1,
{
}

/// Every document opens with its version line.
pub proof fn every_document_opens_with_its_version(s: Snapshot, h: SocketHolders, host: HostSnapshot)
    ensures
        snapshot_tsv(s).take(version_line(s.version).len() as int) == version_line(s.version),
        socket_holders_tsv(h).take(version_line(h.version).len() as int) == version_line(h.version),
        host_tsv(host).take(version_line(host.version).len() as int) == version_line(host.version),
{
    let v = version_line(s.version);
    assert(snapshot_tsv(s).take(v.len() as int) =~= v);
    let w = version_line(h.version);
    assert(socket_holders_tsv(h).take(w.len() as int) =~= w);
    let x = version_line(host.version);
    assert(host_tsv(host).take(x.len() as int) =~= x);
}

/// Putting a snapshot in document order changes neither whether it carries
/// a fact nor its blind sources, so never its exit code.
pub proof fn normalizing_a_snapshot_keeps_its_exit_code(before: Snapshot, after: Snapshot)
    requires
        after.normal_form_of(before),
    ensures
        after.carries_facts() == before.carries_facts(),
        after.source_errors() == before.source_errors(),
        spec_exit_code(after) == spec_exit_code(before),
{
    lemma_stable_sorted(before.procs@);
    lemma_stable_sorted(before.memory@);
    lemma_stable_sorted(before.start_times@);
    lemma_stable_sorted(before.cpu_times@);
    lemma_stable_sorted(before.uids@);
    lemma_stable_sorted(before.cwds@);
    lemma_stable_sorted(before.statuses@);
    lemma_stable_sorted(before.argv@);
    lemma_stable_sorted(before.ports@);
    lemma_stable_sorted(before.unreadable@);
    lemma_dedup_nonempty(stable_sorted(before.unreadable@));
}

/// Putting a holder document in document order changes neither whether it
/// carries a fact nor its blind sources, so never its exit code.
pub proof fn normalizing_holders_keeps_its_exit_code(before: SocketHolders, after: SocketHolders)
    requires
        after.normal_form_of(before),
    ensures
        after.carries_facts() == before.carries_facts(),
        after.source_errors() == before.source_errors(),
        spec_exit_code(after) == spec_exit_code(before),
{
    lemma_stable_sorted(before.holders@);
    lemma_stable_sorted(before.procs@);
    lemma_stable_sorted(before.unreadable@);
    lemma_dedup_nonempty(stable_sorted(before.holders@));
    lemma_dedup_nonempty(stable_sorted(before.unreadable@));
}

proof fn lemma_dedup_nonempty<T: crate::order::RowOrder>(s: Seq<T>)
    ensures
        (dedup_runs(s).len() > 0) == (s.len() > 0),
{
    lemma_dedup_runs_subset(s);
    if s.len() > 0 {
        lemma_dedup_runs_covers(s);
        assert(exists|j: int| 0 <= j < dedup_runs(s).len() && same_rank(s[0], dedup_runs(s)[j]));
    }
}

/// In document order, `U` rows are sorted by (pid, facet), no two rows name
/// the same (pid, facet), and the rows name exactly the (pid, facet) pairs
/// read: a shared failure is one fact, not N.
#[verifier::rlimit(40)]
pub proof fn normalized_unreadable_rows_are_one_per_fact(rows: Seq<Unreadable>)
    ensures
        is_sorted(normal_unreadable(rows)),
        forall|i: int, j: int|
            0 <= i < j < normal_unreadable(rows).len() ==> !(#[trigger] normal_unreadable(rows)[i].pid
                == #[trigger] normal_unreadable(rows)[j].pid && normal_unreadable(rows)[i].facet
                == normal_unreadable(rows)[j].facet),
        forall|i: int| 0 <= i < normal_unreadable(rows).len() ==> rows.contains(#[trigger] normal_unreadable(rows)[i]),
        forall|i: int|
            0 <= i < rows.len() ==> exists|j: int|
                0 <= j < normal_unreadable(rows).len() && normal_unreadable(rows)[j].pid == (#[trigger] rows[i]).pid
                    && normal_unreadable(rows)[j].facet == rows[i].facet,
{
    let t = stable_sorted(rows);
    let d = normal_unreadable(rows);
    lemma_stable_sorted(rows);
    lemma_stable_sorted_members(rows);
    lemma_dedup_runs_sorted(t);
    lemma_dedup_runs_subset(t);
    lemma_dedup_runs_covers(t);
    assert forall|i: int, j: int| 0 <= i < j < d.len() implies !(#[trigger] d[i].pid == #[trigger] d[j].pid
        && d[i].facet == d[j].facet) by {
        assert(!same_rank(d[i], d[j]));
    }
    assert forall|i: int| 0 <= i < d.len() implies rows.contains(#[trigger] d[i]) by {
        assert(t.contains(d[i]));
        let k = choose|k: int| 0 <= k < t.len() && t[k] == d[i];
        assert(rows.contains(t[k]));
    }
    assert forall|i: int| 0 <= i < rows.len() implies exists|j: int|
        0 <= j < d.len() && d[j].pid == (#[trigger] rows[i]).pid && d[j].facet == rows[i].facet by {
        assert(t.contains(rows[i]));
        let k = choose|k: int| 0 <= k < t.len() && t[k] == rows[i];
        let j = choose|j: int| 0 <= j < d.len() && same_rank(t[k], d[j]);
        lemma_facet_rank_injective(d[j].facet, rows[i].facet);
    }
}

/// Normalizing keeps, of each (pid, facet), the `U` row read first: every
/// row in document order is a row that was read before any other row
/// naming the same pid and facet, so its errno is the first one seen.
pub proof fn normalizing_keeps_the_unreadable_row_read_first(rows: Seq<Unreadable>)
    ensures
        forall|i: int|
            0 <= i < normal_unreadable(rows).len() ==> exists|k: int|
                0 <= k < rows.len() && rows[k] == #[trigger] normal_unreadable(rows)[i] && forall|
                    j: int,
                | 0 <= j < k ==> !((#[trigger] rows[j]).pid == rows[k].pid && rows[j].facet
                    == rows[k].facet),
{
    lemma_collapse_keeps_first_read(rows);
    let d = normal_unreadable(rows);
    assert forall|i: int| 0 <= i < d.len() implies exists|k: int|
        0 <= k < rows.len() && rows[k] == #[trigger] d[i] && forall|j: int|
            0 <= j < k ==> !((#[trigger] rows[j]).pid == rows[k].pid && rows[j].facet
                == rows[k].facet) by {
        let k = choose|k: int|
            0 <= k < rows.len() && rows[k] == d[i] && forall|j: int|
                0 <= j < k ==> !same_rank(#[trigger] rows[j], rows[k]);
        assert forall|j: int| 0 <= j < k implies !((#[trigger] rows[j]).pid == rows[k].pid
            && rows[j].facet == rows[k].facet) by {
            assert(!same_rank(rows[j], rows[k]));
        }
    }
}

proof fn lemma_facet_rank_injective(a: crate::schema::Facet, b: crate::schema::Facet)
    requires
        facet_rank(a) == facet_rank(b),
    ensures
        a == b,
{
}

/// In document order, holder rows are sorted (claimed by pid, unclaimed
/// last), no holder is listed twice, and the rows name exactly the holders
/// read: a pid holding the socket on several fds is one holder.
pub proof fn normalized_holders_are_one_per_holder(holders: Seq<Attribution>)
    ensures
        is_sorted(dedup_runs(stable_sorted(holders))),
        forall|i: int, j: int|
            0 <= i < j < dedup_runs(stable_sorted(holders)).len() ==> #[trigger] dedup_runs(
                stable_sorted(holders),
            )[i] != #[trigger] dedup_runs(stable_sorted(holders))[j],
        forall|a: Attribution|
            holders.contains(a) <==> #[trigger] dedup_runs(stable_sorted(holders)).contains(a),
{
    let t = stable_sorted(holders);
    let d = dedup_runs(t);
    lemma_stable_sorted(holders);
    lemma_stable_sorted_members(holders);
    lemma_dedup_runs_sorted(t);
    lemma_dedup_runs_subset(t);
    lemma_dedup_runs_covers(t);
    assert forall|i: int, j: int| 0 <= i < j < d.len() implies #[trigger] d[i] != #[trigger] d[j] by {
        assert(!same_rank(d[i], d[j]));
        if d[i] == d[j] {
            Attribution::lemma_total(d[i], d[i]);
        }
    }
    assert forall|a: Attribution| holders.contains(a) <==> #[trigger] d.contains(a) by {
        if holders.contains(a) {
            let i = choose|i: int| 0 <= i < holders.len() && holders[i] == a;
            assert(t.contains(holders[i]));
            let k = choose|k: int| 0 <= k < t.len() && t[k] == a;
            let j = choose|j: int| 0 <= j < d.len() && same_rank(t[k], d[j]);
            assert(holder_key(a) == holder_key(d[j]));
            assert(d[j] == a);
        }
        if d.contains(a) {
            let j = choose|j: int| 0 <= j < d.len() && d[j] == a;
            assert(t.contains(d[j]));
            let k = choose|k: int| 0 <= k < t.len() && t[k] == a;
            assert(holders.contains(t[k]));
        }
    }
}

/// A name made safe for a TSV column has the same length and holds no
/// tab, line feed or carriage return.
pub proof fn sanitized_names_hold_no_delimiters(name: Seq<char>)
    ensures
        sanitized(name).len() == name.len(),
        forall|i: int|
            0 <= i < sanitized(name).len() ==> {
                let c = #[trigger] sanitized(name)[i];
                c != '\t' && c != '\n' && c != '\r'
            },
{
}

/// A snapshot ask that parses names at least one facet, so a blind source
/// always has a facet to cost.
pub proof fn a_parsed_snapshot_ask_names_a_facet(tokens: Seq<crate::cli::Token>, args: SnapshotArgs)
    requires
        snapshot_ask(tokens) matches Ok(a) && snapshot_flags(args) == a.1,
    ensures
        asked_facets_of(args).len() > 0,
{
    lemma_ask_has_facet(tokens);
    let a = snapshot_ask(tokens)->Ok_0;
    let i = choose|i: int| 0 <= i < 9 && #[trigger] a.1[i];
    assert(snapshot_flags(args)[i]);
    lemma_asked_facets_len(args);
}

proof fn lemma_ask_has_facet(tokens: Seq<crate::cli::Token>)
    ensures
        snapshot_ask(tokens) matches Ok(a) ==> exists|i: int| 0 <= i < 9 && #[trigger] a.1[i],
{
    if snapshot_ask(tokens) is Ok {
        let a = snapshot_ask(tokens)->Ok_0;
        let st = crate::cli::snapshot_fold(tokens, tokens.len() as int)->Ok_0;
        assert(crate::cli::snapshot_fold(tokens, tokens.len() as int) is Ok);
        assert(a.1 == st.2);
        assert(exists|i: int| 0 <= i < 9 && #[trigger] st.2[i]);
    }
}

proof fn lemma_asked_facets_len(args: SnapshotArgs)
    ensures
        asked_facets_of(args).len() == (if args.procs { 1int } else { 0 }) + (if args.ports { 1int } else { 0 })
            + (if args.mem { 1int } else { 0 }) + (if args.start_time { 1int } else { 0 }) + (
        if args.cpu_time { 1int } else { 0 }) + (if args.uid { 1int } else { 0 }) + (if args.cwd { 1int } else { 0 })
            + (if args.status { 1int } else { 0 }) + (if args.argv { 1int } else { 0 }),
{
}

/// A pid list that parses holds no pid 0.
pub proof fn parsed_pid_lists_hold_no_zero(raw: Seq<u8>)
    ensures
        pid_list(raw) matches Ok(v) ==> forall|i: int| 0 <= i < v.len() ==> #[trigger] v[i] > 0,
{
    let s = crate::text::utf8_lossy(raw);
    let spans = split_spans(s, 0, ',');
    lemma_pids_fold_positive(s, spans, spans.len() as int);
}

proof fn lemma_pids_fold_positive(s: Seq<char>, spans: Seq<(int, int)>, n: int)
    ensures
        pids_fold(s, spans, n) matches Ok(v) ==> forall|i: int| 0 <= i < v.len() ==> #[trigger] v[i] > 0,
    decreases n,
{
    if n > 0 && n <= spans.len() {
        lemma_pids_fold_positive(s, spans, n - 1);
    }
}

/// Every listener a `/proc/net/tcp` table yields has a non-zero port and a
/// non-zero inode.
pub proof fn proc_net_listeners_are_identified(s: Seq<char>)
    ensures
        proc_net_listeners(s) matches Some(rows) ==> forall|i: int|
            0 <= i < rows.len() ==> (#[trigger] rows[i]).0 > 0 && rows[i].2 > 0,
{
    let lines = line_spans(s, 0, s.len() as int);
    match crate::procfs::first_containing(s, lines, "local_address"@, 0) {
        Some(h) => lemma_listener_rows_identified(s, lines, h + 1),
        None => {},
    }
}

proof fn lemma_listener_rows_identified(s: Seq<char>, lines: Seq<(int, int)>, n: int)
    ensures
        forall|i: int|
            0 <= i < listener_rows(s, lines, n).len() ==> (#[trigger] listener_rows(s, lines, n)[i]).0
                > 0 && listener_rows(s, lines, n)[i].2 > 0,
    decreases lines.len() - n,
{
    if 0 <= n < lines.len() {
        lemma_listener_rows_identified(s, lines, n + 1);
        let rest = listener_rows(s, lines, n + 1);
        match listener_row(s, lines[n]) {
            Some(l) => {
                assert forall|i: int| 0 <= i < listener_rows(s, lines, n).len() implies (
                #[trigger] listener_rows(s, lines, n)[i]).0 > 0 && listener_rows(s, lines, n)[i].2
                    > 0 by {
                    if i > 0 {
                        assert(listener_rows(s, lines, n)[i] == rest[i - 1]);
                    }
                }
            },
            None => {},
        }
    }
}

/// Collapsing listeners by inode leaves no two rows with one inode.
pub proof fn listeners_have_distinct_inodes(rows: Seq<(u64, u32, u16, Seq<u8>)>)
    ensures
        forall|i: int, j: int|
            0 <= i < j < unique_inodes(rows).len() ==> (#[trigger] unique_inodes(rows)[i]).0
                != (#[trigger] unique_inodes(rows)[j]).0,
    decreases rows.len(),
{
    if rows.len() > 0 {
        let t = rows.drop_last();
        listeners_have_distinct_inodes(t);
        let d = unique_inodes(t);
        let x = rows.last();
        if !(exists|k: int| 0 <= k < d.len() && (#[trigger] d[k]).0 == x.0) {
            let u = d.push(x);
            assert(unique_inodes(rows) == u);
            assert forall|i: int, j: int| 0 <= i < j < u.len() implies (#[trigger] u[i]).0 != (
            #[trigger] u[j]).0 by {
                if j < d.len() {
                    assert(u[i] == d[i] && u[j] == d[j]);
                } else {
                    assert(u[i] == d[i]);
                }
            }
        }
    }
}

/// Collapsing listeners by inode invents no row.
pub proof fn collapsing_listeners_invents_no_row(rows: Seq<(u64, u32, u16, Seq<u8>)>)
    ensures
        forall|i: int| 0 <= i < unique_inodes(rows).len() ==> rows.contains(#[trigger] unique_inodes(rows)[i]),
    decreases rows.len(),
{
    if rows.len() > 0 {
        let t = rows.drop_last();
        collapsing_listeners_invents_no_row(t);
        let d = unique_inodes(t);
        let u = unique_inodes(rows);
        assert forall|i: int| 0 <= i < u.len() implies rows.contains(#[trigger] u[i]) by {
            if i < d.len() {
                assert(u[i] == d[i]);
                assert(t.contains(d[i]));
                let k = choose|k: int| 0 <= k < t.len() && t[k] == d[i];
                assert(rows[k] == d[i]);
            } else {
                assert(rows[rows.len() - 1] == u[i]);
            }
        }
    }
}

/// Collapsing listeners by inode keeps every inode: only exact identity
/// repeats go.
pub proof fn collapsing_listeners_keeps_every_inode(rows: Seq<(u64, u32, u16, Seq<u8>)>)
    ensures
        forall|i: int|
            0 <= i < rows.len() ==> exists|j: int|
                0 <= j < unique_inodes(rows).len() && #[trigger] unique_inodes(rows)[j].0 == (
                #[trigger] rows[i]).0,
    decreases rows.len(),
{
    if rows.len() > 0 {
        let t = rows.drop_last();
        collapsing_listeners_keeps_every_inode(t);
        let d = unique_inodes(t);
        let x = rows.last();
        let u = unique_inodes(rows);
        assert forall|i: int| 0 <= i < rows.len() implies exists|j: int|
            0 <= j < u.len() && #[trigger] u[j].0 == (#[trigger] rows[i]).0 by {
            if i < t.len() {
                assert(rows[i] == t[i]);
                let j = choose|j: int| 0 <= j < d.len() && #[trigger] d[j].0 == t[i].0;
                assert(u[j] == d[j]);
            } else if exists|k: int| 0 <= k < d.len() && (#[trigger] d[k]).0 == x.0 {
                let k = choose|k: int| 0 <= k < d.len() && (#[trigger] d[k]).0 == x.0;
                assert(u[k] == d[k]);
            } else {
                assert(u[d.len() as int] == x);
            }
        }
    }
}

} // verus!

verus! {

/// Every inode the `/proc/net/unix` lookup answers is a real socket
/// identity (never the undisclosed 0), and none is answered twice.
pub proof fn unix_socket_inodes_are_distinct_identities(table: Seq<u8>, path: Seq<u8>)
    ensures
        spec_unix_socket_inodes(table, path) matches Ok(v) ==> (forall|i: int|
            0 <= i < v.len() ==> #[trigger] v[i] > 0) && (forall|i: int, j: int|
            0 <= i < j < v.len() ==> #[trigger] v[i] != #[trigger] v[j]),
{
    let e0 = crate::scan::line_end(table, 0);
    if e0 < table.len() {
        lemma_matching_inodes_positive(table, e0 + 1, path);
        lemma_first_occurrences(matching_inodes(table, e0 + 1, path));
    }
}

proof fn lemma_matching_inodes_positive(table: Seq<u8>, i: int, path: Seq<u8>)
    ensures
        forall|k: int| 0 <= k < matching_inodes(table, i, path).len() ==> #[trigger] matching_inodes(
            table,
            i,
            path,
        )[k] > 0,
    decreases table.len() - i,
{
    if 0 <= i <= table.len() {
        crate::scan::lemma_line_end(table, i);
        let e = crate::scan::line_end(table, i);
        if e < table.len() {
            lemma_matching_inodes_positive(table, e + 1, path);
        }
        let m = matching_inodes(table, i, path);
        assert forall|k: int| 0 <= k < m.len() implies #[trigger] m[k] > 0 by {
            let here = match spec_split_unix_row(table.subrange(i, e)) {
                Some((inode, p)) => if p == path { seq![inode] } else { seq![] },
                None => seq![],
            };
            if k >= here.len() {
                assert(m[k] == matching_inodes(table, e + 1, path)[k - here.len()]);
            }
        }
    }
}

proof fn lemma_first_occurrences(s: Seq<u64>)
    ensures
        forall|i: int| 0 <= i < first_occurrences(s).len() ==> s.contains(#[trigger] first_occurrences(s)[i]),
        forall|i: int, j: int|
            0 <= i < j < first_occurrences(s).len() ==> #[trigger] first_occurrences(s)[i]
                != #[trigger] first_occurrences(s)[j],
    decreases s.len(),
{
    if s.len() > 0 {
        let t = s.drop_last();
        lemma_first_occurrences(t);
        let d = first_occurrences(t);
        let f = first_occurrences(s);
        assert forall|i: int| 0 <= i < f.len() implies s.contains(#[trigger] f[i]) by {
            if i < d.len() {
                assert(f[i] == d[i]);
                let k = choose|k: int| 0 <= k < t.len() && t[k] == d[i];
                assert(s[k] == d[i]);
            } else {
                assert(s[s.len() - 1] == f[i]);
            }
        }
        if !d.contains(s.last()) {
            assert forall|i: int, j: int| 0 <= i < j < f.len() implies #[trigger] f[i] != #[trigger] f[j] by {
                if j < d.len() {
                    assert(f[i] == d[i] && f[j] == d[j]);
                } else {
                    assert(f[i] == d[i]);
                }
            }
        }
    }
}

/// Every listener the darwin table yields has a non-zero port and a
/// non-empty address.
pub proof fn decoded_host_listeners_are_named(bytes: Seq<u8>)
    ensures
        spec_decode_host_listeners(bytes) matches Ok(rows) ==> forall|i: int|
            0 <= i < rows.len() ==> (#[trigger] rows[i]).0 != 0 && rows[i].1.len() > 0,
{
    if bytes.len() >= 4 {
        match spec_round_up_8(le_u32(bytes, 0)) {
            Some(o) => {
                if o <= bytes.len() {
                    lemma_walk_named(bytes, o, None);
                }
            },
            None => {},
        }
    }
}

proof fn lemma_walk_named(b: Seq<u8>, offset: int, pending: Option<(u16, Seq<char>)>)
    requires
        pending matches Some(p) ==> p.1.len() > 0,
    ensures
        walk_records(b, offset, pending) matches Ok(rows) ==> forall|i: int|
            0 <= i < rows.len() ==> (#[trigger] rows[i]).0 != 0 && rows[i].1.len() > 0,
    decreases b.len() + 8 - offset,
{
    if !(offset < 0 || offset + 8 > b.len()) {
        let len = le_u32(b, offset);
        let end = offset + len;
        if !(len < CLOSING_RECORD_LEN || end > b.len()) && len != CLOSING_RECORD_LEN {
            let kind = le_u32(b, offset + 4);
            let emitted: Seq<(u16, Seq<char>)> = if is_listen_record(b, offset) {
                match pending {
                    Some(r) => if r.0 != 0 { seq![r] } else { seq![] },
                    None => seq![],
                }
            } else {
                seq![]
            };
            let next_pending = if kind == XSO_INPCB && len >= 84 {
                Some(inpcb_listener(b, offset))
            } else if kind == XSO_TCPCB && len >= 40 {
                None
            } else {
                pending
            };
            assert(next_pending matches Some(p) ==> p.1.len() > 0);
            crate::pcblist::lemma_round_up_8(end);
            match spec_round_up_8(end) {
                Some(next) => {
                    lemma_walk_named(b, next, next_pending);
                    match walk_records(b, next, next_pending) {
                        Ok(rest) => {
                            let all = emitted + rest;
                            assert forall|i: int| 0 <= i < all.len() implies (#[trigger] all[i]).0 != 0
                                && all[i].1.len() > 0 by {
                                if i >= emitted.len() {
                                    assert(all[i] == rest[i - emitted.len()]);
                                }
                            }
                        },
                        Err(()) => {},
                    }
                },
                None => {},
            }
        }
    }
}

/// Every inode a path is bound under gets at least one holder row, so a
/// bound socket is never reported as "nobody holds it", and no inode means
/// no row.
pub proof fn a_bound_socket_always_has_a_holder_row(inodes: Seq<u64>, holdings: Seq<(u32, Seq<u64>)>)
    ensures
        holders_for(inodes, holdings).len() >= inodes.len(),
        holders_for(inodes, holdings).len() == 0 <==> inodes.len() == 0,
    decreases inodes.len(),
{
    if inodes.len() > 0 {
        a_bound_socket_always_has_a_holder_row(inodes.drop_last(), holdings);
    }
}

} // verus!

verus! {

/// The option at `i` names `name` and carries a value.
pub open spec fn names_option(tokens: Seq<Token>, i: int, name: Seq<char>) -> bool {
    tokens[i] matches Token::LongWithValue(n, _) && n@ == name
}

proof fn lemma_fold_remembers_scope(tokens: Seq<Token>, i: int, n: int, name: Seq<char>)
    requires
        0 <= i < n <= tokens.len(),
        name == "roots"@ || name == "pids"@,
        names_option(tokens, i, name),
    ensures
        snapshot_fold(tokens, n) matches Ok(st) ==> if name == "roots"@ {
            st.0 is Some
        } else {
            st.1 is Some
        },
    decreases n - i,
{
    if n > i + 1 {
        lemma_fold_remembers_scope(tokens, i, n - 1, name);
    }
}

/// `--roots` and `--pids` are mutually exclusive: an ask that names both,
/// in either order, is refused.
pub proof fn roots_and_pids_never_mix(tokens: Seq<Token>, i: int, j: int)
    requires
        0 <= i < tokens.len(),
        0 <= j < tokens.len(),
        (names_option(tokens, i, "roots"@) && names_option(tokens, j, "pids"@)) || (names_option(
            tokens,
            i,
            "pids"@,
        ) && names_option(tokens, j, "roots"@)),
        i < j,
    ensures
        snapshot_ask(tokens) is Err,
{
    reveal_strlit("roots");
    reveal_strlit("pids");
    let first = if names_option(tokens, i, "roots"@) { "roots"@ } else { "pids"@ };
    lemma_fold_remembers_scope(tokens, i, j, first);
    assert("roots"@.len() != "pids"@.len());
    match snapshot_fold(tokens, j) {
        Err(e) => {
            assert(snapshot_fold(tokens, j + 1) == Err::<crate::cli::SnapState, (bool, Seq<char>)>(e));
        },
        Ok(st) => {
            assert(tokens[j] matches Token::LongWithValue(n, _) && n@ != first);
            assert(crate::cli::snapshot_step(st, tokens[j]) is Err);
            assert(snapshot_fold(tokens, j + 1) == crate::cli::snapshot_step(st, tokens[j]));
        },
    }
    assert(snapshot_fold(tokens, j + 1) is Err);
    lemma_snapshot_fold_err(tokens, j + 1);
}

} // verus!

verus! {

/// How many times `c` occurs in `s`.
pub open spec fn occurrences(s: Seq<char>, c: char) -> nat
    decreases s.len(),
{
    if s.len() == 0 {
        0
    } else {
        occurrences(s.drop_last(), c) + if s.last() == c {
            1nat
        } else {
            0nat
        }
    }
}

proof fn lemma_occurrences_add(a: Seq<char>, b: Seq<char>, c: char)
    ensures
        occurrences(a + b, c) == occurrences(a, c) + occurrences(b, c),
    decreases b.len(),
{
    if b.len() == 0 {
        assert(a + b =~= a);
    } else {
        lemma_occurrences_add(a, b.drop_last(), c);
        assert((a + b).drop_last() =~= a + b.drop_last());
    }
}

proof fn lemma_occurrences_none(s: Seq<char>, c: char)
    requires
        forall|i: int| 0 <= i < s.len() ==> #[trigger] s[i] != c,
    ensures
        occurrences(s, c) == 0,
    decreases s.len(),
{
    if s.len() > 0 {
        let d = s.drop_last();
        assert forall|i: int| 0 <= i < d.len() implies #[trigger] d[i] != c by {
            assert(d[i] == s[i]);
        }
        lemma_occurrences_none(d, c);
    }
}

/// Text with neither a tab nor a line feed in it.
pub open spec fn is_inline(s: Seq<char>) -> bool {
    forall|i: int| 0 <= i < s.len() ==> #[trigger] s[i] != '\t' && s[i] != '\n'
}

proof fn lemma_inline_counts(s: Seq<char>)
    requires
        is_inline(s),
    ensures
        occurrences(s, '\t') == 0,
        occurrences(s, '\n') == 0,
{
    lemma_occurrences_none(s, '\t');
    lemma_occurrences_none(s, '\n');
}

proof fn lemma_decimal_inline(n: nat)
    ensures
        is_inline(decimal(n)),
    decreases n,
{
    if n >= 10 {
        lemma_decimal_inline(n / 10);
        let d = decimal(n);
        let c = digit_char((n % 10) as int);
        assert(c as int == (n % 10) + 48);
        assert forall|i: int| 0 <= i < d.len() implies #[trigger] d[i] != '\t' && d[i] != '\n' by {
            if i < d.len() - 1 {
                assert(d[i] == decimal(n / 10)[i]);
            }
        }
    } else {
        assert(digit_char(n as int) as int == n + 48);
    }
}

proof fn lemma_json_string_inline(s: Seq<char>)
    ensures
        is_inline(json_string(s)),
{
    json_string_has_no_delimiters(s);
}

proof fn lemma_json_items_inline(v: Seq<Seq<char>>)
    ensures
        is_inline(json_list_items(v)),
    decreases v.len(),
{
    if v.len() == 1 {
        lemma_json_string_inline(v[0]);
    } else if v.len() > 1 {
        lemma_json_items_inline(v.drop_last());
        lemma_json_string_inline(v.last());
        let a = json_list_items(v.drop_last());
        let b = json_string(v.last());
        let t = a + seq![','] + b;
        assert forall|i: int| 0 <= i < t.len() implies #[trigger] t[i] != '\t' && t[i] != '\n' by {
            if i < a.len() {
                assert(t[i] == a[i]);
            } else if i > a.len() {
                assert(t[i] == b[i - a.len() - 1]);
            }
        }
    }
}

/// Counts the tabs and line feeds of `a` + inline text + `b`.
proof fn lemma_counts3(a: Seq<char>, m: Seq<char>, b: Seq<char>, c: char)
    ensures
        occurrences(a + m + b, c) == occurrences(a, c) + occurrences(m, c) + occurrences(b, c),
{
    lemma_occurrences_add(a, m, c);
    lemma_occurrences_add(a + m, b, c);
}

/// A `P` row whose name was made safe has exactly four tab-separated
/// fields and one line feed, which ends it, whatever the raw name held.
pub proof fn a_process_row_has_four_fields(p: Proc, raw: Seq<char>)
    requires
        p.name@ == sanitized(raw),
    ensures
        occurrences(p.tsv_line(), '\t') == 3,
        occurrences(p.tsv_line(), '\n') == 1,
        p.tsv_line().last() == '\n',
{
    let pid = decimal(p.pid as nat);
    let ppid = decimal(p.ppid as nat);
    let name = p.name@;
    lemma_decimal_inline(p.pid as nat);
    lemma_decimal_inline(p.ppid as nat);
    sanitized_names_hold_no_delimiters(raw);
    assert(is_inline(name));
    lemma_inline_counts(pid);
    lemma_inline_counts(ppid);
    lemma_inline_counts(name);
    reveal_with_fuel(occurrences, 3);
    assert(p.tsv_line() =~= (("P\t"@ + pid + "\t"@) + ppid + ("\t"@ + name)) + "\n"@);
    assert(occurrences("P\t"@, '\t') == 1 && occurrences("P\t"@, '\n') == 0) by {
        reveal_strlit("P\t");
    }
    assert(occurrences("\t"@, '\t') == 1 && occurrences("\t"@, '\n') == 0) by {
        reveal_strlit("\t");
    }
    assert(occurrences("\n"@, '\t') == 0 && occurrences("\n"@, '\n') == 1) by {
        reveal_strlit("\n");
    }
    lemma_counts3("P\t"@, pid, "\t"@, '\t');
    lemma_counts3("P\t"@, pid, "\t"@, '\n');
    lemma_occurrences_add("\t"@, name, '\t');
    lemma_occurrences_add("\t"@, name, '\n');
    lemma_counts3("P\t"@ + pid + "\t"@, ppid, "\t"@ + name, '\t');
    lemma_counts3("P\t"@ + pid + "\t"@, ppid, "\t"@ + name, '\n');
    lemma_occurrences_add(("P\t"@ + pid + "\t"@) + ppid + ("\t"@ + name), "\n"@, '\t');
    lemma_occurrences_add(("P\t"@ + pid + "\t"@) + ppid + ("\t"@ + name), "\n"@, '\n');
    reveal_strlit("\n");
}

/// Counts the tabs and line feeds of a row `tag`, a pid column, a tab, an
/// inline field and a line feed.
proof fn lemma_tagged_row_counts(tag: Seq<char>, pid: u32, field: Seq<char>)
    requires
        is_inline(field),
        occurrences(tag, '\t') == 1,
        occurrences(tag, '\n') == 0,
    ensures
        occurrences(tag + decimal(pid as nat) + "\t"@ + field + "\n"@, '\t') == 2,
        occurrences(tag + decimal(pid as nat) + "\t"@ + field + "\n"@, '\n') == 1,
        (tag + decimal(pid as nat) + "\t"@ + field + "\n"@).last() == '\n',
{
    let d = decimal(pid as nat);
    lemma_decimal_inline(pid as nat);
    lemma_inline_counts(d);
    lemma_inline_counts(field);
    reveal_with_fuel(occurrences, 3);
    assert(occurrences("\t"@, '\t') == 1 && occurrences("\t"@, '\n') == 0) by {
        reveal_strlit("\t");
    }
    assert(occurrences("\n"@, '\t') == 0 && occurrences("\n"@, '\n') == 1) by {
        reveal_strlit("\n");
    }
    lemma_counts3(tag, d, "\t"@, '\t');
    lemma_counts3(tag, d, "\t"@, '\n');
    lemma_counts3(tag + d + "\t"@, field, "\n"@, '\t');
    lemma_counts3(tag + d + "\t"@, field, "\n"@, '\n');
    reveal_strlit("\n");
}

/// A `CWD` row has exactly three tab-separated fields and one line feed,
/// which ends it, whatever the directory's name holds.
pub proof fn a_cwd_row_has_three_fields(row: ProcessCwd)
    ensures
        occurrences(row.tsv_line(), '\t') == 2,
        occurrences(row.tsv_line(), '\n') == 1,
        row.tsv_line().last() == '\n',
{
    lemma_json_string_inline(row.cwd@);
    reveal_with_fuel(occurrences, 5);
    assert(occurrences("CWD\t"@, '\t') == 1 && occurrences("CWD\t"@, '\n') == 0) by {
        reveal_strlit("CWD\t");
    }
    lemma_tagged_row_counts("CWD\t"@, row.pid, json_string(row.cwd@));
}

/// An `ARGV` row has exactly three tab-separated fields and one line feed,
/// which ends it, whatever the arguments hold.
pub proof fn an_argv_row_has_three_fields(row: ProcessArgv)
    ensures
        occurrences(row.tsv_line(), '\t') == 2,
        occurrences(row.tsv_line(), '\n') == 1,
        row.tsv_line().last() == '\n',
{
    let v = row.argv@.map_values(|a: String| a@);
    let items = json_list_items(v);
    lemma_json_items_inline(v);
    let field = json_string_array(v);
    assert(field =~= seq!['['] + items + seq![']']);
    assert forall|i: int| 0 <= i < field.len() implies #[trigger] field[i] != '\t' && field[i]
        != '\n' by {
        if 0 < i < field.len() - 1 {
            assert(field[i] == items[i - 1]);
        }
    }
    reveal_with_fuel(occurrences, 6);
    assert(occurrences("ARGV\t"@, '\t') == 1 && occurrences("ARGV\t"@, '\n') == 0) by {
        reveal_strlit("ARGV\t");
    }
    lemma_tagged_row_counts("ARGV\t"@, row.pid, field);
}

} // verus!

verus! {

/// The tab-separated fields of `s`, as splitting on every tab gives them:
/// text with no tab is one field.
pub open spec fn tab_fields(s: Seq<char>) -> Seq<Seq<char>>
    decreases s.len(),
{
    if s.len() == 0 {
        seq![seq![]]
    } else {
        let f = tab_fields(s.drop_last());
        if s.last() == '\t' {
            f.push(seq![])
        } else {
            f.update(f.len() - 1, f.last().push(s.last()))
        }
    }
}

/// The text of a TSV line: the line without its final line feed.
pub open spec fn line_text(line: Seq<char>) -> Seq<char> {
    line.drop_last()
}

proof fn lemma_tab_fields_nonempty(s: Seq<char>)
    ensures
        tab_fields(s).len() >= 1,
    decreases s.len(),
{
    if s.len() > 0 {
        lemma_tab_fields_nonempty(s.drop_last());
    }
}

proof fn lemma_tab_fields_plain(s: Seq<char>)
    requires
        forall|i: int| 0 <= i < s.len() ==> #[trigger] s[i] != '\t',
    ensures
        tab_fields(s) == seq![s],
    decreases s.len(),
{
    if s.len() > 0 {
        let d = s.drop_last();
        assert forall|i: int| 0 <= i < d.len() implies #[trigger] d[i] != '\t' by {
            assert(d[i] == s[i]);
        }
        lemma_tab_fields_plain(d);
        assert(d.push(s.last()) =~= s);
        assert(tab_fields(s) =~= seq![s]);
    } else {
        assert(s =~= Seq::<char>::empty());
    }
}

proof fn lemma_tab_fields_join(a: Seq<char>, b: Seq<char>)
    ensures
        tab_fields(a + seq!['\t'] + b) == tab_fields(a) + tab_fields(b),
    decreases b.len(),
{
    let s = a + seq!['\t'] + b;
    if b.len() == 0 {
        assert(s.drop_last() =~= a);
        assert(s.last() == '\t');
        assert(tab_fields(b) =~= seq![seq![]]);
        assert(tab_fields(s) =~= tab_fields(a) + tab_fields(b));
    } else {
        lemma_tab_fields_join(a, b.drop_last());
        lemma_tab_fields_nonempty(b.drop_last());
        assert(s.drop_last() =~= a + seq!['\t'] + b.drop_last());
        assert(s.last() == b.last());
        let fa = tab_fields(a);
        let fb = tab_fields(b.drop_last());
        if b.last() == '\t' {
            assert(tab_fields(s) =~= fa + fb.push(seq![]));
        } else {
            assert((fa + fb).last() == fb.last());
            assert(tab_fields(s) =~= fa + fb.update(fb.len() - 1, fb.last().push(b.last())));
        }
    }
}

/// Columns joined by tabs.
pub open spec fn joined(cols: Seq<Seq<char>>) -> Seq<char>
    decreases cols.len(),
{
    if cols.len() <= 1 {
        if cols.len() == 1 {
            cols[0]
        } else {
            seq![]
        }
    } else {
        joined(cols.drop_last()) + seq!['\t'] + cols.last()
    }
}

/// Splitting columns joined by tabs gives the columns back, when none
/// holds a tab.
proof fn lemma_split_joined(cols: Seq<Seq<char>>)
    requires
        cols.len() >= 1,
        forall|k: int, i: int| 0 <= k < cols.len() && 0 <= i < cols[k].len() ==> #[trigger] cols[k][i] != '\t',
    ensures
        tab_fields(joined(cols)) == cols,
    decreases cols.len(),
{
    if cols.len() == 1 {
        lemma_tab_fields_plain(cols[0]);
        assert(seq![cols[0]] =~= cols);
    } else {
        let d = cols.drop_last();
        assert forall|k: int, i: int| 0 <= k < d.len() && 0 <= i < d[k].len() implies #[trigger] d[k][i] != '\t' by {
            assert(d[k] == cols[k]);
        }
        lemma_split_joined(d);
        let l = cols.last();
        assert forall|i: int| 0 <= i < l.len() implies #[trigger] l[i] != '\t' by {
            assert(cols[cols.len() - 1][i] == l[i]);
        }
        lemma_tab_fields_plain(l);
        lemma_tab_fields_join(joined(d), l);
        assert(d + seq![l] =~= cols);
    }
}

proof fn lemma_no_tab_inline(s: Seq<char>)
    requires
        is_inline(s),
    ensures
        forall|i: int| 0 <= i < s.len() ==> #[trigger] s[i] != '\t',
{
}

proof fn lemma_signed_inline(n: int)
    ensures
        is_inline(crate::text::signed_decimal(n)),
{
    if n < 0 {
        lemma_decimal_inline((-n) as nat);
        let d = decimal((-n) as nat);
        let s = seq!['-'] + d;
        assert forall|i: int| 0 <= i < s.len() implies #[trigger] s[i] != '\t' && s[i] != '\n' by {
            if i > 0 {
                assert(s[i] == d[i - 1]);
            }
        }
    } else {
        lemma_decimal_inline(n as nat);
    }
}

proof fn lemma_optional_inline(v: Option<u32>)
    ensures
        is_inline(crate::schema::optional_column(v)),
{
    match v {
        Some(x) => lemma_decimal_inline(x as nat),
        None => {
            reveal_strlit("-");
        },
    }
}

/// Checks that a row's text splits into `cols` and ends its line.
proof fn lemma_row_columns(line: Seq<char>, cols: Seq<Seq<char>>)
    requires
        cols.len() >= 1,
        forall|k: int| 0 <= k < cols.len() ==> is_inline(#[trigger] cols[k]),
        line == joined(cols) + seq!['\n'],
    ensures
        tab_fields(line_text(line)) == cols,
        line.last() == '\n',
{
    assert forall|k: int, i: int| 0 <= k < cols.len() && 0 <= i < cols[k].len() implies #[trigger] cols[k][i] != '\t' by {
        assert(is_inline(cols[k]));
    }
    lemma_split_joined(cols);
    assert(line_text(line) =~= joined(cols));
}

proof fn lemma_joined3(a: Seq<char>, b: Seq<char>, c: Seq<char>)
    ensures
        joined(seq![a, b, c]) == a + seq!['\t'] + b + seq!['\t'] + c,
{
    let s = seq![a, b, c];
    assert(s.drop_last() =~= seq![a, b]);
    assert(seq![a, b].drop_last() =~= seq![a]);
    assert(joined(seq![a]) == a);
    assert(joined(seq![a, b]) == a + seq!['\t'] + b);
}

proof fn lemma_joined4(a: Seq<char>, b: Seq<char>, c: Seq<char>, d: Seq<char>)
    ensures
        joined(seq![a, b, c, d]) == a + seq!['\t'] + b + seq!['\t'] + c + seq!['\t'] + d,
{
    lemma_joined3(a, b, c);
    assert(seq![a, b, c, d].drop_last() =~= seq![a, b, c]);
}

proof fn lemma_joined5(a: Seq<char>, b: Seq<char>, c: Seq<char>, d: Seq<char>, e: Seq<char>)
    ensures
        joined(seq![a, b, c, d, e]) == a + seq!['\t'] + b + seq!['\t'] + c + seq!['\t'] + d + seq![
            '\t',
        ] + e,
{
    lemma_joined4(a, b, c, d);
    assert(seq![a, b, c, d, e].drop_last() =~= seq![a, b, c, d]);
}

proof fn lemma_tags()
    ensures
        "P\t"@ == "P"@ + seq!['\t'],
        "M\t"@ == "M"@ + seq!['\t'],
        "S\t"@ == "S"@ + seq!['\t'],
        "C\t"@ == "C"@ + seq!['\t'],
        "UID\t"@ == "UID"@ + seq!['\t'],
        "CWD\t"@ == "CWD"@ + seq!['\t'],
        "STAT\t"@ == "STAT"@ + seq!['\t'],
        "ARGV\t"@ == "ARGV"@ + seq!['\t'],
        "\t"@ == seq!['\t'],
        "\n"@ == seq!['\n'],
        is_inline("P"@),
        is_inline("M"@),
        is_inline("S"@),
        is_inline("C"@),
        is_inline("UID"@),
        is_inline("CWD"@),
        is_inline("STAT"@),
        is_inline("ARGV"@),
{
    reveal_strlit("P\t");
    reveal_strlit("M\t");
    reveal_strlit("S\t");
    reveal_strlit("C\t");
    reveal_strlit("UID\t");
    reveal_strlit("CWD\t");
    reveal_strlit("STAT\t");
    reveal_strlit("ARGV\t");
    reveal_strlit("P");
    reveal_strlit("M");
    reveal_strlit("S");
    reveal_strlit("C");
    reveal_strlit("UID");
    reveal_strlit("CWD");
    reveal_strlit("STAT");
    reveal_strlit("ARGV");
    reveal_strlit("\t");
    reveal_strlit("\n");
    assert("P\t"@ =~= "P"@ + seq!['\t']);
    assert("M\t"@ =~= "M"@ + seq!['\t']);
    assert("S\t"@ =~= "S"@ + seq!['\t']);
    assert("C\t"@ =~= "C"@ + seq!['\t']);
    assert("UID\t"@ =~= "UID"@ + seq!['\t']);
    assert("CWD\t"@ =~= "CWD"@ + seq!['\t']);
    assert("STAT\t"@ =~= "STAT"@ + seq!['\t']);
    assert("ARGV\t"@ =~= "ARGV"@ + seq!['\t']);
}

/// Every per-pid TSV row names its pid in its second column, in decimal,
/// after its tag; the `M`, `S`, `C` and `UID` rows carry their number in
/// the third, a `P` row its parent pid there, a `CWD` row the JSON string
/// of the directory, an `ARGV` row the JSON array of the arguments, and a
/// `STAT` row its nice value and thread count in the fourth and fifth.
/// Each row ends its line.
#[verifier::spinoff_prover]
#[verifier::rlimit(40)]
pub proof fn per_pid_rows_lead_with_their_pid(
    m: crate::schema::Memory,
    s: crate::schema::StartTime,
    c: crate::schema::ProcessCpuTime,
    u: crate::schema::ProcessUid,
    p: Proc,
    w: ProcessCwd,
    st: crate::schema::ProcessStatus,
    a: ProcessArgv,
)
    ensures
        tab_fields(line_text(m.tsv_line())) == seq!["M"@, decimal(m.pid as nat), decimal(m.rss_bytes as nat)],
        tab_fields(line_text(s.tsv_line())) == seq!["S"@, decimal(s.pid as nat), decimal(s.start_unix_us as nat)],
        tab_fields(line_text(c.tsv_line())) == seq!["C"@, decimal(c.pid as nat), decimal(c.cpu_time_us as nat)],
        tab_fields(line_text(u.tsv_line())) == seq!["UID"@, decimal(u.pid as nat), decimal(u.uid as nat)],
        tab_fields(line_text(p.tsv_line()))[0] == "P"@,
        tab_fields(line_text(p.tsv_line()))[1] == decimal(p.pid as nat),
        tab_fields(line_text(p.tsv_line()))[2] == decimal(p.ppid as nat),
        tab_fields(line_text(w.tsv_line())) == seq!["CWD"@, decimal(w.pid as nat), json_string(w.cwd@)],
        tab_fields(line_text(a.tsv_line())) == seq![
            "ARGV"@,
            decimal(a.pid as nat),
            json_string_array(a.argv@.map_values(|v: String| v@)),
        ],
        tab_fields(line_text(st.tsv_line()))[0] == "STAT"@,
        tab_fields(line_text(st.tsv_line()))[1] == decimal(st.pid as nat),
        tab_fields(line_text(st.tsv_line())).len() >= 5,
        st.state != '\t' ==> tab_fields(line_text(st.tsv_line())) == seq![
            "STAT"@,
            decimal(st.pid as nat),
            seq![st.state],
            crate::text::signed_decimal(st.nice as int),
            crate::schema::optional_column(st.threads),
        ],
        m.tsv_line().last() == '\n' && s.tsv_line().last() == '\n' && c.tsv_line().last() == '\n'
            && u.tsv_line().last() == '\n' && p.tsv_line().last() == '\n' && w.tsv_line().last()
            == '\n' && a.tsv_line().last() == '\n' && st.tsv_line().last() == '\n',
{
    lemma_tags();
    lemma_decimal_inline(m.pid as nat);
    lemma_decimal_inline(m.rss_bytes as nat);
    lemma_decimal_inline(s.pid as nat);
    lemma_decimal_inline(s.start_unix_us as nat);
    lemma_decimal_inline(c.pid as nat);
    lemma_decimal_inline(c.cpu_time_us as nat);
    lemma_decimal_inline(u.pid as nat);
    lemma_decimal_inline(u.uid as nat);
    lemma_decimal_inline(p.pid as nat);
    lemma_decimal_inline(p.ppid as nat);
    lemma_decimal_inline(w.pid as nat);
    lemma_decimal_inline(a.pid as nat);
    lemma_decimal_inline(st.pid as nat);
    lemma_json_string_inline(w.cwd@);
    let av = a.argv@.map_values(|v: String| v@);
    lemma_json_items_inline(av);
    let ja = json_string_array(av);
    assert(is_inline(ja)) by {
        let items = json_list_items(av);
        assert(ja =~= seq!['['] + items + seq![']']);
        assert forall|i: int| 0 <= i < ja.len() implies #[trigger] ja[i] != '\t' && ja[i] != '\n' by {
            if 0 < i < ja.len() - 1 {
                assert(ja[i] == items[i - 1]);
            }
        }
    }
    lemma_signed_inline(st.nice as int);
    lemma_optional_inline(st.threads);

    let mc = seq!["M"@, decimal(m.pid as nat), decimal(m.rss_bytes as nat)];
    lemma_joined3(mc[0], mc[1], mc[2]);
    lemma_row_columns(m.tsv_line(), mc);

    let sc = seq!["S"@, decimal(s.pid as nat), decimal(s.start_unix_us as nat)];
    lemma_joined3(sc[0], sc[1], sc[2]);
    lemma_row_columns(s.tsv_line(), sc);

    let cc = seq!["C"@, decimal(c.pid as nat), decimal(c.cpu_time_us as nat)];
    lemma_joined3(cc[0], cc[1], cc[2]);
    lemma_row_columns(c.tsv_line(), cc);

    let uc = seq!["UID"@, decimal(u.pid as nat), decimal(u.uid as nat)];
    lemma_joined3(uc[0], uc[1], uc[2]);
    lemma_row_columns(u.tsv_line(), uc);

    let wc = seq!["CWD"@, decimal(w.pid as nat), json_string(w.cwd@)];
    lemma_joined3(wc[0], wc[1], wc[2]);
    lemma_row_columns(w.tsv_line(), wc);

    let ac = seq!["ARGV"@, decimal(a.pid as nat), ja];
    lemma_joined3(ac[0], ac[1], ac[2]);
    lemma_row_columns(a.tsv_line(), ac);

    // P: the name may hold anything, so split the row before the name.
    let ptext = line_text(p.tsv_line());
    let pc = seq!["P"@, decimal(p.pid as nat), decimal(p.ppid as nat)];
    lemma_joined3(pc[0], pc[1], pc[2]);
    assert forall|k: int, i: int| 0 <= k < pc.len() && 0 <= i < pc[k].len() implies #[trigger] pc[k][i] != '\t' by {
        assert(is_inline(pc[k]));
    }
    lemma_split_joined(pc);
    assert(ptext =~= joined(pc) + seq!['\t'] + p.name@);
    lemma_tab_fields_join(joined(pc), p.name@);
    lemma_tab_fields_nonempty(p.name@);

    // STAT: the state is one character, which may in principle be a tab.
    let stext = line_text(st.tsv_line());
    let nice = crate::text::signed_decimal(st.nice as int);
    let thr = crate::schema::optional_column(st.threads);
    let head = seq!["STAT"@, decimal(st.pid as nat)];
    assert(joined(head) == "STAT"@ + seq!['\t'] + decimal(st.pid as nat)) by {
        assert(head.drop_last() =~= seq!["STAT"@]);
        assert(seq!["STAT"@][0] == "STAT"@);
        assert(joined(seq!["STAT"@]) == "STAT"@);
        assert(head.last() == decimal(st.pid as nat));
    }
    assert forall|k: int, i: int| 0 <= k < head.len() && 0 <= i < head[k].len() implies #[trigger] head[k][i] != '\t' by {
        assert(is_inline(head[k]));
    }
    lemma_split_joined(head);
    let tail2 = seq![nice, thr];
    assert(joined(tail2) == nice + seq!['\t'] + thr) by {
        assert(tail2.drop_last() =~= seq![nice]);
        assert(seq![nice][0] == nice);
        assert(joined(seq![nice]) == nice);
        assert(tail2.last() == thr);
    }
    assert forall|k: int, i: int| 0 <= k < tail2.len() && 0 <= i < tail2[k].len() implies #[trigger] tail2[k][i] != '\t' by {
        assert(is_inline(tail2[k]));
    }
    lemma_split_joined(tail2);
    assert(stext =~= joined(head) + seq!['\t'] + (seq![st.state] + seq!['\t'] + joined(tail2)));
    lemma_tab_fields_join(joined(head), seq![st.state] + seq!['\t'] + joined(tail2));
    lemma_tab_fields_join(seq![st.state], joined(tail2));
    lemma_tab_fields_nonempty(seq![st.state]);
    if st.state != '\t' {
        lemma_tab_fields_plain(seq![st.state]);
        assert(tab_fields(stext) =~= seq!["STAT"@, decimal(st.pid as nat), seq![st.state], nice, thr]);
    }
}

} // verus!

verus! {

/// A snapshot that carries any row other than a source error succeeds,
/// whatever sources went blind; one with nothing but source errors fails;
/// one with no source error succeeds.
pub proof fn a_snapshot_with_any_fact_succeeds(s: Snapshot)
    ensures
        (s.procs@.len() > 0 || s.memory@.len() > 0 || s.start_times@.len() > 0
            || s.cpu_times@.len() > 0 || s.uids@.len() > 0 || s.cwds@.len() > 0
            || s.statuses@.len() > 0 || s.argv@.len() > 0 || s.ports@.len() > 0
            || s.unreadable@.len() > 0) ==> spec_exit_code(s) == 0,
        (s.procs@.len() == 0 && s.memory@.len() == 0 && s.start_times@.len() == 0
            && s.cpu_times@.len() == 0 && s.uids@.len() == 0 && s.cwds@.len() == 0
            && s.statuses@.len() == 0 && s.argv@.len() == 0 && s.ports@.len() == 0
            && s.unreadable@.len() == 0 && s.errors@.len() > 0) ==> spec_exit_code(s) == 1,
        s.errors@.len() == 0 ==> spec_exit_code(s) == 0,
{
}

/// A holder document with any holder, process or `U` row succeeds; one
/// with nothing but source errors fails; one with no source error, the
/// empty "nobody holds it" answer included, succeeds.
pub proof fn a_holder_document_with_any_fact_succeeds(h: SocketHolders)
    ensures
        (h.holders@.len() > 0 || h.procs@.len() > 0 || h.unreadable@.len() > 0) ==> spec_exit_code(h)
            == 0,
        (h.holders@.len() == 0 && h.procs@.len() == 0 && h.unreadable@.len() == 0
            && h.errors@.len() > 0) ==> spec_exit_code(h) == 1,
        h.errors@.len() == 0 ==> spec_exit_code(h) == 0,
{
}

/// A host document with any gauge succeeds; one with nothing but source
/// errors fails; one with no source error succeeds.
pub proof fn a_host_document_with_any_fact_succeeds(h: HostSnapshot)
    ensures
        (h.load is Some || h.memory is Some || h.swap is Some || h.uptime_us is Some
            || h.cpus@.len() > 0 || h.networks@.len() > 0 || h.disks@.len() > 0) ==> spec_exit_code(h)
            == 0,
        (h.load is None && h.memory is None && h.swap is None && h.uptime_us is None
            && h.cpus@.len() == 0 && h.networks@.len() == 0 && h.disks@.len() == 0
            && h.errors@.len() > 0) ==> spec_exit_code(h) == 1,
        h.errors@.len() == 0 ==> spec_exit_code(h) == 0,
{
}

/// After normalizing, every per-pid block is ordered by pid and holds
/// exactly the rows it held before; listener rows are ordered by port,
/// then by claiming pid with unclaimed rows last among a port's rows.
pub proof fn normalizing_orders_each_block_by_pid(s: Snapshot, before: Snapshot)
    requires
        s.normal_form_of(before),
    ensures
        forall|i: int, j: int| 0 <= i < j < s.procs@.len() ==> s.procs@[i].pid <= s.procs@[j].pid,
        forall|i: int, j: int| 0 <= i < j < s.memory@.len() ==> s.memory@[i].pid <= s.memory@[j].pid,
        forall|i: int, j: int|
            0 <= i < j < s.start_times@.len() ==> s.start_times@[i].pid <= s.start_times@[j].pid,
        forall|i: int, j: int|
            0 <= i < j < s.cpu_times@.len() ==> s.cpu_times@[i].pid <= s.cpu_times@[j].pid,
        forall|i: int, j: int| 0 <= i < j < s.uids@.len() ==> s.uids@[i].pid <= s.uids@[j].pid,
        forall|i: int, j: int| 0 <= i < j < s.cwds@.len() ==> s.cwds@[i].pid <= s.cwds@[j].pid,
        forall|i: int, j: int|
            0 <= i < j < s.statuses@.len() ==> s.statuses@[i].pid <= s.statuses@[j].pid,
        forall|i: int, j: int| 0 <= i < j < s.argv@.len() ==> s.argv@[i].pid <= s.argv@[j].pid,
        forall|i: int, j: int|
            0 <= i < j < s.ports@.len() ==> s.ports@[i].port <= s.ports@[j].port,
        forall|i: int, j: int|
            0 <= i < j < s.ports@.len() && s.ports@[i].port == s.ports@[j].port ==> (match (
                s.ports@[i].attribution,
                s.ports@[j].attribution,
            ) {
                (Attribution::Claimed { pid: a }, Attribution::Claimed { pid: b }) => a <= b,
                (Attribution::Unclaimed, Attribution::Claimed { pid: b }) => b == u32::MAX,
                _ => true,
            }),
        forall|i: int, j: int|
            0 <= i < j < s.ports@.len() && s.ports@[i].port == s.ports@[j].port
                && s.ports@[i].attribution == s.ports@[j].attribution ==> crate::order::lex_le(
                encode_utf8(s.ports@[i].address@),
                encode_utf8(s.ports@[j].address@),
            ),
        s.procs@.to_multiset() == before.procs@.to_multiset(),
        s.memory@.to_multiset() == before.memory@.to_multiset(),
        s.start_times@.to_multiset() == before.start_times@.to_multiset(),
        s.cpu_times@.to_multiset() == before.cpu_times@.to_multiset(),
        s.uids@.to_multiset() == before.uids@.to_multiset(),
        s.cwds@.to_multiset() == before.cwds@.to_multiset(),
        s.statuses@.to_multiset() == before.statuses@.to_multiset(),
        s.argv@.to_multiset() == before.argv@.to_multiset(),
        s.ports@.to_multiset() == before.ports@.to_multiset(),
        s.errors@ == before.errors@,
{
    lemma_stable_sorted(before.procs@);
    lemma_stable_sorted(before.memory@);
    lemma_stable_sorted(before.start_times@);
    lemma_stable_sorted(before.cpu_times@);
    lemma_stable_sorted(before.uids@);
    lemma_stable_sorted(before.cwds@);
    lemma_stable_sorted(before.statuses@);
    lemma_stable_sorted(before.argv@);
    lemma_stable_sorted(before.ports@);
    assert forall|i: int, j: int|
        0 <= i < j < s.procs@.len() implies s.procs@[i].pid <= s.procs@[j].pid by {
        assert(s.procs@[i].ranks_before(s.procs@[j]));
    }
    assert forall|i: int, j: int|
        0 <= i < j < s.memory@.len() implies s.memory@[i].pid <= s.memory@[j].pid by {
        assert(s.memory@[i].ranks_before(s.memory@[j]));
    }
    assert forall|i: int, j: int|
        0 <= i < j < s.start_times@.len() implies s.start_times@[i].pid <= s.start_times@[j].pid by {
        assert(s.start_times@[i].ranks_before(s.start_times@[j]));
    }
    assert forall|i: int, j: int|
        0 <= i < j < s.cpu_times@.len() implies s.cpu_times@[i].pid <= s.cpu_times@[j].pid by {
        assert(s.cpu_times@[i].ranks_before(s.cpu_times@[j]));
    }
    assert forall|i: int, j: int|
        0 <= i < j < s.uids@.len() implies s.uids@[i].pid <= s.uids@[j].pid by {
        assert(s.uids@[i].ranks_before(s.uids@[j]));
    }
    assert forall|i: int, j: int|
        0 <= i < j < s.cwds@.len() implies s.cwds@[i].pid <= s.cwds@[j].pid by {
        assert(s.cwds@[i].ranks_before(s.cwds@[j]));
    }
    assert forall|i: int, j: int|
        0 <= i < j < s.statuses@.len() implies s.statuses@[i].pid <= s.statuses@[j].pid by {
        assert(s.statuses@[i].ranks_before(s.statuses@[j]));
    }
    assert forall|i: int, j: int|
        0 <= i < j < s.argv@.len() implies s.argv@[i].pid <= s.argv@[j].pid by {
        assert(s.argv@[i].ranks_before(s.argv@[j]));
    }
    assert forall|i: int, j: int|
        0 <= i < j < s.ports@.len() implies s.ports@[i].port <= s.ports@[j].port && (s.ports@[i].port
        == s.ports@[j].port ==> crate::schema::claim_rank(s.ports@[i].attribution)
        <= crate::schema::claim_rank(s.ports@[j].attribution)) && (s.ports@[i].port
        == s.ports@[j].port && s.ports@[i].attribution == s.ports@[j].attribution
        ==> crate::order::lex_le(encode_utf8(s.ports@[i].address@), encode_utf8(s.ports@[j].address@))) by {
        assert(s.ports@[i].ranks_before(s.ports@[j]));
    }
}

} // verus!

verus! {

/// Some argument is the long flag `--name`.
pub open spec fn names_flag(tokens: Seq<Token>, name: Seq<char>) -> bool {
    exists|i: int| 0 <= i < tokens.len() && #[trigger] long_name(tokens[i]) == Some(name)
}

/// The name of a long flag without a value.
pub open spec fn long_name(t: Token) -> Option<Seq<char>> {
    match t {
        Token::Long(n) => Some(n@),
        _ => None,
    }
}

/// The flag position of an argument, -1 when it is no flag.
spec fn flag_pos(t: Token) -> int {
    match t {
        Token::Long(n) => crate::cli::snapshot_flag(n@),
        _ => -1,
    }
}

/// A flag name's own position, by its spelling alone.
proof fn lemma_flag_positions(n: Seq<char>)
    ensures
        crate::cli::snapshot_flag(n) == 0 <==> n == "procs"@,
        crate::cli::snapshot_flag(n) == 1 <==> n == "ports"@,
        crate::cli::snapshot_flag(n) == 2 <==> n == "mem"@,
        crate::cli::snapshot_flag(n) == 3 <==> n == "start-time"@,
        crate::cli::snapshot_flag(n) == 4 <==> n == "cpu-time"@,
        crate::cli::snapshot_flag(n) == 5 <==> n == "uid"@,
        crate::cli::snapshot_flag(n) == 6 <==> n == "cwd"@,
        crate::cli::snapshot_flag(n) == 7 <==> n == "status"@,
        crate::cli::snapshot_flag(n) == 8 <==> n == "argv"@,
        crate::cli::snapshot_flag(n) == 9 <==> n == "json"@,
        crate::cli::snapshot_flag(n) < 10,
{
    reveal_strlit("procs");
    reveal_strlit("ports");
    reveal_strlit("mem");
    reveal_strlit("start-time");
    reveal_strlit("cpu-time");
    reveal_strlit("uid");
    reveal_strlit("cwd");
    reveal_strlit("status");
    reveal_strlit("argv");
    reveal_strlit("json");
    assert("procs"@ != "ports"@) by {
        assert("procs"@[2] != "ports"@[2]);
    }
    assert("mem"@ != "uid"@ && "mem"@ != "cwd"@ && "uid"@ != "cwd"@) by {
        assert("mem"@[0] != "uid"@[0] && "mem"@[0] != "cwd"@[0] && "uid"@[0] != "cwd"@[0]);
    }
    assert("argv"@ != "json"@) by {
        assert("argv"@[0] != "json"@[0]);
    }
    assert("procs"@.len() == 5);
    assert("ports"@.len() == 5);
    assert("mem"@.len() == 3);
    assert("start-time"@.len() == 10);
    assert("cpu-time"@.len() == 8);
    assert("uid"@.len() == 3);
    assert("cwd"@.len() == 3);
    assert("status"@.len() == 6);
    assert("argv"@.len() == 4);
    assert("json"@.len() == 4);
    assert("procs"@ != "mem"@);
    assert("procs"@ != "start-time"@);
    assert("procs"@ != "cpu-time"@);
    assert("procs"@ != "uid"@);
    assert("procs"@ != "cwd"@);
    assert("procs"@ != "status"@);
    assert("procs"@ != "argv"@);
    assert("procs"@ != "json"@);
    assert("ports"@ != "mem"@);
    assert("ports"@ != "start-time"@);
    assert("ports"@ != "cpu-time"@);
    assert("ports"@ != "uid"@);
    assert("ports"@ != "cwd"@);
    assert("ports"@ != "status"@);
    assert("ports"@ != "argv"@);
    assert("ports"@ != "json"@);
    assert("mem"@ != "start-time"@);
    assert("mem"@ != "cpu-time"@);
    assert("mem"@ != "status"@);
    assert("mem"@ != "argv"@);
    assert("mem"@ != "json"@);
    assert("start-time"@ != "cpu-time"@);
    assert("start-time"@ != "uid"@);
    assert("start-time"@ != "cwd"@);
    assert("start-time"@ != "status"@);
    assert("start-time"@ != "argv"@);
    assert("start-time"@ != "json"@);
    assert("cpu-time"@ != "uid"@);
    assert("cpu-time"@ != "cwd"@);
    assert("cpu-time"@ != "status"@);
    assert("cpu-time"@ != "argv"@);
    assert("cpu-time"@ != "json"@);
    assert("uid"@ != "status"@);
    assert("uid"@ != "argv"@);
    assert("uid"@ != "json"@);
    assert("cwd"@ != "status"@);
    assert("cwd"@ != "argv"@);
    assert("cwd"@ != "json"@);
    assert("status"@ != "argv"@);
    assert("status"@ != "json"@);
}

/// After the first `n` arguments, flag `k` is set exactly when one of
/// them is a long flag in position `k`.
proof fn lemma_fold_sets_flags(tokens: Seq<Token>, n: int)
    requires
        0 <= n <= tokens.len(),
        snapshot_fold(tokens, n) is Ok,
    ensures
        snapshot_fold(tokens, n)->Ok_0.2.len() == 10,
        forall|k: int|
            0 <= k < 10 ==> (#[trigger] snapshot_fold(tokens, n)->Ok_0.2[k] <==> exists|i: int|
                0 <= i < n && #[trigger] flag_pos(tokens[i]) == k),
    decreases n,
{
    if n > 0 {
        assert(snapshot_fold(tokens, n - 1) is Ok);
        lemma_fold_sets_flags(tokens, n - 1);
        let st = snapshot_fold(tokens, n - 1)->Ok_0;
        let st2 = snapshot_fold(tokens, n)->Ok_0;
        let t = tokens[n - 1];
        assert(crate::cli::snapshot_step(st, t) == snapshot_fold(tokens, n));
        assert(flag_pos(t) >= 0 ==> st2.2 == st.2.update(flag_pos(t), true)) by {
            match t {
                Token::Long(m) => {},
                _ => {},
            }
        }
        assert(flag_pos(t) < 0 ==> st2.2 == st.2) by {
            match t {
                Token::Long(m) => {},
                Token::LongWithValue(m, v) => {},
                _ => {},
            }
        }
        assert forall|k: int| 0 <= k < 10 implies (#[trigger] st2.2[k] <==> exists|i: int|
            0 <= i < n && #[trigger] flag_pos(tokens[i]) == k) by {
            if st.2[k] {
                let i = choose|i: int|
                    0 <= i < n - 1 && #[trigger] flag_pos(tokens[i]) == k;
            }
            if exists|i: int|
                0 <= i < n && #[trigger] flag_pos(tokens[i]) == k {
                let i = choose|i: int|
                    0 <= i < n && #[trigger] flag_pos(tokens[i]) == k;
                if i < n - 1 {
                    assert(st.2[k]);
                }
            }
        }
    }
}

/// Each facet flag of `snapshot` sets the field of its own name and no
/// other: in every ask that parses, a field is set exactly when the
/// arguments hold its flag.
pub proof fn each_snapshot_flag_sets_its_own_field(tokens: Seq<Token>, args: SnapshotArgs)
    requires
        snapshot_ask(tokens) matches Ok(a) && snapshot_flags(args) == a.1,
    ensures
        args.procs == names_flag(tokens, "procs"@),
        args.ports == names_flag(tokens, "ports"@),
        args.mem == names_flag(tokens, "mem"@),
        args.start_time == names_flag(tokens, "start-time"@),
        args.cpu_time == names_flag(tokens, "cpu-time"@),
        args.uid == names_flag(tokens, "uid"@),
        args.cwd == names_flag(tokens, "cwd"@),
        args.status == names_flag(tokens, "status"@),
        args.argv == names_flag(tokens, "argv"@),
        args.json == names_flag(tokens, "json"@),
{
    let n = tokens.len() as int;
    lemma_fold_sets_flags(tokens, n);
    let f = snapshot_fold(tokens, n)->Ok_0.2;
    let flags = snapshot_flags(args);
    assert(flags == f);
    let words = seq![
        "procs"@, "ports"@, "mem"@, "start-time"@, "cpu-time"@, "uid"@, "cwd"@, "status"@, "argv"@,
        "json"@,
    ];
    assert forall|k: int| 0 <= k < 10 implies (#[trigger] flags[k] == names_flag(tokens, words[k])) by {
        if flags[k] {
            let i = choose|i: int|
                0 <= i < n && #[trigger] flag_pos(tokens[i]) == k;
            let m = tokens[i]->Long_0;
            lemma_flag_positions(m@);
            assert(long_name(tokens[i]) == Some(words[k]));
        }
        if names_flag(tokens, words[k]) {
            let i = choose|i: int| 0 <= i < tokens.len() && #[trigger] long_name(tokens[i]) == Some(words[k]);
            let m = tokens[i]->Long_0;
            lemma_flag_positions(m@);
            assert(flag_pos(tokens[i]) == k);
            assert(f[k]);
        }
    }
    assert(flags[0] == args.procs && flags[1] == args.ports && flags[2] == args.mem);
    assert(flags[6] == args.cwd && flags[7] == args.status);
}

} // verus!

verus! {

/// `v` lists the rows of `rows` once per inode: every inode of `rows` is
/// in `v`, every row of `v` is the first row of `rows` with its inode,
/// and no inode is in `v` twice.
pub open spec fn lists_rows_once(v: Seq<(u64, u32, u16, Seq<u8>)>, rows: Seq<(u64, u32, u16, Seq<u8>)>) -> bool {
    &&& forall|i: int|
        0 <= i < rows.len() ==> exists|k: int| 0 <= k < v.len() && #[trigger] v[k].0 == (#[trigger] rows[i]).0
    &&& forall|k: int|
        0 <= k < v.len() ==> exists|m: int|
            0 <= m < rows.len() && rows[m] == #[trigger] v[k] && forall|j: int|
                0 <= j < m ==> (#[trigger] rows[j]).0 != v[k].0
    &&& forall|k: int, l: int| 0 <= k < l < v.len() ==> (#[trigger] v[k]).0 != (#[trigger] v[l]).0
}

proof fn lemma_unique_last_first(rows: Seq<(u64, u32, u16, Seq<u8>)>)
    requires
        rows.len() > 0,
        !(exists|i: int|
            0 <= i < unique_inodes(rows.drop_last()).len() && (#[trigger] unique_inodes(
                rows.drop_last(),
            )[i]).0 == rows.last().0),
    ensures
        forall|j: int| 0 <= j < rows.len() - 1 ==> (#[trigger] rows[j]).0 != rows.last().0,
{
    let t = rows.drop_last();
    collapsing_listeners_keeps_every_inode(t);
    let d = unique_inodes(t);
    assert forall|j: int| 0 <= j < rows.len() - 1 implies (#[trigger] rows[j]).0 != rows.last().0 by {
        assert(rows[j] == t[j]);
        let q = choose|q: int| 0 <= q < d.len() && #[trigger] d[q].0 == (#[trigger] t[j]).0;
    }
}

#[verifier::spinoff_prover]
proof fn lemma_unique_keeps_first(rows: Seq<(u64, u32, u16, Seq<u8>)>)
    ensures
        forall|k: int|
            0 <= k < unique_inodes(rows).len() ==> exists|m: int|
                0 <= m < rows.len() && rows[m] == #[trigger] unique_inodes(rows)[k] && forall|j: int|
                    0 <= j < m ==> (#[trigger] rows[j]).0 != unique_inodes(rows)[k].0,
    decreases rows.len(),
{
    if rows.len() > 0 {
        let t = rows.drop_last();
        lemma_unique_keeps_first(t);
        let d = unique_inodes(t);
        let x = rows.last();
        let u = unique_inodes(rows);
        let fresh = !(exists|i: int| 0 <= i < d.len() && (#[trigger] d[i]).0 == x.0);
        if fresh {
            lemma_unique_last_first(rows);
        }
        assert forall|k: int| 0 <= k < u.len() implies exists|m: int|
            0 <= m < rows.len() && rows[m] == #[trigger] u[k] && forall|j: int|
                0 <= j < m ==> (#[trigger] rows[j]).0 != u[k].0 by {
            if k < d.len() {
                assert(u[k] == d[k]);
                let m = choose|m: int|
                    0 <= m < t.len() && t[m] == d[k] && forall|j: int| 0 <= j < m ==> (#[trigger] t[j]).0 != d[k].0;
                assert(rows[m] == t[m]);
                assert forall|j: int| 0 <= j < m implies (#[trigger] rows[j]).0 != u[k].0 by {
                    assert(rows[j] == t[j]);
                }
            } else {
                assert(u[k] == x);
                assert(rows[rows.len() - 1] == x);
            }
        }
    }
}

proof fn lemma_unique_lists_once(rows: Seq<(u64, u32, u16, Seq<u8>)>)
    ensures
        lists_rows_once(unique_inodes(rows), rows),
{
    collapsing_listeners_keeps_every_inode(rows);
    lemma_unique_keeps_first(rows);
    listeners_have_distinct_inodes(rows);
}

/// Reading both listener tables lists every listening socket of both,
/// `/proc/net/tcp` rows first, once per inode: each inode of either table,
/// the IPv6 one included, is in the result, as the first row that names
/// it. Without an IPv6 table (`ENOENT`) the result is the IPv4 table's.
pub proof fn both_listener_tables_are_read(t: Seq<char>, t6: Seq<char>)
    requires
        proc_net_listeners(t) is Some,
    ensures
        proc_net_listeners(t6) is Some ==> (listeners_outcome(Ok(t), Ok(t6)) matches Ok(v)
            && lists_rows_once(v, proc_net_listeners(t)->0 + proc_net_listeners(t6)->0)),
        listeners_outcome(Ok(t), Err(platform_errno(Errno::Enoent))) matches Ok(v) && lists_rows_once(
            v,
            proc_net_listeners(t)->0,
        ),
{
    let a = proc_net_listeners(t)->0;
    lemma_unique_lists_once(a);
    if proc_net_listeners(t6) is Some {
        lemma_unique_lists_once(a + proc_net_listeners(t6)->0);
    }
}

} // verus!

verus! {

spec fn host_flag_pos(t: Token) -> int {
    match t {
        Token::Long(n) => crate::cli::host_flag(n@),
        _ => -1,
    }
}

proof fn lemma_host_flag_positions(n: Seq<char>)
    ensures
        crate::cli::host_flag(n) == 0 <==> n == "load"@,
        crate::cli::host_flag(n) == 1 <==> n == "mem"@,
        crate::cli::host_flag(n) == 2 <==> n == "cpu"@,
        crate::cli::host_flag(n) == 3 <==> n == "net"@,
        crate::cli::host_flag(n) == 4 <==> n == "disk"@,
        crate::cli::host_flag(n) == 5 <==> n == "json"@,
        crate::cli::host_flag(n) < 6,
{
    reveal_strlit("load");
    reveal_strlit("mem");
    reveal_strlit("cpu");
    reveal_strlit("net");
    reveal_strlit("disk");
    reveal_strlit("json");
    assert("load"@.len() == 4);
    assert("mem"@.len() == 3);
    assert("cpu"@.len() == 3);
    assert("net"@.len() == 3);
    assert("disk"@.len() == 4);
    assert("json"@.len() == 4);
    assert("mem"@ != "cpu"@ && "mem"@ != "net"@ && "cpu"@ != "net"@) by {
        assert("mem"@[0] != "cpu"@[0] && "mem"@[0] != "net"@[0] && "cpu"@[0] != "net"@[0]);
    }
    assert("load"@ != "disk"@ && "load"@ != "json"@ && "disk"@ != "json"@) by {
        assert("load"@[0] != "disk"@[0] && "load"@[0] != "json"@[0] && "disk"@[0] != "json"@[0]);
    }
    assert("load"@ != "mem"@ && "load"@ != "cpu"@ && "load"@ != "net"@);
    assert("disk"@ != "mem"@ && "disk"@ != "cpu"@ && "disk"@ != "net"@);
    assert("json"@ != "mem"@ && "json"@ != "cpu"@ && "json"@ != "net"@);
}

proof fn lemma_host_fold_sets_flags(tokens: Seq<Token>, n: int)
    requires
        0 <= n <= tokens.len(),
        crate::cli::host_fold(tokens, n) is Ok,
    ensures
        crate::cli::host_fold(tokens, n)->Ok_0.len() == 6,
        forall|k: int|
            0 <= k < 6 ==> (#[trigger] crate::cli::host_fold(tokens, n)->Ok_0[k] <==> exists|i: int|
                0 <= i < n && #[trigger] host_flag_pos(tokens[i]) == k),
    decreases n,
{
    if n > 0 {
        assert(crate::cli::host_fold(tokens, n - 1) is Ok);
        lemma_host_fold_sets_flags(tokens, n - 1);
        let st = crate::cli::host_fold(tokens, n - 1)->Ok_0;
        let st2 = crate::cli::host_fold(tokens, n)->Ok_0;
        let t = tokens[n - 1];
        assert(crate::cli::host_step(st, t) == crate::cli::host_fold(tokens, n));
        assert(host_flag_pos(t) >= 0 && st2 == st.update(host_flag_pos(t), true)) by {
            match t {
                Token::Long(m) => {},
                _ => {},
            }
        }
        assert forall|k: int| 0 <= k < 6 implies (#[trigger] st2[k] <==> exists|i: int|
            0 <= i < n && #[trigger] host_flag_pos(tokens[i]) == k) by {
            if st[k] {
                let i = choose|i: int| 0 <= i < n - 1 && #[trigger] host_flag_pos(tokens[i]) == k;
            }
            if exists|i: int| 0 <= i < n && #[trigger] host_flag_pos(tokens[i]) == k {
                let i = choose|i: int| 0 <= i < n && #[trigger] host_flag_pos(tokens[i]) == k;
                if i < n - 1 {
                    assert(st[k]);
                }
            }
        }
    }
}

/// Each flag of `host` sets the field of its own name and no other: in
/// every ask that parses, a field is set exactly when the arguments hold
/// its flag.
pub proof fn each_host_flag_sets_its_own_field(tokens: Seq<Token>, args: crate::cli::HostArgs)
    requires
        crate::cli::host_ask(tokens) matches Ok(a) && crate::cli::host_flags(args) == a,
    ensures
        args.load == names_flag(tokens, "load"@),
        args.mem == names_flag(tokens, "mem"@),
        args.cpu == names_flag(tokens, "cpu"@),
        args.net == names_flag(tokens, "net"@),
        args.disk == names_flag(tokens, "disk"@),
        args.json == names_flag(tokens, "json"@),
{
    let n = tokens.len() as int;
    lemma_host_fold_sets_flags(tokens, n);
    let f = crate::cli::host_fold(tokens, n)->Ok_0;
    let flags = crate::cli::host_flags(args);
    assert(flags == f);
    let words = seq!["load"@, "mem"@, "cpu"@, "net"@, "disk"@, "json"@];
    assert forall|k: int| 0 <= k < 6 implies (#[trigger] flags[k] == names_flag(tokens, words[k])) by {
        if flags[k] {
            let i = choose|i: int| 0 <= i < n && #[trigger] host_flag_pos(tokens[i]) == k;
            let m = tokens[i]->Long_0;
            lemma_host_flag_positions(m@);
            assert(long_name(tokens[i]) == Some(words[k]));
        }
        if names_flag(tokens, words[k]) {
            let i = choose|i: int| 0 <= i < tokens.len() && #[trigger] long_name(tokens[i]) == Some(words[k]);
            let m = tokens[i]->Long_0;
            lemma_host_flag_positions(m@);
            assert(host_flag_pos(tokens[i]) == k);
            assert(f[k]);
        }
    }
    assert(flags[0] == args.load && flags[1] == args.mem && flags[2] == args.cpu);
    assert(flags[3] == args.net && flags[4] == args.disk && flags[5] == args.json);
}

proof fn lemma_holders_fold_flags(tokens: Seq<Token>, n: int)
    requires
        0 <= n <= tokens.len(),
        crate::cli::holders_fold(tokens, n) is Ok,
    ensures
        crate::cli::holders_fold(tokens, n)->Ok_0.1 <==> exists|i: int|
            0 <= i < n && #[trigger] long_name(tokens[i]) == Some("procs"@),
        crate::cli::holders_fold(tokens, n)->Ok_0.2 <==> exists|i: int|
            0 <= i < n && #[trigger] long_name(tokens[i]) == Some("json"@),
    decreases n,
{
    reveal_strlit("procs");
    reveal_strlit("json");
    assert("procs"@ != "json"@) by {
        assert("procs"@.len() != "json"@.len());
    }
    if n > 0 {
        assert(crate::cli::holders_fold(tokens, n - 1) is Ok);
        lemma_holders_fold_flags(tokens, n - 1);
        let st = crate::cli::holders_fold(tokens, n - 1)->Ok_0;
        let t = tokens[n - 1];
        assert(crate::cli::holders_step(st, t) == crate::cli::holders_fold(tokens, n));
        let st2 = crate::cli::holders_fold(tokens, n)->Ok_0;
        assert(st2.1 == (st.1 || long_name(t) == Some("procs"@))
            && st2.2 == (st.2 || long_name(t) == Some("json"@))) by {
            match t {
                Token::Long(m) => {},
                Token::Value(v) => {},
                _ => {},
            }
        }
        if exists|i: int| 0 <= i < n - 1 && #[trigger] long_name(tokens[i]) == Some("procs"@) {
            let i = choose|i: int| 0 <= i < n - 1 && #[trigger] long_name(tokens[i]) == Some("procs"@);
            assert(0 <= i < n && long_name(tokens[i]) == Some("procs"@));
        }
        if exists|i: int| 0 <= i < n - 1 && #[trigger] long_name(tokens[i]) == Some("json"@) {
            let i = choose|i: int| 0 <= i < n - 1 && #[trigger] long_name(tokens[i]) == Some("json"@);
            assert(0 <= i < n && long_name(tokens[i]) == Some("json"@));
        }
        if exists|i: int| 0 <= i < n && #[trigger] long_name(tokens[i]) == Some("procs"@) {
            let i = choose|i: int| 0 <= i < n && #[trigger] long_name(tokens[i]) == Some("procs"@);
            if i < n - 1 {
                assert(exists|j: int| 0 <= j < n - 1 && #[trigger] long_name(tokens[j]) == Some("procs"@));
            }
        }
        if exists|i: int| 0 <= i < n && #[trigger] long_name(tokens[i]) == Some("json"@) {
            let i = choose|i: int| 0 <= i < n && #[trigger] long_name(tokens[i]) == Some("json"@);
            if i < n - 1 {
                assert(exists|j: int| 0 <= j < n - 1 && #[trigger] long_name(tokens[j]) == Some("json"@));
            }
        }
    }
}

/// `socket-holders --procs` asks for holder names and `--json` for JSON,
/// each exactly when its flag is given, in every ask that parses.
pub proof fn each_holder_flag_sets_its_own_field(tokens: Seq<Token>, args: crate::cli::SocketHoldersArgs)
    requires
        crate::cli::holders_ask(tokens) matches Ok(a) && args.procs == a.1 && args.json == a.2,
    ensures
        args.procs == names_flag(tokens, "procs"@),
        args.json == names_flag(tokens, "json"@),
{
    lemma_holders_fold_flags(tokens, tokens.len() as int);
}

} // verus!

verus! {

proof fn lemma_more_tags()
    ensures
        "U\t"@ == "U"@ + seq!['\t'],
        "E\t"@ == "E"@ + seq!['\t'],
        "L\t"@ == "L"@ + seq!['\t'],
        "H\t"@ == "H"@ + seq!['\t'],
        "V\t"@ == "V"@ + seq!['\t'],
        "HLOAD\t"@ == "HLOAD"@ + seq!['\t'],
        "HMEM\t"@ == "HMEM"@ + seq!['\t'],
        "HSWAP\t"@ == "HSWAP"@ + seq!['\t'],
        "HCPU\t"@ == "HCPU"@ + seq!['\t'],
        "HNET\t"@ == "HNET"@ + seq!['\t'],
        "HDISK\t"@ == "HDISK"@ + seq!['\t'],
        "\t"@ == seq!['\t'],
        "\n"@ == seq!['\n'],
        is_inline("U"@),
        is_inline("E"@),
        is_inline("L"@),
        is_inline("H"@),
        is_inline("V"@),
        is_inline("HLOAD"@),
        is_inline("HMEM"@),
        is_inline("HSWAP"@),
        is_inline("HCPU"@),
        is_inline("HNET"@),
        is_inline("HDISK"@),
        is_inline("claimed"@),
        is_inline("unclaimed"@),
        is_inline("-"@),
{
    reveal_strlit("U\t");
    reveal_strlit("E\t");
    reveal_strlit("L\t");
    reveal_strlit("H\t");
    reveal_strlit("V\t");
    reveal_strlit("HLOAD\t");
    reveal_strlit("HMEM\t");
    reveal_strlit("HSWAP\t");
    reveal_strlit("HCPU\t");
    reveal_strlit("HNET\t");
    reveal_strlit("HDISK\t");
    reveal_strlit("U");
    reveal_strlit("E");
    reveal_strlit("L");
    reveal_strlit("H");
    reveal_strlit("V");
    reveal_strlit("HLOAD");
    reveal_strlit("HMEM");
    reveal_strlit("HSWAP");
    reveal_strlit("HCPU");
    reveal_strlit("HNET");
    reveal_strlit("HDISK");
    reveal_strlit("claimed");
    reveal_strlit("unclaimed");
    reveal_strlit("-");
    reveal_strlit("\t");
    reveal_strlit("\n");
    assert("U\t"@ =~= "U"@ + seq!['\t']);
    assert("E\t"@ =~= "E"@ + seq!['\t']);
    assert("L\t"@ =~= "L"@ + seq!['\t']);
    assert("H\t"@ =~= "H"@ + seq!['\t']);
    assert("V\t"@ =~= "V"@ + seq!['\t']);
    assert("HLOAD\t"@ =~= "HLOAD"@ + seq!['\t']);
    assert("HMEM\t"@ =~= "HMEM"@ + seq!['\t']);
    assert("HSWAP\t"@ =~= "HSWAP"@ + seq!['\t']);
    assert("HCPU\t"@ =~= "HCPU"@ + seq!['\t']);
    assert("HNET\t"@ =~= "HNET"@ + seq!['\t']);
    assert("HDISK\t"@ =~= "HDISK"@ + seq!['\t']);
}

proof fn lemma_facet_name_inline(f: crate::schema::Facet)
    ensures
        is_inline(crate::schema::facet_name(f)),
{
    reveal_strlit("proc");
    reveal_strlit("ports");
    reveal_strlit("ports_unclaimed");
    reveal_strlit("ports_uid");
    reveal_strlit("mem");
    reveal_strlit("start_time");
    reveal_strlit("cpu_time");
    reveal_strlit("uid");
    reveal_strlit("cwd");
    reveal_strlit("status");
    reveal_strlit("status_threads");
    reveal_strlit("argv");
    reveal_strlit("socket_holders");
    reveal_strlit("uptime");
    reveal_strlit("load");
    reveal_strlit("cpu");
    reveal_strlit("net");
    reveal_strlit("disk");
}

proof fn lemma_attribution_inline(a: Attribution)
    ensures
        is_inline(crate::schema::attribution_status(a)),
        is_inline(crate::schema::attribution_pid(a)),
{
    lemma_more_tags();
    match a {
        Attribution::Claimed { pid } => lemma_decimal_inline(pid as nat),
        Attribution::Unclaimed => {},
    }
}

proof fn lemma_optional_u64_inline(v: Option<u64>)
    ensures
        is_inline(crate::schema::optional_u64_column(v)),
{
    lemma_more_tags();
    match v {
        Some(x) => lemma_decimal_inline(x as nat),
        None => {},
    }
}

/// The `U`, `E`, `L` and `H` rows keep their columns: a `U` row is its
/// tag, pid, facet and errno; an `E` row its tag, source, facet and code;
/// an `L` row its tag, claim status, claiming pid (or `-`), owning uid (or
/// `-`), port and address; an `H` row its tag, claim status and pid (or
/// `-`). Free text is a column of its own when it holds no tab or line
/// feed. Each row ends its line.
#[verifier::spinoff_prover]
#[verifier::rlimit(40)]
pub proof fn blindness_and_listener_rows_keep_their_columns(
    u: Unreadable,
    e: crate::schema::SourceError,
    l: crate::schema::Port,
    h: Attribution,
)
    ensures
        is_inline(u.errno@) ==> tab_fields(line_text(u.tsv_line())) == seq![
            "U"@,
            decimal(u.pid as nat),
            crate::schema::facet_name(u.facet),
            u.errno@,
        ],
        is_inline(e.source@) && is_inline(e.code@) ==> tab_fields(line_text(e.tsv_line())) == seq![
            "E"@,
            e.source@,
            crate::schema::facet_name(e.facet),
            e.code@,
        ],
        is_inline(l.address@) ==> tab_fields(line_text(l.tsv_line())) == seq![
            "L"@,
            crate::schema::attribution_status(l.attribution),
            crate::schema::attribution_pid(l.attribution),
            crate::schema::optional_column(l.uid),
            decimal(l.port as nat),
            l.address@,
        ],
        tab_fields(line_text(h.tsv_line())) == seq![
            "H"@,
            crate::schema::attribution_status(h),
            crate::schema::attribution_pid(h),
        ],
        u.tsv_line().last() == '\n' && e.tsv_line().last() == '\n' && l.tsv_line().last() == '\n'
            && h.tsv_line().last() == '\n',
{
    lemma_more_tags();
    reveal_with_fuel(joined, 7);
    lemma_decimal_inline(u.pid as nat);
    lemma_decimal_inline(l.port as nat);
    lemma_facet_name_inline(u.facet);
    lemma_facet_name_inline(e.facet);
    lemma_attribution_inline(l.attribution);
    lemma_attribution_inline(h);
    lemma_optional_inline(l.uid);
    if is_inline(u.errno@) {
        let c = seq!["U"@, decimal(u.pid as nat), crate::schema::facet_name(u.facet), u.errno@];
        lemma_joined4(c[0], c[1], c[2], c[3]);
        lemma_row_columns(u.tsv_line(), c);
    }
    if is_inline(e.source@) && is_inline(e.code@) {
        let c = seq!["E"@, e.source@, crate::schema::facet_name(e.facet), e.code@];
        lemma_joined4(c[0], c[1], c[2], c[3]);
        lemma_row_columns(e.tsv_line(), c);
    }
    if is_inline(l.address@) {
        let c = seq![
            "L"@,
            crate::schema::attribution_status(l.attribution),
            crate::schema::attribution_pid(l.attribution),
            crate::schema::optional_column(l.uid),
            decimal(l.port as nat),
            l.address@,
        ];
        lemma_joined5(c[0], c[1], c[2], c[3], c[4]);
        assert(c.drop_last() =~= seq![c[0], c[1], c[2], c[3], c[4]]);
        assert(joined(c) == joined(c.drop_last()) + seq!['\t'] + c.last());
        lemma_row_columns(l.tsv_line(), c);
    }
    let hc = seq!["H"@, crate::schema::attribution_status(h), crate::schema::attribution_pid(h)];
    lemma_joined3(hc[0], hc[1], hc[2]);
    lemma_row_columns(h.tsv_line(), hc);
    reveal_strlit("\n");
}

/// The host rows keep their columns: `HMEM` total and available bytes,
/// `HSWAP` total and used, `HCPU` core, user, system, idle and other
/// microseconds, model (as JSON) and MHz (or `-`), `HNET` name, received
/// and sent bytes, `HDISK` mount, total, available and free bytes, and
/// `HLOAD` the three averages; free text is a column of its own when it
/// holds no tab or line feed. Each row ends its line.
#[verifier::spinoff_prover]
#[verifier::rlimit(40)]
pub proof fn host_rows_keep_their_columns(
    m: crate::schema::HostMemory,
    w: crate::schema::Swap,
    c: crate::schema::Cpu,
    n: crate::schema::Network,
    d: crate::schema::Disk,
    ld: crate::schema::Load,
)
    ensures
        tab_fields(line_text(m.tsv_line())) == seq![
            "HMEM"@,
            decimal(m.total_bytes as nat),
            decimal(m.available_bytes as nat),
        ],
        tab_fields(line_text(w.tsv_line())) == seq![
            "HSWAP"@,
            decimal(w.total_bytes as nat),
            decimal(w.used_bytes as nat),
        ],
        tab_fields(line_text(c.tsv_line())) == seq![
            "HCPU"@,
            decimal(c.core as nat),
            decimal(c.user_us as nat),
            decimal(c.system_us as nat),
            decimal(c.idle_us as nat),
            decimal(c.other_us as nat),
            json_string(c.model@),
            crate::schema::optional_u64_column(c.frequency_mhz),
        ],
        is_inline(n.name@) ==> tab_fields(line_text(n.tsv_line())) == seq![
            "HNET"@,
            n.name@,
            decimal(n.rx_bytes as nat),
            decimal(n.tx_bytes as nat),
        ],
        is_inline(d.mount@) ==> tab_fields(line_text(d.tsv_line())) == seq![
            "HDISK"@,
            d.mount@,
            decimal(d.total_bytes as nat),
            decimal(d.available_bytes as nat),
            decimal(d.free_bytes as nat),
        ],
        is_inline(ld.one@) && is_inline(ld.five@) && is_inline(ld.fifteen@) ==> tab_fields(
            line_text(ld.tsv_line()),
        ) == seq!["HLOAD"@, ld.one@, ld.five@, ld.fifteen@],
{
    lemma_more_tags();
    reveal_with_fuel(joined, 9);
    lemma_decimal_inline(m.total_bytes as nat);
    lemma_decimal_inline(m.available_bytes as nat);
    lemma_decimal_inline(w.total_bytes as nat);
    lemma_decimal_inline(w.used_bytes as nat);
    lemma_decimal_inline(c.core as nat);
    lemma_decimal_inline(c.user_us as nat);
    lemma_decimal_inline(c.system_us as nat);
    lemma_decimal_inline(c.idle_us as nat);
    lemma_decimal_inline(c.other_us as nat);
    lemma_json_string_inline(c.model@);
    lemma_optional_u64_inline(c.frequency_mhz);
    lemma_decimal_inline(n.rx_bytes as nat);
    lemma_decimal_inline(n.tx_bytes as nat);
    lemma_decimal_inline(d.total_bytes as nat);
    lemma_decimal_inline(d.available_bytes as nat);
    lemma_decimal_inline(d.free_bytes as nat);
    let mc = seq!["HMEM"@, decimal(m.total_bytes as nat), decimal(m.available_bytes as nat)];
    lemma_joined3(mc[0], mc[1], mc[2]);
    lemma_row_columns(m.tsv_line(), mc);
    let wc = seq!["HSWAP"@, decimal(w.total_bytes as nat), decimal(w.used_bytes as nat)];
    lemma_joined3(wc[0], wc[1], wc[2]);
    lemma_row_columns(w.tsv_line(), wc);
    let cc = seq![
        "HCPU"@,
        decimal(c.core as nat),
        decimal(c.user_us as nat),
        decimal(c.system_us as nat),
        decimal(c.idle_us as nat),
        decimal(c.other_us as nat),
        json_string(c.model@),
        crate::schema::optional_u64_column(c.frequency_mhz),
    ];
    lemma_joined5(cc[0], cc[1], cc[2], cc[3], cc[4]);
    let c6 = seq![cc[0], cc[1], cc[2], cc[3], cc[4], cc[5]];
    let c7 = c6.push(cc[6]);
    assert(c6.drop_last() =~= seq![cc[0], cc[1], cc[2], cc[3], cc[4]]);
    assert(c7.drop_last() =~= c6);
    assert(cc.drop_last() =~= c7);
    assert(joined(c6) == joined(seq![cc[0], cc[1], cc[2], cc[3], cc[4]]) + seq!['\t'] + cc[5]);
    assert(joined(c7) == joined(c6) + seq!['\t'] + cc[6]);
    assert(joined(cc) == joined(c7) + seq!['\t'] + cc[7]);
    lemma_row_columns(c.tsv_line(), cc);
    if is_inline(n.name@) {
        let nc = seq!["HNET"@, n.name@, decimal(n.rx_bytes as nat), decimal(n.tx_bytes as nat)];
        lemma_joined4(nc[0], nc[1], nc[2], nc[3]);
        lemma_row_columns(n.tsv_line(), nc);
    }
    if is_inline(d.mount@) {
        let dc = seq![
            "HDISK"@,
            d.mount@,
            decimal(d.total_bytes as nat),
            decimal(d.available_bytes as nat),
            decimal(d.free_bytes as nat),
        ];
        lemma_joined5(dc[0], dc[1], dc[2], dc[3], dc[4]);
        lemma_row_columns(d.tsv_line(), dc);
    }
    if is_inline(ld.one@) && is_inline(ld.five@) && is_inline(ld.fifteen@) {
        let lc = seq!["HLOAD"@, ld.one@, ld.five@, ld.fifteen@];
        lemma_joined4(lc[0], lc[1], lc[2], lc[3]);
        lemma_row_columns(ld.tsv_line(), lc);
    }
}

} // verus!

verus! {

/// Normalizing keeps the rows of one pid in the order they were read, in
/// every per-pid block: the sort by pid is stable.
pub proof fn normalizing_keeps_each_pids_rows_in_reading_order(s: Snapshot, before: Snapshot, pid: u32)
    requires
        s.normal_form_of(before),
    ensures
        s.procs@.filter(|r: Proc| r.pid == pid) == before.procs@.filter(|r: Proc| r.pid == pid),
        s.memory@.filter(|r: crate::schema::Memory| r.pid == pid) == before.memory@.filter(|r: crate::schema::Memory| r.pid == pid),
        s.start_times@.filter(|r: crate::schema::StartTime| r.pid == pid) == before.start_times@.filter(|r: crate::schema::StartTime| r.pid == pid),
        s.cpu_times@.filter(|r: crate::schema::ProcessCpuTime| r.pid == pid) == before.cpu_times@.filter(|r: crate::schema::ProcessCpuTime| r.pid == pid),
        s.uids@.filter(|r: crate::schema::ProcessUid| r.pid == pid) == before.uids@.filter(|r: crate::schema::ProcessUid| r.pid == pid),
        s.cwds@.filter(|r: ProcessCwd| r.pid == pid) == before.cwds@.filter(|r: ProcessCwd| r.pid == pid),
        s.statuses@.filter(|r: crate::schema::ProcessStatus| r.pid == pid) == before.statuses@.filter(|r: crate::schema::ProcessStatus| r.pid == pid),
        s.argv@.filter(|r: ProcessArgv| r.pid == pid) == before.argv@.filter(|r: ProcessArgv| r.pid == pid),
{
    crate::order::lemma_stable_by_key(before.procs@, |r: Proc| r.pid as int, pid as int);
    assert((|r: Proc| (|q: Proc| q.pid as int)(r) == pid as int) =~= (|r: Proc| r.pid == pid));
    crate::order::lemma_stable_by_key(before.memory@, |r: crate::schema::Memory| r.pid as int, pid as int);
    assert((|r: crate::schema::Memory| (|q: crate::schema::Memory| q.pid as int)(r) == pid as int) =~= (|r: crate::schema::Memory| r.pid == pid));
    crate::order::lemma_stable_by_key(before.start_times@, |r: crate::schema::StartTime| r.pid as int, pid as int);
    assert((|r: crate::schema::StartTime| (|q: crate::schema::StartTime| q.pid as int)(r) == pid as int) =~= (|r: crate::schema::StartTime| r.pid == pid));
    crate::order::lemma_stable_by_key(before.cpu_times@, |r: crate::schema::ProcessCpuTime| r.pid as int, pid as int);
    assert((|r: crate::schema::ProcessCpuTime| (|q: crate::schema::ProcessCpuTime| q.pid as int)(r) == pid as int) =~= (|r: crate::schema::ProcessCpuTime| r.pid == pid));
    crate::order::lemma_stable_by_key(before.uids@, |r: crate::schema::ProcessUid| r.pid as int, pid as int);
    assert((|r: crate::schema::ProcessUid| (|q: crate::schema::ProcessUid| q.pid as int)(r) == pid as int) =~= (|r: crate::schema::ProcessUid| r.pid == pid));
    crate::order::lemma_stable_by_key(before.cwds@, |r: ProcessCwd| r.pid as int, pid as int);
    assert((|r: ProcessCwd| (|q: ProcessCwd| q.pid as int)(r) == pid as int) =~= (|r: ProcessCwd| r.pid == pid));
    crate::order::lemma_stable_by_key(before.statuses@, |r: crate::schema::ProcessStatus| r.pid as int, pid as int);
    assert((|r: crate::schema::ProcessStatus| (|q: crate::schema::ProcessStatus| q.pid as int)(r) == pid as int) =~= (|r: crate::schema::ProcessStatus| r.pid == pid));
    crate::order::lemma_stable_by_key(before.argv@, |r: ProcessArgv| r.pid as int, pid as int);
    assert((|r: ProcessArgv| (|q: ProcessArgv| q.pid as int)(r) == pid as int) =~= (|r: ProcessArgv| r.pid == pid));
}

} // verus!

verus! {

/// `line` of `s` is a listening socket's row that describes `l`: its
/// fourth column is the state `0A`, its tenth the inode and its eighth the
/// uid in decimal, and its second column is `ADDR:PORT` with the port in
/// hexadecimal after its last `:` and the address in `/proc` hex before
/// it; port and inode are not 0.
pub open spec fn listen_line(s: Seq<char>, line: (int, int), l: (u64, u32, u16, Seq<u8>)) -> bool {
    let cols = crate::chars::fields(s, line.0, line.1);
    &&& cols.len() >= 10
    &&& cols[3] == "0A"@
    &&& crate::chars::parse_uint(cols[9], 10, u64::MAX as nat) == Some(l.0 as nat)
    &&& crate::chars::parse_uint(cols[7], 10, u32::MAX as nat) == Some(l.1 as nat)
    &&& exists|c: int|
        0 <= c < cols[1].len() && cols[1][c] == ':' && (forall|k: int|
            c < k < cols[1].len() ==> cols[1][k] != ':') && crate::chars::parse_uint(
            #[trigger] cols[1].skip(c + 1),
            16,
            u16::MAX as nat,
        ) == Some(l.2 as nat) && crate::proc_addr::spec_decode_proc_hex(cols[1].take(c)) == Ok::<
            Seq<u8>,
            (),
        >(l.3)
    &&& l.0 > 0 && l.2 > 0
}

proof fn lemma_row_is_listen_line(s: Seq<char>, line: (int, int))
    requires
        listener_row(s, line) is Some,
    ensures
        listen_line(s, line, listener_row(s, line)->Some_0),
{
    let cols = crate::chars::fields(s, line.0, line.1);
    let local = cols[1];
    crate::chars::lemma_rfind_char(local, 0, local.len() as int, ':');
    let c = crate::chars::rfind_char(local, 0, local.len() as int, ':')->Some_0;
    assert(local[c] == ':');
    assert(crate::chars::parse_uint(local.skip(c + 1), 16, u16::MAX as nat) is Some);
}

proof fn lemma_rows_from_lines(s: Seq<char>, lines: Seq<(int, int)>, n: int)
    ensures
        forall|i: int|
            0 <= i < listener_rows(s, lines, n).len() ==> exists|j: int|
                0 <= j < lines.len() && listen_line(s, lines[j], #[trigger] listener_rows(s, lines, n)[i]),
    decreases lines.len() - n,
{
    if 0 <= n < lines.len() {
        lemma_rows_from_lines(s, lines, n + 1);
        let rest = listener_rows(s, lines, n + 1);
        let r = listener_rows(s, lines, n);
        if listener_row(s, lines[n]) is Some {
            lemma_row_is_listen_line(s, lines[n]);
            assert forall|i: int| 0 <= i < r.len() implies exists|j: int|
                0 <= j < lines.len() && listen_line(s, lines[j], #[trigger] r[i]) by {
                if i == 0 {
                    assert(listen_line(s, lines[n], r[0]));
                } else {
                    assert(r[i] == rest[i - 1]);
                }
            }
        }
    }
}

/// Every listener a `/proc/net/tcp{,6}` table gives is described by one of
/// its lines: a row in state `0A` whose inode, uid, port and address
/// columns read as the listener's.
pub proof fn each_listener_is_a_listen_row_of_its_table(s: Seq<char>)
    ensures
        proc_net_listeners(s) matches Some(rows) ==> forall|i: int|
            0 <= i < rows.len() ==> exists|j: int|
                0 <= j < line_spans(s, 0, s.len() as int).len() && listen_line(
                    s,
                    line_spans(s, 0, s.len() as int)[j],
                    #[trigger] rows[i],
                ),
{
    let lines = line_spans(s, 0, s.len() as int);
    match crate::procfs::first_containing(s, lines, "local_address"@, 0) {
        Some(h) => lemma_rows_from_lines(s, lines, h + 1),
        None => {},
    }
}

proof fn lemma_listen_line_is_row(s: Seq<char>, line: (int, int), l: (u64, u32, u16, Seq<u8>))
    requires
        listen_line(s, line, l),
    ensures
        listener_row(s, line) == Some(l),
{
    let cols = crate::chars::fields(s, line.0, line.1);
    let local = cols[1];
    let c = choose|c: int|
        0 <= c < local.len() && local[c] == ':' && (forall|k: int| c < k < local.len() ==> local[k] != ':')
            && crate::chars::parse_uint(#[trigger] local.skip(c + 1), 16, u16::MAX as nat) == Some(
            l.2 as nat,
        ) && crate::proc_addr::spec_decode_proc_hex(local.take(c)) == Ok::<Seq<u8>, ()>(l.3);
    crate::chars::lemma_rfind_char(local, 0, local.len() as int, ':');
    let r = crate::chars::rfind_char(local, 0, local.len() as int, ':');
    assert(r == Some(c)) by {
        match r {
            Some(j) => {
                if j < c {
                    assert(local[c] != ':');
                } else if j > c {
                    assert(local[j] != ':');
                }
            },
            None => {
                assert(local[c] != ':');
            },
        }
    }
}

proof fn lemma_lines_to_rows(s: Seq<char>, lines: Seq<(int, int)>, n: int, j: int, l: (u64, u32, u16, Seq<u8>))
    requires
        0 <= n <= j < lines.len(),
        listen_line(s, lines[j], l),
    ensures
        listener_rows(s, lines, n).contains(l),
    decreases j - n,
{
    let r = listener_rows(s, lines, n);
    let rest = listener_rows(s, lines, n + 1);
    if j == n {
        lemma_listen_line_is_row(s, lines[j], l);
        assert(r[0] == l);
    } else {
        lemma_lines_to_rows(s, lines, n + 1, j, l);
        let k = choose|k: int| 0 <= k < rest.len() && rest[k] == l;
        if listener_row(s, lines[n]) is Some {
            assert(r[k + 1] == l);
        } else {
            assert(r[k] == l);
        }
    }
}

proof fn lemma_first_containing_from(s: Seq<char>, lines: Seq<(int, int)>, p: Seq<char>, n: int)
    requires
        0 <= n,
    ensures
        crate::procfs::first_containing(s, lines, p, n) matches Some(k) ==> n <= k,
    decreases lines.len() - n,
{
    if n < lines.len() {
        lemma_first_containing_from(s, lines, p, n + 1);
    }
}

/// Every listening row after a table's header is in what the table gives:
/// no listen row that reads is dropped.
pub proof fn each_listen_row_of_a_table_is_read(s: Seq<char>, j: int, l: (u64, u32, u16, Seq<u8>))
    requires
        crate::procfs::first_containing(s, line_spans(s, 0, s.len() as int), "local_address"@, 0) matches Some(h)
            && h < j < line_spans(s, 0, s.len() as int).len(),
        listen_line(s, line_spans(s, 0, s.len() as int)[j], l),
    ensures
        proc_net_listeners(s) matches Some(rows) && rows.contains(l),
{
    let lines = line_spans(s, 0, s.len() as int);
    let h = crate::procfs::first_containing(s, lines, "local_address"@, 0)->Some_0;
    lemma_first_containing_from(s, lines, "local_address"@, 0);
    lemma_lines_to_rows(s, lines, h + 1, j, l);
}

} // verus!

verus! {

/// The option at `i` is `--name` with a value that reads as the pid list
/// `p`.
pub open spec fn option_gives(tokens: Seq<Token>, i: int, name: Seq<char>, p: Seq<u32>) -> bool {
    match tokens[i] {
        Token::LongWithValue(n, v) => n@ == name && match v {
            Ok(b) => pid_list(b@) == Ok::<Seq<u32>, Seq<char>>(p),
            Err(_) => false,
        },
        _ => false,
    }
}

proof fn lemma_fold_scope(tokens: Seq<Token>, n: int)
    requires
        0 <= n <= tokens.len(),
        snapshot_fold(tokens, n) is Ok,
    ensures
        ({
            let st = snapshot_fold(tokens, n)->Ok_0;
            &&& st.0 matches Some(p) ==> exists|i: int| 0 <= i < n && #[trigger] option_gives(tokens, i, "roots"@, p)
            &&& st.0 is None ==> forall|i: int| 0 <= i < n ==> !#[trigger] names_option(tokens, i, "roots"@)
            &&& st.1 matches Some(p) ==> exists|i: int| 0 <= i < n && #[trigger] option_gives(tokens, i, "pids"@, p)
            &&& st.1 is None ==> forall|i: int| 0 <= i < n ==> !#[trigger] names_option(tokens, i, "pids"@)
        }),
    decreases n,
{
    reveal_strlit("roots");
    reveal_strlit("pids");
    assert("roots"@.len() != "pids"@.len());
    if n > 0 {
        assert(snapshot_fold(tokens, n - 1) is Ok);
        lemma_fold_scope(tokens, n - 1);
        let st = snapshot_fold(tokens, n - 1)->Ok_0;
        let st2 = snapshot_fold(tokens, n)->Ok_0;
        let t = tokens[n - 1];
        assert(crate::cli::snapshot_step(st, t) == snapshot_fold(tokens, n));
        match t {
            Token::LongWithValue(m, v) => {
                if m@ == "roots"@ {
                    assert(option_gives(tokens, n - 1, "roots"@, st2.0->Some_0));
                    assert(st2.1 == st.1);
                    assert(!names_option(tokens, n - 1, "pids"@));
                } else {
                    assert(m@ == "pids"@);
                    assert(option_gives(tokens, n - 1, "pids"@, st2.1->Some_0));
                    assert(st2.0 == st.0);
                    assert(!names_option(tokens, n - 1, "roots"@));
                }
            },
            _ => {
                assert(!names_option(tokens, n - 1, "roots"@));
                assert(!names_option(tokens, n - 1, "pids"@));
                assert(st2.0 == st.0 && st2.1 == st.1);
            },
        }
        let s2 = st2;
        if s2.0 is Some && st.0 is Some && s2.0 == st.0 {
            let i = choose|i: int| 0 <= i < n - 1 && #[trigger] option_gives(tokens, i, "roots"@, st.0->Some_0);
            assert(0 <= i < n && option_gives(tokens, i, "roots"@, s2.0->Some_0));
        }
        if s2.1 is Some && st.1 is Some && s2.1 == st.1 {
            let i = choose|i: int| 0 <= i < n - 1 && #[trigger] option_gives(tokens, i, "pids"@, st.1->Some_0);
            assert(0 <= i < n && option_gives(tokens, i, "pids"@, s2.1->Some_0));
        }
    }
}

/// The scope of a parsed snapshot ask is the one its options name: the
/// subtrees of a `--roots` list, exactly a `--pids` list, or the whole
/// host when neither was given; the pids are the ones the option's value
/// reads as.
pub proof fn the_scope_is_the_option_given(tokens: Seq<Token>, args: SnapshotArgs)
    requires
        snapshot_ask(tokens) matches Ok(a) && crate::cli::scope_view(args.scope) == a.0,
    ensures
        args.scope matches crate::cli::Scope::Roots(v) ==> exists|i: int|
            0 <= i < tokens.len() && #[trigger] option_gives(tokens, i, "roots"@, v@),
        args.scope matches crate::cli::Scope::Pids(v) ==> exists|i: int|
            0 <= i < tokens.len() && #[trigger] option_gives(tokens, i, "pids"@, v@),
        args.scope matches crate::cli::Scope::Host ==> forall|i: int|
            0 <= i < tokens.len() ==> !#[trigger] names_option(tokens, i, "roots"@) && !names_option(
                tokens,
                i,
                "pids"@,
            ),
{
    lemma_fold_scope(tokens, tokens.len() as int);
}

} // verus!
