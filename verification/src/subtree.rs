//! The `--roots` scope over a whole process table: the roots that can be
//! read and every process whose parent chain reaches one of them.
use vstd::prelude::*;
use crate::errno::{errno_code, platform_errno, Errno};
use crate::readings::{no_repeats, spells_unreadable};
use crate::schema::{Facet, Snapshot};

verus! {

/// One process-table entry: a pid and its parent pid, or the errno of
/// the failed read.
pub type PidReading = (u32, Result<u32, i32>);

/// The table says `child`'s parent is `parent`.
pub open spec fn is_edge(table: Seq<PidReading>, parent: u32, child: u32) -> bool {
    exists|i: int|
        0 <= i < table.len() && (#[trigger] table[i]).0 == child && table[i].1 == Ok::<
            u32,
            i32,
        >(parent)
}

/// The table read `p`'s entry.
pub open spec fn is_readable(table: Seq<PidReading>, p: u32) -> bool {
    exists|i: int| 0 <= i < table.len() && (#[trigger] table[i]).0 == p && table[i].1 is Ok
}

/// The table lists `p`.
pub open spec fn is_listed(table: Seq<PidReading>, p: u32) -> bool {
    exists|i: int| 0 <= i < table.len() && (#[trigger] table[i]).0 == p
}

/// The first reading of `p` in `t`.
pub open spec fn first_reading(t: Seq<PidReading>, p: u32) -> Option<Result<u32, i32>>
    decreases t.len(),
{
    if t.len() == 0 {
        None
    } else if t[0].0 == p {
        Some(t[0].1)
    } else {
        first_reading(t.drop_first(), p)
    }
}

/// What a root gives: `Ok` when it is in scope, else the errno of its
/// `U … proc` row. A root the table read is in scope. A listed root the
/// table could not read is probed again: in scope if that read works,
/// else unreadable with that read's errno (the table's own errno when no
/// second read was made). A root the table does not list is `ESRCH`.
pub open spec fn root_outcome(table: Seq<PidReading>, reprobe: Seq<PidReading>, r: u32) -> Result<
    (),
    i32,
> {
    if is_readable(table, r) {
        Ok(())
    } else if is_listed(table, r) {
        match first_reading(reprobe, r) {
            Some(Ok(_)) => Ok(()),
            Some(Err(e)) => Err(e),
            None => match first_reading(table, r) {
                Some(Err(e)) => Err(e),
                _ => Ok(()),
            },
        }
    } else {
        Err(platform_errno(Errno::Esrch))
    }
}

/// The unreadable roots, in root order, each with its errno.
pub open spec fn root_failures(table: Seq<PidReading>, reprobe: Seq<PidReading>, roots: Seq<u32>) -> Seq<
    (u32, i32),
>
    decreases roots.len(),
{
    if roots.len() == 0 {
        seq![]
    } else {
        let rest = root_failures(table, reprobe, roots.drop_last());
        match root_outcome(table, reprobe, roots.last()) {
            Ok(_) => rest,
            Err(e) => rest.push((roots.last(), e)),
        }
    }
}

/// The roots in scope.
pub open spec fn start_pids(table: Seq<PidReading>, reprobe: Seq<PidReading>, roots: Seq<u32>) -> Set<
    u32,
> {
    Set::new(|r: u32| roots.contains(r) && root_outcome(table, reprobe, r) is Ok)
}

/// The pids at most `n` parent links below `start`.
pub open spec fn within(table: Seq<PidReading>, start: Set<u32>, n: nat) -> Set<u32>
    decreases n,
{
    if n == 0 {
        start
    } else {
        let w = within(table, start, (n - 1) as nat);
        w.union(Set::new(|c: u32| exists|p: u32| #[trigger] w.contains(p) && is_edge(table, p, c)))
    }
}

/// `p` is a pid of `start` or below one of them.
pub open spec fn in_subtree(table: Seq<PidReading>, start: Set<u32>, p: u32) -> bool {
    exists|n: nat| #[trigger] within(table, start, n).contains(p)
}

/// The listed roots the table could not read: the ones to probe again.
pub open spec fn reprobe_targets(table: Seq<PidReading>, roots: Seq<u32>) -> Seq<u32>
    decreases roots.len(),
{
    if roots.len() == 0 {
        seq![]
    } else {
        let rest = reprobe_targets(table, roots.drop_last());
        let r = roots.last();
        if is_listed(table, r) && !is_readable(table, r) {
            rest.push(r)
        } else {
            rest
        }
    }
}

fn readable_in(table: &[PidReading], p: u32) -> (b: bool)
    ensures
        b == is_readable(table@, p),
{
    let mut i: usize = 0;
    while i < table.len()
        invariant
            i <= table@.len(),
            forall|k: int| 0 <= k < i ==> !((#[trigger] table@[k]).0 == p && table@[k].1 is Ok),
        decreases table@.len() - i,
    {
        if table[i].0 == p && table[i].1.is_ok() {
            return true;
        }
        i = i + 1;
    }
    false
}

fn listed_in(table: &[PidReading], p: u32) -> (b: bool)
    ensures
        b == is_listed(table@, p),
{
    let mut i: usize = 0;
    while i < table.len()
        invariant
            i <= table@.len(),
            forall|k: int| 0 <= k < i ==> (#[trigger] table@[k]).0 != p,
        decreases table@.len() - i,
    {
        if table[i].0 == p {
            return true;
        }
        i = i + 1;
    }
    false
}

fn reading_of(t: &[PidReading], p: u32) -> (r: Option<Result<u32, i32>>)
    ensures
        r == first_reading(t@, p),
{
    let mut i: usize = 0;
    assert(t@.skip(0) =~= t@);
    while i < t.len()
        invariant
            i <= t@.len(),
            first_reading(t@, p) == first_reading(t@.skip(i as int), p),
        decreases t@.len() - i,
    {
        assert(t@.skip(i as int)[0] == t@[i as int]);
        if t[i].0 == p {
            return Some(t[i].1);
        }
        assert(t@.skip(i as int).drop_first() =~= t@.skip(i + 1));
        i = i + 1;
    }
    None
}

fn vec_holds(v: &Vec<u32>, x: u32) -> (b: bool)
    ensures
        b == v@.contains(x),
{
    let mut i: usize = 0;
    while i < v.len()
        invariant
            i <= v@.len(),
            forall|k: int| 0 <= k < i ==> v@[k] != x,
        decreases v@.len() - i,
    {
        if v[i] == x {
            return true;
        }
        i = i + 1;
    }
    false
}

/// The roots to probe a second time: those the table lists but could not
/// read, in root order.
pub fn roots_to_reprobe(roots: &[u32], table: &[PidReading]) -> (r: Vec<u32>)
    ensures
        r@ == reprobe_targets(table@, roots@),
{
    let mut out: Vec<u32> = Vec::new();
    let mut i: usize = 0;
    while i < roots.len()
        invariant
            i <= roots@.len(),
            out@ == reprobe_targets(table@, roots@.take(i as int)),
        decreases roots@.len() - i,
    {
        proof {
            assert(roots@.take(i + 1).drop_last() =~= roots@.take(i as int));
            assert(roots@.take(i + 1).last() == roots@[i as int]);
        }
        let r = roots[i];
        if listed_in(table, r) && !readable_in(table, r) {
            out.push(r);
        }
        i = i + 1;
    }
    assert(roots@.take(roots@.len() as int) =~= roots@);
    out
}

/// How many table entries name a pid not yet in `out`.
pub open spec fn unvisited_entries(t: Seq<PidReading>, out: Seq<u32>) -> nat
    decreases t.len(),
{
    if t.len() == 0 {
        0
    } else {
        unvisited_entries(t.drop_last(), out) + if out.contains(t.last().0) {
            0nat
        } else {
            1nat
        }
    }
}

proof fn lemma_unvisited_push(t: Seq<PidReading>, out: Seq<u32>, c: u32, j: int)
    requires
        0 <= j < t.len(),
        t[j].0 == c,
        !out.contains(c),
    ensures
        unvisited_entries(t, out.push(c)) < unvisited_entries(t, out),
    decreases t.len(),
{
    let d = t.drop_last();
    assert forall|x: u32| out.contains(x) implies #[trigger] out.push(c).contains(x) by {
        let k = choose|k: int| 0 <= k < out.len() && out[k] == x;
        assert(out.push(c)[k] == x);
    }
    assert(out.push(c)[out.len() as int] == c);
    if j < t.len() - 1 {
        assert(d[j] == t[j]);
        lemma_unvisited_push(d, out, c, j);
    } else {
        lemma_unvisited_mono(d, out, c);
    }
}

proof fn lemma_unvisited_mono(t: Seq<PidReading>, out: Seq<u32>, c: u32)
    ensures
        unvisited_entries(t, out.push(c)) <= unvisited_entries(t, out),
    decreases t.len(),
{
    if t.len() > 0 {
        lemma_unvisited_mono(t.drop_last(), out, c);
        if out.contains(t.last().0) {
            let k = choose|k: int| 0 <= k < out.len() && out[k] == t.last().0;
            assert(out.push(c)[k] == t.last().0);
        }
    }
}

proof fn lemma_edge_step(table: Seq<PidReading>, start: Set<u32>, p: u32, c: u32, n: nat)
    requires
        within(table, start, n).contains(p),
        is_edge(table, p, c),
    ensures
        within(table, start, n + 1).contains(c),
{
    let w = within(table, start, n);
    assert(within(table, start, n + 1) == w.union(
        Set::new(|c: u32| exists|p: u32| #[trigger] w.contains(p) && is_edge(table, p, c)),
    ));
}

proof fn lemma_closed_holds_subtree(table: Seq<PidReading>, start: Set<u32>, out: Seq<u32>, n: nat)
    requires
        forall|x: u32| start.contains(x) ==> out.contains(x),
        forall|x: u32, c: u32| out.contains(x) && is_edge(table, x, c) ==> out.contains(c),
    ensures
        forall|x: u32| within(table, start, n).contains(x) ==> out.contains(x),
    decreases n,
{
    if n > 0 {
        lemma_closed_holds_subtree(table, start, out, (n - 1) as nat);
        let w = within(table, start, (n - 1) as nat);
        assert forall|x: u32| within(table, start, n).contains(x) implies out.contains(x) by {
            if !w.contains(x) {
                let p = choose|p: u32| #[trigger] w.contains(p) && is_edge(table, p, x);
            }
        }
    }
}

/// The pids a `--roots` scope covers, from the whole process table: every
/// root in scope (see [`root_outcome`]) and every pid whose parent chain
/// reaches one, each once. Each root out of scope gets one `U … proc` row,
/// in root order. `reprobe` holds the second reads of the roots
/// [`roots_to_reprobe`] names.
#[verifier::spinoff_prover]
pub fn darwin_subtree(
    roots: &[u32],
    table: &[PidReading],
    reprobe: &[PidReading],
    snap: &mut Snapshot,
) -> (pids: Vec<u32>)
    ensures
        no_repeats(pids@),
        forall|p: u32|
            pids@.contains(p) <==> in_subtree(
                table@,
                start_pids(table@, reprobe@, roots@),
                p,
            ),
        final(snap).unreadable@.len() >= old(snap).unreadable@.len(),
        final(snap).unreadable@.take(old(snap).unreadable@.len() as int)
            == old(snap).unreadable@,
        spells_unreadable(
            final(snap).unreadable@.skip(old(snap).unreadable@.len() as int),
            root_failures(table@, reprobe@, roots@),
            Facet::Proc,
        ),
        final(snap).version == old(snap).version,
        final(snap).procs == old(snap).procs,
        final(snap).memory == old(snap).memory,
        final(snap).start_times == old(snap).start_times,
        final(snap).cpu_times == old(snap).cpu_times,
        final(snap).uids == old(snap).uids,
        final(snap).cwds == old(snap).cwds,
        final(snap).statuses == old(snap).statuses,
        final(snap).argv == old(snap).argv,
        final(snap).ports == old(snap).ports,
        final(snap).errors == old(snap).errors,
{
    let ghost t = table@;
    let ghost rp = reprobe@;
    let ghost start = start_pids(t, rp, roots@);
    let ghost u0 = snap.unreadable@;
    let mut out: Vec<u32> = Vec::new();
    let mut queue: Vec<u32> = Vec::new();
    let mut i: usize = 0;
    while i < roots.len()
        invariant
            i <= roots@.len(),
            t == table@,
            rp == reprobe@,
            start == start_pids(t, rp, roots@),
            no_repeats(out@),
            queue@ == out@,
            forall|x: u32|
                out@.contains(x) <==> (exists|k: int|
                    0 <= k < i && #[trigger] roots@[k] == x && root_outcome(t, rp, x) is Ok),
            snap.unreadable@.len() >= u0.len(),
            snap.unreadable@.take(u0.len() as int) == u0,
            spells_unreadable(
                snap.unreadable@.skip(u0.len() as int),
                root_failures(t, rp, roots@.take(i as int)),
                Facet::Proc,
            ),
            snap.version == old(snap).version,
            snap.procs == old(snap).procs,
            snap.memory == old(snap).memory,
            snap.start_times == old(snap).start_times,
            snap.cpu_times == old(snap).cpu_times,
            snap.uids == old(snap).uids,
            snap.cwds == old(snap).cwds,
            snap.statuses == old(snap).statuses,
            snap.argv == old(snap).argv,
            snap.ports == old(snap).ports,
            snap.errors == old(snap).errors,
        decreases roots@.len() - i,
    {
        let r = roots[i];
        proof {
            assert(roots@.take(i + 1).drop_last() =~= roots@.take(i as int));
            assert(roots@.take(i + 1).last() == r);
        }
        let outcome: Result<(), i32> = if readable_in(table, r) {
            Ok(())
        } else if listed_in(table, r) {
            match reading_of(reprobe, r) {
                Some(Ok(_)) => Ok(()),
                Some(Err(e)) => Err(e),
                None => match reading_of(table, r) {
                    Some(Err(e)) => Err(e),
                    _ => Ok(()),
                },
            }
        } else {
            Err(errno_code(Errno::Esrch))
        };
        assert(outcome == root_outcome(t, rp, r));
        let ghost before_out = out@;
        let ghost before_u = snap.unreadable@;
        match outcome {
            Ok(()) => {
                if !vec_holds(&out, r) {
                    out.push(r);
                    queue.push(r);
                    proof {
                        assert forall|a: int, b: int| 0 <= a < b < out@.len() implies out@[a]
                            != out@[b] by {
                            if b == out@.len() - 1 {
                                assert(before_out.contains(out@[a]));
                            }
                        }
                    }
                }
                proof {
                    assert forall|x: u32| out@.contains(x) <==> (exists|k: int|
                        0 <= k < i + 1 && #[trigger] roots@[k] == x && root_outcome(t, rp, x) is Ok) by {
                        if out@.contains(x) && !before_out.contains(x) {
                            assert(x == r);
                            assert(roots@[i as int] == x);
                        }
                        if exists|k: int|
                            0 <= k < i + 1 && #[trigger] roots@[k] == x && root_outcome(t, rp, x) is Ok {
                            let k = choose|k: int|
                                0 <= k < i + 1 && #[trigger] roots@[k] == x && root_outcome(t, rp, x) is Ok;
                            if k < i {
                                assert(roots@[k] == x);
                                assert(before_out.contains(x));
                                let m = choose|m: int| 0 <= m < before_out.len() && before_out[m] == x;
                                assert(out@[m] == x);
                            } else if !before_out.contains(x) {
                                assert(out@[out@.len() - 1] == x);
                            }
                        }
                    }
                }
            },
            Err(e) => {
                snap.push_unreadable(r, Facet::Proc, e);
                proof {
                    let w = root_failures(t, rp, roots@.take(i as int));
                    let tt = snap.unreadable@.skip(u0.len() as int);
                    assert(snap.unreadable@.take(before_u.len() as int) == before_u);
                    assert(snap.unreadable@.take(u0.len() as int) =~= u0);
                    assert(tt =~= before_u.skip(u0.len() as int).push(snap.unreadable@.last()));
                    assert forall|k: int| 0 <= k < w.len() + 1 implies (#[trigger] tt[k]).pid
                        == w.push((r, e))[k].0 && tt[k].facet == Facet::Proc && tt[k].errno@
                        == crate::errno::errno_spelling(w.push((r, e))[k].1) by {
                        if k < w.len() {
                            assert(tt[k] == before_u.skip(u0.len() as int)[k]);
                        }
                    }
                    assert forall|x: u32| out@.contains(x) <==> (exists|k: int|
                        0 <= k < i + 1 && #[trigger] roots@[k] == x && root_outcome(t, rp, x) is Ok) by {
                        if exists|k: int|
                            0 <= k < i + 1 && #[trigger] roots@[k] == x && root_outcome(t, rp, x) is Ok {
                            let k = choose|k: int|
                                0 <= k < i + 1 && #[trigger] roots@[k] == x && root_outcome(t, rp, x) is Ok;
                            assert(k < i);
                        }
                    }
                }
            },
        }
        i = i + 1;
    }
    assert(roots@.take(roots@.len() as int) =~= roots@);
    proof {
        assert forall|x: u32| start.contains(x) implies out@.contains(x) by {
            let k = choose|k: int| 0 <= k < roots@.len() && roots@[k] == x;
        }
        assert forall|x: u32| out@.contains(x) implies in_subtree(t, start, x) by {
            let k = choose|k: int|
                0 <= k < roots@.len() && #[trigger] roots@[k] == x && root_outcome(t, rp, x) is Ok;
            assert(roots@.contains(x));
            assert(within(t, start, 0).contains(x));
        }
    }
    while queue.len() > 0
        invariant
            t == table@,
            start == start_pids(t, rp, roots@),
            no_repeats(out@),
            no_repeats(queue@),
            forall|x: u32| queue@.contains(x) ==> out@.contains(x),
            forall|x: u32| start.contains(x) ==> out@.contains(x),
            forall|x: u32| out@.contains(x) ==> in_subtree(t, start, x),
            forall|x: u32, c: u32|
                out@.contains(x) && !queue@.contains(x) && is_edge(t, x, c) ==> out@.contains(c),
        decreases unvisited_entries(t, out@), queue@.len(),
    {
        let ghost u_start = unvisited_entries(t, out@);
        let ghost q_start = queue@;
        let p = queue.pop().unwrap();
        proof {
            assert(q_start == queue@.push(p));
            assert(!queue@.contains(p)) by {
                if queue@.contains(p) {
                    let m = choose|m: int| 0 <= m < queue@.len() && queue@[m] == p;
                    assert(q_start[m] == q_start[q_start.len() - 1]);
                }
            }
            assert(q_start.contains(p)) by {
                assert(q_start[q_start.len() - 1] == p);
            }
        }
        let ghost q_popped = queue@;
        let ghost mut added = false;
        let mut j: usize = 0;
        while j < table.len()
            invariant
                j <= table@.len(),
                t == table@,
                start == start_pids(t, rp, roots@),
                no_repeats(out@),
                no_repeats(queue@),
                out@.contains(p),
                !queue@.contains(p),
                forall|x: u32| queue@.contains(x) ==> out@.contains(x),
                forall|x: u32| start.contains(x) ==> out@.contains(x),
                forall|x: u32| out@.contains(x) ==> in_subtree(t, start, x),
                forall|x: u32, c: u32|
                    out@.contains(x) && x != p && !queue@.contains(x) && is_edge(t, x, c)
                        ==> out@.contains(c),
                forall|k: int|
                    0 <= k < j && t[k].1 == Ok::<u32, i32>(p) ==> out@.contains(#[trigger] t[k].0),
                added ==> unvisited_entries(t, out@) < u_start,
                !added ==> unvisited_entries(t, out@) == u_start && queue@ == q_popped,
            decreases table@.len() - j,
        {
            let (c, reading) = table[j];
            let is_child = match reading {
                Ok(pp) => pp == p,
                Err(_) => false,
            };
            if is_child && !vec_holds(&out, c) {
                let ghost before_out = out@;
                let ghost before_q = queue@;
                proof {
                    lemma_unvisited_push(t, before_out, c, j as int);
                    assert(is_edge(t, p, c)) by {
                        assert(t[j as int].0 == c && t[j as int].1 == Ok::<u32, i32>(p));
                    }
                    let n = choose|n: nat| #[trigger] within(t, start, n).contains(p);
                    lemma_edge_step(t, start, p, c, n);
                    assert(in_subtree(t, start, c));
                }
                out.push(c);
                queue.push(c);
                proof {
                    added = true;
                    assert forall|x: u32| #[trigger] before_out.contains(x) implies out@.contains(x) by {
                        let m = choose|m: int| 0 <= m < before_out.len() && before_out[m] == x;
                        assert(out@[m] == x);
                    }
                    assert(out@[out@.len() - 1] == c);
                    assert forall|x: u32| out@.contains(x) implies before_out.contains(x) || x == c by {
                        let m = choose|m: int| 0 <= m < out@.len() && out@[m] == x;
                        if m < before_out.len() {
                            assert(before_out[m] == x);
                        }
                    }
                    assert forall|x: u32| queue@.contains(x) implies before_q.contains(x) || x == c by {
                        let m = choose|m: int| 0 <= m < queue@.len() && queue@[m] == x;
                        if m < before_q.len() {
                            assert(before_q[m] == x);
                        }
                    }
                    assert forall|x: u32| #[trigger] before_q.contains(x) implies queue@.contains(x) by {
                        let m = choose|m: int| 0 <= m < before_q.len() && before_q[m] == x;
                        assert(queue@[m] == x);
                    }
                    assert(queue@[queue@.len() - 1] == c);
                    assert forall|a: int, b: int| 0 <= a < b < out@.len() implies out@[a] != out@[b] by {
                        if b == out@.len() - 1 {
                            assert(before_out.contains(out@[a]));
                        }
                    }
                    assert forall|a: int, b: int| 0 <= a < b < queue@.len() implies queue@[a] != queue@[b] by {
                        if b == queue@.len() - 1 {
                            assert(before_q.contains(queue@[a]));
                        }
                    }
                    assert(!queue@.contains(p)) by {
                        if queue@.contains(p) {
                            assert(before_q.contains(p) || p == c);
                        }
                    }
                    assert forall|x: u32| queue@.contains(x) implies out@.contains(x) by {
                        if x != c {
                            assert(before_q.contains(x));
                            assert(before_out.contains(x));
                        }
                    }
                }
            }
            j = j + 1;
        }
        proof {
            assert forall|x: u32, c: u32|
                out@.contains(x) && !queue@.contains(x) && is_edge(t, x, c) implies out@.contains(c) by {
                if x == p {
                    let k = choose|k: int|
                        0 <= k < t.len() && (#[trigger] t[k]).0 == c && t[k].1 == Ok::<u32, i32>(x);
                    assert(out@.contains(t[k].0));
                }
            }
        }
    }
    proof {
        assert forall|x: u32, c: u32| out@.contains(x) && is_edge(t, x, c) implies out@.contains(c) by {
            assert(!queue@.contains(x));
        }
        assert forall|x: u32| in_subtree(t, start, x) implies out@.contains(x) by {
            let n = choose|n: nat| #[trigger] within(t, start, n).contains(x);
            lemma_closed_holds_subtree(t, start, out@, n);
        }
    }
    out
}

} // verus!
