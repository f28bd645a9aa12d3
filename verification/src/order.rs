//! Stable row ordering and de-duplication, shared by every document.
use vstd::prelude::*;
use vstd::seq_lib::{to_multiset_build, to_multiset_insert};

verus! {

/// A total preorder on rows: `a.ranks_before(b)` when `a` may stand before
/// `b`.
pub trait RowOrder: Sized {
    spec fn ranks_before(self, other: Self) -> bool;

    proof fn lemma_total(a: Self, b: Self)
        ensures
            a.ranks_before(b) || b.ranks_before(a),
    ;

    proof fn lemma_transitive(a: Self, b: Self, c: Self)
        requires
            a.ranks_before(b),
            b.ranks_before(c),
        ensures
            a.ranks_before(c),
    ;

    fn precedes(&self, other: &Self) -> (r: bool)
        ensures
            r == self.ranks_before(*other),
    ;
}

/// Every row may stand before every later row.
pub open spec fn is_sorted<T: RowOrder>(s: Seq<T>) -> bool {
    forall|i: int, j: int| 0 <= i < j < s.len() ==> (#[trigger] s[i]).ranks_before(#[trigger] s[j])
}

/// Where a stable insertion puts `x`: just after the last row that may
/// stand before it, counting from the end.
pub open spec fn insert_point<T: RowOrder>(s: Seq<T>, x: T) -> int
    decreases s.len(),
{
    if s.len() == 0 {
        0
    } else if s.last().ranks_before(x) {
        s.len() as int
    } else {
        insert_point(s.drop_last(), x)
    }
}

/// `s` sorted stably: rows that rank equal keep the order they were given in.
pub open spec fn stable_sorted<T: RowOrder>(s: Seq<T>) -> Seq<T>
    decreases s.len(),
{
    if s.len() == 0 {
        s
    } else {
        let d = stable_sorted(s.drop_last());
        d.insert(insert_point(d, s.last()), s.last())
    }
}

/// Two rows rank equal.
pub open spec fn same_rank<T: RowOrder>(a: T, b: T) -> bool {
    a.ranks_before(b) && b.ranks_before(a)
}

/// `s` with every row that ranks equal to the row kept just before it
/// removed: the first row of each run survives.
pub open spec fn dedup_runs<T: RowOrder>(s: Seq<T>) -> Seq<T>
    decreases s.len(),
{
    if s.len() == 0 {
        s
    } else {
        let d = dedup_runs(s.drop_last());
        if d.len() > 0 && same_rank(d.last(), s.last()) {
            d
        } else {
            d.push(s.last())
        }
    }
}

proof fn lemma_insert_point<T: RowOrder>(s: Seq<T>, x: T)
    requires
        is_sorted(s),
    ensures
        0 <= insert_point(s, x) <= s.len(),
        forall|i: int| 0 <= i < insert_point(s, x) ==> (#[trigger] s[i]).ranks_before(x),
        forall|i: int| insert_point(s, x) <= i < s.len() ==> x.ranks_before(#[trigger] s[i]),
    decreases s.len(),
{
    if s.len() > 0 {
        if s.last().ranks_before(x) {
            assert forall|i: int| 0 <= i < s.len() implies (#[trigger] s[i]).ranks_before(x) by {
                if i < s.len() - 1 {
                    T::lemma_transitive(s[i], s.last(), x);
                }
            }
        } else {
            let d = s.drop_last();
            assert(is_sorted(d));
            lemma_insert_point(d, x);
            T::lemma_total(s.last(), x);
            assert forall|i: int| 0 <= i < insert_point(s, x) implies (#[trigger] s[i]).ranks_before(
                x,
            ) by {
                assert(d[i] == s[i]);
            }
            assert forall|i: int| insert_point(s, x) <= i < s.len() implies x.ranks_before(
                #[trigger] s[i],
            ) by {
                if i < s.len() - 1 {
                    assert(d[i] == s[i]);
                }
            }
        }
    }
}

/// Stable insertion keeps a sorted sequence sorted.
proof fn lemma_insert_sorted<T: RowOrder>(s: Seq<T>, x: T)
    requires
        is_sorted(s),
    ensures
        is_sorted(s.insert(insert_point(s, x), x)),
{
    lemma_insert_point(s, x);
    let p = insert_point(s, x);
    let t = s.insert(p, x);
    assert forall|i: int, j: int| 0 <= i < j < t.len() implies (#[trigger] t[i]).ranks_before(
        #[trigger] t[j],
    ) by {
        if i < p && j < p {
        } else if i < p && j == p {
        } else if i < p && j > p {
            assert(t[j] == s[j - 1]);
        } else if i == p {
            assert(t[j] == s[j - 1]);
        } else {
            assert(t[i] == s[i - 1]);
            assert(t[j] == s[j - 1]);
        }
    }
}

/// A stable sort is sorted and holds exactly the rows it was given.
pub proof fn lemma_stable_sorted<T: RowOrder>(s: Seq<T>)
    ensures
        is_sorted(stable_sorted(s)),
        stable_sorted(s).to_multiset() == s.to_multiset(),
        stable_sorted(s).len() == s.len(),
    decreases s.len(),
{
    if s.len() > 0 {
        let d = stable_sorted(s.drop_last());
        lemma_stable_sorted(s.drop_last());
        lemma_insert_sorted(d, s.last());
        lemma_insert_point(d, s.last());
        to_multiset_insert(d, insert_point(d, s.last()), s.last());
        to_multiset_build(s.drop_last(), s.last());
        assert(s.drop_last().push(s.last()) =~= s);
    }
}

/// Sorts rows stably: rows that rank equal keep the order they were given in.
pub fn sort_rows<T: RowOrder>(v: &mut Vec<T>)
    ensures
        final(v)@ == stable_sorted(old(v)@),
{
    let ghost orig = v@;
    let total = v.len();
    let mut out: Vec<T> = Vec::new();
    let mut k: usize = 0;
    while v.len() > 0
        invariant
            k + v@.len() == orig.len(),
            orig.len() == total,
            v@ == orig.skip(k as int),
            out@ == stable_sorted(orig.take(k as int)),
        decreases v@.len(),
    {
        let x = v.remove(0);
        let ghost sorted_prefix = out@;
        let mut p = out.len();
        assert(out@.take(p as int) =~= out@);
        while p > 0 && !out[p - 1].precedes(&x)
            invariant
                out@ == sorted_prefix,
                p <= out@.len(),
                insert_point(out@, x) == insert_point(out@.take(p as int), x),
            decreases p,
        {
            assert(out@.take(p as int).drop_last() =~= out@.take(p - 1));
            p = p - 1;
        }
        proof {
            let t = out@.take(p as int);
            if p > 0 {
                assert(t.last() == out@[p - 1]);
            }
            assert(insert_point(t, x) == p);
            assert(orig.take(k + 1).drop_last() =~= orig.take(k as int));
            assert(orig.take(k + 1).last() == x);
            assert(orig.skip(k + 1) =~= orig.skip(k as int).remove(0));
        }
        out.insert(p, x);
        k = k + 1;
    }
    assert(orig.take(k as int) =~= orig);
    *v = out;
}

/// Removes every row that ranks equal to the row kept just before it.
pub fn dedup_rows<T: RowOrder>(v: &mut Vec<T>)
    ensures
        final(v)@ == dedup_runs(old(v)@),
{
    let ghost orig = v@;
    let total = v.len();
    let mut out: Vec<T> = Vec::new();
    let mut k: usize = 0;
    while v.len() > 0
        invariant
            k + v@.len() == orig.len(),
            orig.len() == total,
            v@ == orig.skip(k as int),
            out@ == dedup_runs(orig.take(k as int)),
        decreases v@.len(),
    {
        let x = v.remove(0);
        proof {
            assert(orig.take(k + 1).drop_last() =~= orig.take(k as int));
            assert(orig.take(k + 1).last() == x);
            assert(orig.skip(k + 1) =~= orig.skip(k as int).remove(0));
        }
        let n = out.len();
        let keep = if n == 0 {
            true
        } else {
            !(out[n - 1].precedes(&x) && x.precedes(&out[n - 1]))
        };
        if keep {
            out.push(x);
        }
        k = k + 1;
    }
    assert(orig.take(k as int) =~= orig);
    *v = out;
}

/// Lexicographic order on byte strings: the order of `str` and `String`.
pub open spec fn lex_le(a: Seq<u8>, b: Seq<u8>) -> bool
    decreases a.len(),
{
    if a.len() == 0 {
        true
    } else if b.len() == 0 {
        false
    } else if a[0] != b[0] {
        a[0] < b[0]
    } else {
        lex_le(a.drop_first(), b.drop_first())
    }
}

pub proof fn lemma_lex_total(a: Seq<u8>, b: Seq<u8>)
    ensures
        lex_le(a, b) || lex_le(b, a),
    decreases a.len(),
{
    if a.len() > 0 && b.len() > 0 && a[0] == b[0] {
        lemma_lex_total(a.drop_first(), b.drop_first());
    }
}

pub proof fn lemma_lex_transitive(a: Seq<u8>, b: Seq<u8>, c: Seq<u8>)
    requires
        lex_le(a, b),
        lex_le(b, c),
    ensures
        lex_le(a, c),
    decreases a.len(),
{
    if a.len() > 0 && b.len() > 0 && c.len() > 0 && a[0] == b[0] && b[0] == c[0] {
        lemma_lex_transitive(a.drop_first(), b.drop_first(), c.drop_first());
    }
}

pub proof fn lemma_lex_antisymmetric(a: Seq<u8>, b: Seq<u8>)
    requires
        lex_le(a, b),
        lex_le(b, a),
    ensures
        a == b,
    decreases a.len(),
{
    if a.len() > 0 && b.len() > 0 {
        lemma_lex_antisymmetric(a.drop_first(), b.drop_first());
        assert(a =~= seq![a[0]] + a.drop_first());
        assert(b =~= seq![b[0]] + b.drop_first());
    } else {
        assert(a =~= b);
    }
}

/// Compares two byte strings lexicographically.
pub fn bytes_lex_le(a: &[u8], b: &[u8]) -> (r: bool)
    ensures
        r == lex_le(a@, b@),
{
    let mut i: usize = 0;
    assert(a@.skip(0) =~= a@);
    assert(b@.skip(0) =~= b@);
    while i < a.len() && i < b.len()
        invariant
            i <= a@.len(),
            i <= b@.len(),
            lex_le(a@, b@) == lex_le(a@.skip(i as int), b@.skip(i as int)),
        decreases a@.len() - i,
    {
        if a[i] != b[i] {
            return a[i] < b[i];
        }
        assert(a@.skip(i as int).drop_first() =~= a@.skip(i + 1));
        assert(b@.skip(i as int).drop_first() =~= b@.skip(i + 1));
        i = i + 1;
    }
    i == a.len()
}

} // verus!

verus! {

/// Every row kept by [`dedup_runs`] is a row of its input.
pub proof fn lemma_dedup_runs_subset<T: RowOrder>(s: Seq<T>)
    ensures
        dedup_runs(s).len() <= s.len(),
        forall|i: int| 0 <= i < dedup_runs(s).len() ==> s.contains(#[trigger] dedup_runs(s)[i]),
    decreases s.len(),
{
    if s.len() > 0 {
        let t = s.drop_last();
        lemma_dedup_runs_subset(t);
        let d = dedup_runs(t);
        assert forall|i: int| 0 <= i < dedup_runs(s).len() implies s.contains(
            #[trigger] dedup_runs(s)[i],
        ) by {
            if i < d.len() {
                assert(t.contains(d[i]));
                let k = choose|k: int| 0 <= k < t.len() && t[k] == d[i];
                assert(s[k] == d[i]);
            } else {
                assert(s[s.len() - 1] == s.last());
            }
        }
    }
}

/// Every row of the input ranks equal to some row [`dedup_runs`] keeps.
pub proof fn lemma_dedup_runs_covers<T: RowOrder>(s: Seq<T>)
    ensures
        forall|i: int|
            0 <= i < s.len() ==> exists|j: int|
                0 <= j < dedup_runs(s).len() && same_rank(#[trigger] s[i], dedup_runs(s)[j]),
    decreases s.len(),
{
    if s.len() > 0 {
        let t = s.drop_last();
        lemma_dedup_runs_covers(t);
        let d = dedup_runs(t);
        let x = s.last();
        T::lemma_total(x, x);
        assert forall|i: int| 0 <= i < s.len() implies exists|j: int|
            0 <= j < dedup_runs(s).len() && same_rank(#[trigger] s[i], dedup_runs(s)[j]) by {
            if i < t.len() {
                assert(s[i] == t[i]);
                let j = choose|j: int| 0 <= j < d.len() && same_rank(t[i], d[j]);
                assert(dedup_runs(s)[j] == d[j]);
            } else if d.len() > 0 && same_rank(d.last(), x) {
                assert(dedup_runs(s)[d.len() - 1] == d.last());
            } else {
                assert(dedup_runs(s)[d.len() as int] == x);
            }
        }
    }
}

/// Collapsing a sorted sequence leaves it sorted with no two rows of equal
/// rank.
pub proof fn lemma_dedup_runs_sorted<T: RowOrder>(s: Seq<T>)
    requires
        is_sorted(s),
    ensures
        is_sorted(dedup_runs(s)),
        forall|i: int, j: int|
            0 <= i < j < dedup_runs(s).len() ==> !same_rank(
                #[trigger] dedup_runs(s)[i],
                #[trigger] dedup_runs(s)[j],
            ),
    decreases s.len(),
{
    if s.len() > 0 {
        let t = s.drop_last();
        assert(is_sorted(t));
        lemma_dedup_runs_sorted(t);
        lemma_dedup_runs_subset(t);
        let d = dedup_runs(t);
        let x = s.last();
        if !(d.len() > 0 && same_rank(d.last(), x)) {
            let e = d.push(x);
            assert forall|i: int| 0 <= i < d.len() implies (#[trigger] d[i]).ranks_before(x) by {
                assert(t.contains(d[i]));
                let k = choose|k: int| 0 <= k < t.len() && t[k] == d[i];
                assert(s[k] == d[i]);
                assert(s[s.len() - 1] == x);
            }
            assert forall|i: int, j: int| 0 <= i < j < e.len() implies (#[trigger] e[i]).ranks_before(
                #[trigger] e[j],
            ) by {
                if j < d.len() {
                    assert(e[i] == d[i] && e[j] == d[j]);
                } else {
                    assert(e[i] == d[i]);
                }
            }
            assert forall|i: int, j: int| 0 <= i < j < e.len() implies !same_rank(
                #[trigger] e[i],
                #[trigger] e[j],
            ) by {
                if j < d.len() {
                    assert(e[i] == d[i] && e[j] == d[j]);
                } else {
                    assert(e[i] == d[i] && e[j] == x);
                    if same_rank(d[i], x) {
                        let l = d.len() - 1;
                        if i < l {
                            assert(d[i].ranks_before(d[l]));
                        }
                        T::lemma_total(d[l], d[l]);
                        T::lemma_transitive(x, d[i], d[l]);
                        assert(d[l].ranks_before(x));
                    }
                }
            }
        }
    }
}

/// Every row of a stable sort is a row of its input, and every input row
/// is in it.
pub proof fn lemma_stable_sorted_members<T: RowOrder>(s: Seq<T>)
    ensures
        forall|i: int| 0 <= i < stable_sorted(s).len() ==> s.contains(#[trigger] stable_sorted(s)[i]),
        forall|i: int| 0 <= i < s.len() ==> stable_sorted(s).contains(#[trigger] s[i]),
{
    lemma_stable_sorted(s);
    let t = stable_sorted(s);
    assert forall|i: int| 0 <= i < t.len() implies s.contains(#[trigger] t[i]) by {
        assert(t.to_multiset().count(t[i]) > 0) by {
            vstd::seq_lib::to_multiset_contains(t, t[i]);
        }
        vstd::seq_lib::to_multiset_contains(s, t[i]);
    }
    assert forall|i: int| 0 <= i < s.len() implies t.contains(#[trigger] s[i]) by {
        vstd::seq_lib::to_multiset_contains(s, s[i]);
        vstd::seq_lib::to_multiset_contains(t, s[i]);
    }
}

} // verus!

verus! {

/// No two different rows of `s` rank equal.
pub open spec fn ranks_strictly<T: RowOrder>(s: Seq<T>) -> bool {
    forall|i: int, j: int|
        0 <= i < s.len() && 0 <= j < s.len() && same_rank(#[trigger] s[i], #[trigger] s[j]) ==> s[i]
            == s[j]
}

proof fn lemma_sorted_last_is_greatest<T: RowOrder>(s: Seq<T>, x: T)
    requires
        is_sorted(s),
        s.contains(x),
    ensures
        x.ranks_before(s.last()),
{
    let k = choose|k: int| 0 <= k < s.len() && s[k] == x;
    if k < s.len() - 1 {
        assert(s[k].ranks_before(s[s.len() - 1]));
    } else {
        T::lemma_total(x, x);
    }
}

proof fn lemma_sorted_permutations_equal<T: RowOrder>(x: Seq<T>, y: Seq<T>)
    requires
        is_sorted(x),
        is_sorted(y),
        x.to_multiset() == y.to_multiset(),
        ranks_strictly(x),
    ensures
        x == y,
    decreases x.len(),
{
    broadcast use vstd::seq_lib::to_multiset_contains;
    broadcast use vstd::multiset::group_multiset_axioms;
    vstd::seq_lib::lemma_multiset_commutative(x, y);
    x.to_multiset_ensures();
    y.to_multiset_ensures();
    if x.len() == 0 {
        assert(y.len() == 0);
        assert(x =~= y);
    } else {
        let a = x.last();
        let b = y.last();
        assert(x.to_multiset().count(a) > 0);
        assert(y.contains(a));
        assert(y.to_multiset().count(b) > 0);
        assert(x.contains(b));
        lemma_sorted_last_is_greatest(y, a);
        lemma_sorted_last_is_greatest(x, b);
        let ka = x.len() - 1;
        let kb = choose|k: int| 0 <= k < x.len() && x[k] == b;
        assert(same_rank(x[ka], x[kb]));
        assert(a == b);
        let xs = x.drop_last();
        let ys = y.drop_last();
        vstd::seq_lib::to_multiset_build(xs, a);
        vstd::seq_lib::to_multiset_build(ys, a);
        assert(xs.push(a) =~= x);
        assert(ys.push(a) =~= y);
        assert(x.to_multiset() == xs.to_multiset().insert(a));
        assert(y.to_multiset() == ys.to_multiset().insert(a));
        assert(xs.to_multiset() =~= ys.to_multiset()) by {
            assert forall|v: T| xs.to_multiset().count(v) == ys.to_multiset().count(v) by {
                assert(xs.to_multiset().insert(a).count(v) == ys.to_multiset().insert(a).count(v));
                if v == a {
                    assert(xs.to_multiset().insert(a).count(v) == xs.to_multiset().count(v) + 1);
                    assert(ys.to_multiset().insert(a).count(v) == ys.to_multiset().count(v) + 1);
                } else {
                    assert(xs.to_multiset().insert(a).count(v) == xs.to_multiset().count(v));
                    assert(ys.to_multiset().insert(a).count(v) == ys.to_multiset().count(v));
                }
            }
        }
        assert(is_sorted(xs));
        assert(is_sorted(ys));
        assert(ranks_strictly(xs)) by {
            assert forall|i: int, j: int|
                0 <= i < xs.len() && 0 <= j < xs.len() && same_rank(#[trigger] xs[i], #[trigger] xs[j])
                implies xs[i] == xs[j] by {
                assert(i < x.len() && j < x.len());
                assert(xs[i] == x[i] && xs[j] == x[j]);
            }
        }
        lemma_sorted_permutations_equal(xs, ys);
        assert(x =~= y);
    }
}

/// Row order does not depend on the order rows were read in: two readings
/// that hold the same rows, no two different rows of which rank equal,
/// sort to the same sequence.
pub proof fn row_order_is_independent_of_reading_order<T: RowOrder>(a: Seq<T>, b: Seq<T>)
    requires
        a.to_multiset() == b.to_multiset(),
        ranks_strictly(a),
    ensures
        stable_sorted(a) == stable_sorted(b),
{
    broadcast use vstd::seq_lib::to_multiset_contains;
    lemma_stable_sorted(a);
    lemma_stable_sorted(b);
    let x = stable_sorted(a);
    lemma_stable_sorted_members(a);
    assert(ranks_strictly(x)) by {
        assert forall|i: int, j: int|
            0 <= i < x.len() && 0 <= j < x.len() && same_rank(#[trigger] x[i], #[trigger] x[j])
            implies x[i] == x[j] by {
            assert(a.contains(x[i]));
            assert(a.contains(x[j]));
            let p = choose|p: int| 0 <= p < a.len() && a[p] == x[i];
            let q = choose|q: int| 0 <= q < a.len() && a[q] == x[j];
            assert(same_rank(a[p], a[q]));
        }
    }
    lemma_sorted_permutations_equal(x, stable_sorted(b));
}

} // verus!

verus! {

/// The rows of `s` that rank equal to `x`, in the order they stand in `s`.
pub open spec fn rank_class<T: RowOrder>(s: Seq<T>, x: T) -> Seq<T> {
    s.filter(|r: T| same_rank(r, x))
}

/// Rows past the insertion point do not rank before the inserted row.
proof fn lemma_insert_point_after<T: RowOrder>(s: Seq<T>, x: T)
    ensures
        0 <= insert_point(s, x) <= s.len(),
        forall|i: int| insert_point(s, x) <= i < s.len() ==> !(#[trigger] s[i]).ranks_before(x),
    decreases s.len(),
{
    if s.len() > 0 && !s.last().ranks_before(x) {
        let d = s.drop_last();
        lemma_insert_point_after(d, x);
        assert forall|i: int| insert_point(s, x) <= i < s.len() implies !(
        #[trigger] s[i]).ranks_before(x) by {
            if i < s.len() - 1 {
                assert(s[i] == d[i]);
            }
        }
    }
}

proof fn lemma_filter_none<T>(s: Seq<T>, pred: spec_fn(T) -> bool)
    requires
        forall|i: int| 0 <= i < s.len() ==> !pred(#[trigger] s[i]),
    ensures
        s.filter(pred).len() == 0,
    decreases s.len(),
{
    if s.len() > 0 {
        let d = s.drop_last();
        assert forall|i: int| 0 <= i < d.len() implies !pred(#[trigger] d[i]) by {
            assert(d[i] == s[i]);
        }
        lemma_filter_none(d, pred);
        d.lemma_filter_push(s.last(), pred);
        assert(d.push(s.last()) =~= s);
    }
}

/// The first row of `s` that meets `pred` is the first row of its filter.
#[verifier::spinoff_prover]
proof fn lemma_filter_first<T>(s: Seq<T>, pred: spec_fn(T) -> bool, k: int)
    requires
        0 <= k < s.len(),
        pred(s[k]),
    ensures
        s.filter(pred).len() > 0,
        exists|m: int|
            0 <= m < s.len() && pred(s[m]) && s[m] == s.filter(pred)[0] && forall|j: int|
                0 <= j < m ==> !pred(#[trigger] s[j]),
    decreases s.len(),
{
    let d = s.drop_last();
    let y = s.last();
    d.lemma_filter_push(y, pred);
    assert(d.push(y) =~= s);
    if exists|j: int| 0 <= j < d.len() && pred(d[j]) {
        let j = choose|j: int| 0 <= j < d.len() && pred(d[j]);
        lemma_filter_first(d, pred, j);
        let m = choose|m: int|
            0 <= m < d.len() && pred(d[m]) && d[m] == d.filter(pred)[0] && forall|i: int|
                0 <= i < m ==> !pred(#[trigger] d[i]);
        assert(s[m] == d[m]);
        assert forall|i: int| 0 <= i < m implies !pred(#[trigger] s[i]) by {
            assert(s[i] == d[i]);
        }
    } else {
        assert forall|i: int| 0 <= i < d.len() implies !pred(#[trigger] d[i]) by {}
        lemma_filter_none(d, pred);
        let m = s.len() - 1;
        assert(k == m) by {
            if k < m {
                assert(d[k] == s[k]);
            }
        }
        assert forall|i: int| 0 <= i < m implies !pred(#[trigger] s[i]) by {
            assert(d[i] == s[i]);
        }
        assert(s.filter(pred) =~= seq![y]);
    }
}

/// Stability: a stable sort keeps the rows of each rank in the order they
/// were read.
#[verifier::spinoff_prover]
pub proof fn lemma_stable_sort_keeps_rank_order<T: RowOrder>(s: Seq<T>, x: T)
    ensures
        rank_class(stable_sorted(s), x) == rank_class(s, x),
    decreases s.len(),
{
    let pred = |r: T| same_rank(r, x);
    if s.len() == 0 {
    } else {
        let t = s.drop_last();
        let y = s.last();
        let d = stable_sorted(t);
        lemma_stable_sort_keeps_rank_order(t, x);
        lemma_insert_point_after(d, y);
        let p = insert_point(d, y);
        let head = d.take(p);
        let tail = d.skip(p);
        assert(d.insert(p, y) =~= head + (seq![y] + tail));
        assert(d =~= head + tail);
        Seq::filter_distributes_over_add(head, seq![y] + tail, pred);
        Seq::filter_distributes_over_add(head, tail, pred);
        tail.lemma_filter_prepend(y, pred);
        t.lemma_filter_push(y, pred);
        assert(t.push(y) =~= s);
        if pred(y) {
            assert forall|i: int| 0 <= i < tail.len() implies !pred(#[trigger] tail[i]) by {
                assert(tail[i] == d[p + i]);
                if pred(tail[i]) {
                    T::lemma_transitive(tail[i], x, y);
                }
            }
            lemma_filter_none(tail, pred);
            assert(tail.filter(pred) =~= Seq::<T>::empty());
            assert(head.filter(pred) + (seq![y] + tail.filter(pred)) =~= (head.filter(pred)
                + tail.filter(pred)).push(y));
        } else {
            assert(Seq::<T>::empty() + tail.filter(pred) =~= tail.filter(pred));
        }
    }
}

/// When collapsing a sorted sequence keeps its last row, the row at `j`
/// does not rank equal to it.
#[verifier::spinoff_prover]
proof fn lemma_kept_last_unlike<T: RowOrder>(s: Seq<T>, j: int)
    requires
        is_sorted(s),
        0 <= j < s.len() - 1,
        dedup_runs(s.drop_last()).len() == 0 || !same_rank(dedup_runs(s.drop_last()).last(), s.last()),
    ensures
        !same_rank(s[j], s.last()),
{
    let t = s.drop_last();
    let x = s.last();
    let d = dedup_runs(t);
    assert(s[j] == t[j]);
    if same_rank(t[j], x) {
        let k: int = choose|k: int| 0 <= k < d.len() && same_rank(t[j], d[k]);
        assert(0 <= k < d.len() && same_rank(t[j], d[k])) by {
            lemma_dedup_runs_covers(t);
        }
        let l = d.len() - 1;
        assert(d[l].ranks_before(x)) by {
            lemma_dedup_runs_subset(t);
            assert(t.contains(d[l]));
            let q = choose|q: int| 0 <= q < t.len() && t[q] == d[l];
            assert(s[q] == t[q]);
            assert(s[q].ranks_before(s[s.len() - 1]));
        }
        assert(d[k].ranks_before(d[l])) by {
            if k < l {
                assert(is_sorted(t));
                lemma_dedup_runs_sorted(t);
            } else {
                T::lemma_total(d[l], d[l]);
            }
        }
        T::lemma_transitive(x, t[j], d[k]);
        T::lemma_transitive(x, d[k], d[l]);
        assert(same_rank(d.last(), x));
    }
}

/// When collapsing a sorted sequence keeps its last row, no earlier row
/// ranks equal to it.
proof fn lemma_kept_last_is_first_of_run<T: RowOrder>(s: Seq<T>)
    requires
        is_sorted(s),
        s.len() > 0,
        dedup_runs(s.drop_last()).len() == 0 || !same_rank(dedup_runs(s.drop_last()).last(), s.last()),
    ensures
        forall|j: int| 0 <= j < s.len() - 1 ==> !same_rank(#[trigger] s[j], s.last()),
{
    assert forall|j: int| 0 <= j < s.len() - 1 implies !same_rank(#[trigger] s[j], s.last()) by {
        lemma_kept_last_unlike(s, j);
    }
}

/// Of a sorted sequence, collapsing keeps only rows that no earlier row
/// ranks equal to: the first row of each run.
#[verifier::spinoff_prover]
pub proof fn lemma_dedup_runs_keeps_firsts<T: RowOrder>(s: Seq<T>)
    requires
        is_sorted(s),
    ensures
        forall|i: int|
            0 <= i < dedup_runs(s).len() ==> exists|m: int|
                0 <= m < s.len() && s[m] == #[trigger] dedup_runs(s)[i] && forall|j: int|
                    0 <= j < m ==> !same_rank(#[trigger] s[j], s[m]),
    decreases s.len(),
{
    if s.len() > 0 {
        let t = s.drop_last();
        let x = s.last();
        let d = dedup_runs(t);
        assert(is_sorted(t));
        lemma_dedup_runs_keeps_firsts(t);
        assert forall|i: int| 0 <= i < dedup_runs(s).len() implies exists|m: int|
            0 <= m < s.len() && s[m] == #[trigger] dedup_runs(s)[i] && forall|j: int|
                0 <= j < m ==> !same_rank(#[trigger] s[j], s[m]) by {
            if i < d.len() {
                assert(dedup_runs(s)[i] == d[i]);
                let m = choose|m: int|
                    0 <= m < t.len() && t[m] == d[i] && forall|j: int|
                        0 <= j < m ==> !same_rank(#[trigger] t[j], t[m]);
                assert(s[m] == t[m]);
                assert forall|j: int| 0 <= j < m implies !same_rank(#[trigger] s[j], s[m]) by {
                    assert(s[j] == t[j]);
                }
            } else {
                let m = s.len() - 1;
                assert(dedup_runs(s)[i] == x);
                lemma_kept_last_is_first_of_run(s);
            }
        }
    }
}

/// Sorting stably and then collapsing keeps, of each rank, the row read
/// first.
#[verifier::spinoff_prover]
pub proof fn lemma_collapse_keeps_first_read<T: RowOrder>(s: Seq<T>)
    ensures
        forall|i: int|
            0 <= i < dedup_runs(stable_sorted(s)).len() ==> exists|k: int|
                0 <= k < s.len() && s[k] == #[trigger] dedup_runs(stable_sorted(s))[i] && forall|
                    j: int,
                | 0 <= j < k ==> !same_rank(#[trigger] s[j], s[k]),
{
    let t = stable_sorted(s);
    let n = dedup_runs(t);
    lemma_stable_sorted(s);
    lemma_dedup_runs_keeps_firsts(t);
    assert forall|i: int| 0 <= i < n.len() implies exists|k: int|
        0 <= k < s.len() && s[k] == #[trigger] n[i] && forall|j: int|
            0 <= j < k ==> !same_rank(#[trigger] s[j], s[k]) by {
        let r = n[i];
        let pred = |q: T| same_rank(q, r);
        let m = choose|m: int|
            0 <= m < t.len() && t[m] == r && forall|j: int|
                0 <= j < m ==> !same_rank(#[trigger] t[j], t[m]);
        T::lemma_total(r, r);
        lemma_filter_first(t, pred, m);
        let m2 = choose|m2: int|
            0 <= m2 < t.len() && pred(t[m2]) && t[m2] == t.filter(pred)[0] && forall|j: int|
                0 <= j < m2 ==> !pred(#[trigger] t[j]);
        assert(m2 == m) by {
            if m2 < m {
                assert(!same_rank(t[m2], t[m]));
            } else if m < m2 {
                assert(!pred(t[m]));
            }
        }
        lemma_stable_sort_keeps_rank_order(s, r);
        assert(s.filter(pred) == t.filter(pred));
        assert(s.filter(pred).len() > 0);
        assert(s.filter(pred).contains(s.filter(pred)[0]));
        s.filter_lemma(pred);
        assert(pred(s.filter(pred)[0]));
        // an index of s whose row meets pred
        s.lemma_filter_contains_rev(pred, s.filter(pred)[0]);
        let k0 = choose|k0: int| 0 <= k0 < s.len() && s[k0] == s.filter(pred)[0];
        lemma_filter_first(s, pred, k0);
        let k = choose|k: int|
            0 <= k < s.len() && pred(s[k]) && s[k] == s.filter(pred)[0] && forall|j: int|
                0 <= j < k ==> !pred(#[trigger] s[j]);
        assert forall|j: int| 0 <= j < k implies !same_rank(#[trigger] s[j], s[k]) by {
            assert(!pred(s[j]));
        }
    }
}

} // verus!

verus! {

/// Pids and other plain numbers order by value.
impl RowOrder for u32 {
    open spec fn ranks_before(self, other: Self) -> bool {
        self <= other
    }

    proof fn lemma_total(a: Self, b: Self) {
    }

    proof fn lemma_transitive(a: Self, b: Self, c: Self) {
    }

    fn precedes(&self, other: &Self) -> (r: bool) {
        *self <= *other
    }
}

} // verus!

verus! {

/// When rows rank equal exactly when a key of theirs is equal, a stable
/// sort keeps the rows of each key in the order they were given in.
pub proof fn lemma_stable_by_key<T: RowOrder>(s: Seq<T>, key: spec_fn(T) -> int, k: int)
    requires
        forall|a: T, b: T| #[trigger] same_rank(a, b) <==> key(a) == key(b),
    ensures
        stable_sorted(s).filter(|r: T| key(r) == k) == s.filter(|r: T| key(r) == k),
{
    let pred = |r: T| key(r) == k;
    let t = stable_sorted(s);
    if exists|i: int| 0 <= i < s.len() && key(s[i]) == k {
        let i = choose|i: int| 0 <= i < s.len() && key(s[i]) == k;
        let x = s[i];
        lemma_stable_sort_keeps_rank_order(s, x);
        assert forall|r: T| same_rank(r, x) == pred(r) by {}
        assert((|r: T| same_rank(r, x)) =~= pred);
        assert(rank_class(t, x) == t.filter(pred));
        assert(rank_class(s, x) == s.filter(pred));
    } else {
        assert forall|i: int| 0 <= i < s.len() implies !pred(#[trigger] s[i]) by {}
        lemma_filter_none(s, pred);
        lemma_stable_sorted_members(s);
        assert forall|i: int| 0 <= i < t.len() implies !pred(#[trigger] t[i]) by {
            assert(s.contains(t[i]));
            let j = choose|j: int| 0 <= j < s.len() && s[j] == t[i];
        }
        lemma_filter_none(t, pred);
        assert(t.filter(pred) =~= s.filter(pred));
    }
}

} // verus!
