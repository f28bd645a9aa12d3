//! Byte scanning and decimal parsing over raw buffers.
use vstd::prelude::*;

verus! {

/// The byte classes the table and record readers split on.
#[derive(Clone, Copy, PartialEq, Eq, Structural)]
pub enum ByteClass {
    /// Space or tab: the padding between `/proc/net/unix` row columns.
    RowBlank,
    /// Space, tab or carriage return: what separates header column names.
    HeaderBlank,
    /// The line feed that frames text tables.
    Newline,
    /// The NUL that ends a C string.
    Nul,
}

pub open spec fn in_class(b: u8, class: ByteClass) -> bool {
    match class {
        ByteClass::RowBlank => b == 32 || b == 9,
        ByteClass::HeaderBlank => b == 32 || b == 9 || b == 13,
        ByteClass::Newline => b == 10,
        ByteClass::Nul => b == 0,
    }
}

/// The first index at or after `i` whose byte is (when `member`) or is not
/// (when `!member`) in `class`.
pub open spec fn find_from(s: Seq<u8>, i: int, class: ByteClass, member: bool) -> Option<int>
    decreases s.len() - i,
{
    if i < 0 || i >= s.len() {
        None
    } else if in_class(s[i], class) == member {
        Some(i)
    } else {
        find_from(s, i + 1, class, member)
    }
}

/// What [`find_from`] returns, stated without recursion.
pub proof fn lemma_find_from(s: Seq<u8>, i: int, class: ByteClass, member: bool)
    requires
        0 <= i,
    ensures
        match find_from(s, i, class, member) {
            Some(j) => i <= j < s.len() && in_class(s[j], class) == member && forall|k: int|
                i <= k < j ==> in_class(#[trigger] s[k], class) != member,
            None => forall|k: int| i <= k < s.len() ==> in_class(#[trigger] s[k], class) != member,
        },
    decreases s.len() - i,
{
    if i < s.len() && in_class(s[i], class) != member {
        lemma_find_from(s, i + 1, class, member);
    }
}

/// A search result does not depend on bytes past the one it finds, nor
/// on bytes past the end of a prefix that holds a hit.
pub proof fn lemma_find_from_prefix(s: Seq<u8>, n: int, i: int, class: ByteClass, member: bool)
    requires
        0 <= i,
        0 <= n <= s.len(),
    ensures
        find_from(s.take(n), i, class, member) matches Some(j) ==> find_from(s, i, class, member)
            == Some(j),
        find_from(s.take(n), i, class, member) is None ==> (find_from(s, i, class, member) matches Some(j)
            ==> j >= n),
    decreases s.len() - i,
{
    if i < n && in_class(s[i], class) != member {
        lemma_find_from_prefix(s, n, i + 1, class, member);
    } else if i >= n && i < s.len() {
        lemma_find_from(s, i, class, member);
    }
}

pub fn byte_in_class(b: u8, class: ByteClass) -> (r: bool)
    ensures
        r == in_class(b, class),
{
    match class {
        ByteClass::RowBlank => b == 32 || b == 9,
        ByteClass::HeaderBlank => b == 32 || b == 9 || b == 13,
        ByteClass::Newline => b == 10,
        ByteClass::Nul => b == 0,
    }
}

/// Executable [`find_from`].
pub fn find_in(s: &[u8], i: usize, class: ByteClass, member: bool) -> (r: Option<usize>)
    ensures
        r matches Some(j) ==> find_from(s@, i as int, class, member) == Some(j as int),
        r is None ==> find_from(s@, i as int, class, member) is None,
{
    let mut j = i;
    while j < s.len()
        invariant
            i <= j,
            find_from(s@, i as int, class, member) == find_from(s@, j as int, class, member),
        decreases s@.len() - j,
    {
        if byte_in_class(s[j], class) == member {
            return Some(j);
        }
        j = j + 1;
    }
    None
}

/// The index just past the line that starts at `i`: its line feed, or the
/// end of the buffer.
pub open spec fn line_end(s: Seq<u8>, i: int) -> int {
    match find_from(s, i, ByteClass::Newline, true) {
        Some(j) => j,
        None => s.len() as int,
    }
}

pub proof fn lemma_line_end(s: Seq<u8>, i: int)
    requires
        0 <= i <= s.len(),
    ensures
        i <= line_end(s, i) <= s.len(),
        line_end(s, i) < s.len() ==> s[line_end(s, i)] == 10,
        forall|k: int| i <= k < line_end(s, i) ==> #[trigger] s[k] != 10,
{
    lemma_find_from(s, i, ByteClass::Newline, true);
}

pub fn line_end_in(s: &[u8], i: usize) -> (e: usize)
    requires
        i <= s@.len(),
    ensures
        e == line_end(s@, i as int),
        i <= e <= s@.len(),
{
    proof { lemma_line_end(s@, i as int); }
    match find_in(s, i, ByteClass::Newline, true) {
        Some(j) => j,
        None => s.len(),
    }
}

/// `b` is an ASCII decimal digit.
pub open spec fn is_digit(b: u8) -> bool {
    48 <= b <= 57
}

/// The value of a run of decimal digits, most significant first.
pub open spec fn digits_value(s: Seq<u8>) -> nat
    decreases s.len(),
{
    if s.len() == 0 {
        0
    } else {
        digits_value(s.drop_last()) * 10 + (s.last() - 48) as nat
    }
}

pub open spec fn all_digits(s: Seq<u8>) -> bool {
    forall|i: int| 0 <= i < s.len() ==> is_digit(#[trigger] s[i])
}

/// The digits an unsigned integer literal carries: std's integer parsing
/// accepts one optional leading `+`.
pub open spec fn unsigned_digits(s: Seq<u8>) -> Seq<u8> {
    if s.len() > 0 && s[0] == 43 {
        s.drop_first()
    } else {
        s
    }
}

/// The value std's `str::parse` gives an unsigned integer no larger than
/// `max`: an optional `+` and at least one digit, with no overflow.
pub open spec fn spec_parse_unsigned(s: Seq<u8>, max: nat) -> Option<nat> {
    let d = unsigned_digits(s);
    if d.len() > 0 && all_digits(d) && digits_value(d) <= max {
        Some(digits_value(d))
    } else {
        None
    }
}

pub proof fn lemma_digits_value_prefix(s: Seq<u8>, k: int)
    requires
        0 <= k <= s.len(),
        all_digits(s),
    ensures
        digits_value(s.take(k)) <= digits_value(s),
    decreases s.len() - k,
{
    if k < s.len() {
        lemma_digits_value_prefix(s, k + 1);
        assert(s.take(k + 1).drop_last() =~= s.take(k));
        assert(digits_value(s.take(k + 1)) == digits_value(s.take(k)) * 10 + (s[k] - 48) as nat);
    } else {
        assert(s.take(k) =~= s);
    }
}

/// Parses `s[lo..hi]` as an unsigned integer no larger than `max`, exactly
/// as std's `str::parse` does for the unsigned integer types.
pub fn parse_unsigned(s: &[u8], lo: usize, hi: usize, max: u64) -> (r: Option<u64>)
    requires
        lo <= hi <= s@.len(),
    ensures
        r matches Some(v) ==> spec_parse_unsigned(s@.subrange(lo as int, hi as int), max as nat)
            == Some(v as nat),
        r is None ==> spec_parse_unsigned(s@.subrange(lo as int, hi as int), max as nat) is None,
{
    let ghost whole = s@.subrange(lo as int, hi as int);
    let mut start = lo;
    if lo < hi && s[lo] == 43 {
        start = lo + 1;
    }
    let ghost d = unsigned_digits(whole);
    assert(d =~= s@.subrange(start as int, hi as int));
    if start == hi {
        return None;
    }
    let mut value: u64 = 0;
    let mut i = start;
    while i < hi
        invariant
            lo <= start <= i <= hi <= s@.len(),
            d =~= s@.subrange(start as int, hi as int),
            d == unsigned_digits(whole),
            whole == s@.subrange(lo as int, hi as int),
            d.len() > 0,
            all_digits(d.take(i - start)),
            value as nat == digits_value(d.take(i - start)),
            value <= max,
        decreases hi - i,
    {
        let b = s[i];
        if !(48 <= b && b <= 57) {
            assert(d[i - start] == s@[i as int]);
            assert(!is_digit(d[i - start]));
            return None;
        }
        proof {
            assert(d.take(i - start + 1).drop_last() =~= d.take(i - start));
        }
        let next = match value.checked_mul(10) {
            Some(v) => v.checked_add((b - 48) as u64),
            None => None,
        };
        match next {
            Some(v) if v <= max => {
                value = v;
            }
            _ => {
                proof {
                    let t = d.take(i - start + 1);
                    assert(d[i - start] == s@[i as int]);
                    assert(t.last() == b);
                    assert(digits_value(t) == digits_value(d.take(i - start)) * 10 + (b - 48) as nat);
                    assert(digits_value(t) > max);
                    if all_digits(d) {
                        lemma_digits_value_prefix(d, i - start + 1);
                    }
                }
                return None;
            }
        }
        i = i + 1;
    }
    assert(d.take(d.len() as int) =~= d);
    Some(value)
}

/// `a` and `b` hold the same bytes.
pub fn bytes_equal(a: &[u8], b: &[u8]) -> (r: bool)
    ensures
        r == (a@ == b@),
{
    if a.len() != b.len() {
        return false;
    }
    let mut i: usize = 0;
    while i < a.len()
        invariant
            a@.len() == b@.len(),
            i <= a@.len(),
            forall|k: int| 0 <= k < i ==> a@[k] == b@[k],
        decreases a@.len() - i,
    {
        if a[i] != b[i] {
            return false;
        }
        i = i + 1;
    }
    assert(a@ =~= b@);
    true
}

} // verus!
