//! Text as a sequence of characters: whitespace fields, lines, searches and
//! integer literals, each with the meaning std gives the same operation on
//! `str`.
use vstd::prelude::*;
use vstd::std_specs::iter::IteratorSpec;
use crate::text::push_char;

verus! {

/// Unicode `White_Space`: what `char::is_whitespace` and so
/// `str::split_whitespace` and `str::trim` split on.
pub open spec fn is_whitespace(c: char) -> bool {
    ||| ('\u{9}' <= c && c <= '\u{d}')
    ||| c == ' '
    ||| c == '\u{85}'
    ||| c == '\u{a0}'
    ||| c == '\u{1680}'
    ||| ('\u{2000}' <= c && c <= '\u{200a}')
    ||| c == '\u{2028}'
    ||| c == '\u{2029}'
    ||| c == '\u{202f}'
    ||| c == '\u{205f}'
    ||| c == '\u{3000}'
}

pub fn char_is_whitespace(c: char) -> (b: bool)
    ensures
        b == is_whitespace(c),
{
    ('\u{9}' <= c && c <= '\u{d}') || c == ' ' || c == '\u{85}' || c == '\u{a0}' || c
        == '\u{1680}' || ('\u{2000}' <= c && c <= '\u{200a}') || c == '\u{2028}' || c
        == '\u{2029}' || c == '\u{202f}' || c == '\u{205f}' || c == '\u{3000}'
}

/// The characters of a string slice.
pub fn str_chars(s: &str) -> (v: Vec<char>)
    ensures
        v@ == s@,
{
    broadcast use vstd::string::axiom_spec_iter, vstd::string::next_postcondition;

    let mut out: Vec<char> = Vec::new();
    let mut chars = s.chars();
    loop
        invariant_except_break
            out@ + chars.remaining() == s@,
            chars.decrease() is Some,
        ensures
            out@ == s@,
        decreases chars.decrease()->0,
    {
        match chars.next() {
            Some(c) => {
                let ghost before = out@;
                out.push(c);
                assert(before + chars.remaining().insert(0, c) =~= out@ + chars.remaining());
            },
            None => {
                assert(out@ =~= s@);
                break;
            },
        }
    }
    out
}

/// The characters `cs[lo..hi]` as a new string.
pub fn string_from(cs: &[char], lo: usize, hi: usize) -> (s: String)
    requires
        lo <= hi <= cs@.len(),
    ensures
        s@ == cs@.subrange(lo as int, hi as int),
{
    let mut out = String::new();
    let mut i = lo;
    while i < hi
        invariant
            lo <= i <= hi <= cs@.len(),
            out@ == cs@.subrange(lo as int, i as int),
        decreases hi - i,
    {
        push_char(&mut out, cs[i]);
        assert(cs@.subrange(lo as int, i + 1) =~= cs@.subrange(lo as int, i as int).push(cs@[i as int]));
        i = i + 1;
    }
    out
}

/// Compares `cs[lo..hi]` with a string slice.
pub fn span_equals(cs: &[char], lo: usize, hi: usize, t: &str) -> (r: bool)
    requires
        lo <= hi <= cs@.len(),
    ensures
        r == (cs@.subrange(lo as int, hi as int) == t@),
{
    let tc = str_chars(t);
    if hi - lo != tc.len() {
        assert(cs@.subrange(lo as int, hi as int).len() != t@.len());
        return false;
    }
    let mut i: usize = 0;
    while i < tc.len()
        invariant
            tc@ == t@,
            hi - lo == tc@.len(),
            lo <= hi <= cs@.len(),
            i <= tc@.len(),
            forall|k: int| 0 <= k < i ==> cs@[lo + k] == tc@[k],
        decreases tc@.len() - i,
    {
        if cs[lo + i] != tc[i] {
            assert(cs@.subrange(lo as int, hi as int)[i as int] != tc@[i as int]);
            assert(cs@.subrange(lo as int, hi as int) != t@);
            return false;
        }
        i = i + 1;
    }
    assert(cs@.subrange(lo as int, hi as int) =~= tc@);
    true
}

/// `cs[lo..hi]` starts with `t`.
pub fn span_starts_with(cs: &[char], lo: usize, hi: usize, t: &str) -> (r: bool)
    requires
        lo <= hi <= cs@.len(),
    ensures
        r == (t@.len() <= hi - lo && cs@.subrange(lo as int, lo + t@.len()) == t@),
{
    let tc = str_chars(t);
    if tc.len() > hi - lo {
        return false;
    }
    span_equals(cs, lo, lo + tc.len(), t)
}

/// The first index in `[i, hi)` holding `c`.
pub open spec fn find_char(s: Seq<char>, i: int, hi: int, c: char) -> Option<int>
    decreases hi - i,
{
    if i >= hi {
        None
    } else if s[i] == c {
        Some(i)
    } else {
        find_char(s, i + 1, hi, c)
    }
}

/// The last index in `[lo, hi)` holding `c`.
pub open spec fn rfind_char(s: Seq<char>, lo: int, hi: int, c: char) -> Option<int>
    decreases hi - lo,
{
    if hi <= lo {
        None
    } else if s[hi - 1] == c {
        Some(hi - 1)
    } else {
        rfind_char(s, lo, hi - 1, c)
    }
}

pub proof fn lemma_find_char(s: Seq<char>, i: int, hi: int, c: char)
    ensures
        match find_char(s, i, hi, c) {
            Some(j) => i <= j < hi && s[j] == c && forall|k: int| i <= k < j ==> s[k] != c,
            None => forall|k: int| i <= k < hi ==> s[k] != c,
        },
    decreases hi - i,
{
    if i < hi && s[i] != c {
        lemma_find_char(s, i + 1, hi, c);
    }
}

pub proof fn lemma_rfind_char(s: Seq<char>, lo: int, hi: int, c: char)
    ensures
        match rfind_char(s, lo, hi, c) {
            Some(j) => lo <= j < hi && s[j] == c && forall|k: int| j < k < hi ==> s[k] != c,
            None => forall|k: int| lo <= k < hi ==> s[k] != c,
        },
    decreases hi - lo,
{
    if lo < hi && s[hi - 1] != c {
        lemma_rfind_char(s, lo, hi - 1, c);
    }
}

pub fn find_char_in(cs: &[char], lo: usize, hi: usize, c: char) -> (r: Option<usize>)
    requires
        lo <= hi <= cs@.len(),
    ensures
        r matches Some(j) ==> find_char(cs@, lo as int, hi as int, c) == Some(j as int),
        r is None ==> find_char(cs@, lo as int, hi as int, c) is None,
{
    let mut i = lo;
    while i < hi
        invariant
            lo <= i <= hi <= cs@.len(),
            find_char(cs@, lo as int, hi as int, c) == find_char(cs@, i as int, hi as int, c),
        decreases hi - i,
    {
        if cs[i] == c {
            return Some(i);
        }
        i = i + 1;
    }
    None
}

pub fn rfind_char_in(cs: &[char], lo: usize, hi: usize, c: char) -> (r: Option<usize>)
    requires
        lo <= hi <= cs@.len(),
    ensures
        r matches Some(j) ==> rfind_char(cs@, lo as int, hi as int, c) == Some(j as int),
        r is None ==> rfind_char(cs@, lo as int, hi as int, c) is None,
{
    let mut i = hi;
    while i > lo
        invariant
            lo <= i <= hi <= cs@.len(),
            rfind_char(cs@, lo as int, hi as int, c) == rfind_char(cs@, lo as int, i as int, c),
        decreases i - lo,
    {
        if cs[i - 1] == c {
            return Some(i - 1);
        }
        i = i - 1;
    }
    None
}

/// The first index in `[i, hi)` whose character is (when `ws`) or is not
/// whitespace; `hi` when there is none.
pub open spec fn scan_ws(s: Seq<char>, i: int, hi: int, ws: bool) -> int
    decreases hi - i,
{
    if i >= hi {
        hi
    } else if is_whitespace(s[i]) == ws {
        i
    } else {
        scan_ws(s, i + 1, hi, ws)
    }
}

pub proof fn lemma_scan_ws(s: Seq<char>, i: int, hi: int, ws: bool)
    requires
        i <= hi,
    ensures
        i <= scan_ws(s, i, hi, ws) <= hi,
        scan_ws(s, i, hi, ws) < hi ==> is_whitespace(s[scan_ws(s, i, hi, ws)]) == ws,
        forall|k: int| i <= k < scan_ws(s, i, hi, ws) ==> is_whitespace(s[k]) != ws,
    decreases hi - i,
{
    if i < hi && is_whitespace(s[i]) != ws {
        lemma_scan_ws(s, i + 1, hi, ws);
    }
}

fn scan_ws_in(cs: &[char], i: usize, hi: usize, ws: bool) -> (r: usize)
    requires
        i <= hi <= cs@.len(),
    ensures
        r == scan_ws(cs@, i as int, hi as int, ws),
        i <= r <= hi,
{
    proof { lemma_scan_ws(cs@, i as int, hi as int, ws); }
    let mut j = i;
    while j < hi
        invariant
            i <= j <= hi <= cs@.len(),
            scan_ws(cs@, i as int, hi as int, ws) == scan_ws(cs@, j as int, hi as int, ws),
        decreases hi - j,
    {
        if char_is_whitespace(cs[j]) == ws {
            return j;
        }
        j = j + 1;
    }
    j
}

/// The spans of the whitespace-separated fields of `s[i..hi]`, in order:
/// what `str::split_whitespace` yields.
pub open spec fn field_spans(s: Seq<char>, i: int, hi: int) -> Seq<(int, int)>
    decreases hi - i,
{
    let j = scan_ws(s, i, hi, false);
    if i >= hi || j >= hi {
        seq![]
    } else {
        let k = scan_ws(s, j, hi, true);
        proof {
            lemma_scan_ws(s, i, hi, false);
            lemma_scan_ws(s, j, hi, true);
        }
        seq![(j, k)] + field_spans(s, k, hi)
    }
}

/// The whitespace-separated fields of `s[i..hi]`.
pub open spec fn fields(s: Seq<char>, i: int, hi: int) -> Seq<Seq<char>> {
    field_spans(s, i, hi).map_values(|p: (int, int)| s.subrange(p.0, p.1))
}

/// Every field span lies in `[i, hi)`, is non-empty, and follows the one
/// before it.
pub proof fn lemma_field_spans(s: Seq<char>, i: int, hi: int)
    requires
        i <= hi,
    ensures
        forall|n: int|
            0 <= n < field_spans(s, i, hi).len() ==> {
                let p = #[trigger] field_spans(s, i, hi)[n];
                i <= p.0 < p.1 <= hi
            },
    decreases hi - i,
{
    let j = scan_ws(s, i, hi, false);
    lemma_scan_ws(s, i, hi, false);
    if i < hi && j < hi {
        let k = scan_ws(s, j, hi, true);
        lemma_scan_ws(s, j, hi, true);
        lemma_field_spans(s, k, hi);
        assert forall|n: int| 0 <= n < field_spans(s, i, hi).len() implies {
            let p = #[trigger] field_spans(s, i, hi)[n];
            i <= p.0 < p.1 <= hi
        } by {
            if n > 0 {
                assert(field_spans(s, i, hi)[n] == field_spans(s, k, hi)[n - 1]);
            }
        }
    }
}

/// The spans of the whitespace-separated fields of `cs[lo..hi]`.
pub fn field_spans_in(cs: &[char], lo: usize, hi: usize) -> (v: Vec<(usize, usize)>)
    requires
        lo <= hi <= cs@.len(),
    ensures
        v@.len() == field_spans(cs@, lo as int, hi as int).len(),
        forall|n: int|
            0 <= n < v@.len() ==> (#[trigger] v@[n]).0 as int == field_spans(
                cs@,
                lo as int,
                hi as int,
            )[n].0 && v@[n].1 as int == field_spans(cs@, lo as int, hi as int)[n].1,
        forall|n: int| 0 <= n < v@.len() ==> lo <= (#[trigger] v@[n]).0 < v@[n].1 <= hi,
{
    proof { lemma_field_spans(cs@, lo as int, hi as int); }
    let ghost all = field_spans(cs@, lo as int, hi as int);
    let mut out: Vec<(usize, usize)> = Vec::new();
    let mut i = lo;
    while i < hi
        invariant
            lo <= i <= hi <= cs@.len(),
            all == field_spans(cs@, lo as int, hi as int),
            all.len() == out@.len() + field_spans(cs@, i as int, hi as int).len(),
            forall|n: int|
                0 <= n < out@.len() ==> (#[trigger] out@[n]).0 as int == all[n].0 && out@[n].1 as int
                    == all[n].1,
            forall|n: int|
                0 <= n < field_spans(cs@, i as int, hi as int).len() ==> #[trigger] field_spans(
                    cs@,
                    i as int,
                    hi as int,
                )[n] == all[out@.len() + n],
            forall|n: int| 0 <= n < out@.len() ==> lo <= (#[trigger] out@[n]).0 < out@[n].1 <= i,
        decreases hi - i,
    {
        let j = scan_ws_in(cs, i, hi, false);
        if j >= hi {
            assert(field_spans(cs@, i as int, hi as int).len() == 0);
            i = hi;
        } else {
            let k = scan_ws_in(cs, j, hi, true);
            proof {
                lemma_scan_ws(cs@, i as int, hi as int, false);
                lemma_scan_ws(cs@, j as int, hi as int, true);
                let rest = field_spans(cs@, k as int, hi as int);
                assert(field_spans(cs@, i as int, hi as int) == seq![(j as int, k as int)] + rest);
                assert forall|n: int| 0 <= n < rest.len() implies #[trigger] rest[n] == all[out@.len() + 1 + n] by {
                    assert(field_spans(cs@, i as int, hi as int)[n + 1] == rest[n]);
                }
                assert(field_spans(cs@, i as int, hi as int)[0] == (j as int, k as int));
            }
            out.push((j, k));
            i = k;
        }
    }
    out
}

/// The spans of the lines of `s[i..hi]`: what `str::lines` yields. A line
/// ends at a line feed, which is not part of it, nor is a carriage return
/// just before that line feed; a last line needs no line feed, and an empty
/// text has no lines.
pub open spec fn line_spans(s: Seq<char>, i: int, hi: int) -> Seq<(int, int)>
    decreases hi - i,
{
    if i >= hi {
        seq![]
    } else {
        match find_char(s, i, hi, '\n') {
            None => seq![(i, hi)],
            Some(k) => {
                proof { lemma_find_char(s, i, hi, '\n'); }
                let end = if k > i && s[k - 1] == '\r' { k - 1 } else { k };
                seq![(i, end)] + line_spans(s, k + 1, hi)
            },
        }
    }
}

pub proof fn lemma_line_spans(s: Seq<char>, i: int, hi: int)
    requires
        i <= hi,
    ensures
        forall|n: int|
            0 <= n < line_spans(s, i, hi).len() ==> {
                let p = #[trigger] line_spans(s, i, hi)[n];
                i <= p.0 <= p.1 <= hi
            },
    decreases hi - i,
{
    if i < hi {
        lemma_find_char(s, i, hi, '\n');
        match find_char(s, i, hi, '\n') {
            None => {},
            Some(k) => {
                lemma_line_spans(s, k + 1, hi);
                assert forall|n: int| 0 <= n < line_spans(s, i, hi).len() implies {
                    let p = #[trigger] line_spans(s, i, hi)[n];
                    i <= p.0 <= p.1 <= hi
                } by {
                    if n > 0 {
                        assert(line_spans(s, i, hi)[n] == line_spans(s, k + 1, hi)[n - 1]);
                    }
                }
            },
        }
    }
}

/// The spans of the lines of `cs[lo..hi]`.
pub fn line_spans_in(cs: &[char], lo: usize, hi: usize) -> (v: Vec<(usize, usize)>)
    requires
        lo <= hi <= cs@.len(),
    ensures
        v@.len() == line_spans(cs@, lo as int, hi as int).len(),
        forall|n: int|
            0 <= n < v@.len() ==> (#[trigger] v@[n]).0 as int == line_spans(
                cs@,
                lo as int,
                hi as int,
            )[n].0 && v@[n].1 as int == line_spans(cs@, lo as int, hi as int)[n].1,
        forall|n: int| 0 <= n < v@.len() ==> lo <= (#[trigger] v@[n]).0 <= v@[n].1 <= hi,
{
    proof { lemma_line_spans(cs@, lo as int, hi as int); }
    let ghost all = line_spans(cs@, lo as int, hi as int);
    let mut out: Vec<(usize, usize)> = Vec::new();
    let mut i = lo;
    while i < hi
        invariant
            lo <= i <= hi <= cs@.len(),
            all == line_spans(cs@, lo as int, hi as int),
            all.len() == out@.len() + line_spans(cs@, i as int, hi as int).len(),
            forall|n: int|
                0 <= n < out@.len() ==> (#[trigger] out@[n]).0 as int == all[n].0 && out@[n].1 as int
                    == all[n].1,
            forall|n: int|
                0 <= n < line_spans(cs@, i as int, hi as int).len() ==> #[trigger] line_spans(
                    cs@,
                    i as int,
                    hi as int,
                )[n] == all[out@.len() + n],
            forall|n: int| 0 <= n < out@.len() ==> lo <= (#[trigger] out@[n]).0 <= out@[n].1 <= i,
        decreases hi - i,
    {
        proof { lemma_find_char(cs@, i as int, hi as int, '\n'); }
        match find_char_in(cs, i, hi, '\n') {
            None => {
                assert(line_spans(cs@, i as int, hi as int) == seq![(i as int, hi as int)]);
                assert(line_spans(cs@, i as int, hi as int)[0] == (i as int, hi as int));
                out.push((i, hi));
                i = hi;
            },
            Some(k) => {
                let end = if k > i && cs[k - 1] == '\r' {
                    k - 1
                } else {
                    k
                };
                proof {
                    let rest = line_spans(cs@, k + 1, hi as int);
                    assert(line_spans(cs@, i as int, hi as int) == seq![(i as int, end as int)] + rest);
                    assert forall|n: int| 0 <= n < rest.len() implies #[trigger] rest[n] == all[out@.len() + 1 + n] by {
                        assert(line_spans(cs@, i as int, hi as int)[n + 1] == rest[n]);
                    }
                    assert(line_spans(cs@, i as int, hi as int)[0] == (i as int, end as int));
                }
                out.push((i, end));
                i = k + 1;
            },
        }
    }
    out
}

} // verus!

verus! {

/// The value of an ASCII hexadecimal digit in `radix` 10 or 16, or `None`
/// when `c` is not a digit of that radix.
pub open spec fn digit_of(c: char, radix: nat) -> Option<nat> {
    if '0' <= c && c <= '9' {
        Some((c as u32 - '0' as u32) as nat)
    } else if radix == 16 && 'a' <= c && c <= 'f' {
        Some((c as u32 - 'a' as u32 + 10) as nat)
    } else if radix == 16 && 'A' <= c && c <= 'F' {
        Some((c as u32 - 'A' as u32 + 10) as nat)
    } else {
        None
    }
}

/// The value of a run of digits in `radix`, most significant first, or
/// `None` when some character is not a digit.
pub open spec fn digits_in_radix(s: Seq<char>, radix: nat) -> Option<nat>
    decreases s.len(),
{
    if s.len() == 0 {
        Some(0)
    } else {
        match (digits_in_radix(s.drop_last(), radix), digit_of(s.last(), radix)) {
            (Some(v), Some(d)) => Some(v * radix + d),
            _ => None,
        }
    }
}

/// What std's `from_str_radix` gives an unsigned integer type whose largest
/// value is `max`: an optional `+`, then at least one digit, with no
/// overflow.
pub open spec fn parse_uint(s: Seq<char>, radix: nat, max: nat) -> Option<nat> {
    let d = if s.len() > 0 && s[0] == '+' {
        s.drop_first()
    } else {
        s
    };
    if d.len() == 0 {
        None
    } else {
        match digits_in_radix(d, radix) {
            Some(v) => if v <= max {
                Some(v)
            } else {
                None
            },
            None => None,
        }
    }
}

/// What std's `str::parse::<i32>` gives: an optional `+` or `-`, then at
/// least one decimal digit, within `i32`.
pub open spec fn parse_i32(s: Seq<char>) -> Option<int> {
    if s.len() > 0 && s[0] == '-' {
        let d = s.drop_first();
        if d.len() == 0 {
            None
        } else {
            match digits_in_radix(d, 10) {
                Some(v) => if v <= 0x8000_0000 {
                    Some(-v)
                } else {
                    None
                },
                None => None,
            }
        }
    } else {
        match parse_uint(s, 10, 0x7fff_ffff) {
            Some(v) => Some(v as int),
            None => None,
        }
    }
}

proof fn lemma_digits_monotone(s: Seq<char>, radix: nat, k: int)
    requires
        0 <= k <= s.len(),
        radix >= 2,
        digits_in_radix(s, radix) is Some,
    ensures
        digits_in_radix(s.take(k), radix) is Some,
        digits_in_radix(s.take(k), radix)->0 <= digits_in_radix(s, radix)->0,
    decreases s.len() - k,
{
    if k < s.len() {
        assert(s.take(k + 1).drop_last() =~= s.take(k));
        lemma_digits_monotone(s, radix, k + 1);
        let v = digits_in_radix(s.take(k), radix)->0;
        let d = digit_of(s[k], radix)->0;
        assert(digits_in_radix(s.take(k + 1), radix) == Some(v * radix + d));
        assert(v <= v * radix + d) by (nonlinear_arith)
            requires
                radix >= 2,
        ;
    } else {
        assert(s.take(k) =~= s);
    }
}

/// Parses the digits `cs[lo..hi]` in `radix` up to `max`.
fn digits_value_in(cs: &[char], lo: usize, hi: usize, radix: u64, max: u64) -> (r: Option<u64>)
    requires
        lo <= hi <= cs@.len(),
        radix == 10 || radix == 16,
    ensures
        r matches Some(v) ==> digits_in_radix(cs@.subrange(lo as int, hi as int), radix as nat)
            == Some(v as nat) && v <= max,
        r is None ==> match digits_in_radix(cs@.subrange(lo as int, hi as int), radix as nat) {
            Some(v) => v > max,
            None => true,
        },
{
    let ghost d = cs@.subrange(lo as int, hi as int);
    let mut value: u64 = 0;
    let mut i = lo;
    while i < hi
        invariant
            lo <= i <= hi <= cs@.len(),
            radix == 10 || radix == 16,
            d == cs@.subrange(lo as int, hi as int),
            digits_in_radix(d.take(i - lo), radix as nat) == Some(value as nat),
            value <= max,
        decreases hi - i,
    {
        let c = cs[i];
        let digit: u64 = if '0' <= c && c <= '9' {
            (c as u64) - 48
        } else if radix == 16 && 'a' <= c && c <= 'f' {
            (c as u64) - 87
        } else if radix == 16 && 'A' <= c && c <= 'F' {
            (c as u64) - 55
        } else {
            proof {
                assert(d.take(i - lo + 1).drop_last() =~= d.take(i - lo));
                assert(d[i - lo] == c);
                assert(digits_in_radix(d.take(i - lo + 1), radix as nat) is None);
                if digits_in_radix(d, radix as nat) is Some {
                    lemma_digits_monotone(d, radix as nat, i - lo + 1);
                }
            }
            return None;
        };
        proof {
            assert(d.take(i - lo + 1).drop_last() =~= d.take(i - lo));
            assert(d[i - lo] == c);
            assert(digit_of(c, radix as nat) == Some(digit as nat));
        }
        let next = match value.checked_mul(radix) {
            Some(v) => v.checked_add(digit),
            None => None,
        };
        match next {
            Some(v) if v <= max => {
                value = v;
            },
            _ => {
                proof {
                    let t = d.take(i - lo + 1);
                    assert(digits_in_radix(t, radix as nat) == Some((value * radix + digit) as nat));
                    if digits_in_radix(d, radix as nat) is Some {
                        lemma_digits_monotone(d, radix as nat, i - lo + 1);
                    }
                }
                return None;
            },
        }
        i = i + 1;
    }
    assert(d.take(hi - lo) =~= d);
    Some(value)
}

/// Parses `cs[lo..hi]` as an unsigned integer in `radix`, no larger than
/// `max`, exactly as std's `from_str_radix` does.
pub fn parse_uint_in(cs: &[char], lo: usize, hi: usize, radix: u64, max: u64) -> (r: Option<u64>)
    requires
        lo <= hi <= cs@.len(),
        radix == 10 || radix == 16,
    ensures
        r matches Some(v) ==> parse_uint(cs@.subrange(lo as int, hi as int), radix as nat, max as nat)
            == Some(v as nat),
        r is None ==> parse_uint(cs@.subrange(lo as int, hi as int), radix as nat, max as nat) is None,
{
    let ghost s = cs@.subrange(lo as int, hi as int);
    let start = if lo < hi && cs[lo] == '+' {
        lo + 1
    } else {
        lo
    };
    assert(s.len() > 0 && s[0] == '+' ==> s.drop_first() =~= cs@.subrange(start as int, hi as int));
    assert(!(s.len() > 0 && s[0] == '+') ==> s =~= cs@.subrange(start as int, hi as int));
    if start == hi {
        return None;
    }
    digits_value_in(cs, start, hi, radix, max)
}

/// Parses `cs[lo..hi]` as an `i32`, exactly as std's `str::parse` does.
pub fn parse_i32_in(cs: &[char], lo: usize, hi: usize) -> (r: Option<i32>)
    requires
        lo <= hi <= cs@.len(),
    ensures
        r matches Some(v) ==> parse_i32(cs@.subrange(lo as int, hi as int)) == Some(v as int),
        r is None ==> parse_i32(cs@.subrange(lo as int, hi as int)) is None,
{
    let ghost s = cs@.subrange(lo as int, hi as int);
    if lo < hi && cs[lo] == '-' {
        assert(s.drop_first() =~= cs@.subrange(lo + 1, hi as int));
        if lo + 1 == hi {
            return None;
        }
        match digits_value_in(cs, lo + 1, hi, 10, 0x8000_0000) {
            Some(v) => {
                if v == 0x8000_0000 {
                    Some(i32::MIN)
                } else {
                    Some(-(v as i32))
                }
            },
            None => None,
        }
    } else {
        match parse_uint_in(cs, lo, hi, 10, 0x7fff_ffff) {
            Some(v) => Some(v as i32),
            None => None,
        }
    }
}

} // verus!
