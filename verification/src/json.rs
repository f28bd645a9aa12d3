//! JSON string encoding of free text in TSV fields.
//!
//! A cwd or an argv element may hold tabs, newlines or anything else, so
//! those fields carry a JSON string (or array of strings) instead of raw
//! text. The encoding is serde_json's.
use vstd::prelude::*;
use crate::text::lower_hex_char;

verus! {

/// How JSON escapes one character: `"` and `\` and the control characters
/// below U+0020 are escaped (`\b \t \n \f \r` by name, the others as
/// `\u00XX` in lowercase hex); every other character stands as itself.
pub open spec fn json_escaped_char(c: char) -> Seq<char> {
    if c == '"' {
        seq!['\\', '"']
    } else if c == '\\' {
        seq!['\\', '\\']
    } else if c == '\u{8}' {
        seq!['\\', 'b']
    } else if c == '\t' {
        seq!['\\', 't']
    } else if c == '\n' {
        seq!['\\', 'n']
    } else if c == '\u{c}' {
        seq!['\\', 'f']
    } else if c == '\r' {
        seq!['\\', 'r']
    } else if (c as u32) < 0x20 {
        seq!['\\', 'u', '0', '0', lower_hex_char((c as u32) as int / 16), lower_hex_char((c as u32) as int % 16)]
    } else {
        seq![c]
    }
}

/// The escaped body of a JSON string.
pub open spec fn json_escaped(s: Seq<char>) -> Seq<char>
    decreases s.len(),
{
    if s.len() == 0 {
        seq![]
    } else {
        json_escaped(s.drop_last()) + json_escaped_char(s.last())
    }
}

/// A JSON string literal for `s`.
pub open spec fn json_string(s: Seq<char>) -> Seq<char> {
    seq!['"'] + json_escaped(s) + seq!['"']
}

/// The comma-separated JSON string literals of `v`.
pub open spec fn json_list_items(v: Seq<Seq<char>>) -> Seq<char>
    decreases v.len(),
{
    if v.len() == 0 {
        seq![]
    } else if v.len() == 1 {
        json_string(v[0])
    } else {
        json_list_items(v.drop_last()) + seq![','] + json_string(v.last())
    }
}

/// A compact JSON array of string literals.
pub open spec fn json_string_array(v: Seq<Seq<char>>) -> Seq<char> {
    seq!['['] + json_list_items(v) + seq![']']
}

#[verifier::external_type_specification]
#[verifier::external_body]
pub struct ExJsonError(serde_json::Error);

/// Calls `serde_json::to_string` on a string slice.
///
/// serde_json writes a string as `"`, then the text with `"`, `\` and the
/// control characters below U+0020 escaped (`\b \t \n \f \r` by name, the
/// rest as `\u00XX` with lowercase hex), then `"`. Writing into its own
/// `Vec<u8>` buffer cannot fail, so the result is always `Ok`.
#[verifier::external_body]
fn serde_json_to_string_str(value: &str) -> (r: Result<String, serde_json::Error>)
    ensures
        r is Ok,
        r matches Ok(s) ==> s@ == json_string(value@),
{
    serde_json::to_string(value)
}

/// Calls `serde_json::to_string` on a slice of strings.
///
/// serde_json writes a sequence as `[`, the elements separated by `,` with
/// no whitespace, then `]`; each element is written as a JSON string as in
/// [`serde_json_to_string_str`]. Writing into its own buffer cannot fail.
#[verifier::external_body]
fn serde_json_to_string_strs(values: &[String]) -> (r: Result<String, serde_json::Error>)
    ensures
        r is Ok,
        r matches Ok(s) ==> s@ == json_string_array(values@.map_values(|v: String| v@)),
{
    serde_json::to_string(values)
}

/// One free-text TSV field: the value as a JSON string.
pub fn encode_tsv_string(value: &str) -> (s: String)
    ensures
        s@ == json_string(value@),
{
    match serde_json_to_string_str(value) {
        Ok(s) => s,
        Err(_) => {
            proof { assert(false); }
            String::new()
        },
    }
}

/// A list of free-text values as one TSV field: a JSON array of strings.
pub fn encode_tsv_strings(values: &[String]) -> (s: String)
    ensures
        s@ == json_string_array(values@.map_values(|v: String| v@)),
{
    match serde_json_to_string_strs(values) {
        Ok(s) => s,
        Err(_) => {
            proof { assert(false); }
            String::new()
        },
    }
}

/// A JSON string never holds a raw tab, line feed or carriage return, so a
/// JSON-encoded field cannot break a TSV row.
pub proof fn json_string_has_no_delimiters(s: Seq<char>)
    ensures
        forall|i: int| 0 <= i < json_string(s).len() ==> {
            let c = #[trigger] json_string(s)[i];
            c != '\t' && c != '\n' && c != '\r'
        },
{
    lemma_json_escaped_no_delimiters(s);
}

proof fn lemma_json_escaped_no_delimiters(s: Seq<char>)
    ensures
        forall|i: int| 0 <= i < json_escaped(s).len() ==> {
            let c = #[trigger] json_escaped(s)[i];
            c != '\t' && c != '\n' && c != '\r'
        },
    decreases s.len(),
{
    if s.len() > 0 {
        lemma_json_escaped_no_delimiters(s.drop_last());
        let c = s.last();
        let e = json_escaped_char(c);
        if (c as u32) < 0x20 {
            crate::text::lemma_lower_hex_char((c as u32) as int / 16);
            crate::text::lemma_lower_hex_char((c as u32) as int % 16);
        }
        assert forall|i: int| 0 <= i < e.len() implies {
            let d = #[trigger] e[i];
            d != '\t' && d != '\n' && d != '\r'
        } by {
            if (c as u32) < 0x20 && c != '\u{8}' && c != '\t' && c != '\n' && c != '\u{c}' && c != '\r' {
                assert((c as u32) as int / 16 <= 1);
            }
        }
        let prev = json_escaped(s.drop_last());
        assert forall|i: int| 0 <= i < json_escaped(s).len() implies {
            let d = #[trigger] json_escaped(s)[i];
            d != '\t' && d != '\n' && d != '\r'
        } by {
            if i < prev.len() {
                assert(json_escaped(s)[i] == prev[i]);
            } else {
                assert(json_escaped(s)[i] == e[i - prev.len()]);
            }
        }
    }
}

} // verus!

verus! {

proof fn lemma_escaped_char_shape(c: char)
    ensures
        json_escaped_char(c).len() == 1 ==> json_escaped_char(c)[0] == c && c != '\\',
        json_escaped_char(c).len() != 1 ==> json_escaped_char(c)[0] == '\\',
        json_escaped_char(c).len() == 1 || json_escaped_char(c).len() == 2 || json_escaped_char(
            c,
        ).len() == 6,
        json_escaped_char(c).len() == 2 ==> json_escaped_char(c)[1] != 'u',
        json_escaped_char(c).len() == 6 ==> json_escaped_char(c)[1] == 'u',
{
}

/// Escaping a character can be undone: different characters escape to
/// different text.
proof fn lemma_escaped_char_injective(x: char, y: char)
    requires
        json_escaped_char(x) == json_escaped_char(y),
    ensures
        x == y,
{
    let e = json_escaped_char(x);
    lemma_escaped_char_shape(x);
    lemma_escaped_char_shape(y);
    if e.len() == 6 {
        let a = x as u32 as int;
        let b = y as u32 as int;
        assert((x as u32) < 0x20 && (y as u32) < 0x20);
        crate::text::lemma_lower_hex_char(a / 16);
        crate::text::lemma_lower_hex_char(a % 16);
        crate::text::lemma_lower_hex_char(b / 16);
        crate::text::lemma_lower_hex_char(b % 16);
        assert(e[4] == lower_hex_char(a / 16) && e[4] == lower_hex_char(b / 16));
        assert(e[5] == lower_hex_char(a % 16) && e[5] == lower_hex_char(b % 16));
        assert(a / 16 == b / 16);
        assert(a % 16 == b % 16);
        assert(a == b);
        assert(x as u32 == y as u32);
    } else if e.len() == 1 {
        assert(e[0] == x && e[0] == y);
    } else {
        assert(e[1] == json_escaped_char(y)[1]);
    }
}

/// No escape is a proper prefix of another: when one is a prefix of the
/// other, they are the same.
proof fn lemma_escapes_prefix_free(x: char, y: char)
    requires
        json_escaped_char(x).len() <= json_escaped_char(y).len(),
        json_escaped_char(x) == json_escaped_char(y).take(json_escaped_char(x).len() as int),
    ensures
        json_escaped_char(x) == json_escaped_char(y),
{
    lemma_escaped_char_shape(x);
    lemma_escaped_char_shape(y);
    let ex = json_escaped_char(x);
    let ey = json_escaped_char(y);
    assert(ex[0] == ey[0]);
    if ex.len() >= 2 {
        assert(ex[1] == ey[1]);
    }
    assert(ex.len() == ey.len());
    assert(ex =~= ey);
}

proof fn lemma_escaped_prepend(c: char, s: Seq<char>)
    ensures
        json_escaped(seq![c] + s) == json_escaped_char(c) + json_escaped(s),
    decreases s.len(),
{
    if s.len() == 0 {
        let t = seq![c] + s;
        assert(t =~= seq![c]);
        assert(t.drop_last() =~= Seq::<char>::empty());
        assert(t.last() == c);
        assert(json_escaped(t) == json_escaped(t.drop_last()) + json_escaped_char(c));
        assert(json_escaped(t.drop_last()) == Seq::<char>::empty());
        assert(json_escaped(t) =~= json_escaped_char(c));
        assert(json_escaped_char(c) + json_escaped(s) =~= json_escaped_char(c));
    } else {
        let t = seq![c] + s;
        lemma_escaped_prepend(c, s.drop_last());
        assert(t.drop_last() =~= seq![c] + s.drop_last());
        assert(t.last() == s.last());
        assert(json_escaped(t) == json_escaped(t.drop_last()) + json_escaped_char(s.last()));
        assert(json_escaped(s) == json_escaped(s.drop_last()) + json_escaped_char(s.last()));
        assert(json_escaped(t) =~= json_escaped_char(c) + json_escaped(s));
    }
}

proof fn lemma_escaped_empty(s: Seq<char>)
    ensures
        json_escaped(s).len() == 0 <==> s.len() == 0,
    decreases s.len(),
{
    if s.len() > 0 {
        lemma_escaped_char_shape(s.last());
    }
}

proof fn lemma_escaped_injective(a: Seq<char>, b: Seq<char>)
    requires
        json_escaped(a) == json_escaped(b),
    ensures
        a == b,
    decreases a.len() + b.len(),
{
    lemma_escaped_empty(a);
    lemma_escaped_empty(b);
    if a.len() > 0 && b.len() > 0 {
        let x = a[0];
        let y = b[0];
        let ra = a.drop_first();
        let rb = b.drop_first();
        assert(a =~= seq![x] + ra);
        assert(b =~= seq![y] + rb);
        lemma_escaped_prepend(x, ra);
        lemma_escaped_prepend(y, rb);
        let ex = json_escaped_char(x);
        let ey = json_escaped_char(y);
        let t = json_escaped(a);
        if ex.len() <= ey.len() {
            assert(ex =~= t.take(ex.len() as int));
            assert(ey.take(ex.len() as int) =~= t.take(ex.len() as int));
            lemma_escapes_prefix_free(x, y);
        } else {
            assert(ey =~= t.take(ey.len() as int));
            assert(ex.take(ey.len() as int) =~= t.take(ey.len() as int));
            lemma_escapes_prefix_free(y, x);
        }
        lemma_escaped_char_injective(x, y);
        assert(json_escaped(ra) =~= t.skip(ex.len() as int));
        assert(json_escaped(rb) =~= t.skip(ey.len() as int));
        lemma_escaped_injective(ra, rb);
    } else if a.len() == 0 && b.len() == 0 {
        assert(a =~= b);
    }
}

/// A JSON-encoded field can be decoded back: different texts encode to
/// different JSON strings.
pub proof fn json_strings_decode_back(a: Seq<char>, b: Seq<char>)
    requires
        json_string(a) == json_string(b),
    ensures
        a == b,
{
    let ja = json_string(a);
    assert(json_escaped(a) =~= ja.subrange(1, ja.len() - 1));
    assert(json_escaped(b) =~= ja.subrange(1, ja.len() - 1));
    lemma_escaped_injective(a, b);
}


/// A JSON string ends at its first unescaped `"`: whatever follows two
/// encoded texts, equal text means equal strings and equal tails.
proof fn lemma_escaped_then_quote(a: Seq<char>, b: Seq<char>, x: Seq<char>, y: Seq<char>)
    requires
        json_escaped(a) + seq!['"'] + x == json_escaped(b) + seq!['"'] + y,
    ensures
        a == b,
        x == y,
    decreases a.len() + b.len(),
{
    let ta = json_escaped(a) + seq!['"'] + x;
    lemma_escaped_empty(a);
    lemma_escaped_empty(b);
    if a.len() == 0 && b.len() == 0 {
        assert(a =~= b);
        assert(x =~= ta.skip(1));
        assert(y =~= ta.skip(1));
    } else if a.len() == 0 {
        let q = b[0];
        assert(b =~= seq![q] + b.drop_first());
        lemma_escaped_prepend(q, b.drop_first());
        lemma_escaped_char_shape(q);
        assert(ta[0] == '"');
        assert(ta[0] == json_escaped_char(q)[0]);
    } else if b.len() == 0 {
        let p = a[0];
        assert(a =~= seq![p] + a.drop_first());
        lemma_escaped_prepend(p, a.drop_first());
        lemma_escaped_char_shape(p);
        assert(ta[0] == json_escaped_char(p)[0]);
    } else {
        let p = a[0];
        let q = b[0];
        let ra = a.drop_first();
        let rb = b.drop_first();
        assert(a =~= seq![p] + ra);
        assert(b =~= seq![q] + rb);
        lemma_escaped_prepend(p, ra);
        lemma_escaped_prepend(q, rb);
        let ep = json_escaped_char(p);
        let eq = json_escaped_char(q);
        if ep.len() <= eq.len() {
            assert(ep =~= ta.take(ep.len() as int));
            assert(eq.take(ep.len() as int) =~= ta.take(ep.len() as int));
            lemma_escapes_prefix_free(p, q);
        } else {
            assert(eq =~= ta.take(eq.len() as int));
            assert(ep.take(eq.len() as int) =~= ta.take(eq.len() as int));
            lemma_escapes_prefix_free(q, p);
        }
        lemma_escaped_char_injective(p, q);
        assert(json_escaped(ra) + seq!['"'] + x =~= ta.skip(ep.len() as int));
        assert(json_escaped(rb) + seq!['"'] + y =~= ta.skip(eq.len() as int));
        lemma_escaped_then_quote(ra, rb, x, y);
    }
}

/// The text after the first item of a JSON list: nothing, or a comma and
/// the other items.
pub open spec fn json_list_rest(v: Seq<Seq<char>>) -> Seq<char> {
    if v.len() == 0 {
        seq![]
    } else {
        seq![','] + json_list_items(v)
    }
}

proof fn lemma_list_items_front(v: Seq<Seq<char>>)
    requires
        v.len() > 0,
    ensures
        json_list_items(v) == json_string(v[0]) + json_list_rest(v.drop_first()),
    decreases v.len(),
{
    if v.len() == 1 {
        assert(v.drop_first() =~= Seq::<Seq<char>>::empty());
        assert(json_string(v[0]) + json_list_rest(v.drop_first()) =~= json_string(v[0]));
    } else {
        let d = v.drop_last();
        lemma_list_items_front(d);
        assert(d[0] == v[0]);
        assert(d.drop_first() =~= v.drop_first().drop_last());
        assert(v.drop_first().last() == v.last());
        if v.len() == 2 {
            assert(d.drop_first() =~= Seq::<Seq<char>>::empty());
            assert(v.drop_first() =~= seq![v.last()]);
            assert(json_list_items(v.drop_first()) == json_string(v.last()));
        } else {
            assert(json_list_items(v.drop_first()) == json_list_items(v.drop_first().drop_last())
                + seq![','] + json_string(v.drop_first().last()));
        }
        assert(json_list_items(v) =~= json_string(v[0]) + json_list_rest(v.drop_first()));
    }
}

proof fn lemma_list_items_injective(v: Seq<Seq<char>>, w: Seq<Seq<char>>)
    requires
        json_list_items(v) == json_list_items(w),
    ensures
        v == w,
    decreases v.len() + w.len(),
{
    if v.len() == 0 && w.len() == 0 {
        assert(v =~= w);
    } else if v.len() == 0 {
        lemma_list_items_front(w);
        assert(json_list_items(w).len() > 0);
    } else if w.len() == 0 {
        lemma_list_items_front(v);
        assert(json_list_items(v).len() > 0);
    } else {
        lemma_list_items_front(v);
        lemma_list_items_front(w);
        let t = json_list_items(v);
        let rv = json_list_rest(v.drop_first());
        let rw = json_list_rest(w.drop_first());
        assert(json_escaped(v[0]) + seq!['"'] + rv =~= t.skip(1));
        assert(json_escaped(w[0]) + seq!['"'] + rw =~= t.skip(1));
        lemma_escaped_then_quote(v[0], w[0], rv, rw);
        if v.drop_first().len() > 0 && w.drop_first().len() > 0 {
            assert(json_list_items(v.drop_first()) =~= rv.skip(1));
            assert(json_list_items(w.drop_first()) =~= rw.skip(1));
            lemma_list_items_injective(v.drop_first(), w.drop_first());
        } else if v.drop_first().len() > 0 {
            assert(rv.len() > 0);
        } else if w.drop_first().len() > 0 {
            assert(rw.len() > 0);
        } else {
            assert(v.drop_first() =~= w.drop_first());
        }
        assert(v =~= seq![v[0]] + v.drop_first());
        assert(w =~= seq![w[0]] + w.drop_first());
    }
}

/// A JSON-encoded list field can be decoded back: different lists of texts
/// encode to different JSON arrays.
pub proof fn json_string_arrays_decode_back(v: Seq<Seq<char>>, w: Seq<Seq<char>>)
    requires
        json_string_array(v) == json_string_array(w),
    ensures
        v == w,
{
    let j = json_string_array(v);
    assert(json_list_items(v) =~= j.subrange(1, j.len() - 1));
    assert(json_list_items(w) =~= j.subrange(1, j.len() - 1));
    lemma_list_items_injective(v, w);
}

} // verus!
