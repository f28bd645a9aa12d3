//! Decoders for the two shapes a unix socket's name arrives in: a row of
//! linux's `/proc/net/unix` table, and a darwin `sockaddr_un` slot.
//!
//! A socket path is an arbitrary byte string with no quoting and no
//! guarantee of being UTF-8, so both decoders work on bytes and match paths
//! byte for byte.
use vstd::prelude::*;
use crate::scan::{
    bytes_equal, find_from, find_in, lemma_find_from, lemma_line_end, line_end,
    line_end_in, parse_unsigned, spec_parse_unsigned, ByteClass,
};

verus! {

/// `AF_UNIX`, 1 on both platforms this tool supports.
pub const AF_UNIX_FAMILY: u8 = 1;

/// Darwin's `sizeof(sun_path)` from `<sys/un.h>` (linux's is 108; only
/// darwin slots are ever fed to [`darwin_sockaddr_un_path`]).
pub const DARWIN_SUN_PATH_LEN: usize = 104;

/// The columns `/proc/net/unix` prints, in order:
/// `Num RefCount Protocol Flags Type St Inode Path`, as ASCII bytes.
pub open spec fn unix_table_columns() -> Seq<Seq<u8>> {
    seq![
        seq![78u8, 117, 109],
        seq![82u8, 101, 102, 67, 111, 117, 110, 116],
        seq![80u8, 114, 111, 116, 111, 99, 111, 108],
        seq![70u8, 108, 97, 103, 115],
        seq![84u8, 121, 112, 101],
        seq![83u8, 116],
        seq![73u8, 110, 111, 100, 101],
        seq![80u8, 97, 116, 104],
    ]
}

/// The end of the word starting at `a`: the next header blank, or the end.
pub open spec fn word_end(s: Seq<u8>, a: int) -> int {
    match find_from(s, a, ByteClass::HeaderBlank, true) {
        Some(b) => b,
        None => s.len() as int,
    }
}

/// The words of a header line from `i` on: maximal runs of bytes that are
/// not spaces, tabs or carriage returns.
pub open spec fn header_words(s: Seq<u8>, i: int) -> Seq<Seq<u8>>
    decreases s.len() - i,
{
    if i < 0 {
        seq![]
    } else {
        match find_from(s, i, ByteClass::HeaderBlank, false) {
            None => seq![],
            Some(a) => {
                proof {
                    lemma_find_from(s, i, ByteClass::HeaderBlank, false);
                    lemma_find_from(s, a, ByteClass::HeaderBlank, true);
                }
                if word_end(s, a) <= i {
                    seq![]
                } else {
                    seq![s.subrange(a, word_end(s, a))] + header_words(s, word_end(s, a))
                }
            }
        }
    }
}

/// The line is the kernel's own `/proc/net/unix` header: exactly its eight
/// column names, in order, and nothing else.
pub open spec fn unix_table_header(line: Seq<u8>) -> bool {
    header_words(line, 0) == unix_table_columns()
}

/// Where the columns of a row stand: after skipping `k` more columns from
/// the column starting at `cur`, the start of the next one. A run of blanks
/// between two columns is padding and is skipped whole.
pub open spec fn skip_columns(line: Seq<u8>, cur: int, k: nat) -> Option<int>
    decreases k,
{
    if k == 0 {
        Some(cur)
    } else {
        match find_from(line, cur, ByteClass::RowBlank, true) {
            None => None,
            Some(e) => match find_from(line, e, ByteClass::RowBlank, false) {
                None => None,
                Some(n) => skip_columns(line, n, (k - 1) as nat),
            },
        }
    }
}

/// One table row to `(inode, path)`.
///
/// Six columns (`Num RefCount Protocol Flags Type St`) stand before the
/// inode; leading blanks are padding. The inode is parsed as an unsigned
/// decimal; exactly one delimiter byte follows it, and every byte after that
/// is the path, verbatim. A row with no path, or with the undisclosed inode
/// 0, names no socket.
pub open spec fn spec_split_unix_row(line: Seq<u8>) -> Option<(u64, Seq<u8>)> {
    match find_from(line, 0, ByteClass::RowBlank, false) {
        None => None,
        Some(start) => match skip_columns(line, start, 6) {
            None => None,
            Some(cur) => match find_from(line, cur, ByteClass::RowBlank, true) {
                None => None,
                Some(end) => match spec_parse_unsigned(line.subrange(cur, end), u64::MAX as nat) {
                    None => None,
                    Some(inode) => {
                        let path = line.subrange(end + 1, line.len() as int);
                        if inode > 0 && path.len() > 0 {
                            Some((inode as u64, path))
                        } else {
                            None
                        }
                    },
                },
            },
        },
    }
}

/// The inodes of the rows, from the line starting at `i` to the end of the
/// table, whose path is exactly `path`, in table order (repeats kept).
pub open spec fn matching_inodes(table: Seq<u8>, i: int, path: Seq<u8>) -> Seq<u64>
    decreases table.len() - i,
{
    if i < 0 || i > table.len() {
        seq![]
    } else {
        let e = line_end(table, i);
        let here = match spec_split_unix_row(table.subrange(i, e)) {
            Some((inode, p)) => if p == path { seq![inode] } else { seq![] },
            None => seq![],
        };
        proof { lemma_line_end(table, i); }
        if e >= table.len() {
            here
        } else {
            here + matching_inodes(table, e + 1, path)
        }
    }
}

/// `s` with every value after its first occurrence removed.
pub open spec fn first_occurrences(s: Seq<u64>) -> Seq<u64>
    decreases s.len(),
{
    if s.len() == 0 {
        s
    } else {
        let d = first_occurrences(s.drop_last());
        if d.contains(s.last()) {
            d
        } else {
            d.push(s.last())
        }
    }
}

/// The inodes of every `/proc/net/unix` row whose path is exactly `path`,
/// in first-seen order without repeats; `Err` when the document does not
/// open with the table's header.
pub open spec fn spec_unix_socket_inodes(table: Seq<u8>, path: Seq<u8>) -> Result<Seq<u64>, ()> {
    let e0 = line_end(table, 0);
    if !unix_table_header(table.subrange(0, e0)) {
        Err(())
    } else if e0 >= table.len() {
        Ok(seq![])
    } else {
        Ok(first_occurrences(matching_inodes(table, e0 + 1, path)))
    }
}

/// Compares `word` with the column name in position `k`.
fn is_column(k: usize, word: &[u8]) -> (r: bool)
    requires
        k < 8,
    ensures
        r == (word@ == unix_table_columns()[k as int]),
{
    let want: Vec<u8> = if k == 0 {
        vec![78u8, 117, 109]
    } else if k == 1 {
        vec![82u8, 101, 102, 67, 111, 117, 110, 116]
    } else if k == 2 {
        vec![80u8, 114, 111, 116, 111, 99, 111, 108]
    } else if k == 3 {
        vec![70u8, 108, 97, 103, 115]
    } else if k == 4 {
        vec![84u8, 121, 112, 101]
    } else if k == 5 {
        vec![83u8, 116]
    } else if k == 6 {
        vec![73u8, 110, 111, 100, 101]
    } else {
        vec![80u8, 97, 116, 104]
    };
    assert(want@ =~= unix_table_columns()[k as int]);
    bytes_equal(word, want.as_slice())
}

/// Checks a line against the kernel's header, word by word.
pub fn is_unix_table_header(line: &[u8]) -> (r: bool)
    ensures
        r == unix_table_header(line@),
{
    let ghost cols = unix_table_columns();
    let mut i: usize = 0;
    let mut k: usize = 0;
    loop
        invariant
            i <= line@.len(),
            k <= 8,
            cols == unix_table_columns(),
            header_words(line@, 0) =~= cols.take(k as int) + header_words(line@, i as int),
        decreases line@.len() - i,
    {
        proof {
            lemma_find_from(line@, i as int, ByteClass::HeaderBlank, false);
        }
        let a = match find_in(line, i, ByteClass::HeaderBlank, false) {
            None => {
                assert(header_words(line@, i as int) =~= Seq::<Seq<u8>>::empty());
                assert(header_words(line@, 0) =~= cols.take(k as int));
                if k == 8 {
                    assert(cols.take(8) =~= cols);
                } else {
                    assert(cols.take(k as int).len() != cols.len());
                }
                return k == 8;
            },
            Some(a) => a,
        };
        proof {
            lemma_find_from(line@, a as int, ByteClass::HeaderBlank, true);
        }
        let b = match find_in(line, a, ByteClass::HeaderBlank, true) {
            None => line.len(),
            Some(b) => b,
        };
        assert(b == word_end(line@, a as int));
        let ghost rest = header_words(line@, b as int);
        assert(header_words(line@, i as int) =~= seq![line@.subrange(a as int, b as int)] + rest);
        if k == 8 {
            assert(header_words(line@, 0).len() > 8);
            return false;
        }
        let word = &line[a..b];
        if !is_column(k, word) {
            assert(header_words(line@, 0)[k as int] == word@);
            return false;
        }
        assert(cols.take(k + 1) =~= cols.take(k as int).push(word@));
        i = b;
        k = k + 1;
    }
}

/// One table row to `(inode, path)`; see [`spec_split_unix_row`].
pub fn split_unix_row(line: &[u8]) -> (r: Option<(u64, &[u8])>)
    ensures
        r matches Some((inode, p)) ==> spec_split_unix_row(line@) == Some((inode, p@)),
        r is None ==> spec_split_unix_row(line@) is None,
{
    let start = match find_in(line, 0, ByteClass::RowBlank, false) {
        None => return None,
        Some(s) => s,
    };
    proof { lemma_find_from(line@, 0, ByteClass::RowBlank, false); }
    let mut cur = start;
    let mut k: usize = 0;
    while k < 6
        invariant
            k <= 6,
            cur <= line@.len(),
            find_from(line@, 0, ByteClass::RowBlank, false) == Some(start as int),
            skip_columns(line@, start as int, 6) == skip_columns(line@, cur as int, (6 - k) as nat),
        decreases 6 - k,
    {
        let e = match find_in(line, cur, ByteClass::RowBlank, true) {
            None => return None,
            Some(e) => e,
        };
        proof { lemma_find_from(line@, cur as int, ByteClass::RowBlank, true); }
        let n = match find_in(line, e, ByteClass::RowBlank, false) {
            None => return None,
            Some(n) => n,
        };
        proof { lemma_find_from(line@, e as int, ByteClass::RowBlank, false); }
        cur = n;
        k = k + 1;
    }
    assert(skip_columns(line@, cur as int, 0) == Some(cur as int));
    let end = match find_in(line, cur, ByteClass::RowBlank, true) {
        None => return None,
        Some(e) => e,
    };
    proof { lemma_find_from(line@, cur as int, ByteClass::RowBlank, true); }
    assert(end < line@.len());
    let inode = match parse_unsigned(line, cur, end, u64::MAX) {
        None => return None,
        Some(v) => v,
    };
    let len = line.len();
    let path = &line[end + 1..len];
    if inode > 0 && path.len() > 0 {
        Some((inode, path))
    } else {
        None
    }
}

/// `v` holds `x`.
fn holds(v: &Vec<u64>, x: u64) -> (r: bool)
    ensures
        r == v@.contains(x),
{
    let mut i: usize = 0;
    while i < v.len()
        invariant
            i <= v@.len(),
            forall|k: int| 0 <= k < i ==> v@[k] != x,
        decreases v@.len() - i,
    {
        if v[i] == x {
            assert(v@[i as int] == x);
            return true;
        }
        i = i + 1;
    }
    false
}

/// The inodes of every `/proc/net/unix` row whose PATH is exactly `path`,
/// in first-seen order and without repeats.
///
/// The header is checked whole: only the kernel's own header authorizes an
/// empty answer, which a caller reads as proof that nobody holds the path.
/// A document that is not the table at all is `Err`. Rows are bytes, not
/// text, so a row this parser cannot make sense of costs that row alone.
pub fn unix_socket_inodes(table: &[u8], path: &[u8]) -> (r: Result<Vec<u64>, ()>)
    ensures
        r matches Ok(v) ==> spec_unix_socket_inodes(table@, path@) == Ok::<Seq<u64>, ()>(v@),
        r is Err <==> spec_unix_socket_inodes(table@, path@) is Err,
{
    let e0 = line_end_in(table, 0);
    if !is_unix_table_header(&table[0..e0]) {
        return Err(());
    }
    let mut out: Vec<u64> = Vec::new();
    if e0 >= table.len() {
        return Ok(out);
    }
    let ghost all = matching_inodes(table@, e0 + 1, path@);
    let ghost mut seen: Seq<u64> = seq![];
    let mut i = e0 + 1;
    loop
        invariant
            e0 < i <= table@.len(),
            e0 == line_end(table@, 0),
            e0 < table@.len(),
            unix_table_header(table@.subrange(0, e0 as int)),
            all == matching_inodes(table@, e0 + 1, path@),
            seen + matching_inodes(table@, i as int, path@) == all,
            out@ == first_occurrences(seen),
        decreases table@.len() - i,
    {
        let e = line_end_in(table, i);
        proof { lemma_line_end(table@, i as int); }
        let ghost here = match spec_split_unix_row(table@.subrange(i as int, e as int)) {
            Some((inode, p)) => if p == path@ { seq![inode] } else { seq![] },
            None => seq![],
        };
        assert(table@.subrange(i as int, e as int) == table@.subrange(i as int, e as int));
        let row = &table[i..e];
        match split_unix_row(row) {
            Some((inode, row_path)) => {
                if bytes_equal(row_path, path) {
                    assert(here == seq![inode]);
                    if !holds(&out, inode) {
                        out.push(inode);
                    }
                    proof {
                        assert(seen.push(inode).drop_last() =~= seen);
                    }
                } else {
                    assert(here =~= Seq::<u64>::empty());
                }
            },
            None => {
                assert(here =~= Seq::<u64>::empty());
            },
        }
        proof {
            let old_seen = seen;
            seen = seen + here;
            if here.len() == 1 {
                assert(seen =~= old_seen.push(here[0]));
            } else {
                assert(seen =~= old_seen);
            }
        }
        if e >= table.len() {
            assert(matching_inodes(table@, i as int, path@) == here);
            assert(seen =~= all);
            return Ok(out);
        }
        assert(matching_inodes(table@, i as int, path@) == here + matching_inodes(table@, e + 1, path@));
        assert(seen + matching_inodes(table@, e + 1, path@) =~= all);
        i = e + 1;
    }
}

/// The `sun_path` bytes of a darwin `un_sockinfo` address slot: the slot
/// must be long enough to hold `sun_path` and carry the AF_UNIX family
/// byte; the path is the field up to its first NUL (or the whole field),
/// and an empty path names nothing.
pub open spec fn spec_darwin_sockaddr_un_path(slot: Seq<u8>) -> Option<Seq<u8>> {
    if slot.len() < 2 + DARWIN_SUN_PATH_LEN || slot[1] != AF_UNIX_FAMILY {
        None
    } else {
        let field = slot.subrange(2, 2 + DARWIN_SUN_PATH_LEN);
        let end = match find_from(field, 0, ByteClass::Nul, true) {
            Some(j) => j,
            None => DARWIN_SUN_PATH_LEN as int,
        };
        if end > 0 {
            Some(field.take(end))
        } else {
            None
        }
    }
}

/// The `sun_path` bytes of a darwin `un_sockinfo` address slot, or `None`
/// when the slot names no AF_UNIX pathname.
///
/// The slot is a union over every address family, so the family byte
/// decides whether there is a path at all. `sun_len` is not trusted as the
/// length; a NUL scan over the fixed field is.
pub fn darwin_sockaddr_un_path(slot: &[u8]) -> (r: Option<&[u8]>)
    ensures
        r matches Some(p) ==> spec_darwin_sockaddr_un_path(slot@) == Some(p@),
        r is None ==> spec_darwin_sockaddr_un_path(slot@) is None,
{
    if slot.len() < 2 + DARWIN_SUN_PATH_LEN || slot[1] != AF_UNIX_FAMILY {
        return None;
    }
    let field = &slot[2..2 + DARWIN_SUN_PATH_LEN];
    let end = match find_in(field, 0, ByteClass::Nul, true) {
        Some(j) => j,
        None => DARWIN_SUN_PATH_LEN,
    };
    proof { lemma_find_from(field@, 0, ByteClass::Nul, true); }
    if end > 0 {
        let p = &field[0..end];
        assert(p@ =~= field@.take(end as int));
        Some(p)
    } else {
        None
    }
}

} // verus!
