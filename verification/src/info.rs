//! The `.ifo` metadata parser.
//!
//! The file is text: its first line is a version marker and is ignored;
//! every other line is kept when it holds exactly one `=`, as the pair of
//! its key (before the `=`) and value (after it), both trimmed of ASCII
//! whitespace.  The first occurrence of a key wins; later duplicates are
//! ignored.  Keys and values are kept as their raw UTF-8 bytes.

use vstd::prelude::*;
use crate::bytes::{spec_first_byte, lemma_first_byte_props, find_byte, bytes_eq, subvec};

verus! {

/// ASCII whitespace, as trimming removes it.
///
/// Trimming is deliberately byte-level and ASCII-only: the parse works
/// on raw bytes, and the blanks that surround a metadata `=` in
/// practice are spaces, tabs and line endings.  A key or value whose
/// edge is a multi-byte Unicode blank keeps that blank.
pub open spec fn spec_is_ws(b: u8) -> bool {
    b == 32 || b == 9 || b == 10 || b == 12 || b == 13
}

/// `b` without its leading and trailing ASCII whitespace.
pub open spec fn spec_trim(b: Seq<u8>) -> Seq<u8>
    decreases b.len(),
{
    if b.len() == 0 {
        b
    } else if spec_is_ws(b[0]) {
        spec_trim(b.drop_first())
    } else if spec_is_ws(b.last()) {
        spec_trim(b.drop_last())
    } else {
        b
    }
}

/// The lines of `b`, split on the newline byte; the terminator is not
/// part of a line, and the final line has no terminator.
pub open spec fn spec_lines(b: Seq<u8>) -> Seq<Seq<u8>>
    decreases b.len(),
    via spec_lines_dec
{
    let k = spec_first_byte(b, 10);
    if k < 0 {
        seq![b]
    } else {
        seq![b.take(k)] + spec_lines(b.skip(k + 1))
    }
}

#[via_fn]
proof fn spec_lines_dec(b: Seq<u8>) {
    lemma_first_byte_props(b, 10);
}

/// The key/value pair of one line, when the line holds exactly one `=`:
/// the trimmed bytes before it and the trimmed bytes after it.
pub open spec fn spec_line_kv(line: Seq<u8>) -> Option<(Seq<u8>, Seq<u8>)> {
    let k = spec_first_byte(line, 61);
    if k < 0 {
        None
    } else {
        let after = line.skip(k + 1);
        if spec_first_byte(after, 61) >= 0 {
            None
        } else {
            Some((spec_trim(line.take(k)), spec_trim(after)))
        }
    }
}

/// The value bound to `key` among the pairs of `m`, first match.
pub open spec fn spec_kv_get(m: Seq<(Seq<u8>, Seq<u8>)>, key: Seq<u8>) -> Option<Seq<u8>>
    decreases m.len(),
{
    if m.len() == 0 {
        None
    } else if m[0].0 == key {
        Some(m[0].1)
    } else {
        spec_kv_get(m.drop_first(), key)
    }
}

/// Whether some pair of `m` carries `key`.
pub open spec fn spec_kv_contains(m: Seq<(Seq<u8>, Seq<u8>)>, key: Seq<u8>) -> bool {
    spec_kv_get(m, key) is Some
}

/// `m` after one line: its pair is appended when the line is well formed
/// and its key is new, and `m` stays as it is otherwise.
pub open spec fn spec_add_line(m: Seq<(Seq<u8>, Seq<u8>)>, line: Seq<u8>) -> Seq<(Seq<u8>, Seq<u8>)> {
    match spec_line_kv(line) {
        Some(kv) => if spec_kv_contains(m, kv.0) {
            m
        } else {
            m.push(kv)
        },
        None => m,
    }
}

/// `m` after all of `lines`, in order.
pub open spec fn spec_fold_lines(m: Seq<(Seq<u8>, Seq<u8>)>, lines: Seq<Seq<u8>>) -> Seq<
    (Seq<u8>, Seq<u8>),
>
    decreases lines.len(),
{
    if lines.len() == 0 {
        m
    } else {
        spec_fold_lines(spec_add_line(m, lines[0]), lines.drop_first())
    }
}

/// The key/value pairs of a whole metadata file: every line but the
/// first, folded in order over an empty table.
pub open spec fn spec_info(data: Seq<u8>) -> Seq<(Seq<u8>, Seq<u8>)> {
    spec_fold_lines(Seq::empty(), spec_lines(data).drop_first())
}

proof fn lemma_fold_lines_step(m: Seq<(Seq<u8>, Seq<u8>)>, lines: Seq<Seq<u8>>)
    requires
        lines.len() > 0,
    ensures
        spec_fold_lines(m, lines) == spec_fold_lines(spec_add_line(m, lines[0]), lines.drop_first()),
{
}

/// The view of an exec key/value table.
pub open spec fn kv_view(v: Seq<(Vec<u8>, Vec<u8>)>) -> Seq<(Seq<u8>, Seq<u8>)> {
    v.map_values(|p: (Vec<u8>, Vec<u8>)| (p.0@, p.1@))
}

proof fn lemma_kv_get_at(m: Seq<(Seq<u8>, Seq<u8>)>, key: Seq<u8>, i: int)
    requires
        0 <= i < m.len(),
        m[i].0 == key,
        forall|j: int| 0 <= j < i ==> m[j].0 != key,
    ensures
        spec_kv_get(m, key) == Some(m[i].1),
    decreases m.len(),
{
    if i > 0 {
        assert(forall|j: int| 0 <= j < i - 1 ==> m.drop_first()[j] == m[j + 1]);
        lemma_kv_get_at(m.drop_first(), key, i - 1);
    }
}

proof fn lemma_kv_get_none(m: Seq<(Seq<u8>, Seq<u8>)>, key: Seq<u8>)
    requires
        forall|j: int| 0 <= j < m.len() ==> m[j].0 != key,
    ensures
        spec_kv_get(m, key) is None,
    decreases m.len(),
{
    if m.len() > 0 {
        assert(forall|j: int| 0 <= j < m.drop_first().len() ==> m.drop_first()[j] == m[j + 1]);
        lemma_kv_get_none(m.drop_first(), key);
    }
}

proof fn lemma_trim_is_subrange(b: Seq<u8>, lo: int, hi: int)
    requires
        0 <= lo <= hi <= b.len(),
        forall|j: int| 0 <= j < lo ==> spec_is_ws(b[j]),
        forall|j: int| hi <= j < b.len() ==> spec_is_ws(b[j]),
        lo < hi ==> !spec_is_ws(b[lo]) && !spec_is_ws(b[hi - 1]),
    ensures
        spec_trim(b) == b.subrange(lo, hi),
    decreases b.len(),
{
    if b.len() == 0 {
        assert(spec_trim(b) =~= b.subrange(lo, hi));
    } else if lo == hi {
        // every byte is whitespace
        assert(forall|j: int| 0 <= j < b.len() ==> spec_is_ws(b[j]));
        lemma_trim_all_ws(b);
        assert(spec_trim(b) =~= b.subrange(lo, hi));
    } else if spec_is_ws(b[0]) {
        // lo > 0, else b[lo] would not be whitespace
        let c = b.drop_first();
        assert(forall|j: int| 0 <= j < lo - 1 ==> c[j] == b[j + 1]);
        assert(forall|j: int| hi - 1 <= j < c.len() ==> c[j] == b[j + 1]);
        lemma_trim_is_subrange(c, lo - 1, hi - 1);
        assert(c.subrange(lo - 1, hi - 1) =~= b.subrange(lo, hi));
    } else if spec_is_ws(b.last()) {
        // hi < b.len(), else b[hi - 1] would not be whitespace
        let c = b.drop_last();
        assert(forall|j: int| hi <= j < c.len() ==> c[j] == b[j]);
        lemma_trim_is_subrange(c, lo, hi);
        assert(c.subrange(lo, hi) =~= b.subrange(lo, hi));
    } else {
        // neither end is whitespace, so nothing is trimmed
        assert(lo == 0);
        assert(hi == b.len());
        assert(spec_trim(b) =~= b.subrange(lo, hi));
    }
}

proof fn lemma_trim_all_ws(b: Seq<u8>)
    requires
        forall|j: int| 0 <= j < b.len() ==> spec_is_ws(b[j]),
    ensures
        spec_trim(b) == Seq::<u8>::empty(),
    decreases b.len(),
{
    if b.len() > 0 {
        assert(forall|j: int| 0 <= j < b.drop_first().len() ==> b.drop_first()[j] == b[j + 1]);
        lemma_trim_all_ws(b.drop_first());
    } else {
        assert(b =~= Seq::<u8>::empty());
    }
}

/// Whether `b` is ASCII whitespace.
fn is_ws(b: u8) -> (r: bool)
    ensures
        r == spec_is_ws(b),
{
    b == 32 || b == 9 || b == 10 || b == 12 || b == 13
}

/// Copies `buf[from..to]` stripped of leading and trailing ASCII
/// whitespace.
fn trim_range(buf: &Vec<u8>, from: usize, to: usize) -> (r: Vec<u8>)
    requires
        from <= to <= buf@.len(),
    ensures
        r@ == spec_trim(buf@.subrange(from as int, to as int)),
{
    let ghost w = buf@.subrange(from as int, to as int);
    let mut lo: usize = from;
    while lo < to && is_ws(buf[lo])
        invariant
            from <= lo <= to <= buf@.len(),
            forall|j: int| from <= j < lo ==> spec_is_ws(buf@[j]),
        decreases to - lo,
    {
        lo = lo + 1;
    }
    let mut hi: usize = to;
    while hi > lo && is_ws(buf[hi - 1])
        invariant
            from <= lo <= hi <= to <= buf@.len(),
            forall|j: int| from <= j < lo ==> spec_is_ws(buf@[j]),
            forall|j: int| hi <= j < to ==> spec_is_ws(buf@[j]),
        decreases hi,
    {
        hi = hi - 1;
    }
    proof {
        assert(forall|j: int| 0 <= j < w.len() ==> w[j] == buf@[from + j]);
        lemma_trim_is_subrange(w, lo - from, hi - from);
        assert(w.subrange(lo - from, hi - from) =~= buf@.subrange(lo as int, hi as int));
    }
    subvec(buf, lo, hi)
}

/// Whether a pair of `table` carries `key`.
fn kv_contains(table: &Vec<(Vec<u8>, Vec<u8>)>, key: &Vec<u8>) -> (r: bool)
    ensures
        r == spec_kv_contains(kv_view(table@), key@),
{
    let mut i: usize = 0;
    while i < table.len()
        invariant
            i <= table@.len(),
            forall|j: int| 0 <= j < i ==> kv_view(table@)[j].0 != key@,
        decreases table@.len() - i,
    {
        if bytes_eq(&table[i].0, key) {
            proof {
                lemma_kv_get_at(kv_view(table@), key@, i as int);
            }
            return true;
        }
        i = i + 1;
    }
    proof {
        lemma_kv_get_none(kv_view(table@), key@);
    }
    false
}

/// The value bound to `key` among the pairs of `table`, first match.
pub fn kv_get<'a>(table: &'a Vec<(Vec<u8>, Vec<u8>)>, key: &Vec<u8>) -> (r: Option<&'a Vec<u8>>)
    ensures
        match r {
            Some(v) => spec_kv_get(kv_view(table@), key@) == Some(v@),
            None => spec_kv_get(kv_view(table@), key@) is None,
        },
{
    let mut i: usize = 0;
    while i < table.len()
        invariant
            i <= table@.len(),
            forall|j: int| 0 <= j < i ==> kv_view(table@)[j].0 != key@,
        decreases table@.len() - i,
    {
        if bytes_eq(&table[i].0, key) {
            proof {
                lemma_kv_get_at(kv_view(table@), key@, i as int);
            }
            return Some(&table[i].1);
        }
        i = i + 1;
    }
    proof {
        lemma_kv_get_none(kv_view(table@), key@);
    }
    None
}

proof fn lemma_last_line(data: Seq<u8>, pos: int, n: int)
    requires
        0 <= pos <= n,
        n == data.len(),
        spec_first_byte(data.subrange(pos, n), 10) < 0,
    ensures
        spec_lines(data.subrange(pos, n)) == seq![data.subrange(pos, n)],
{
}

proof fn lemma_split_line(data: Seq<u8>, pos: int, lend: int, n: int)
    requires
        0 <= pos <= lend < n,
        n == data.len(),
        spec_first_byte(data.subrange(pos, n), 10) == lend - pos,
    ensures
        spec_lines(data.subrange(pos, n)) == seq![data.subrange(pos, lend)] + spec_lines(
            data.skip(lend + 1),
        ),
{
    let suffix = data.subrange(pos, n);
    assert(suffix.take(lend - pos) =~= data.subrange(pos, lend));
    assert(suffix.skip(lend - pos + 1) =~= data.skip(lend + 1));
}

/// The key/value pair of the line `data[pos..lend]`, when it holds
/// exactly one `=`.
fn line_kv(data: &Vec<u8>, pos: usize, lend: usize) -> (r: Option<(Vec<u8>, Vec<u8>)>)
    requires
        pos <= lend <= data@.len(),
    ensures
        (match r {
            Some(kv) => spec_line_kv(data@.subrange(pos as int, lend as int)) == Some(
                (kv.0@, kv.1@),
            ),
            None => spec_line_kv(data@.subrange(pos as int, lend as int)) is None,
        }),
{
    let ghost line = data@.subrange(pos as int, lend as int);
    match find_byte(data, pos, lend, 61) {
        Some(e1) => {
            proof {
                assert(spec_first_byte(line, 61) == e1 - pos);
                assert(line.skip(e1 - pos + 1) =~= data@.subrange(e1 + 1, lend as int));
            }
            match find_byte(data, e1 + 1, lend, 61) {
                Some(_) => {
                    // a second '=': the line is dropped
                    proof {
                        assert(spec_first_byte(line.skip(e1 - pos + 1), 61) >= 0);
                    }
                    None
                },
                None => {
                    let key = trim_range(data, pos, e1);
                    let value = trim_range(data, e1 + 1, lend);
                    proof {
                        assert(spec_first_byte(line.skip(e1 - pos + 1), 61) < 0);
                        assert(line.take(e1 - pos) =~= data@.subrange(pos as int, e1 as int));
                    }
                    Some((key, value))
                },
            }
        },
        None => {
            proof {
                assert(spec_first_byte(line, 61) < 0);
            }
            None
        },
    }
}

/// Folds one line's outcome into the table: appends the pair when the
/// line is well formed and its key is new.
fn add_line_pair(table: &mut Vec<(Vec<u8>, Vec<u8>)>, kv: Option<(Vec<u8>, Vec<u8>)>, Ghost(line): Ghost<Seq<u8>>)
    requires
        (match kv {
            Some(p) => spec_line_kv(line) == Some((p.0@, p.1@)),
            None => spec_line_kv(line) is None,
        }),
    ensures
        kv_view(final(table)@) == spec_add_line(kv_view(old(table)@), line),
{
    let ghost table0 = kv_view(table@);
    match kv {
        Some(pair) => {
            if !kv_contains(table, &pair.0) {
                let ghost pv = (pair.0@, pair.1@);
                table.push(pair);
                proof {
                    assert(kv_view(table@) =~= table0.push(pv));
                }
            }
        },
        None => {},
    }
}

/// Parses a whole metadata file into its key/value table.
pub fn parse_info(data: &Vec<u8>) -> (r: Vec<(Vec<u8>, Vec<u8>)>)
    ensures
        kv_view(r@) == spec_info(data@),
{
    let n = data.len();
    let mut table: Vec<(Vec<u8>, Vec<u8>)> = Vec::new();
    proof {
        assert(kv_view(table@) =~= Seq::<(Seq<u8>, Seq<u8>)>::empty());
    }
    let ghost all = spec_lines(data@).drop_first();
    // skip the first line, the version marker
    let mut pos: usize = 0;
    match find_byte(data, 0, n, 10) {
        Some(k) => {
            pos = k + 1;
            proof {
                assert(data@.subrange(0, n as int) =~= data@);
                assert(spec_first_byte(data@, 10) == k);
                assert(spec_lines(data@) == seq![data@.take(k as int)] + spec_lines(
                    data@.skip(k + 1),
                ));
                assert(all =~= spec_lines(data@.skip(pos as int)));
            }
        },
        None => {
            // a single line and nothing after it
            proof {
                assert(data@.subrange(0, n as int) =~= data@);
                assert(spec_first_byte(data@, 10) < 0);
                assert(spec_lines(data@) == seq![data@]);
                assert(all =~= Seq::<Seq<u8>>::empty());
            }
            return table;
        },
    }
    let mut more = true;
    while more
        invariant
            pos <= n,
            n == data@.len(),
            more ==> spec_info(data@) == spec_fold_lines(
                kv_view(table@),
                spec_lines(data@.skip(pos as int)),
            ),
            !more ==> kv_view(table@) == spec_info(data@),
        decreases n - pos, (if more { 1int } else { 0int }),
    {
        match find_byte(data, pos, n, 10) {
            None => {
                // the final line, with nothing after it
                let ghost line = data@.subrange(pos as int, n as int);
                let ghost table0 = kv_view(table@);
                let kv = line_kv(data, pos, n);
                add_line_pair(&mut table, kv, Ghost(line));
                more = false;
                proof {
                    assert(data@.skip(pos as int) =~= line);
                    lemma_last_line(data@, pos as int, n as int);
                    assert(spec_lines(data@.skip(pos as int)) == seq![line]);
                    lemma_fold_lines_step(table0, seq![line]);
                    assert(seq![line][0] == line);
                    assert(seq![line].drop_first() =~= Seq::<Seq<u8>>::empty());
                }
            },
            Some(k) => {
                let ghost line = data@.subrange(pos as int, k as int);
                let ghost table0 = kv_view(table@);
                let kv = line_kv(data, pos, k);
                add_line_pair(&mut table, kv, Ghost(line));
                let ghost oldpos = pos as int;
                pos = k + 1;
                proof {
                    lemma_split_line(data@, oldpos, k as int, n as int);
                    assert(data@.skip(oldpos) =~= data@.subrange(oldpos, n as int));
                    let tail = spec_lines(data@.skip(oldpos));
                    assert(tail == seq![line] + spec_lines(data@.skip(pos as int)));
                    lemma_fold_lines_step(table0, tail);
                    assert(tail[0] == line);
                    assert(tail.drop_first() =~= spec_lines(data@.skip(pos as int)));
                }
            },
        }
    }
    table
}

/// The parsed `.ifo` metadata table.
pub struct Info {
    data: Vec<(Vec<u8>, Vec<u8>)>,
}

impl View for Info {
    type V = Seq<(Seq<u8>, Seq<u8>)>;

    closed spec fn view(&self) -> Seq<(Seq<u8>, Seq<u8>)> {
        kv_view(self.data@)
    }
}

impl Info {
    /// Parses the bytes of an `.ifo` file.
    pub fn new(data: &Vec<u8>) -> (r: Info)
        ensures
            r@ == spec_info(data@),
    {
        Info { data: parse_info(data) }
    }

    /// The value bound to `key`, if any.
    pub fn get<'a>(&'a self, key: &Vec<u8>) -> (r: Option<&'a Vec<u8>>)
        ensures
            match r {
                Some(v) => spec_kv_get(self@, key@) == Some(v@),
                None => spec_kv_get(self@, key@) is None,
            },
    {
        kv_get(&self.data, key)
    }
}

} // verus!
