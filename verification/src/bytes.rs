//! Byte-level primitives shared by the index and entry-data parsers:
//! big-endian integer reads, NUL scanning, and range copies.

use vstd::prelude::*;

verus! {

/// The value of four bytes read as a big-endian unsigned 32-bit integer.
pub open spec fn spec_be_u32(b: Seq<u8>) -> nat
    recommends
        b.len() == 4,
{
    b[0] as nat * 0x1000000 + b[1] as nat * 0x10000 + b[2] as nat * 0x100 + b[3] as nat
}

/// The value of eight bytes read as a big-endian unsigned 64-bit integer.
pub open spec fn spec_be_u64(b: Seq<u8>) -> nat
    recommends
        b.len() == 8,
{
    spec_be_u32(b.subrange(0, 4)) * 0x100000000 + spec_be_u32(b.subrange(4, 8))
}

/// Reads the four bytes at `pos` as a big-endian unsigned 32-bit integer.
pub fn be_u32(buf: &Vec<u8>, pos: usize) -> (r: u32)
    requires
        pos + 4 <= buf@.len(),
    ensures
        r as nat == spec_be_u32(buf@.subrange(pos as int, pos + 4)),
{
    let n = buf.len();
    let b0 = buf[pos] as u32;
    let b1 = buf[pos + 1] as u32;
    let b2 = buf[pos + 2] as u32;
    let b3 = buf[pos + 3] as u32;
    b0 * 0x1000000 + b1 * 0x10000 + b2 * 0x100 + b3
}

/// Reads the eight bytes at `pos` as a big-endian unsigned 64-bit integer.
pub fn be_u64(buf: &Vec<u8>, pos: usize) -> (r: u64)
    requires
        pos + 8 <= buf@.len(),
    ensures
        r as nat == spec_be_u64(buf@.subrange(pos as int, pos + 8)),
{
    let n = buf.len();
    let hi = be_u32(buf, pos) as u64;
    let lo = be_u32(buf, pos + 4) as u64;
    proof {
        let w = buf@.subrange(pos as int, pos + 8);
        assert(w.subrange(0, 4) =~= buf@.subrange(pos as int, pos + 4));
        assert(w.subrange(4, 8) =~= buf@.subrange(pos + 4, pos + 8));
    }
    hi * 0x100000000 + lo
}

/// Position of the first occurrence of `t` in `b`, or `-1` when `b`
/// holds none.
pub open spec fn spec_first_byte(b: Seq<u8>, t: u8) -> int
    decreases b.len(),
{
    if b.len() == 0 {
        -1
    } else if b[0] == t {
        0
    } else {
        let r = spec_first_byte(b.drop_first(), t);
        if r < 0 {
            -1
        } else {
            r + 1
        }
    }
}

/// What `spec_first_byte` returns: the least position holding `t`, or
/// `-1` when no position does.
pub proof fn lemma_first_byte_props(b: Seq<u8>, t: u8)
    ensures
        spec_first_byte(b, t) >= 0 ==> 0 <= spec_first_byte(b, t) < b.len()
            && b[spec_first_byte(b, t)] == t && (forall|j: int|
            0 <= j < spec_first_byte(b, t) ==> b[j] != t),
        spec_first_byte(b, t) < 0 ==> forall|j: int| 0 <= j < b.len() ==> b[j] != t,
    decreases b.len(),
{
    if b.len() == 0 {
    } else if b[0] == t {
    } else {
        lemma_first_byte_props(b.drop_first(), t);
        assert(forall|j: int| 1 <= j < b.len() ==> b[j] == b.drop_first()[j - 1]);
    }
}

/// A position that holds `t` and is preceded by no occurrence of `t` is
/// what `spec_first_byte` returns.
pub proof fn lemma_first_byte_is(b: Seq<u8>, t: u8, k: int)
    requires
        0 <= k < b.len(),
        b[k] == t,
        forall|j: int| 0 <= j < k ==> b[j] != t,
    ensures
        spec_first_byte(b, t) == k,
    decreases b.len(),
{
    if k > 0 {
        lemma_first_byte_is(b.drop_first(), t, k - 1);
    }
}

/// A sequence without `t` makes `spec_first_byte` return `-1`.
pub proof fn lemma_first_byte_none(b: Seq<u8>, t: u8)
    requires
        forall|j: int| 0 <= j < b.len() ==> b[j] != t,
    ensures
        spec_first_byte(b, t) == -1,
    decreases b.len(),
{
    if b.len() > 0 {
        lemma_first_byte_none(b.drop_first(), t);
    }
}

/// Scans `buf[from..to]` for its first occurrence of `t`.
pub fn find_byte(buf: &Vec<u8>, from: usize, to: usize, t: u8) -> (r: Option<usize>)
    requires
        from <= to <= buf@.len(),
    ensures
        match r {
            Some(k) => from <= k < to && spec_first_byte(
                buf@.subrange(from as int, to as int),
                t,
            ) == k - from,
            None => spec_first_byte(buf@.subrange(from as int, to as int), t) == -1,
        },
{
    let ghost w = buf@.subrange(from as int, to as int);
    let mut i: usize = from;
    while i < to
        invariant
            from <= i <= to <= buf@.len(),
            w == buf@.subrange(from as int, to as int),
            forall|j: int| from <= j < i ==> buf@[j] != t,
        decreases to - i,
    {
        if buf[i] == t {
            proof {
                assert(forall|j: int| 0 <= j < i - from ==> w[j] == buf@[from + j] && w[j] != t);
                lemma_first_byte_is(w, t, i - from);
            }
            return Some(i);
        }
        i = i + 1;
    }
    proof {
        assert(forall|j: int| 0 <= j < w.len() ==> w[j] == buf@[from + j] && w[j] != t);
        lemma_first_byte_none(w, t);
    }
    None
}

/// Whether two byte vectors hold the same bytes.
pub fn bytes_eq(a: &Vec<u8>, b: &Vec<u8>) -> (r: bool)
    ensures
        r == (a@ == b@),
{
    if a.len() != b.len() {
        return false;
    }
    let mut i: usize = 0;
    while i < a.len()
        invariant
            i <= a@.len(),
            a@.len() == b@.len(),
            forall|j: int| 0 <= j < i ==> a@[j] == b@[j],
        decreases a@.len() - i,
    {
        if a[i] != b[i] {
            return false;
        }
        i = i + 1;
    }
    proof {
        assert(a@ =~= b@);
    }
    true
}

/// Copies `buf[from..to]` into a fresh vector.
pub fn subvec(buf: &Vec<u8>, from: usize, to: usize) -> (r: Vec<u8>)
    requires
        from <= to <= buf@.len(),
    ensures
        r@ == buf@.subrange(from as int, to as int),
{
    let mut r: Vec<u8> = Vec::new();
    let mut i: usize = from;
    while i < to
        invariant
            from <= i <= to <= buf@.len(),
            r@ == buf@.subrange(from as int, i as int),
        decreases to - i,
    {
        r.push(buf[i]);
        proof {
            assert(r@ =~= buf@.subrange(from as int, i + 1));
        }
        i = i + 1;
    }
    r
}

} // verus!
