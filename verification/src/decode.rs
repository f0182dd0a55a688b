//! The two entry-block decoders of the format.
//!
//! An entry block is the byte range `[start, start + size)` of the loaded
//! entry-data buffer.  When the metadata declares a uniform layout
//! (`sametypesequence`), every entry follows that fixed tag sequence and
//! the uniform decoder applies; otherwise each field carries its own tag
//! byte inline and the self-describing decoder applies.  Both confine
//! every read to the entry's declared extent: a field that would cross it
//! makes the entry corrupt.

use vstd::prelude::*;
use crate::StarDictError;
use crate::bytes::{spec_be_u32, spec_first_byte, be_u32, find_byte, subvec};
use crate::fieldmap::{fm_fold, fm_insert, FieldMap};

verus! {

/// The tag/value pairs of an entry under the uniform layout `tags`, in
/// layout order.
///
/// The last layout position takes all bytes the earlier fields left,
/// whatever its tag.  An earlier position reads a big-endian 32-bit
/// length and that many value bytes when its tag is `'W'` or `'P'`, and
/// reads up to (and drops) a NUL terminator otherwise.
pub open spec fn spec_uniform_fields(entry: Seq<u8>, tags: Seq<u8>) -> Result<
    Seq<(u8, Seq<u8>)>,
    StarDictError,
>
    decreases tags.len(),
{
    if tags.len() == 0 {
        Ok(Seq::empty())
    } else if tags.len() == 1 {
        Ok(seq![(tags[0], entry)])
    } else if tags[0] == 87 || tags[0] == 80 {
        // b'W' | b'P': length-prefixed binary field
        if entry.len() < 4 {
            Err(StarDictError::Corrupt)
        } else {
            let n = spec_be_u32(entry.subrange(0, 4)) as int;
            if 4 + n > entry.len() {
                Err(StarDictError::Corrupt)
            } else {
                match spec_uniform_fields(entry.skip(4 + n), tags.drop_first()) {
                    Ok(ps) => Ok(seq![(tags[0], entry.subrange(4, 4 + n))] + ps),
                    Err(e) => Err(e),
                }
            }
        }
    } else {
        // text field, NUL-terminated
        let k = spec_first_byte(entry, 0);
        if k < 0 {
            Err(StarDictError::Corrupt)
        } else {
            match spec_uniform_fields(entry.skip(k + 1), tags.drop_first()) {
                Ok(ps) => Ok(seq![(tags[0], entry.subrange(0, k))] + ps),
                Err(e) => Err(e),
            }
        }
    }
}

/// The tag/value pairs of a self-describing entry, in encounter order.
///
/// Each field opens with its tag byte; a lowercase ASCII tag is followed
/// by NUL-terminated text, any other tag by a big-endian 32-bit length
/// and that many value bytes.  The fields must fill the entry exactly.
///
/// "Lowercase" deliberately means the ASCII letters `a` to `z`: the
/// format's tag alphabet is ASCII, so a byte outside that range (a
/// Latin-1 lowercase letter included) is read as a length-prefixed
/// field, not as text.
pub open spec fn spec_self_fields(entry: Seq<u8>) -> Result<Seq<(u8, Seq<u8>)>, StarDictError>
    decreases entry.len(),
    via spec_self_fields_dec
{
    if entry.len() == 0 {
        Ok(Seq::empty())
    } else {
        let c = entry[0];
        let rest = entry.drop_first();
        if 97 <= c <= 122 {
            // b'a' ..= b'z': NUL-terminated text field
            let k = spec_first_byte(rest, 0);
            if k < 0 {
                Err(StarDictError::Corrupt)
            } else {
                match spec_self_fields(rest.skip(k + 1)) {
                    Ok(ps) => Ok(seq![(c, rest.subrange(0, k))] + ps),
                    Err(e) => Err(e),
                }
            }
        } else {
            // length-prefixed binary field
            if rest.len() < 4 {
                Err(StarDictError::Corrupt)
            } else {
                let n = spec_be_u32(rest.subrange(0, 4)) as int;
                if 4 + n > rest.len() {
                    Err(StarDictError::Corrupt)
                } else {
                    match spec_self_fields(rest.skip(4 + n)) {
                        Ok(ps) => Ok(seq![(c, rest.subrange(4, 4 + n))] + ps),
                        Err(e) => Err(e),
                    }
                }
            }
        }
    }
}

#[via_fn]
proof fn spec_self_fields_dec(entry: Seq<u8>) {
    if entry.len() > 0 {
        crate::bytes::lemma_first_byte_props(entry.drop_first(), 0);
    }
}

/// Decodes the entry block `[start, start + size)` of `buf` under the
/// uniform layout `tags` into a field map.
pub fn decode_uniform(buf: &Vec<u8>, start: usize, size: usize, tags: &Vec<u8>) -> (r: Result<
    FieldMap,
    StarDictError,
>)
    requires
        start + size <= buf@.len(),
    ensures
        (match spec_uniform_fields(buf@.subrange(start as int, start + size), tags@) {
            Ok(ps) => r is Ok && r->Ok_0@ == fm_fold(ps),
            Err(e) => r is Err && r->Err_0 == e,
        }),
{
    let n_buf = buf.len();
    let end = start + size;
    let ghost entry = buf@.subrange(start as int, start + size);
    let mut fm = FieldMap::new();
    let ghost mut done: Seq<(u8, Seq<u8>)> = Seq::empty();
    let mut cur: usize = start;
    let mut i: usize = 0;
    proof {
        assert(entry =~= buf@.subrange(cur as int, end as int));
        assert(tags@ =~= tags@.skip(0));
    }
    while i < tags.len()
        invariant
            i <= tags@.len(),
            start <= cur <= end <= buf@.len(),
            end == start + size,
            entry == buf@.subrange(start as int, start + size),
            fm@ == fm_fold(done),
            spec_uniform_fields(entry, tags@) == (match spec_uniform_fields(
                buf@.subrange(cur as int, end as int),
                tags@.skip(i as int),
            ) {
                Ok(ps) => Ok::<Seq<(u8, Seq<u8>)>, StarDictError>(done + ps),
                Err(e) => Err(e),
            }),
        decreases tags@.len() - i,
    {
        let c = tags[i];
        let ghost rem = buf@.subrange(cur as int, end as int);
        let ghost rtags = tags@.skip(i as int);
        proof {
            assert(rtags.len() == tags@.len() - i);
            assert(rtags[0] == tags@[i as int]);
            assert(rtags.drop_first() =~= tags@.skip(i + 1));
        }
        if i + 1 == tags.len() {
            // last layout position: takes all remaining bytes of the entry
            let value = subvec(buf, cur, end);
            let ghost done0 = done;
            proof {
                assert(value@ =~= rem);
                done = done.push((c, rem));
            }
            fm.insert(c, value);
            proof {
                assert(done.drop_last() =~= done0);
                assert(fm@ == fm_fold(done));
            }
            cur = end;
            proof {
                assert(spec_uniform_fields(rem, rtags) == Ok::<Seq<(u8, Seq<u8>)>, StarDictError>(
                    seq![(c, rem)],
                ));
                assert(spec_uniform_fields(buf@.subrange(cur as int, end as int), tags@.skip(
                    i + 1,
                )) == Ok::<Seq<(u8, Seq<u8>)>, StarDictError>(Seq::empty()));
                assert(done0 + seq![(c, rem)] =~= done);
                assert(done + Seq::<(u8, Seq<u8>)>::empty() =~= done);
            }
        } else if c == 87 || c == 80 {
            // b'W' | b'P': 4-byte big-endian length, then that many bytes
            if end - cur < 4 {
                assert(spec_uniform_fields(rem, rtags) == Err::<Seq<(u8, Seq<u8>)>, StarDictError>(
                    StarDictError::Corrupt,
                ));
                return Err(StarDictError::Corrupt);
            }
            let len32 = be_u32(buf, cur);
            proof {
                assert(rem.subrange(0, 4) =~= buf@.subrange(cur as int, cur + 4));
            }
            let len = len32 as usize;
            if len > (end - cur) - 4 {
                assert(spec_uniform_fields(rem, rtags) == Err::<Seq<(u8, Seq<u8>)>, StarDictError>(
                    StarDictError::Corrupt,
                ));
                return Err(StarDictError::Corrupt);
            }
            let value = subvec(buf, cur + 4, cur + 4 + len);
            let ghost done0 = done;
            proof {
                assert(value@ =~= rem.subrange(4, 4 + len as int));
                done = done.push((c, rem.subrange(4, 4 + len as int)));
            }
            fm.insert(c, value);
            cur = cur + 4 + len;
            proof {
                assert(done.drop_last() =~= done0);
                assert(fm@ == fm_fold(done));
                assert(buf@.subrange(cur as int, end as int) =~= rem.skip(4 + len as int));
                assert(spec_uniform_fields(rem, rtags) == (match spec_uniform_fields(
                    rem.skip(4 + len as int),
                    rtags.drop_first(),
                ) {
                    Ok(ps) => Ok::<Seq<(u8, Seq<u8>)>, StarDictError>(
                        seq![(c, rem.subrange(4, 4 + len as int))] + ps,
                    ),
                    Err(e) => Err(e),
                }));
                assert forall|ps: Seq<(u8, Seq<u8>)>|
                    done0 + (seq![(c, rem.subrange(4, 4 + len as int))] + ps) =~= done + ps by {};
            }
        } else {
            // text field: bytes up to (and excluding) the next NUL
            match find_byte(buf, cur, end, 0) {
                None => {
                    assert(spec_uniform_fields(rem, rtags) == Err::<
                        Seq<(u8, Seq<u8>)>,
                        StarDictError,
                    >(StarDictError::Corrupt));
                    return Err(StarDictError::Corrupt);
                },
                Some(k) => {
                    let value = subvec(buf, cur, k);
                    let ghost done0 = done;
                    proof {
                        assert(value@ =~= rem.subrange(0, k - cur));
                        done = done.push((c, rem.subrange(0, k - cur)));
                    }
                    fm.insert(c, value);
                    let ghost oldcur = cur as int;
                    cur = k + 1;
                    proof {
                        assert(done.drop_last() =~= done0);
                        assert(fm@ == fm_fold(done));
                        assert(buf@.subrange(cur as int, end as int) =~= rem.skip(
                            (k - oldcur) + 1,
                        ));
                        assert forall|ps: Seq<(u8, Seq<u8>)>|
                            done0 + (seq![(c, rem.subrange(0, k - oldcur))] + ps) =~= done
                                + ps by {};
                    }
                },
            }
        }
        i = i + 1;
    }
    proof {
        assert(tags@.skip(i as int) =~= Seq::<u8>::empty());
        assert(spec_uniform_fields(buf@.subrange(cur as int, end as int), tags@.skip(i as int))
            == Ok::<Seq<(u8, Seq<u8>)>, StarDictError>(Seq::empty()));
        assert(done + Seq::<(u8, Seq<u8>)>::empty() =~= done);
    }
    Ok(fm)
}

/// Decodes the self-describing entry block `[start, start + size)` of
/// `buf` into a field map.
pub fn decode_self_describing(buf: &Vec<u8>, start: usize, size: usize) -> (r: Result<
    FieldMap,
    StarDictError,
>)
    requires
        start + size <= buf@.len(),
    ensures
        (match spec_self_fields(buf@.subrange(start as int, start + size)) {
            Ok(ps) => r is Ok && r->Ok_0@ == fm_fold(ps),
            Err(e) => r is Err && r->Err_0 == e,
        }),
{
    let n_buf = buf.len();
    let end = start + size;
    let ghost entry = buf@.subrange(start as int, start + size);
    let mut fm = FieldMap::new();
    let ghost mut done: Seq<(u8, Seq<u8>)> = Seq::empty();
    let mut cur: usize = start;
    while cur < end
        invariant
            start <= cur <= end <= buf@.len(),
            end == start + size,
            entry == buf@.subrange(start as int, start + size),
            fm@ == fm_fold(done),
            spec_self_fields(entry) == (match spec_self_fields(
                buf@.subrange(cur as int, end as int),
            ) {
                Ok(ps) => Ok::<Seq<(u8, Seq<u8>)>, StarDictError>(done + ps),
                Err(e) => Err(e),
            }),
        decreases end - cur,
    {
        let c = buf[cur];
        let ghost rem = buf@.subrange(cur as int, end as int);
        let ghost rest = rem.drop_first();
        proof {
            assert(rem[0] == c);
            assert(rest =~= buf@.subrange(cur + 1, end as int));
        }
        if 97 <= c && c <= 122 {
            // lowercase tag: NUL-terminated text field
            match find_byte(buf, cur + 1, end, 0) {
                None => {
                    assert(spec_self_fields(rem) == Err::<Seq<(u8, Seq<u8>)>, StarDictError>(
                        StarDictError::Corrupt,
                    ));
                    return Err(StarDictError::Corrupt);
                },
                Some(k) => {
                    let value = subvec(buf, cur + 1, k);
                    let ghost done0 = done;
                    proof {
                        assert(value@ =~= rest.subrange(0, k - (cur + 1)));
                        done = done.push((c, rest.subrange(0, k - (cur + 1))));
                    }
                    fm.insert(c, value);
                    let ghost oldcur = cur as int;
                    cur = k + 1;
                    proof {
                        assert(done.drop_last() =~= done0);
                        assert(fm@ == fm_fold(done));
                        assert(buf@.subrange(cur as int, end as int) =~= rest.skip(
                            (k - (oldcur + 1)) + 1,
                        ));
                        assert forall|ps: Seq<(u8, Seq<u8>)>|
                            done0 + (seq![(c, rest.subrange(0, k - (oldcur + 1)))] + ps)
                                =~= done + ps by {};
                    }
                },
            }
        } else {
            // any other tag: 4-byte big-endian length, then that many bytes
            if end - cur < 5 {
                assert(spec_self_fields(rem) == Err::<Seq<(u8, Seq<u8>)>, StarDictError>(
                    StarDictError::Corrupt,
                ));
                return Err(StarDictError::Corrupt);
            }
            let len32 = be_u32(buf, cur + 1);
            proof {
                assert(rest.subrange(0, 4) =~= buf@.subrange(cur + 1, cur + 5));
            }
            let len = len32 as usize;
            if len > (end - cur) - 5 {
                assert(spec_self_fields(rem) == Err::<Seq<(u8, Seq<u8>)>, StarDictError>(
                    StarDictError::Corrupt,
                ));
                return Err(StarDictError::Corrupt);
            }
            let value = subvec(buf, cur + 5, cur + 5 + len);
            let ghost done0 = done;
            proof {
                assert(value@ =~= rest.subrange(4, 4 + len as int));
                done = done.push((c, rest.subrange(4, 4 + len as int)));
            }
            fm.insert(c, value);
            cur = cur + 5 + len;
            proof {
                assert(done.drop_last() =~= done0);
                assert(fm@ == fm_fold(done));
                assert(buf@.subrange(cur as int, end as int) =~= rest.skip(4 + len as int));
                assert forall|ps: Seq<(u8, Seq<u8>)>|
                    done0 + (seq![(c, rest.subrange(4, 4 + len as int))] + ps) =~= done
                        + ps by {};
            }
        }
    }
    proof {
        assert(buf@.subrange(cur as int, end as int) =~= Seq::<u8>::empty());
        assert(spec_self_fields(buf@.subrange(cur as int, end as int)) == Ok::<
            Seq<(u8, Seq<u8>)>,
            StarDictError,
        >(Seq::empty()));
        assert(done + Seq::<(u8, Seq<u8>)>::empty() =~= done);
    }
    Ok(fm)
}

/// The fields of an entry under the metadata's layout choice: the
/// uniform decoder when a layout sequence is given, the self-describing
/// decoder otherwise.
pub open spec fn spec_entry_fields(entry: Seq<u8>, layout: Option<Seq<u8>>) -> Result<
    Seq<(u8, Seq<u8>)>,
    StarDictError,
> {
    match layout {
        Some(tags) => spec_uniform_fields(entry, tags),
        None => spec_self_fields(entry),
    }
}

/// Decoding is a pure function of the entry bytes and the layout: two
/// decodes of the same record against the same entry-data store yield
/// byte-identical field maps.
pub proof fn lemma_decode_idempotent(
    entry: Seq<u8>,
    layout: Option<Seq<u8>>,
    m1: Seq<(u8, Seq<u8>)>,
    m2: Seq<(u8, Seq<u8>)>,
)
    requires
        spec_entry_fields(entry, layout) is Ok,
        m1 == fm_fold(spec_entry_fields(entry, layout)->Ok_0),
        m2 == fm_fold(spec_entry_fields(entry, layout)->Ok_0),
    ensures
        m1 == m2,
{
}

/// A uniform layout of a single position binds all of the entry's bytes
/// to that position's tag, whatever the tag is.
pub proof fn lemma_single_tag_takes_all(entry: Seq<u8>, tags: Seq<u8>)
    requires
        tags.len() == 1,
    ensures
        spec_uniform_fields(entry, tags) == Ok::<Seq<(u8, Seq<u8>)>, StarDictError>(
            seq![(tags[0], entry)],
        ),
        fm_fold(seq![(tags[0], entry)]) == seq![(tags[0], entry)],
{
    let one = seq![(tags[0], entry)];
    assert(one.drop_last() =~= Seq::<(u8, Seq<u8>)>::empty());
    assert(one.last() == (tags[0], entry));
    assert(fm_fold(Seq::<(u8, Seq<u8>)>::empty()) == Seq::<(u8, Seq<u8>)>::empty());
    assert(fm_insert(Seq::<(u8, Seq<u8>)>::empty(), tags[0], entry) =~= one);
}

/// An entry encoded under a uniform layout, non-terminal fields first
/// (each value followed by its NUL terminator), the terminal value
/// last and bare.
pub open spec fn spec_encode_uniform(tags: Seq<u8>, values: Seq<Seq<u8>>) -> Seq<u8>
    recommends
        tags.len() == values.len(),
        tags.len() >= 1,
    decreases tags.len(),
{
    if tags.len() <= 1 {
        if values.len() >= 1 {
            values[0]
        } else {
            Seq::empty()
        }
    } else {
        values[0] + seq![0u8] + spec_encode_uniform(tags.drop_first(), values.drop_first())
    }
}

/// Round trip: an entry encoded under a uniform layout whose
/// non-terminal positions are text fields (no length-prefixed 'W'/'P'
/// tags) and whose non-terminal values hold no NUL byte decodes back to
/// exactly the original values, with no truncation and no extra NUL.
pub proof fn lemma_uniform_round_trip(tags: Seq<u8>, values: Seq<Seq<u8>>)
    requires
        tags.len() == values.len(),
        tags.len() >= 1,
        forall|j: int| 0 <= j < tags.len() - 1 ==> tags[j] != 87 && tags[j] != 80,
        forall|j: int| 0 <= j < values.len() - 1 ==> !values[j].contains(0u8),
    ensures
        spec_uniform_fields(spec_encode_uniform(tags, values), tags) == Ok::<
            Seq<(u8, Seq<u8>)>,
            StarDictError,
        >(Seq::new(tags.len(), |j: int| (tags[j], values[j]))),
    decreases tags.len(),
{
    let entry = spec_encode_uniform(tags, values);
    if tags.len() == 1 {
        assert(entry == values[0]);
        assert(seq![(tags[0], values[0])] =~= Seq::new(tags.len(), |j: int| (tags[j], values[j])));
    } else {
        let v0 = values[0];
        let ts = tags.drop_first();
        let vs = values.drop_first();
        let rest_enc = spec_encode_uniform(ts, vs);
        assert(entry =~= v0 + seq![0u8] + rest_enc);
        assert(entry[v0.len() as int] == 0);
        assert forall|j: int| 0 <= j < v0.len() implies entry[j] != 0 by {
            assert(entry[j] == v0[j]);
            if v0[j] == 0 {
                assert(v0.contains(0u8));
            }
        }
        crate::bytes::lemma_first_byte_is(entry, 0, v0.len() as int);
        assert(entry.subrange(0, v0.len() as int) =~= v0);
        assert(entry.skip(v0.len() as int + 1) =~= rest_enc);
        assert(forall|j: int| 0 <= j < ts.len() - 1 ==> ts[j] == tags[j + 1]);
        assert(forall|j: int| 0 <= j < vs.len() - 1 ==> vs[j] == values[j + 1]);
        lemma_uniform_round_trip(ts, vs);
        assert(tags[0] != 87 && tags[0] != 80);
        assert(spec_uniform_fields(entry, tags) == Ok::<Seq<(u8, Seq<u8>)>, StarDictError>(
            seq![(tags[0], v0)] + Seq::new(ts.len(), |j: int| (ts[j], vs[j])),
        ));
        assert(seq![(tags[0], v0)] + Seq::new(ts.len(), |j: int| (ts[j], vs[j])) =~= Seq::new(
            tags.len(),
            |j: int| (tags[j], values[j]),
        ));
    }
}

} // verus!
