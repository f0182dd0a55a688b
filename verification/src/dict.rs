//! A convenience entry-data store bound to one uniform layout, and the
//! bulk pass that hands every word with its decoded text to a storage
//! collaborator.
//!
//! `get_oxford` is the text form of a decode: every field value read as
//! UTF-8 and the values joined with a newline, in the field map's
//! (deterministic, first-appearance) order.

use vstd::prelude::*;
use vstd::slice::slice_to_vec;
use vstd::string::StringSliceAdditionalSpecFns;
use vstd::utf8::{valid_utf8, decode_utf8};
use crate::StarDictError;
use crate::decode::{spec_uniform_fields, decode_uniform};
use crate::fieldmap::{fm_fold, FieldMap};
use crate::parser::{Index, WordModel, spec_models};
use crate::trusted::{gunzip, gunzip_of, string_from_utf8};

verus! {

/// The field values joined with a newline byte between them.
pub open spec fn spec_join_values(ps: Seq<(u8, Seq<u8>)>) -> Seq<u8>
    decreases ps.len(),
{
    if ps.len() == 0 {
        Seq::empty()
    } else if ps.len() == 1 {
        ps[0].1
    } else {
        spec_join_values(ps.drop_last()) + seq![10u8] + ps.last().1
    }
}

/// The text of one entry block: its fields decoded under `tags`, their
/// values joined with newlines, and the joined bytes read as UTF-8.
pub open spec fn spec_entry_text(buf: Seq<u8>, offset: nat, size: nat, tags: Seq<u8>) -> Result<
    Seq<char>,
    StarDictError,
> {
    if offset + size > buf.len() {
        Err(StarDictError::OutOfRange)
    } else {
        match spec_uniform_fields(buf.subrange(offset as int, (offset + size) as int), tags) {
            Ok(ps) => {
                let joined = spec_join_values(fm_fold(ps));
                if valid_utf8(joined) {
                    Ok(decode_utf8(joined))
                } else {
                    Err(StarDictError::Encoding)
                }
            },
            Err(e) => Err(e),
        }
    }
}

/// One `(word, text)` pair per record of `ms`, in order; the first
/// failing record's failure is the result.
pub open spec fn spec_dump(buf: Seq<u8>, tags: Seq<u8>, ms: Seq<WordModel>) -> Result<
    Seq<(Seq<char>, Seq<char>)>,
    StarDictError,
>
    decreases ms.len(),
{
    if ms.len() == 0 {
        Ok(Seq::empty())
    } else {
        match spec_entry_text(buf, ms[0].offset, ms[0].size, tags) {
            Ok(text) => match spec_dump(buf, tags, ms.drop_first()) {
                Ok(rest) => Ok(seq![(ms[0].w, text)] + rest),
                Err(e) => Err(e),
            },
            Err(e) => Err(e),
        }
    }
}

/// Appends all bytes of `w` to `v`.
fn extend_bytes(v: &mut Vec<u8>, w: &Vec<u8>)
    ensures
        final(v)@ == old(v)@ + w@,
{
    let mut i: usize = 0;
    proof {
        assert(v@ =~= old(v)@ + w@.take(0));
    }
    while i < w.len()
        invariant
            i <= w@.len(),
            v@ == old(v)@ + w@.take(i as int),
        decreases w@.len() - i,
    {
        v.push(w[i]);
        proof {
            assert(v@ =~= old(v)@ + w@.take(i + 1));
        }
        i = i + 1;
    }
    proof {
        assert(w@.take(i as int) =~= w@);
    }
}

/// The entry-data store of a dictionary whose metadata declares a
/// uniform layout: the inflated `.dict` payload bound to that layout.
pub struct Dictionary {
    data: Vec<u8>,
    same_type_sequence: Vec<u8>,
}

impl Dictionary {
    /// The inflated entry-data bytes.
    pub closed spec fn buf(&self) -> Seq<u8> {
        self.data@
    }

    /// The layout sequence's bytes.
    pub closed spec fn layout(&self) -> Seq<u8> {
        self.same_type_sequence@
    }

    /// Inflates the gzip bytes of a `.dict.dz` file and binds them to
    /// the dictionary's layout sequence.  The load succeeds exactly
    /// when inflation does, and fails as corrupt otherwise.
    pub fn new(gz: &Vec<u8>, same_type_sequence: &str) -> (r: Result<Dictionary, StarDictError>)
        ensures
            (match r {
                Ok(d) => gunzip_of(gz@) is Some && Some(d.buf()) == gunzip_of(gz@) && d.layout()
                    == same_type_sequence.spec_bytes(),
                Err(e) => gunzip_of(gz@) is None && e == StarDictError::Corrupt,
            }),
    {
        match gunzip(gz) {
            Some(buf) => Ok(
                Dictionary {
                    data: buf,
                    same_type_sequence: slice_to_vec(same_type_sequence.as_bytes()),
                },
            ),
            None => Err(StarDictError::Corrupt),
        }
    }

    /// Decodes the entry block `[offset, offset + sz)` under the
    /// store's layout.
    pub fn get(&mut self, offset: u64, sz: u64) -> (r: Result<FieldMap, StarDictError>)
        ensures
            *final(self) == *old(self),
            (if offset + sz > old(self).buf().len() {
                r == Err::<FieldMap, StarDictError>(StarDictError::OutOfRange)
            } else {
                match spec_uniform_fields(
                    old(self).buf().subrange(offset as int, (offset + sz) as int),
                    old(self).layout(),
                ) {
                    Ok(ps) => r is Ok && r->Ok_0@ == fm_fold(ps),
                    Err(e) => r == Err::<FieldMap, StarDictError>(e),
                }
            }),
    {
        let n = self.data.len();
        if offset > n as u64 || sz > n as u64 - offset {
            return Err(StarDictError::OutOfRange);
        }
        let start = offset as usize;
        let size = sz as usize;
        proof {
            assert(start as int == offset as int);
            assert(size as int == sz as int);
        }
        decode_uniform(&self.data, start, size, &self.same_type_sequence)
    }

    /// Decodes the entry block and reads it as text: every field value
    /// joined with a newline, in field-map order, as UTF-8.
    pub fn get_oxford(&mut self, offset: u64, sz: u64) -> (r: Result<String, StarDictError>)
        ensures
            *final(self) == *old(self),
            (match spec_entry_text(old(self).buf(), offset as nat, sz as nat, old(self).layout()) {
                Ok(text) => r is Ok && r->Ok_0@ == text,
                Err(e) => r == Err::<String, StarDictError>(e),
            }),
    {
        let fm = match self.get(offset, sz) {
            Ok(fm) => fm,
            Err(e) => {
                return Err(e);
            },
        };
        let mut joined: Vec<u8> = Vec::new();
        let ghost fields = fm@;
        proof {
            assert(joined@ =~= spec_join_values(fields.take(0)));
        }
        let mut i: usize = 0;
        while i < fm.len()
            invariant
                i <= fields.len(),
                fields == fm@,
                joined@ == spec_join_values(fields.take(i as int)),
            decreases fields.len() - i,
        {
            if i > 0 {
                joined.push(10);
            }
            let ghost mid = joined@;
            extend_bytes(&mut joined, fm.value_at(i));
            proof {
                let cur = fields.take(i + 1);
                assert(cur.drop_last() =~= fields.take(i as int));
                assert(cur.last() == fields[i as int]);
                if i == 0 {
                    assert(joined@ =~= spec_join_values(cur));
                } else {
                    assert(mid =~= spec_join_values(fields.take(i as int)) + seq![10u8]);
                    assert(joined@ =~= spec_join_values(cur.drop_last()) + seq![10u8]
                        + cur.last().1);
                }
            }
            i = i + 1;
        }
        proof {
            assert(fields.take(i as int) =~= fields);
        }
        match string_from_utf8(joined) {
            Some(s) => Ok(s),
            None => Err(StarDictError::Encoding),
        }
    }
}

/// Produces the `(word, decoded text)` pair of every index record, in
/// index order: what a storage collaborator persists.
pub fn dump_stardict(idx: &Index, dict: &mut Dictionary) -> (r: Result<
    Vec<(String, String)>,
    StarDictError,
>)
    ensures
        *final(dict) == *old(dict),
        (match spec_dump(old(dict).buf(), old(dict).layout(), spec_models(idx.word_lst@)) {
            Ok(pairs) => r is Ok && r->Ok_0@.map_values(|p: (String, String)| (p.0@, p.1@))
                == pairs,
            Err(e) => r == Err::<Vec<(String, String)>, StarDictError>(e),
        }),
{
    let ghost ms = spec_models(idx.word_lst@);
    let mut out: Vec<(String, String)> = Vec::new();
    let mut i: usize = 0;
    proof {
        assert(out@.map_values(|p: (String, String)| (p.0@, p.1@)) =~= Seq::<
            (Seq<char>, Seq<char>),
        >::empty());
        assert(ms.skip(0) =~= ms);
    }
    while i < idx.word_lst.len()
        invariant
            i <= idx.word_lst@.len(),
            *dict == *old(dict),
            ms == spec_models(idx.word_lst@),
            spec_dump(dict.buf(), dict.layout(), ms) == (match spec_dump(
                dict.buf(),
                dict.layout(),
                ms.skip(i as int),
            ) {
                Ok(rest) => Ok::<Seq<(Seq<char>, Seq<char>)>, StarDictError>(
                    out@.map_values(|p: (String, String)| (p.0@, p.1@)) + rest,
                ),
                Err(e) => Err(e),
            }),
        decreases idx.word_lst@.len() - i,
    {
        let ghost rem = ms.skip(i as int);
        proof {
            assert(rem[0] == idx.word_lst@[i as int]@);
            assert(rem.drop_first() =~= ms.skip(i + 1));
        }
        let w = &idx.word_lst[i];
        let text = match dict.get_oxford(w.offset, w.size as u64) {
            Ok(t) => t,
            Err(e) => {
                proof {
                    assert(spec_dump(dict.buf(), dict.layout(), rem) == Err::<
                        Seq<(Seq<char>, Seq<char>)>,
                        StarDictError,
                    >(e));
                }
                return Err(e);
            },
        };
        let ghost out0 = out@.map_values(|p: (String, String)| (p.0@, p.1@));
        let pair = (w.w.clone(), text);
        let ghost pv = (pair.0@, pair.1@);
        out.push(pair);
        proof {
            assert(out@.map_values(|p: (String, String)| (p.0@, p.1@)) =~= out0.push(pv));
            assert forall|rest: Seq<(Seq<char>, Seq<char>)>|
                out0 + (seq![pv] + rest) =~= out0.push(pv) + rest by {};
        }
        i = i + 1;
    }
    proof {
        assert(ms.skip(i as int) =~= Seq::<WordModel>::empty());
        let whole = out@.map_values(|p: (String, String)| (p.0@, p.1@));
        assert(whole + Seq::<(Seq<char>, Seq<char>)>::empty() =~= whole);
    }
    Ok(out)
}

} // verus!
