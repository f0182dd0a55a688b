//! The `.idx` word-index parser and the entry-data store.
//!
//! An index file is a packed run of records, each `word bytes, NUL,
//! offset (4 or 8 bytes big-endian), length (4 bytes big-endian)`, and
//! must end exactly on a record boundary.  The entry-data store holds
//! the (optionally gzip-compressed) `.dict` payload and decodes entry
//! blocks against it.

use vstd::prelude::*;
use vstd::utf8::{valid_utf8, decode_utf8};
use crate::StarDictError;
use crate::bytes::{spec_be_u32, spec_be_u64, spec_first_byte, be_u32, be_u64, find_byte, subvec};
use crate::decode::{spec_uniform_fields, spec_self_fields, decode_uniform, decode_self_describing};
use crate::fieldmap::{fm_fold, FieldMap};
use crate::info::{spec_info, spec_kv_get, spec_kv_contains, kv_view, parse_info, kv_get};
use crate::trusted::{gunzip, gunzip_of, string_from_utf8};

verus! {

/// The bytes of the metadata key that declares a uniform layout.
pub open spec fn spec_same_type_key() -> Seq<u8> {
    seq![115u8, 97, 109, 101, 116, 121, 112, 101, 115, 101, 113, 117, 101, 110, 99, 101]
}

/// The metadata key that declares a uniform layout, as a vector.
pub fn same_type_key() -> (r: Vec<u8>)
    ensures
        r@ == spec_same_type_key(),
{
    let mut r: Vec<u8> = Vec::new();
    r.push(115);
    r.push(97);
    r.push(109);
    r.push(101);
    r.push(116);
    r.push(121);
    r.push(112);
    r.push(101);
    r.push(115);
    r.push(101);
    r.push(113);
    r.push(117);
    r.push(101);
    r.push(110);
    r.push(99);
    r.push(101);
    proof {
        assert(r@ =~= spec_same_type_key());
    }
    r
}

/// The parsed `.ifo` metadata of a dictionary.
pub struct Description {
    /// Key/value pairs, each as its raw UTF-8 bytes, first occurrence
    /// of a key winning.
    pub dict: Vec<(Vec<u8>, Vec<u8>)>,
}

impl Description {
    /// Parses the bytes of an `.ifo` file.
    pub fn new(info: &Vec<u8>) -> (r: Description)
        ensures
            kv_view(r.dict@) == spec_info(info@),
    {
        Description { dict: parse_info(info) }
    }

    /// Whether the metadata declares a uniform entry layout.
    pub fn is_same_type_sequence(&self) -> (r: bool)
        ensures
            r == spec_kv_contains(kv_view(self.dict@), spec_same_type_key()),
    {
        let key = same_type_key();
        match kv_get(&self.dict, &key) {
            Some(_) => true,
            None => false,
        }
    }

    /// The uniform layout sequence; the metadata must declare one.
    pub fn same_type_sequence(&self) -> (r: Result<&Vec<u8>, StarDictError>)
        ensures
            (match spec_kv_get(kv_view(self.dict@), spec_same_type_key()) {
                Some(tags) => r is Ok && r->Ok_0@ == tags,
                None => r == Err::<&Vec<u8>, StarDictError>(StarDictError::Precondition),
            }),
    {
        let key = same_type_key();
        match kv_get(&self.dict, &key) {
            Some(t) => Ok(t),
            None => Err(StarDictError::Precondition),
        }
    }
}

/// The mathematical shape of one index record.
pub struct WordModel {
    /// The word, as characters.
    pub w: Seq<char>,
    /// Byte offset of the word's entry block in the entry data.
    pub offset: nat,
    /// Byte length of the word's entry block.
    pub size: nat,
    /// Zero-based position of the record in the index file.
    pub index: nat,
}

/// One index record: a word and where its entry block lies.
pub struct Word {
    pub w: String,
    pub offset: u64,
    pub size: u32,
    pub index: u32,
}

impl View for Word {
    type V = WordModel;

    open spec fn view(&self) -> WordModel {
        WordModel {
            w: self.w@,
            offset: self.offset as nat,
            size: self.size as nat,
            index: self.index as nat,
        }
    }
}

impl Clone for Word {
    fn clone(&self) -> (r: Word)
        ensures
            r == *self,
    {
        Word { w: self.w.clone(), offset: self.offset, size: self.size, index: self.index }
    }
}

/// The models of a run of records.
pub open spec fn spec_models(ws: Seq<Word>) -> Seq<WordModel> {
    ws.map_values(|w: Word| w@)
}

/// One record read at byte position `pos` of the index buffer `b`:
/// word bytes up to a NUL, decoded as UTF-8, then the offset (8 bytes
/// when `wide`, else 4) and the 4-byte length, both big-endian.  On
/// success the record's model and the position after it.
pub open spec fn spec_record_at(b: Seq<u8>, pos: int, wide: bool, ord: nat) -> Result<
    (WordModel, int),
    StarDictError,
> {
    let rel = spec_first_byte(b.subrange(pos, b.len() as int), 0);
    if rel < 0 {
        Err(StarDictError::Truncated)
    } else {
        let k = pos + rel;
        let wb = b.subrange(pos, k);
        if !valid_utf8(wb) {
            Err(StarDictError::Encoding)
        } else {
            let osz: int = if wide {
                8
            } else {
                4
            };
            if k + 1 + osz + 4 > b.len() {
                Err(StarDictError::Truncated)
            } else {
                let off = if wide {
                    spec_be_u64(b.subrange(k + 1, k + 9))
                } else {
                    spec_be_u32(b.subrange(k + 1, k + 5))
                };
                let sz = spec_be_u32(b.subrange(k + 1 + osz, k + 1 + osz + 4));
                Ok(
                    (
                        WordModel { w: decode_utf8(wb), offset: off, size: sz, index: ord },
                        k + 1 + osz + 4,
                    ),
                )
            }
        }
    }
}

/// All records from byte position `pos` to the end of the index buffer,
/// ordinals counted from `ord`.  The records must fill the buffer
/// exactly: a record cut short by the end of the buffer is a truncation.
pub open spec fn spec_parse_from(b: Seq<u8>, pos: int, wide: bool, ord: nat) -> Result<
    Seq<WordModel>,
    StarDictError,
>
    decreases b.len() - pos,
    when 0 <= pos <= b.len()
    via spec_parse_from_dec
{
    if pos == b.len() {
        Ok(Seq::empty())
    } else {
        match spec_record_at(b, pos, wide, ord) {
            Ok(step) => match spec_parse_from(b, step.1, wide, ord + 1) {
                Ok(ms) => Ok(seq![step.0] + ms),
                Err(e) => Err(e),
            },
            Err(e) => Err(e),
        }
    }
}

#[via_fn]
proof fn spec_parse_from_dec(b: Seq<u8>, pos: int, wide: bool, ord: nat) {
    if 0 <= pos < b.len() {
        crate::bytes::lemma_first_byte_props(b.subrange(pos, b.len() as int), 0);
    }
}


/// The encoded byte size of the records of `ms`: each word's UTF-8
/// bytes, its NUL terminator, the offset field and the length field.
pub open spec fn spec_records_bytes(ms: Seq<WordModel>, wide: bool) -> int
    decreases ms.len(),
{
    if ms.len() == 0 {
        0
    } else {
        vstd::utf8::encode_utf8(ms[0].w).len() + 1 + (if wide {
            8int
        } else {
            4int
        }) + 4 + spec_records_bytes(ms.drop_first(), wide)
    }
}

/// A parse that succeeds has consumed the buffer exactly: the encoded
/// sizes of its records sum to the byte count from the parse position
/// to the end of the buffer, with no leftover and no overrun bytes.
pub proof fn lemma_parse_consumes_all(b: Seq<u8>, pos: int, wide: bool, ord: nat)
    requires
        0 <= pos <= b.len(),
        spec_parse_from(b, pos, wide, ord) is Ok,
    ensures
        pos + spec_records_bytes(spec_parse_from(b, pos, wide, ord)->Ok_0, wide) == b.len(),
    decreases b.len() - pos,
{
    if pos == b.len() {
    } else {
        let sub = b.subrange(pos, b.len() as int);
        let rel = spec_first_byte(sub, 0);
        crate::bytes::lemma_first_byte_props(sub, 0);
        let wb = b.subrange(pos, pos + rel);
        let step = spec_record_at(b, pos, wide, ord)->Ok_0;
        vstd::utf8::decode_utf8_encode_utf8(wb);
        assert(vstd::utf8::encode_utf8(step.0.w).len() == rel);
        lemma_parse_consumes_all(b, step.1, wide, ord + 1);
        let ms = spec_parse_from(b, pos, wide, ord)->Ok_0;
        assert(ms.drop_first() =~= spec_parse_from(b, step.1, wide, ord + 1)->Ok_0);
        assert(ms[0] == step.0);
    }
}

/// The records of `ms` whose word is `w`, in their original order.
pub open spec fn spec_lookup(ms: Seq<WordModel>, w: Seq<char>) -> Seq<WordModel>
    decreases ms.len(),
{
    if ms.len() == 0 {
        Seq::empty()
    } else {
        spec_lookup(ms.drop_last(), w) + (if ms.last().w == w {
            seq![ms.last()]
        } else {
            Seq::empty()
        })
    }
}

/// A word that no record carries is looked up to the empty run of
/// records, never to a failure.
pub proof fn lemma_lookup_absent(ms: Seq<WordModel>, w: Seq<char>)
    requires
        forall|i: int| 0 <= i < ms.len() ==> ms[i].w != w,
    ensures
        spec_lookup(ms, w) == Seq::<WordModel>::empty(),
    decreases ms.len(),
{
    if ms.len() > 0 {
        lemma_lookup_absent(ms.drop_last(), w);
        assert(spec_lookup(ms, w) =~= Seq::<WordModel>::empty());
    }
}

/// The parsed `.idx` word index.
pub struct Index {
    /// The raw bytes of the index file.
    pub content: Vec<u8>,
    /// Parse cursor into `content`.
    pub offset: usize,
    /// Ordinal of the next record.
    pub index: u32,
    /// Offset width of the records: 32 or 64.
    pub index_bits: u32,
    /// The records, in file order.
    pub word_lst: Vec<Word>,
    /// Whether parsing has run to completion.
    pub parsed: bool,
}

impl Index {
    /// Parses a whole index file.  The offset width is the caller's
    /// configuration: format version 2.4.2 always uses 32 bits.
    pub fn new(content: Vec<u8>, index_bits: u32) -> (r: Result<Index, StarDictError>)
        requires
            index_bits == 32 || index_bits == 64,
            content@.len() <= 0xFFFFFFFF,
        ensures
            (match spec_parse_from(content@, 0, index_bits == 64, 0) {
                Ok(ms) => r is Ok && spec_models(r->Ok_0.word_lst@) == ms && r->Ok_0.content@
                    == content@ && r->Ok_0.index_bits == index_bits && r->Ok_0.parsed
                    && r->Ok_0.offset == r->Ok_0.content@.len() && r->Ok_0.index as nat
                    == ms.len(),
                Err(e) => r is Err && r->Err_0 == e,
            }),
    {
        let mut ret = Index {
            offset: 0,
            index: 0,
            index_bits,
            word_lst: Vec::new(),
            parsed: false,
            content,
        };
        match ret.parse() {
            Ok(_) => Ok(ret),
            Err(e) => Err(e),
        }
    }

    /// Runs the record loop over the whole buffer: on success the
    /// cursor stands exactly at the end of the buffer, no byte left
    /// over and none overrun.  On failure the index is left empty: no
    /// complete or cut-short record is kept.  Nothing happens when the
    /// index is already parsed.
    pub fn parse(&mut self) -> (r: Result<(), StarDictError>)
        requires
            old(self).index_bits == 32 || old(self).index_bits == 64,
            !old(self).parsed ==> old(self).offset == 0 && old(self).index == 0 && old(self).word_lst@.len() == 0 && old(self).content@.len() <= 0xFFFFFFFF,
        ensures
            final(self).content == old(self).content,
            final(self).index_bits == old(self).index_bits,
            old(self).parsed ==> *final(self) == *old(self) && r is Ok,
            !old(self).parsed ==> (match spec_parse_from(
                old(self).content@,
                0,
                old(self).index_bits == 64,
                0,
            ) {
                Ok(ms) => r is Ok && final(self).parsed && spec_models(final(self).word_lst@)
                    == ms && final(self).offset == final(self).content@.len() && final(self).index as nat == ms.len(),
                Err(e) => r == Err::<(), StarDictError>(e) && !final(self).parsed && final(self).word_lst@.len() == 0 && final(self).offset == 0 && final(self).index == 0,
            }),
    {
        if self.parsed {
            return Ok(());
        }
        let ghost b = self.content@;
        let ghost wide = self.index_bits == 64;
        proof {
            assert(spec_models(self.word_lst@) =~= Seq::<WordModel>::empty());
        }
        while self.offset < self.content.len()
            invariant
                self.index_bits == 32 || self.index_bits == 64,
                wide == (self.index_bits == 64),
                b == self.content@,
                self.content == old(self).content,
                self.index_bits == old(self).index_bits,
                !old(self).parsed,
                !self.parsed,
                self.offset <= self.content@.len(),
                self.content@.len() <= 0xFFFFFFFF,
                self.index as nat == self.word_lst@.len(),
                self.index as nat * 9 <= self.offset,
                spec_parse_from(b, 0, wide, 0) == (match spec_parse_from(
                    b,
                    self.offset as int,
                    wide,
                    self.index as nat,
                ) {
                    Ok(ms) => Ok::<Seq<WordModel>, StarDictError>(
                        spec_models(self.word_lst@) + ms,
                    ),
                    Err(e) => Err(e),
                }),
            decreases self.content@.len() - self.offset,
        {
            let ghost pre = *self;
            match self.next_word() {
                Ok(more) => {
                    if !more {
                        proof {
                            assert(false);
                        }
                    }
                    proof {
                        let step = spec_record_at(b, pre.offset as int, wide, pre.index as nat)
                            ->Ok_0;
                        assert(spec_models(self.word_lst@) =~= spec_models(pre.word_lst@).push(
                            step.0,
                        ));
                        assert forall|ms: Seq<WordModel>|
                            spec_models(pre.word_lst@) + (seq![step.0] + ms) =~= spec_models(
                                self.word_lst@,
                            ) + ms by {};
                    }
                },
                Err(e) => {
                    self.word_lst = Vec::new();
                    self.offset = 0;
                    self.index = 0;
                    return Err(e);
                },
            }
        }
        proof {
            assert(spec_parse_from(b, self.offset as int, wide, self.index as nat) == Ok::<
                Seq<WordModel>,
                StarDictError,
            >(Seq::empty()));
            assert(spec_models(self.word_lst@) + Seq::<WordModel>::empty() =~= spec_models(
                self.word_lst@,
            ));
        }
        self.parsed = true;
        Ok(())
    }

    /// Reads one record at the cursor and appends it, or reports that
    /// the cursor already stands at the end of the buffer.
    fn next_word(&mut self) -> (r: Result<bool, StarDictError>)
        requires
            old(self).index_bits == 32 || old(self).index_bits == 64,
            old(self).offset <= old(self).content@.len(),
            old(self).content@.len() <= 0xFFFFFFFF,
            old(self).index as nat * 9 <= old(self).offset,
        ensures
            final(self).content == old(self).content,
            final(self).index_bits == old(self).index_bits,
            final(self).parsed == old(self).parsed,
            old(self).offset == old(self).content@.len() ==> r == Ok::<bool, StarDictError>(false)
                && *final(self) == *old(self),
            old(self).offset < old(self).content@.len() ==> (match spec_record_at(
                old(self).content@,
                old(self).offset as int,
                old(self).index_bits == 64,
                old(self).index as nat,
            ) {
                Ok(step) => r == Ok::<bool, StarDictError>(true) && spec_models(
                    final(self).word_lst@,
                ) == spec_models(old(self).word_lst@).push(step.0) && final(self).offset == step.1
                    && final(self).index == old(self).index + 1 && final(self).index as nat * 9
                    <= final(self).offset,
                Err(e) => r == Err::<bool, StarDictError>(e) && final(self).word_lst
                    == old(self).word_lst && final(self).offset == old(self).offset
                    && final(self).index == old(self).index,
            }),
    {
        let n = self.content.len();
        if self.offset == n {
            return Ok(false);
        }
        let ghost b = self.content@;
        let ghost pos = self.offset as int;
        // the word: bytes up to the next NUL, decoded as UTF-8
        let nul: usize;
        match find_byte(&self.content, self.offset, n, 0) {
            Some(k) => {
                nul = k;
            },
            None => {
                return Err(StarDictError::Truncated);
            },
        }
        proof {
            assert(spec_first_byte(b.subrange(pos, b.len() as int), 0) == nul - pos);
        }
        let wb = subvec(&self.content, self.offset, nul);
        let ghost wbs = b.subrange(pos, nul as int);
        let ws: String;
        match string_from_utf8(wb) {
            Some(s) => {
                ws = s;
            },
            None => {
                return Err(StarDictError::Encoding);
            },
        }
        // the offset: 8 or 4 bytes big-endian, per the configured width
        let osz: usize = if self.index_bits == 64 {
            8
        } else {
            4
        };
        if n - (nul + 1) < osz + 4 {
            return Err(StarDictError::Truncated);
        }
        let off: u64 = if self.index_bits == 64 {
            be_u64(&self.content, nul + 1)
        } else {
            be_u32(&self.content, nul + 1) as u64
        };
        // the length: always 4 bytes big-endian, whatever the width
        let sz: u32 = be_u32(&self.content, nul + 1 + osz);
        let w = Word { w: ws, offset: off, size: sz, index: self.index };
        proof {
            let step = spec_record_at(b, pos, self.index_bits == 64, self.index as nat)->Ok_0;
            assert(w@ == step.0);
        }
        let ghost pre_lst = self.word_lst@;
        self.word_lst.push(w);
        self.offset = nul + 1 + osz + 4;
        proof {
            assert(self.index as nat * 9 + 9 <= self.offset);
        }
        self.index = self.index + 1;
        proof {
            let step = spec_record_at(b, pos, self.index_bits == 64, old(self).index as nat)
                ->Ok_0;
            assert(spec_models(self.word_lst@) =~= spec_models(pre_lst).push(step.0));
        }
        Ok(true)
    }

    /// Reads the four bytes at the cursor as a big-endian unsigned
    /// 32-bit integer and advances the cursor past them.
    pub fn next_4bytes_as_u32(&mut self) -> (r: u32)
        requires
            old(self).offset + 4 <= old(self).content@.len(),
        ensures
            r as nat == spec_be_u32(
                old(self).content@.subrange(old(self).offset as int, old(self).offset + 4),
            ),
            final(self).offset == old(self).offset + 4,
            final(self).content == old(self).content,
            final(self).index == old(self).index,
            final(self).index_bits == old(self).index_bits,
            final(self).word_lst == old(self).word_lst,
            final(self).parsed == old(self).parsed,
    {
        let n = self.content.len();
        let r = be_u32(&self.content, self.offset);
        self.offset = self.offset + 4;
        r
    }

    /// All records whose word is exactly `word`, in file order; the
    /// empty vector, not a failure, when the word is absent.
    pub fn lookup(&self, word: &str) -> (r: Vec<Word>)
        ensures
            spec_models(r@) == spec_lookup(spec_models(self.word_lst@), word@),
    {
        let target: String = word.to_owned();
        let mut r: Vec<Word> = Vec::new();
        proof {
            assert(spec_models(r@) =~= Seq::<WordModel>::empty());
            assert(spec_models(self.word_lst@.take(0)) =~= Seq::<WordModel>::empty());
        }
        let mut i: usize = 0;
        while i < self.word_lst.len()
            invariant
                i <= self.word_lst@.len(),
                target@ == word@,
                spec_models(r@) == spec_lookup(
                    spec_models(self.word_lst@.take(i as int)),
                    word@,
                ),
            decreases self.word_lst@.len() - i,
        {
            let ghost pre = spec_models(r@);
            let w = &self.word_lst[i];
            if w.w == target {
                r.push(w.clone());
            }
            i = i + 1;
            proof {
                let cur = spec_models(self.word_lst@.take(i as int));
                assert(cur.drop_last() =~= spec_models(self.word_lst@.take(i - 1)));
                assert(cur.last() == self.word_lst@[i - 1]@);
                if self.word_lst@[i - 1]@.w == word@ {
                    assert(spec_models(r@) =~= pre.push(self.word_lst@[i - 1]@));
                    assert(pre + seq![cur.last()] =~= pre.push(cur.last()));
                } else {
                    assert(pre + Seq::<WordModel>::empty() =~= pre);
                }
            }
        }
        proof {
            assert(self.word_lst@.take(i as int) =~= self.word_lst@);
        }
        r
    }
}

/// One entry block decoded against `content` per record of `ms`, in
/// order: the record's `(offset, size)` range is checked against the
/// buffer, then decoded under `layout` when one is given and as
/// self-describing fields otherwise.  The first failure is the result.
pub open spec fn spec_decode_entries(
    content: Seq<u8>,
    layout: Option<Seq<u8>>,
    ms: Seq<WordModel>,
) -> Result<Seq<Seq<(u8, Seq<u8>)>>, StarDictError>
    decreases ms.len(),
{
    if ms.len() == 0 {
        Ok(Seq::empty())
    } else {
        let m = ms[0];
        let r0: Result<Seq<(u8, Seq<u8>)>, StarDictError> = if m.offset + m.size > content.len() {
            Err(StarDictError::OutOfRange)
        } else {
            let entry = content.subrange(m.offset as int, (m.offset + m.size) as int);
            match layout {
                Some(tags) => spec_uniform_fields(entry, tags),
                None => spec_self_fields(entry),
            }
        };
        match r0 {
            Ok(ps) => match spec_decode_entries(content, layout, ms.drop_first()) {
                Ok(rs) => Ok(seq![fm_fold(ps)] + rs),
                Err(e) => Err(e),
            },
            Err(e) => Err(e),
        }
    }
}

/// The entry-data store: the fully inflated `.dict` payload and a read
/// cursor for the sequential accessors.
pub struct Dictionary {
    /// The inflated entry-data bytes.
    pub content: Vec<u8>,
    /// The read cursor of the sequential accessors.
    pub offset: usize,
}

impl Dictionary {
    /// Takes the raw bytes of a `.dict` file, inflating them first when
    /// they are gzip-compressed.  A compressed load succeeds exactly
    /// when inflation does, and fails as corrupt otherwise.
    pub fn new(data: Vec<u8>, compressed: bool) -> (r: Result<Dictionary, StarDictError>)
        ensures
            !compressed ==> r is Ok && r->Ok_0.content@ == data@ && r->Ok_0.offset == 0,
            compressed ==> (match r {
                Ok(d) => gunzip_of(data@) is Some && Some(d.content@) == gunzip_of(data@)
                    && d.offset == 0,
                Err(e) => gunzip_of(data@) is None && e == StarDictError::Corrupt,
            }),
    {
        if compressed {
            match gunzip(&data) {
                Some(buf) => Ok(Dictionary { content: buf, offset: 0 }),
                None => Err(StarDictError::Corrupt),
            }
        } else {
            Ok(Dictionary { content: data, offset: 0 })
        }
    }

    /// Copies `size` bytes at the cursor and advances the cursor past
    /// them.
    pub fn get_entry_field_size(&mut self, size: usize) -> (value: Vec<u8>)
        requires
            old(self).offset + size <= old(self).content@.len(),
        ensures
            value@ == old(self).content@.subrange(
                old(self).offset as int,
                old(self).offset + size,
            ),
            final(self).content == old(self).content,
            final(self).offset == old(self).offset + size,
    {
        let n = self.content.len();
        let value = subvec(&self.content, self.offset, self.offset + size);
        self.offset = self.offset + size;
        value
    }

    /// Decodes the entry block of `w` at the cursor under the uniform
    /// layout of `info`, advancing the cursor past the block on
    /// success.
    pub fn get_word_same_sequence(&mut self, w: &Word, info: &Description) -> (r: Result<
        FieldMap,
        StarDictError,
    >)
        ensures
            final(self).content == old(self).content,
            (match spec_kv_get(kv_view(info.dict@), spec_same_type_key()) {
                None => r == Err::<FieldMap, StarDictError>(StarDictError::Precondition) && final(self).offset == old(self).offset,
                Some(tags) => if old(self).offset + w.size > old(self).content@.len() {
                    r == Err::<FieldMap, StarDictError>(StarDictError::OutOfRange) && final(self).offset == old(self).offset
                } else {
                    match spec_uniform_fields(
                        old(self).content@.subrange(
                            old(self).offset as int,
                            old(self).offset + w.size,
                        ),
                        tags,
                    ) {
                        Ok(ps) => r is Ok && r->Ok_0@ == fm_fold(ps) && final(self).offset == old(self).offset + w.size,
                        Err(e) => r == Err::<FieldMap, StarDictError>(e) && final(self).offset
                            == old(self).offset,
                    }
                },
            }),
    {
        let key = same_type_key();
        let tags = match kv_get(&info.dict, &key) {
            Some(t) => t,
            None => {
                return Err(StarDictError::Precondition);
            },
        };
        let n = self.content.len();
        let size = w.size as usize;
        if self.offset > n || size > n - self.offset {
            return Err(StarDictError::OutOfRange);
        }
        match decode_uniform(&self.content, self.offset, size, tags) {
            Ok(fm) => {
                self.offset = self.offset + size;
                Ok(fm)
            },
            Err(e) => Err(e),
        }
    }

    /// Decodes the self-describing entry block of `w` at the cursor,
    /// advancing the cursor past the block on success.
    pub fn get_word_non_same_sequence(&mut self, w: &Word) -> (r: Result<FieldMap, StarDictError>)
        ensures
            final(self).content == old(self).content,
            (if old(self).offset + w.size > old(self).content@.len() {
                r == Err::<FieldMap, StarDictError>(StarDictError::OutOfRange) && final(self).offset == old(self).offset
            } else {
                match spec_self_fields(
                    old(self).content@.subrange(
                        old(self).offset as int,
                        old(self).offset + w.size,
                    ),
                ) {
                    Ok(ps) => r is Ok && r->Ok_0@ == fm_fold(ps) && final(self).offset == old(self).offset + w.size,
                    Err(e) => r == Err::<FieldMap, StarDictError>(e) && final(self).offset == old(self).offset,
                }
            }),
    {
        let n = self.content.len();
        let size = w.size as usize;
        if self.offset > n || size > n - self.offset {
            return Err(StarDictError::OutOfRange);
        }
        match decode_self_describing(&self.content, self.offset, size) {
            Ok(fm) => {
                self.offset = self.offset + size;
                Ok(fm)
            },
            Err(e) => Err(e),
        }
    }

    /// Decodes every entry block recorded for `word`: `Ok(None)` when
    /// the index holds no record for it, and otherwise one field map
    /// per record, in index order.  The cursor is left untouched: the
    /// blocks are addressed by their records alone.
    pub fn get_word(&mut self, word: &str, info: &Description, idx: &Index) -> (r: Result<
        Option<Vec<FieldMap>>,
        StarDictError,
    >)
        ensures
            *final(self) == *old(self),
            ({
                let matches = spec_lookup(spec_models(idx.word_lst@), word@);
                let layout = spec_kv_get(kv_view(info.dict@), spec_same_type_key());
                if matches.len() == 0 {
                    r == Ok::<Option<Vec<FieldMap>>, StarDictError>(None)
                } else {
                    match spec_decode_entries(old(self).content@, layout, matches) {
                        Ok(fs) => (match r {
                            Ok(v) => v is Some && v->0@.map_values(|f: FieldMap| f@) == fs,
                            Err(_) => false,
                        }),
                        Err(e) => r == Err::<Option<Vec<FieldMap>>, StarDictError>(e),
                    }
                }
            }),
    {
        let hits = idx.lookup(word);
        if hits.len() == 0 {
            proof {
                assert(spec_lookup(spec_models(idx.word_lst@), word@).len() == 0);
            }
            return Ok(None);
        }
        let ghost matches = spec_lookup(spec_models(idx.word_lst@), word@);
        let ghost layout = spec_kv_get(kv_view(info.dict@), spec_same_type_key());
        let key = same_type_key();
        let tags_opt = kv_get(&info.dict, &key);
        let n = self.content.len();
        let mut out: Vec<FieldMap> = Vec::new();
        let mut i: usize = 0;
        proof {
            assert(spec_models(hits@) =~= matches);
            assert(out@.map_values(|f: FieldMap| f@) =~= Seq::<Seq<(u8, Seq<u8>)>>::empty());
            assert(matches.skip(0) =~= matches);
        }
        while i < hits.len()
            invariant
                i <= hits@.len(),
                *self == *old(self),
                n == self.content@.len(),
                spec_models(hits@) == matches,
                matches.len() > 0,
                matches == spec_lookup(spec_models(idx.word_lst@), word@),
                layout == spec_kv_get(kv_view(info.dict@), spec_same_type_key()),
                layout == (match tags_opt {
                    Some(t) => Some(t@),
                    None => None::<Seq<u8>>,
                }),
                spec_decode_entries(self.content@, layout, matches) == (match spec_decode_entries(
                    self.content@,
                    layout,
                    matches.skip(i as int),
                ) {
                    Ok(rs) => Ok::<Seq<Seq<(u8, Seq<u8>)>>, StarDictError>(
                        out@.map_values(|f: FieldMap| f@) + rs,
                    ),
                    Err(e) => Err(e),
                }),
            decreases hits@.len() - i,
        {
            let ghost rem = matches.skip(i as int);
            proof {
                assert(rem[0] == hits@[i as int]@);
                assert(rem.drop_first() =~= matches.skip(i + 1));
            }
            let w = &hits[i];
            if w.offset > n as u64 || w.size as u64 > n as u64 - w.offset {
                proof {
                    assert(rem[0].offset + rem[0].size > self.content@.len());
                    assert(spec_decode_entries(self.content@, layout, rem) == Err::<
                        Seq<Seq<(u8, Seq<u8>)>>,
                        StarDictError,
                    >(StarDictError::OutOfRange));
                }
                return Err(StarDictError::OutOfRange);
            }
            let start = w.offset as usize;
            let size = w.size as usize;
            proof {
                assert(start as int == rem[0].offset);
                assert(size as int == rem[0].size);
                assert(rem[0].offset + rem[0].size <= self.content@.len());
                assert(self.content@.subrange(start as int, start + size) == self.content@
                    .subrange(rem[0].offset as int, (rem[0].offset + rem[0].size) as int));
            }
            let dr = match tags_opt {
                Some(tags) => decode_uniform(&self.content, start, size, tags),
                None => decode_self_describing(&self.content, start, size),
            };
            let ghost out0 = out@.map_values(|f: FieldMap| f@);
            match dr {
                Ok(fm) => {
                    let ghost fmv = fm@;
                    out.push(fm);
                    proof {
                        assert(out@.map_values(|f: FieldMap| f@) =~= out0.push(fmv));
                        assert forall|rs: Seq<Seq<(u8, Seq<u8>)>>|
                            out0 + (seq![fmv] + rs) =~= out0.push(fmv) + rs by {};
                    }
                },
                Err(e) => {
                    proof {
                        assert(spec_decode_entries(self.content@, layout, rem) == Err::<
                            Seq<Seq<(u8, Seq<u8>)>>,
                            StarDictError,
                        >(e));
                    }
                    return Err(e);
                },
            }
            i = i + 1;
        }
        proof {
            assert(matches.skip(i as int) =~= Seq::<WordModel>::empty());
            let whole = out@.map_values(|f: FieldMap| f@);
            assert(whole + Seq::<Seq<(u8, Seq<u8>)>>::empty() =~= whole);
        }
        Ok(Some(out))
    }
}

} // verus!
