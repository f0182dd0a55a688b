use stardict::parser::{Description, Dictionary, Index, Word};
use stardict::StarDictError;

fn push_record(v: &mut Vec<u8>, word: &str, offset: u32, size: u32) {
    v.extend_from_slice(word.as_bytes());
    v.push(0);
    v.extend_from_slice(&offset.to_be_bytes());
    v.extend_from_slice(&size.to_be_bytes());
}

fn word(offset: u64, size: u32) -> Word {
    Word { w: String::new(), offset, size, index: 0 }
}

#[test]
fn uniform_single_terminal_field_takes_all_bytes() {
    // sametypesequence=m and an 11-byte entry: the single terminal
    // field takes 100% of the entry's bytes.
    let ifo = b"StarDict's dict ifo file\nsametypesequence=m\n".to_vec();
    let des = Description::new(&ifo);
    assert!(des.is_same_type_sequence());
    assert_eq!(des.same_type_sequence().unwrap(), b"m");

    let mut dict = Dictionary::new(b"hello world".to_vec(), false).unwrap();
    let w = word(0, 11);
    let fm = dict.get_word_same_sequence(&w, &des).unwrap();
    assert_eq!(fm.len(), 1);
    assert_eq!(fm.get(b'm').unwrap(), b"hello world");
    assert_eq!(dict.offset, 11);
}

#[test]
fn uniform_non_terminal_text_field_stops_at_nul() {
    let ifo = b"ver\nsametypesequence=tm\n".to_vec();
    let des = Description::new(&ifo);
    let mut dict = Dictionary::new(b"tee\0meaning".to_vec(), false).unwrap();
    let w = word(0, 11);
    let fm = dict.get_word_same_sequence(&w, &des).unwrap();
    assert_eq!(fm.len(), 2);
    assert_eq!(fm.get(b't').unwrap(), b"tee");
    assert_eq!(fm.get(b'm').unwrap(), b"meaning");
}

#[test]
fn uniform_length_prefixed_field_reads_declared_length() {
    // 'W' before the terminal field carries a 4-byte big-endian length.
    let ifo = b"ver\nsametypesequence=Wm\n".to_vec();
    let des = Description::new(&ifo);
    let mut data = vec![0u8, 0, 0, 3, 9, 8, 7];
    data.extend_from_slice(b"rest");
    let mut dict = Dictionary::new(data, false).unwrap();
    let w = word(0, 11);
    let fm = dict.get_word_same_sequence(&w, &des).unwrap();
    assert_eq!(fm.get(b'W').unwrap(), &[9, 8, 7]);
    assert_eq!(fm.get(b'm').unwrap(), b"rest");
}

#[test]
fn uniform_terminal_binary_tag_also_takes_all_bytes() {
    // a layout of length one puts every entry byte into that field,
    // whatever its type character: even 'W' reads no length prefix here
    let ifo = b"ver\nsametypesequence=W\n".to_vec();
    let des = Description::new(&ifo);
    let mut dict = Dictionary::new(vec![1u8, 2, 3, 4, 5], false).unwrap();
    let w = word(0, 5);
    let fm = dict.get_word_same_sequence(&w, &des).unwrap();
    assert_eq!(fm.len(), 1);
    assert_eq!(fm.get(b'W').unwrap(), &[1, 2, 3, 4, 5]);
}

#[test]
fn self_describing_entry_stops_at_declared_length() {
    // tag 'm', text "hello", NUL: exactly 7 bytes consumed.
    let mut dict = Dictionary::new(vec![0x6D, 0x68, 0x65, 0x6C, 0x6C, 0x6F, 0x00], false).unwrap();
    let w = word(0, 7);
    let fm = dict.get_word_non_same_sequence(&w).unwrap();
    assert_eq!(fm.len(), 1);
    assert_eq!(fm.get(b'm').unwrap(), b"hello");
    assert_eq!(dict.offset, 7);
}

#[test]
fn self_describing_duplicate_tag_overwrites_value() {
    let mut dict = Dictionary::new(b"ma\0mb\0".to_vec(), false).unwrap();
    let w = word(0, 6);
    let fm = dict.get_word_non_same_sequence(&w).unwrap();
    assert_eq!(fm.len(), 1);
    assert_eq!(fm.get(b'm').unwrap(), b"b");
}

#[test]
fn self_describing_field_crossing_entry_end_is_corrupt() {
    // declared length 4, but the text field's NUL lies beyond it
    let mut dict = Dictionary::new(b"mhello\0".to_vec(), false).unwrap();
    let w = word(0, 4);
    assert_eq!(dict.get_word_non_same_sequence(&w).err(), Some(StarDictError::Corrupt));
}

#[test]
fn entry_beyond_buffer_is_out_of_range() {
    let mut dict = Dictionary::new(b"abc".to_vec(), false).unwrap();
    dict.offset = 1;
    let w = word(1, 3);
    assert_eq!(dict.get_word_non_same_sequence(&w).err(), Some(StarDictError::OutOfRange));
    assert_eq!(dict.offset, 1);
}

#[test]
fn uniform_decode_without_layout_is_a_precondition_failure() {
    let ifo = b"ver\nbookname=plain\n".to_vec();
    let des = Description::new(&ifo);
    assert!(!des.is_same_type_sequence());
    assert_eq!(des.same_type_sequence(), Err(StarDictError::Precondition));
    let mut dict = Dictionary::new(b"x".to_vec(), false).unwrap();
    let w = word(0, 1);
    assert_eq!(dict.get_word_same_sequence(&w, &des).err(), Some(StarDictError::Precondition));
}

#[test]
fn decoding_the_same_record_twice_is_byte_identical() {
    let mut dict = Dictionary::new(b"ma\0Xb\0c\0".to_vec(), false).unwrap();
    let w = word(0, 3);
    let first = dict.get_word_non_same_sequence(&w).unwrap();
    dict.offset = 0;
    let second = dict.get_word_non_same_sequence(&w).unwrap();
    assert_eq!(first.len(), second.len());
    for i in 0..first.len() {
        assert_eq!(first.tag_at(i), second.tag_at(i));
        assert_eq!(first.value_at(i), second.value_at(i));
    }
}

#[test]
fn index_keeps_all_records_and_lookup_keeps_file_order() {
    // three distinct words plus one duplicate: four records in all,
    // two of them for the duplicate word, in original file order
    let mut idx = Vec::new();
    push_record(&mut idx, "apple", 0, 5);
    push_record(&mut idx, "dup", 5, 3);
    push_record(&mut idx, "banana", 8, 6);
    push_record(&mut idx, "dup", 14, 2);
    let index = Index::new(idx, 32).unwrap();
    assert_eq!(index.word_lst.len(), 4);
    assert_eq!(index.word_lst[0].w, "apple");
    assert_eq!(index.word_lst[3].index, 3);
    // the parse consumed the file exactly to its end
    assert_eq!(index.offset, index.content.len());
    assert_eq!(index.index, 4);
    assert!(index.parsed);

    let hits = index.lookup("dup");
    assert_eq!(hits.len(), 2);
    assert_eq!(hits[0].offset, 5);
    assert_eq!(hits[0].size, 3);
    assert_eq!(hits[0].index, 1);
    assert_eq!(hits[1].offset, 14);
    assert_eq!(hits[1].index, 3);
}

#[test]
fn lookup_of_absent_or_empty_word_is_empty_not_an_error() {
    let mut idx = Vec::new();
    push_record(&mut idx, "apple", 0, 5);
    let index = Index::new(idx, 32).unwrap();
    assert_eq!(index.lookup("").len(), 0);
    assert_eq!(index.lookup("pear").len(), 0);
}

#[test]
fn index_with_64_bit_offsets() {
    let mut idx = Vec::new();
    idx.extend_from_slice(b"wide");
    idx.push(0);
    idx.extend_from_slice(&0x1_0000_0001u64.to_be_bytes());
    idx.extend_from_slice(&7u32.to_be_bytes());
    let index = Index::new(idx, 64).unwrap();
    assert_eq!(index.word_lst.len(), 1);
    assert_eq!(index.word_lst[0].offset, 0x1_0000_0001);
    assert_eq!(index.word_lst[0].size, 7);
}

#[test]
fn index_ending_mid_record_is_truncated() {
    let mut idx = Vec::new();
    push_record(&mut idx, "apple", 0, 5);
    idx.extend_from_slice(b"cut\0\0\0");
    assert_eq!(Index::new(idx, 32).err(), Some(StarDictError::Truncated));

    // a word whose NUL terminator never comes
    let idx2 = b"unterminated".to_vec();
    assert_eq!(Index::new(idx2, 32).err(), Some(StarDictError::Truncated));
}

#[test]
fn failed_parse_leaves_the_index_empty() {
    // one good record, then a cut-short one: the good record is not kept
    let mut bytes = Vec::new();
    push_record(&mut bytes, "apple", 0, 5);
    bytes.extend_from_slice(b"cut\0\0\0");
    let mut index = Index {
        content: bytes,
        offset: 0,
        index: 0,
        index_bits: 32,
        word_lst: Vec::new(),
        parsed: false,
    };
    assert_eq!(index.parse(), Err(StarDictError::Truncated));
    assert!(!index.parsed);
    assert!(index.word_lst.is_empty());
    assert_eq!(index.offset, 0);
    assert_eq!(index.index, 0);
}

#[test]
fn parse_on_a_parsed_index_changes_nothing() {
    let mut idx = Vec::new();
    push_record(&mut idx, "apple", 0, 5);
    let mut index = Index::new(idx, 32).unwrap();
    assert_eq!(index.parse(), Ok(()));
    assert_eq!(index.word_lst.len(), 1);
    assert_eq!(index.offset, index.content.len());
}

#[test]
fn index_word_with_multibyte_utf8_is_decoded() {
    let mut idx = Vec::new();
    push_record(&mut idx, "na\u{ef}ve", 0, 4);
    let index = Index::new(idx, 32).unwrap();
    assert_eq!(index.word_lst[0].w, "na\u{ef}ve");
    assert_eq!(index.word_lst[0].w.chars().count(), 5);
    assert_eq!(index.lookup("na\u{ef}ve").len(), 1);
}

#[test]
fn index_word_with_invalid_utf8_is_an_encoding_failure() {
    let mut idx = Vec::new();
    idx.push(0xFF);
    idx.push(0);
    idx.extend_from_slice(&0u32.to_be_bytes());
    idx.extend_from_slice(&1u32.to_be_bytes());
    assert_eq!(Index::new(idx, 32).err(), Some(StarDictError::Encoding));
}

#[test]
fn get_word_decodes_every_record_of_a_homograph() {
    let ifo = b"ver\nsametypesequence=m\n".to_vec();
    let des = Description::new(&ifo);
    let mut idx = Vec::new();
    push_record(&mut idx, "dup", 0, 3);
    push_record(&mut idx, "dup", 3, 5);
    let index = Index::new(idx, 32).unwrap();
    let mut dict = Dictionary::new(b"onethree".to_vec(), false).unwrap();
    let maps = dict.get_word("dup", &des, &index).unwrap().unwrap();
    assert_eq!(maps.len(), 2);
    assert_eq!(maps[0].get(b'm').unwrap(), b"one");
    assert_eq!(maps[1].get(b'm').unwrap(), b"three");
    assert!(dict.get_word("missing", &des, &index).unwrap().is_none());
}

#[test]
fn get_word_surfaces_a_record_beyond_the_buffer() {
    let ifo = b"ver\nsametypesequence=m\n".to_vec();
    let des = Description::new(&ifo);
    let mut idx = Vec::new();
    push_record(&mut idx, "far", 100, 5);
    let index = Index::new(idx, 32).unwrap();
    let mut dict = Dictionary::new(b"short".to_vec(), false).unwrap();
    assert_eq!(dict.get_word("far", &des, &index).err(), Some(StarDictError::OutOfRange));
}

#[test]
fn get_entry_field_size_advances_the_cursor() {
    let mut dict = Dictionary::new(b"abcdef".to_vec(), false).unwrap();
    dict.offset = 1;
    let v = dict.get_entry_field_size(3);
    assert_eq!(v, b"bcd");
    assert_eq!(dict.offset, 4);
}
