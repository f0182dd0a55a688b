use std::io::Write;

use stardict::dict::{dump_stardict, Dictionary};
use stardict::info::Info;
use stardict::parser::{Description, Index};
use stardict::StarDictError;

fn gz(data: &[u8]) -> Vec<u8> {
    let mut enc = flate2::write::GzEncoder::new(Vec::new(), flate2::Compression::default());
    enc.write_all(data).unwrap();
    enc.finish().unwrap()
}

fn push_record(v: &mut Vec<u8>, word: &str, offset: u32, size: u32) {
    v.extend_from_slice(word.as_bytes());
    v.push(0);
    v.extend_from_slice(&offset.to_be_bytes());
    v.extend_from_slice(&size.to_be_bytes());
}

#[test]
fn info_skips_first_line_and_splits_on_single_equals() {
    let data = b"StarDict's dict ifo file\nversion=2.4.2\nbookname = Oxford \nnoequals\na=b=c\n"
        .to_vec();
    let info = Info::new(&data);
    assert_eq!(info.get(&b"version".to_vec()).unwrap(), b"2.4.2");
    // both sides of the '=' are trimmed
    assert_eq!(info.get(&b"bookname".to_vec()).unwrap(), b"Oxford");
    // a line without '=' and a line with two of them are dropped
    assert!(info.get(&b"noequals".to_vec()).is_none());
    assert!(info.get(&b"a".to_vec()).is_none());
    // the first line is a version marker, never a pair
    assert!(info.get(&b"StarDict's dict ifo file".to_vec()).is_none());
}

#[test]
fn info_first_occurrence_of_a_key_wins() {
    let data = b"ver\nkey=first\nkey=second\n".to_vec();
    let info = Info::new(&data);
    assert_eq!(info.get(&b"key".to_vec()).unwrap(), b"first");
}

#[test]
fn description_reads_the_same_metadata() {
    let data = b"ver\nsametypesequence=m\n".to_vec();
    let des = Description::new(&data);
    assert!(des.is_same_type_sequence());
    assert_eq!(des.dict.len(), 1);
    assert_eq!(des.dict[0].0, b"sametypesequence");
    assert_eq!(des.dict[0].1, b"m");
}

#[test]
fn compressed_entry_data_is_inflated() {
    let payload = b"hello dictionary payload";
    let packed = gz(payload);
    assert_ne!(packed, payload.to_vec());
    let dict = stardict::parser::Dictionary::new(packed, true).unwrap();
    assert_eq!(dict.content, payload.to_vec());
}

#[test]
fn garbage_compressed_data_is_corrupt() {
    let r = stardict::parser::Dictionary::new(b"not a gzip stream".to_vec(), true);
    assert_eq!(r.err(), Some(StarDictError::Corrupt));
}

#[test]
fn get_oxford_joins_field_values_with_newlines() {
    let packed = gz(b"tee\0meaning");
    let mut dict = Dictionary::new(&packed, "tm").unwrap();
    let text = dict.get_oxford(0, 11).unwrap();
    assert_eq!(text, "tee\nmeaning");

    let fm = dict.get(0, 11).unwrap();
    assert_eq!(fm.len(), 2);
    assert_eq!(fm.get(b't').unwrap(), b"tee");
}

#[test]
fn get_oxford_single_field_is_the_whole_entry() {
    let packed = gz(b"hello world");
    let mut dict = Dictionary::new(&packed, "m").unwrap();
    assert_eq!(dict.get_oxford(0, 11).unwrap(), "hello world");
}

#[test]
fn get_oxford_invalid_utf8_is_an_encoding_failure() {
    let packed = gz(&[0xFF, 0xFE]);
    let mut dict = Dictionary::new(&packed, "m").unwrap();
    assert_eq!(dict.get_oxford(0, 2).err(), Some(StarDictError::Encoding));
}

#[test]
fn get_out_of_range_is_reported() {
    let packed = gz(b"abc");
    let mut dict = Dictionary::new(&packed, "m").unwrap();
    assert_eq!(dict.get(2, 2).err(), Some(StarDictError::OutOfRange));
}

#[test]
fn dump_pairs_every_word_with_its_text() {
    let mut idx = Vec::new();
    push_record(&mut idx, "one", 0, 3);
    push_record(&mut idx, "two", 3, 5);
    let index = Index::new(idx, 32).unwrap();
    let packed = gz(b"unodoble");
    let mut dict = Dictionary::new(&packed, "m").unwrap();
    let pairs = dump_stardict(&index, &mut dict).unwrap();
    assert_eq!(pairs.len(), 2);
    assert_eq!(pairs[0], ("one".to_string(), "uno".to_string()));
    assert_eq!(pairs[1], ("two".to_string(), "doble".to_string()));
}

#[test]
fn big_endian_reads() {
    let v = vec![0x12u8, 0x34, 0x56, 0x78, 0x9A, 0xBC, 0xDE, 0xF0];
    assert_eq!(stardict::bytes::be_u32(&v, 0), 0x12345678);
    assert_eq!(stardict::bytes::be_u64(&v, 0), 0x123456789ABCDEF0);
}
