use mdict_cli_rs::stardict::{Dict, DictError, EntryWrapper, Entry, Ifo, Idx, StarDict, Version};
use mdict_cli_rs::textutil::usize_to_string;
use std::io::Write;

fn be32(n: u32) -> [u8; 4] {
    n.to_be_bytes()
}

/// Build idx bytes: each entry is word, NUL, 32-bit offset, 32-bit size.
fn idx_bytes(entries: &[(&[u8], u32, u32)]) -> Vec<u8> {
    let mut out = Vec::new();
    for (word, off, sz) in entries {
        out.extend_from_slice(word);
        out.push(0);
        out.extend_from_slice(&be32(*off));
        out.extend_from_slice(&be32(*sz));
    }
    out
}

#[test]
fn ifo_parses_known_fields() {
    let text = "StarDict's dict ifo file\nversion=2.4.2\nbookname=My Dict\nwordcount=42\nidxfilesize=1234\nsametypesequence=m\n";
    let ifo = Ifo::new(text).expect("header parses");
    assert!(matches!(ifo.version, Version::V242));
    assert_eq!(ifo.bookname, "My Dict");
    assert_eq!(ifo.wordcount, 42);
    assert_eq!(ifo.idxfilesize, 1234);
    assert_eq!(ifo.sametypesequence, "m");
    assert_eq!(ifo.author, "");
}

#[test]
fn ifo_accepts_crlf_lines_and_plus_signs() {
    let text = "version=3.0.0\r\nwordcount=+7\r\nbookname=CR Dict\r\n";
    let ifo = Ifo::new(text).expect("header parses");
    assert!(matches!(ifo.version, Version::V300));
    assert_eq!(ifo.wordcount, 7);
    assert_eq!(ifo.bookname, "CR Dict");
}

#[test]
fn ifo_ignores_unknown_keys_and_plain_lines() {
    let text = "no equals sign here\nmystery=value\nbookname=Kept\n";
    let ifo = Ifo::new(text).expect("header parses");
    assert_eq!(ifo.bookname, "Kept");
    assert!(matches!(ifo.version, Version::Unknown));
}

#[test]
fn ifo_rejects_bad_numbers() {
    assert!(matches!(Ifo::new("wordcount=seven\n"), Err(DictError::BadIfo)));
    assert!(matches!(Ifo::new("idxoffsetbits=\n"), Err(DictError::BadIfo)));
    assert!(matches!(
        Ifo::new("synwordcount=99999999999999999999999999\n"),
        Err(DictError::BadIfo)
    ));
}

#[test]
fn idx_parses_entries() {
    let bytes = idx_bytes(&[(b"apple", 0, 5), (b"banana", 5, 6)]);
    let idx = Idx::new(&bytes, Version::V242).expect("index parses");
    assert_eq!(idx.items.len(), 2);
    assert_eq!(idx.items[0], ("apple".to_string(), 0, 5));
    assert_eq!(idx.items[1], ("banana".to_string(), 5, 6));
}

#[test]
fn idx_wide_offsets_for_newer_version() {
    let mut bytes = Vec::new();
    bytes.extend_from_slice(b"word");
    bytes.push(0);
    bytes.extend_from_slice(&256u64.to_be_bytes());
    bytes.extend_from_slice(&3u64.to_be_bytes());
    let idx = Idx::new(&bytes, Version::V300).expect("index parses");
    assert_eq!(idx.items, vec![("word".to_string(), 256, 3)]);
}

#[test]
fn idx_rejects_unknown_version_and_truncation() {
    let bytes = idx_bytes(&[(b"apple", 0, 5)]);
    assert!(matches!(Idx::new(&bytes, Version::Unknown), Err(DictError::BadVersion)));
    let mut cut = bytes.clone();
    cut.truncate(bytes.len() - 2);
    assert!(matches!(Idx::new(&cut, Version::V242), Err(DictError::BadIdx)));
}

#[test]
fn idx_drops_empty_words_and_cleans_invalid_bytes() {
    // An entry whose word is empty is skipped; invalid UTF-8 bytes decode
    // to replacement characters, which are removed from the stored word.
    let bytes = idx_bytes(&[(b"", 0, 1), (b"ab\xFFc", 1, 2)]);
    let idx = Idx::new(&bytes, Version::V242).expect("index parses");
    assert_eq!(idx.items, vec![("abc".to_string(), 1, 2)]);
}

#[test]
fn dict_get_checks_bounds() {
    let d = Dict::new(b"hello world".to_vec());
    assert_eq!(d.get(0, 5), Ok(b"hello".to_vec()));
    assert_eq!(d.get(6, 5), Ok(b"world".to_vec()));
    assert_eq!(d.get(6, 6), Err(DictError::NotFound));
    assert_eq!(d.get(12, 0), Err(DictError::NotFound));
}

#[test]
fn stardict_plain_lookup_is_case_folded() {
    let ifo_text = "version=2.4.2\nbookname=Tiny\n";
    let idx = idx_bytes(&[(b"cat", 0, 3), (b"dog", 3, 3)]);
    let sd = StarDict::dict(ifo_text, &idx, b"catdog".to_vec()).expect("dictionary builds");
    assert_eq!(sd.dict_name(), "Tiny");
    assert_eq!(sd.exact_lookup("cat"), Some(b"cat".to_vec()));
    assert_eq!(sd.exact_lookup("CAT"), Some(b"cat".to_vec()));
    assert_eq!(sd.exact_lookup("Dog"), Some(b"dog".to_vec()));
    assert_eq!(sd.exact_lookup("bird"), None);
}

#[test]
fn stardict_lookup_rejects_out_of_range_entries() {
    let ifo_text = "version=2.4.2\nbookname=Broken\n";
    let idx = idx_bytes(&[(b"cat", 0, 99)]);
    let sd = StarDict::dict(ifo_text, &idx, b"catdog".to_vec()).expect("dictionary builds");
    assert_eq!(sd.exact_lookup("cat"), None);
}

#[test]
fn stardict_dz_decompresses_payload() {
    let ifo_text = "version=2.4.2\nbookname=Zipped\n";
    let idx = idx_bytes(&[(b"hello", 0, 5), (b"world", 6, 5)]);
    let mut encoder = flate2::write::GzEncoder::new(Vec::new(), flate2::Compression::default());
    encoder.write_all(b"hello world").unwrap();
    let compressed = encoder.finish().unwrap();
    let sd = StarDict::dz(ifo_text, &idx, &compressed).expect("dictionary builds");
    assert_eq!(sd.exact_lookup("hello"), Some(b"hello".to_vec()));
    assert_eq!(sd.exact_lookup("WORLD"), Some(b"world".to_vec()));
}

#[test]
fn stardict_dz_rejects_garbage() {
    let ifo_text = "version=2.4.2\nbookname=Bad\n";
    let idx = idx_bytes(&[(b"x", 0, 1)]);
    let garbage = vec![1u8, 2, 3, 4];
    assert!(matches!(StarDict::dz(ifo_text, &idx, &garbage), Err(DictError::BadGzip)));
}

#[test]
fn stardict_rejects_unknown_version() {
    let idx = idx_bytes(&[(b"x", 0, 1)]);
    assert!(matches!(
        StarDict::dict("bookname=NoVersion\n", &idx, b"x".to_vec()),
        Err(DictError::BadVersion)
    ));
    assert!(matches!(
        StarDict::dict("wordcount=oops\n", &idx, b"x".to_vec()),
        Err(DictError::BadIfo)
    ));
}

#[test]
fn entry_wrapper_line_format() {
    let w = EntryWrapper {
        dict_name: "Webster".to_string(),
        entry: Entry { word: "cat".to_string() },
    };
    assert_eq!(w.line(), "cat Webster\n");
}

#[test]
fn version_text_matches_header_spelling() {
    assert_eq!(Version::V242.text(), "2.4.2");
    assert_eq!(Version::V300.text(), "3.0.0");
}

#[test]
fn ifo_summary_lists_the_known_fields() {
    let ifo = Ifo::new("version=2.4.2\nbookname=My Dict\nwordcount=42\nidxfilesize=1234\nsametypesequence=m\n")
        .expect("header parses");
    assert_eq!(
        ifo.summary(),
        "StarDict's dict ifo file\nversion=2.4.2\nwordcount=42\nidxfilesize=1234\nbookname=My Dict\nsametypesequence=m\n"
    );
}

#[test]
fn numbers_render_in_decimal() {
    assert_eq!(usize_to_string(0), "0");
    assert_eq!(usize_to_string(7), "7");
    assert_eq!(usize_to_string(42), "42");
    assert_eq!(usize_to_string(1234567890), "1234567890");
}
