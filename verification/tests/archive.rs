use berg::{BionicTransformer, EpubDocument, EpubError, EpubFailure, Transformer};
use std::io::{Cursor, Read, Write};
use zip::write::FileOptions;
use zip::{CompressionMethod, ZipArchive, ZipWriter};

struct CapitalizeTransformer;

impl Transformer for CapitalizeTransformer {
    fn transform(&self, content: &str) -> String {
        content.to_uppercase()
    }
}

fn pack(entries: &[(&str, &[u8])], method: CompressionMethod) -> Vec<u8> {
    let mut writer = ZipWriter::new(Cursor::new(Vec::new()));
    for (name, payload) in entries {
        writer
            .start_file(*name, FileOptions::default().compression_method(method))
            .unwrap();
        writer.write_all(payload).unwrap();
    }
    writer.finish().unwrap().into_inner()
}

fn unpack(data: Vec<u8>) -> Vec<(String, Vec<u8>)> {
    let mut archive = ZipArchive::new(Cursor::new(data)).unwrap();
    let mut entries = Vec::new();
    for i in 0..archive.len() {
        let mut file = archive.by_index(i).unwrap();
        let mut payload = Vec::new();
        file.read_to_end(&mut payload).unwrap();
        entries.push((file.name().to_string(), payload));
    }
    entries
}

#[test]
fn names_order_and_other_payloads_are_kept() {
    let png: &[u8] = &[0x89, b'P', b'N', b'G', 0, 255, 1, 2];
    let source = pack(
        &[
            ("A.png", png),
            ("B.xhtml", b"<p>Hello world!</p>"),
            ("C.css", b"p { color: red }"),
        ],
        CompressionMethod::Deflated,
    );
    let mut epub = EpubDocument::open(source).unwrap();
    let out = epub.transform(BionicTransformer::new()).unwrap();
    let entries = unpack(out);
    assert_eq!(entries.len(), 3);
    assert_eq!(entries[0], ("A.png".to_string(), png.to_vec()));
    assert_eq!(
        entries[1],
        (
            "B.xhtml".to_string(),
            b"<p><b>He</b>llo <b>wor</b>ld!</p>".to_vec()
        )
    );
    assert_eq!(entries[2], ("C.css".to_string(), b"p { color: red }".to_vec()));
}

#[test]
fn text_entries_are_encoded_again() {
    let source = pack(
        &[("text/ch1.xhtml", "<p>caf\u{e9} na\u{ef}ve</p>".as_bytes())],
        CompressionMethod::Stored,
    );
    let mut epub = EpubDocument::open(source).unwrap();
    let out = epub.transform(CapitalizeTransformer).unwrap();
    let entries = unpack(out);
    assert_eq!(entries.len(), 1);
    assert_eq!(entries[0].0, "text/ch1.xhtml");
    assert_eq!(entries[0].1, "<p>CAF\u{c9} NA\u{cf}VE</p>".as_bytes().to_vec());
}

#[test]
fn only_the_xhtml_suffix_selects_an_entry() {
    let source = pack(
        &[
            ("a.html", b"<p>one</p>"),
            ("b.xhtml.bak", b"<p>two</p>"),
            (".xhtml", b"<p>three</p>"),
        ],
        CompressionMethod::Deflated,
    );
    let mut epub = EpubDocument::open(source).unwrap();
    let entries = unpack(epub.transform(CapitalizeTransformer).unwrap());
    assert_eq!(entries[0].1, b"<p>one</p>".to_vec());
    assert_eq!(entries[1].1, b"<p>two</p>".to_vec());
    assert_eq!(entries[2].1, b"<p>THREE</p>".to_vec());
}

#[test]
fn empty_archive_gives_an_empty_archive() {
    let source = pack(&[], CompressionMethod::Deflated);
    let mut epub = EpubDocument::open(source).unwrap();
    let entries = unpack(epub.transform(BionicTransformer::new()).unwrap());
    assert!(entries.is_empty());
}

#[test]
fn a_document_can_be_rewritten_twice() {
    let source = pack(&[("x.xhtml", b"<i>ab</i>")], CompressionMethod::Deflated);
    let mut epub = EpubDocument::open(source).unwrap();
    let first = epub.transform(CapitalizeTransformer).unwrap();
    let second = epub.transform(CapitalizeTransformer).unwrap();
    assert_eq!(first, second);
    assert_eq!(unpack(first)[0].1, b"<i>AB</i>".to_vec());
}

#[test]
fn bytes_that_are_no_archive_are_refused() {
    let failure = EpubDocument::open(b"this is not a zip container".to_vec())
        .err()
        .unwrap();
    assert_eq!(failure.kind, EpubError::ArchiveOpen);
    assert_eq!(failure.entry, None);
    assert!(!failure.cause.is_empty());
    let failure = EpubDocument::open(Vec::new()).err().unwrap();
    assert_eq!(failure.kind, EpubError::ArchiveOpen);
}

#[test]
fn text_entry_that_is_not_utf8_is_refused() {
    let source = pack(
        &[("ok.png", &[0xff, 0xfe]), ("bad.xhtml", &[b'<', b'p', b'>', 0xff, 0xfe])],
        CompressionMethod::Deflated,
    );
    let mut epub = EpubDocument::open(source).unwrap();
    let failure: EpubFailure = epub.transform(BionicTransformer::new()).unwrap_err();
    assert_eq!(failure.kind, EpubError::Decoding);
    assert_eq!(failure.entry, Some(1));
    assert!(!failure.cause.is_empty());
}

#[test]
fn damaged_entry_is_refused() {
    let payload = b"PAYLOAD-PAYLOAD-PAYLOAD";
    let mut source = pack(&[("a.bin", payload)], CompressionMethod::Stored);
    let at = source
        .windows(payload.len())
        .position(|w| w == payload)
        .unwrap();
    source[at] ^= 0x55;
    let mut epub = EpubDocument::open(source).unwrap();
    let failure = epub.transform(BionicTransformer::new()).unwrap_err();
    assert_eq!(failure.kind, EpubError::ArchiveRead);
    assert_eq!(failure.entry, Some(0));
    assert!(!failure.cause.is_empty());
}

#[test]
fn text_entry_is_scanned() {
    let stored = EpubDocument::rewrite_entry("ch1.xhtml", b"<p>hi there</p>".to_vec(), &CapitalizeTransformer);
    assert_eq!(stored, Ok(b"<p>HI THERE</p>".to_vec()));
    let stored = EpubDocument::rewrite_entry("ch1.xhtml", b"<p>hi there</p>".to_vec(), &BionicTransformer::new());
    assert_eq!(stored, Ok(b"<p><b>h</b>i <b>th</b>ere</p>".to_vec()));
}

#[test]
fn other_entry_keeps_its_payload() {
    let payload = vec![0u8, 159, 146, 150, b'<', b'p', b'>', b'a'];
    let stored = EpubDocument::rewrite_entry("cover.png", payload.clone(), &CapitalizeTransformer);
    assert_eq!(stored, Ok(payload));
    let stored = EpubDocument::rewrite_entry("style.css", b"p { a: b }".to_vec(), &CapitalizeTransformer);
    assert_eq!(stored, Ok(b"p { a: b }".to_vec()));
}

#[test]
fn undecodable_text_entry_fails() {
    let stored = EpubDocument::rewrite_entry("ch1.xhtml", vec![b'a', 0xc3], &CapitalizeTransformer);
    assert_eq!(stored, Err(EpubError::Decoding));
    let stored = EpubDocument::rewrite_entry("ch1.html", vec![b'a', 0xc3], &CapitalizeTransformer);
    assert_eq!(stored, Ok(vec![b'a', 0xc3]));
}

#[test]
fn empty_text_entry_stays_empty() {
    let stored = EpubDocument::rewrite_entry("e.xhtml", Vec::new(), &BionicTransformer::new());
    assert_eq!(stored, Ok(Vec::new()));
}

#[test]
fn the_first_failing_entry_decides() {
    let payload = b"PAYLOAD-PAYLOAD-PAYLOAD";
    let mut source = pack(
        &[("a.css", b"a {}"), ("b.xhtml", &[0xff, 0xfe]), ("c.bin", payload)],
        CompressionMethod::Stored,
    );
    let at = source
        .windows(payload.len())
        .position(|w| w == payload)
        .unwrap();
    source[at] ^= 0x55;
    let mut epub = EpubDocument::open(source).unwrap();
    let failure = epub.transform(BionicTransformer::new()).unwrap_err();
    assert_eq!(failure.kind, EpubError::Decoding);
    assert_eq!(failure.entry, Some(1));
}

#[test]
fn the_same_source_gives_the_same_bytes() {
    let entries: &[(&str, &[u8])] = &[("a.xhtml", b"<p>one two</p>"), ("b.png", &[1, 2, 3])];
    let mut first = EpubDocument::open(pack(entries, CompressionMethod::Deflated)).unwrap();
    let mut second = EpubDocument::open(pack(entries, CompressionMethod::Stored)).unwrap();
    let a = first.transform(BionicTransformer::new()).unwrap();
    let b = second.transform(BionicTransformer::new()).unwrap();
    assert_eq!(a, b);
}
