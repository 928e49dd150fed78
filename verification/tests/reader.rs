use pdf_reader::error::Error;
use pdf_reader::objects::{IndirectRef, Object};
use pdf_reader::pdf_file::PdfFile;
use pdf_reader::scan::{last_position_of_sequence, position_of_sequence};

/// Builds a small but complete PDF in memory, returning its bytes, the
/// offsets of its three indirect objects, and the offset of the xref table.
fn sample_pdf() -> (Vec<u8>, [usize; 3], usize) {
    let mut buf: Vec<u8> = Vec::new();
    buf.extend_from_slice(b"%PDF-1.6\n");
    let off1 = buf.len();
    buf.extend_from_slice(b"1 0 obj\n<< /Type /Catalog /Pages 2 0 R >>\nendobj\n");
    let off2 = buf.len();
    buf.extend_from_slice(b"2 0 obj\n<< /Type /Pages /Kids [3 0 R] /Count 1 >>\nendobj\n");
    let off3 = buf.len();
    buf.extend_from_slice(b"3 0 obj\n<< /Type /Page /Contents (hi) >>\nendobj\n");
    let xref_off = buf.len();
    buf.extend_from_slice(b"xref\n0 4\n");
    buf.extend_from_slice(format!("{:010} 65535 f\r\n", 0).as_bytes());
    buf.extend_from_slice(format!("{:010} 00000 n\r\n", off1).as_bytes());
    buf.extend_from_slice(format!("{:010} 00000 n\r\n", off2).as_bytes());
    buf.extend_from_slice(format!("{:010} 00000 n\r\n", off3).as_bytes());
    buf.extend_from_slice(b"trailer\n<< /Size 4 /Root 1 0 R >>\nstartxref\n");
    buf.extend_from_slice(format!("{}\n", xref_off).as_bytes());
    buf.extend_from_slice(b"%%EOF\n");
    (buf, [off1, off2, off3], xref_off)
}

#[test]
fn should_find_sequences() {
    assert_eq!(position_of_sequence(b"abcabc", b"bc"), Some(1));
    assert_eq!(last_position_of_sequence(b"abcabc", b"bc"), Some(4));
    assert_eq!(position_of_sequence(b"abc", b"zz"), None);
    assert_eq!(last_position_of_sequence(b"abc", b"zz"), None);
    // A needle at the very end, and one longer than the buffer.
    assert_eq!(position_of_sequence(b"abc", b"c"), Some(2));
    assert_eq!(last_position_of_sequence(b"ab", b"abcd"), None);
}

#[test]
fn reader_detects_version() {
    let (buf, _, _) = sample_pdf();
    let file = PdfFile::from_raw(buf);
    assert_eq!(file.version().unwrap(), b"1.6");
}

#[test]
fn reader_rejects_missing_header() {
    let file = PdfFile::from_raw(b"not a pdf at all".to_vec());
    assert!(matches!(file.version(), Err(Error::Syntax(_))));
}

#[test]
fn reader_finds_last_xref_offset() {
    let (buf, _, xref_off) = sample_pdf();
    let file = PdfFile::from_raw(buf);
    assert_eq!(file.last_xref_offset().unwrap(), xref_off as u64);
}

#[test]
fn reader_rejects_missing_eof_marker() {
    let file = PdfFile::from_raw(b"%PDF-1.6\nstartxref\n0\n".to_vec());
    assert!(matches!(file.last_xref_offset(), Err(Error::Syntax(_))));
}

#[test]
fn reader_rejects_xref_offset_past_end() {
    let mut buf: Vec<u8> = Vec::new();
    buf.extend_from_slice(b"%PDF-1.6\nstartxref\n99999\n%%EOF\n");
    let mut file = PdfFile::from_raw(buf);
    assert!(matches!(file.load_xref_table(), Err(Error::Syntax(_))));
}

#[test]
fn reader_locates_objects() {
    let (buf, offs, _) = sample_pdf();
    let mut file = PdfFile::from_raw(buf);

    // Before the load, every lookup reports the missing table.
    let r1 = IndirectRef { number: 1, generation: 0 };
    assert_eq!(file.indirect_object_offset(r1), Err(Error::NotLoaded));

    file.load_xref_table().unwrap();
    let file = file;

    // The free entry and a missing entry are both not found; a live entry
    // yields its offset; nothing reports the table as missing any more.
    let r0 = IndirectRef { number: 0, generation: 0 };
    assert_eq!(file.indirect_object_offset(r0), Err(Error::ObjectNotFound(r0)));
    assert_eq!(file.indirect_object_offset(r1), Ok(offs[0] as u64));
    let r3 = IndirectRef { number: 3, generation: 0 };
    assert_eq!(file.indirect_object_offset(r3), Ok(offs[2] as u64));
    let missing = IndirectRef { number: 9, generation: 4 };
    assert_eq!(
        file.indirect_object_offset(missing),
        Err(Error::ObjectNotFound(missing))
    );
    let wrong_generation = IndirectRef { number: 1, generation: 5 };
    assert_eq!(
        file.indirect_object_offset(wrong_generation),
        Err(Error::ObjectNotFound(wrong_generation))
    );
}

#[test]
fn reader_parses_trailer() {
    let (buf, _, _) = sample_pdf();
    let file = PdfFile::from_raw(buf);
    let trailer = file.trailer().unwrap();
    assert_eq!(trailer.lookup(b"Size"), Some(&Object::Integer(4)));
    assert_eq!(
        trailer.lookup(b"Root"),
        Some(&Object::Indirect(IndirectRef { number: 1, generation: 0 }))
    );
}

#[test]
fn reader_resolves_object_graph() {
    let (buf, _, _) = sample_pdf();
    let mut file = PdfFile::from_raw(buf);
    file.load_xref_table().unwrap();

    let trailer = file.trailer().unwrap();
    let root = file.resolve(trailer.lookup(b"Root").unwrap()).unwrap();
    assert_eq!(root.lookup(b"Type"), Some(&Object::Name(b"Catalog".to_vec())));

    let pages = file.resolve(root.lookup(b"Pages").unwrap()).unwrap();
    assert_eq!(pages.lookup(b"Type"), Some(&Object::Name(b"Pages".to_vec())));

    let kids = pages.lookup(b"Kids").unwrap().as_array().unwrap();
    let page = file.resolve(&kids[0]).unwrap();
    assert_eq!(page.lookup(b"Type"), Some(&Object::Name(b"Page".to_vec())));
    assert_eq!(page.lookup(b"Contents"), Some(&Object::String(b"hi".to_vec())));
}

#[test]
fn resolve_returns_non_references_unchanged() {
    let (buf, _, _) = sample_pdf();
    let file = PdfFile::from_raw(buf);
    let obj = Object::Array(vec![Object::Integer(5), Object::Null]);
    assert_eq!(file.resolve(&obj).unwrap(), obj);
}

#[test]
fn resolve_requires_loaded_table() {
    let (buf, _, _) = sample_pdf();
    let file = PdfFile::from_raw(buf);
    let reference = Object::Indirect(IndirectRef { number: 1, generation: 0 });
    assert_eq!(file.resolve(&reference), Err(Error::NotLoaded));
}

#[test]
fn resolve_checks_envelope_identity() {
    // A file whose xref entry for object 1 points at an envelope that calls
    // itself object 8: resolution must reject the mismatch.
    let mut buf: Vec<u8> = Vec::new();
    buf.extend_from_slice(b"%PDF-1.6\n");
    let off1 = buf.len();
    buf.extend_from_slice(b"8 0 obj\n(mislabeled)\nendobj\n");
    let xref_off = buf.len();
    buf.extend_from_slice(b"xref\n1 1\n");
    buf.extend_from_slice(format!("{:010} 00000 n\r\n", off1).as_bytes());
    buf.extend_from_slice(b"trailer\n<< /Size 2 >>\nstartxref\n");
    buf.extend_from_slice(format!("{}\n", xref_off).as_bytes());
    buf.extend_from_slice(b"%%EOF\n");

    let mut file = PdfFile::from_raw(buf);
    file.load_xref_table().unwrap();
    let reference = Object::Indirect(IndirectRef { number: 1, generation: 0 });
    assert!(matches!(file.resolve(&reference), Err(Error::Syntax(_))));

    // The same bytes under the right number resolve fine.
    let good = IndirectRef { number: 8, generation: 0 };
    // Object 8 is not in the table, so reaching it through the table fails,
    // which is exactly the point: identity is checked against the table's key.
    assert_eq!(
        file.indirect_object_offset(good),
        Err(Error::ObjectNotFound(good))
    );
}

#[test]
fn xref_table_supports_several_subsections() {
    let mut buf: Vec<u8> = Vec::new();
    buf.extend_from_slice(b"%PDF-1.6\n");
    let off = buf.len();
    buf.extend_from_slice(b"5 0 obj\n(five)\nendobj\n");
    let xref_off = buf.len();
    buf.extend_from_slice(b"xref\n0 1\n");
    buf.extend_from_slice(format!("{:010} 65535 f\r\n", 0).as_bytes());
    buf.extend_from_slice(b"5 1\n");
    buf.extend_from_slice(format!("{:010} 00000 n\r\n", off).as_bytes());
    buf.extend_from_slice(b"trailer\n<< /Size 6 >>\nstartxref\n");
    buf.extend_from_slice(format!("{}\n", xref_off).as_bytes());
    buf.extend_from_slice(b"%%EOF\n");

    let mut file = PdfFile::from_raw(buf);
    file.load_xref_table().unwrap();
    let r5 = IndirectRef { number: 5, generation: 0 };
    assert_eq!(file.indirect_object_offset(r5), Ok(off as u64));
    let resolved = file
        .resolve(&Object::Indirect(r5))
        .unwrap();
    assert_eq!(resolved, Object::String(b"five".to_vec()));
}

#[test]
fn loading_twice_is_a_no_op() {
    let (buf, offs, _) = sample_pdf();
    let mut file = PdfFile::from_raw(buf);
    file.load_xref_table().unwrap();
    file.load_xref_table().unwrap();
    let r1 = IndirectRef { number: 1, generation: 0 };
    assert_eq!(file.indirect_object_offset(r1), Ok(offs[0] as u64));
}
