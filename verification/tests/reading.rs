use lopdf::{Dictionary, Document, Object};
use rmdigest::annotate::{assemble, make_digest, AnnotateError, AssembleError, PageSize};
use rmdigest::digest_doc::DigestMeta;
use rmdigest::extract::{effective_source_pages, extract, ExtractError, Mark, NotePage};
use rmdigest::ink::InkOpts;
use rmdigest::reading::{is_readable, read};
use rmdigest::textlayer::PdfRect;

/// A PDF with one page.
fn one_page() -> Vec<u8> {
    let mut doc = Document::with_version("1.5");
    let pages_id = doc.new_object_id();
    let mut page = Dictionary::new();
    page.set("Type", "Page");
    page.set("Parent", pages_id);
    page.set("MediaBox", Object::Array(vec![0.into(), 0.into(), 595.into(), 842.into()]));
    let page_id = doc.add_object(page);
    let mut pages = Dictionary::new();
    pages.set("Type", "Pages");
    pages.set("Kids", Object::Array(vec![page_id.into()]));
    pages.set("Count", 1);
    doc.objects.insert(pages_id, Object::Dictionary(pages));
    let mut catalog = Dictionary::new();
    catalog.set("Type", "Catalog");
    catalog.set("Pages", pages_id);
    let catalog_id = doc.add_object(catalog);
    doc.trailer.set("Root", catalog_id);
    let mut bytes = Vec::new();
    doc.save_to(&mut bytes).unwrap();
    bytes
}

/// A file whose table starts at the object of the number.
fn table_from(start: &str) -> Vec<u8> {
    let body = "%PDF-1.5\n1 0 obj\n<</Type/Catalog>>\nendobj\n";
    let table = format!("xref\n{start} 2\n0000000009 00000 n \n0000000009 00000 n \n");
    let trailer = "trailer\n<</Size 2/Root 1 0 R>>\n";
    format!("{body}{table}{trailer}startxref\n{}\n%%EOF\n", body.len()).into_bytes()
}

/// A file whose table is a stream with these entries.
fn stream_with(entries: &str) -> Vec<u8> {
    let body = "%PDF-1.5\n";
    let head = format!("1 0 obj\n<</Type/XRef/Size 2{entries}/Length 4>>\nstream\n");
    let table = format!("{head}\u{1}\u{0}\u{9}\u{0}\nendstream\nendobj\n");
    format!("{body}{table}startxref\n{}\n%%EOF\n", body.len()).into_bytes()
}

/// The page of a PDF behind bytes that no reader minds but this one.
fn turned_away() -> Vec<u8> {
    let mut bytes = b"[99999999999]\n".to_vec();
    bytes.extend(one_page());
    bytes
}

#[test]
fn a_file_is_read() {
    let doc = read(&one_page()).unwrap();
    assert_eq!(doc.get_pages().len(), 1);
    assert!(read(b"no pdf").is_none());
}

#[test]
fn numbers_in_lists_are_bounded() {
    assert!(is_readable(b""));
    assert!(is_readable(b"[ 4294967295 -7 % 99999999999\n 5]"));
    assert!(!is_readable(b"[ 4294967296"));
    assert!(!is_readable(b"[0 1 0 00004294967296]"));
    assert!(!is_readable(b"[%x\r99999999999"));
    assert!(!is_readable(b"[1 2+99999999999"));
    assert!(is_readable(b"/ID [<01234567890123456789>(20240102030405)]"));
    assert!(is_readable(b"/CreationDate (D:20240102030405)"));
    assert!(is_readable(b"xref\n0 2\n0000000000 65535 f \n0000000009 00000 n \n"));
    assert!(!is_readable(b"xref\n18446744073709551615 1\n"));
    assert!(!is_readable(b"xref\r\n0 1\r\n0000000009 00000 n\r\n99999999999 1"));
}

#[test]
fn rows_are_bounded() {
    assert!(is_readable(b"/Columns 1048575/Colors 3/BitsPerComponent 8"));
    assert!(!is_readable(b"/Columns 1048576"));
    assert!(!is_readable(b"/#43olumn#73 1048576"));
    assert!(is_readable(b"/#44olumns 1048576"));
    assert!(is_readable(b"/#4olumns 1048576"));
    assert!(!is_readable(b"/Colors%c\n1048576"));
    assert!(!is_readable(b"/BitsPerComponent\0+1048576"));
    assert!(is_readable(b"/Length 1048576 /Column"));
}

#[test]
fn digits_are_bounded() {
    assert!(is_readable(b"s8W-u"));
    assert!(is_readable(b"/ASCII85Decode s8W-! s 8\nW-\t!~>"));
    assert!(!is_readable(b"/ASCII85Decode s8W-u"));
    assert!(!is_readable(b"/ASCII85#44ecode s 8\nW-~>"));
    assert!(!is_readable(b"/ASCII85Decode ss8W-"));
    assert!(is_readable(b"/ASCII85Decode s8W"));
    assert!(!is_readable(b"/Encrypt 5 0 R /Filter /ASCII85Decode"));
    assert!(is_readable(b"/Encrypt 5 0 R /Filter /FlateDecode"));
    assert!(is_readable(b"/Filter [/ASCII85Decode /FlateDecode]"));
    assert!(!is_readable(b"/Filter [/FlateDecode/ASCII85Decode]"));
    assert!(!is_readable(b"/Filter [/LZWDecode /ASCII85Decode]"));
    assert!(!is_readable(b"/Filter [/ASCII85Decode %/x\r/ASCII85Decode]"));
}

#[test]
fn a_damaged_table_is_turned_away() {
    assert_eq!(read(&table_from("0")).unwrap().objects.len(), 1);
    assert!(read(&table_from("18446744073709551615")).is_none());
    assert!(read(&stream_with("/Index[0 1]/W[1 2 1]")).is_some());
    assert!(read(&stream_with("/Index[9223372036854775807 2]/W[1 2 1]")).is_none());
    assert!(read(&stream_with("/Index[0 1]/W[9223372036854775807 2 1]")).is_none());
}

#[test]
fn what_is_turned_away_cannot_be_read() {
    let bytes = turned_away();
    assert_eq!(Document::load_mem(&bytes).unwrap().get_pages().len(), 1);
    assert!(read(&bytes).is_none());
    assert_eq!(effective_source_pages(Some(&bytes), 7), 7);
    assert_eq!(effective_source_pages(Some(&one_page()), 7), 1);

    let overlap = |_: &PdfRect, _: &PdfRect| -> bool { false };
    let drawn = |_: usize, _: &Vec<usize>, _: &InkOpts| -> Result<Vec<u8>, String> { Ok(vec![]) };
    let pages: Vec<NotePage> = vec![];
    let r = extract(&pages, &vec![], Some(&bytes), &None, &overlap, &drawn);
    assert!(matches!(r, Err(ExtractError::Source)));
    let r = extract(&pages, &vec![], Some(&one_page()), &None, &overlap, &drawn);
    assert!(r.unwrap().is_empty());

    let meta = DigestMeta {
        title: String::new(),
        author: String::new(),
        n_highlights: 0,
        n_notes: 0,
        date_range: String::new(),
    };
    let marks: Vec<Mark> = vec![];
    let compile = |_: &String, _: &Vec<(String, Vec<u8>)>| -> Result<Vec<u8>, String> {
        Ok(turned_away())
    };
    let r = make_digest(&meta, &marks, &compile);
    assert!(matches!(r, Err(AssembleError::Annotate(AnnotateError::Digest))));

    let size = |_: Option<&Vec<Object>>| -> PageSize { unreachable!("no page is looked at") };
    let render = |_: usize, _: &PageSize| -> Result<Vec<u8>, String> { Ok(vec![]) };
    let r = assemble(Some(&bytes), &vec![], &meta, &marks, &vec![], &size, &render, &compile);
    assert!(matches!(r, Err(AssembleError::Annotate(AnnotateError::Source))));
}
