//! The sources of digests are compiled with Typst. There are no fonts here, so that the
//! text leaves no glyphs.

use rmdigest::digest_doc::{build_digest, DigestMeta};
use rmdigest::extract::Mark;
use rmdigest::linked_doc::{build_linked, Device};
use rmdigest::theme::PenColor;
use typst::diag::{FileError, FileResult};
use typst::foundations::{Bytes, Datetime};
use typst::layout::PagedDocument;
use typst::syntax::{FileId, Source, VirtualPath};
use typst::text::{Font, FontBook};
use typst::utils::LazyHash;
use typst::{Library, LibraryExt, World};

struct Sheet {
    library: LazyHash<Library>,
    book: LazyHash<FontBook>,
    main: Source,
    assets: Vec<(FileId, Bytes)>,
}

impl World for Sheet {
    fn library(&self) -> &LazyHash<Library> {
        &self.library
    }

    fn book(&self) -> &LazyHash<FontBook> {
        &self.book
    }

    fn main(&self) -> FileId {
        self.main.id()
    }

    fn source(&self, id: FileId) -> FileResult<Source> {
        if id == self.main.id() {
            Ok(self.main.clone())
        } else {
            Err(FileError::AccessDenied)
        }
    }

    fn file(&self, id: FileId) -> FileResult<Bytes> {
        match self.assets.iter().find(|(asset, _)| *asset == id) {
            Some((_, data)) => Ok(data.clone()),
            None => Err(FileError::AccessDenied),
        }
    }

    fn font(&self, _index: usize) -> Option<Font> {
        None
    }

    fn today(&self, _offset: Option<i64>) -> Option<Datetime> {
        None
    }
}

fn compile(src: &str, assets: &[(String, Vec<u8>)]) -> Result<Vec<u8>, String> {
    let sheet = Sheet {
        library: LazyHash::new(Library::default()),
        book: LazyHash::new(FontBook::new()),
        main: Source::new(FileId::new(None, VirtualPath::new("/main.typ")), src.to_string()),
        assets: assets
            .iter()
            .map(|(path, data)| {
                (FileId::new(None, VirtualPath::new(path)), Bytes::new(data.clone()))
            })
            .collect(),
    };
    let doc = typst::compile::<PagedDocument>(&sheet).output.map_err(|d| format!("{d:?}"))?;
    typst_pdf::pdf(&doc, &typst_pdf::PdfOptions::default()).map_err(|d| format!("{d:?}"))
}

fn tiny_png() -> Vec<u8> {
    let mut pixmap = tiny_skia::Pixmap::new(4, 3).unwrap();
    pixmap.fill(tiny_skia::Color::WHITE);
    pixmap.encode_png().unwrap()
}

#[test]
fn digest_smoke_valid_pdf_and_outlines() {
    let meta = DigestMeta {
        title: "Test Book".into(),
        author: "Test Author".into(),
        n_highlights: 1,
        n_notes: 1,
        date_range: "May 2026".into(),
    };
    let marks = vec![
        Mark::Highlight {
            page: 0,
            text: "The quick brown fox jumps over the lazy dog.".into(),
            color: PenColor::Yellow,
        },
        Mark::Note { page: 1, png: tiny_png() },
    ];
    let (src, assets) = build_digest(&meta, &marks);
    let pdf_bytes = compile(&src, &assets).expect("compile should succeed");
    let doc = lopdf::Document::load_mem(&pdf_bytes).expect("valid PDF");
    assert!(doc.get_pages().len() >= 2, "expected ≥2 pages, got {}", doc.get_pages().len());
    let catalog = doc
        .trailer
        .get(b"Root")
        .and_then(|o| o.as_reference())
        .and_then(|id| doc.get_dictionary(id))
        .expect("catalog must be a dictionary");
    assert!(
        catalog.get(b"Outlines").is_ok(),
        "PDF catalog must contain /Outlines for reMarkable nav panel"
    );
}

#[test]
fn digest_typst_injection_adversarial_text_compiles() {
    let adversarial = r#"C# tips: [see *note*] a_b `code` <tag> @ref =heading ~tilde~ "quote" 'apos' $x$ \ end"#;
    let meta = DigestMeta {
        title: r#"C# Book [v2] *Best* _Ever_ $math$ @ref <end>"#.into(),
        author: r#"O'Brien & "Smith" \ escape"#.into(),
        n_highlights: 1,
        n_notes: 0,
        date_range: r#"Jan~Mar [2026] #special"#.into(),
    };
    let marks =
        vec![Mark::Highlight { page: 0, text: adversarial.into(), color: PenColor::Yellow }];
    let (src, assets) = build_digest(&meta, &marks);
    let pdf_bytes = compile(&src, &assets)
        .expect("adversarial text must compile: esc_markup covers all typst-special chars");
    let doc = lopdf::Document::load_mem(&pdf_bytes).expect("valid PDF");
    assert!(doc.get_pages().len() >= 2, "expected ≥2 pages");
}

#[test]
fn a_linked_digest_compiles() {
    let text = "see // here /* and [there] - a + b https://x.y";
    let meta = DigestMeta {
        title: "A // title".into(),
        author: "- by #me".into(),
        n_highlights: 2,
        n_notes: 1,
        date_range: "2026".into(),
    };
    let marks = vec![
        Mark::Highlight { page: 0, text: text.into(), color: PenColor::Pink },
        Mark::Highlight { page: 4, text: "not found // at all".into(), color: PenColor::Blue },
        Mark::Note { page: 1, png: tiny_png() },
    ];
    let pages = vec![format!("One // two. Now {text} follows. /* End")];
    let device = Device { width_pt: "303.3".into(), height_pt: "541.4".into() };
    let (src, assets) = build_linked(&meta, &marks, &pages, &device);
    assert!(src.contains("highlight("), "expected typst #highlight in output");
    let pdf = compile(&src, &assets).expect("compile");
    let doc = lopdf::Document::load_mem(&pdf).expect("valid pdf");
    assert!(doc.get_pages().len() >= 2);
}
