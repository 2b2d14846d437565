use lopdf::{Dictionary, Document, Object};
use rmdigest::extract::{count_pages, effective_source_pages, extract, extract_from, look_up};
use rmdigest::extract::{page_box, page_marks};
use rmdigest::extract::{source_pages, ExtractError, Mark, NotePage, Scene, TextHighlight};
use rmdigest::ink::{Background, InkOpts, InkStroke, Point};
use rmdigest::textlayer::{PdfRect, TextLayer, Word};
use rmdigest::theme::PenColor;

fn dict(entries: Vec<(&str, Object)>) -> Dictionary {
    let mut d = Dictionary::new();
    for (k, v) in entries {
        d.set(k, v);
    }
    d
}

/// A PDF with `n` pages.
fn pdf_with_pages(n: usize) -> Vec<u8> {
    let mut doc = Document::with_version("1.5");
    let pages_id = doc.new_object_id();
    let kids: Vec<Object> = (0..n)
        .map(|_| {
            let page = dict(vec![
                ("Type", "Page".into()),
                ("Parent", pages_id.into()),
                (
                    "MediaBox",
                    Object::Array(vec![0.into(), 0.into(), 595.into(), 842.into()]),
                ),
            ]);
            doc.add_object(page).into()
        })
        .collect();
    let count = kids.len() as i64;
    let pages = dict(vec![
        ("Type", "Pages".into()),
        ("Kids", Object::Array(kids)),
        ("Count", count.into()),
    ]);
    doc.objects.insert(pages_id, Object::Dictionary(pages));
    let catalog =
        doc.add_object(dict(vec![("Type", "Catalog".into()), ("Pages", pages_id.into())]));
    doc.trailer.set("Root", catalog);
    let mut buf = Vec::new();
    doc.save_to(&mut buf).unwrap();
    buf
}

#[test]
fn source_pages_uses_real_count_for_normal_pdf() {
    let pdf = pdf_with_pages(3);
    assert_eq!(effective_source_pages(Some(&pdf), 99), 3);
}

#[test]
fn source_pages_falls_back_when_no_pdf() {
    assert_eq!(effective_source_pages(None, 42), 42);
}

#[test]
fn source_pages_falls_back_on_unparseable_pdf() {
    assert_eq!(effective_source_pages(Some(b"not a pdf at all"), 42), 42);
}

#[test]
fn source_pages_falls_back_when_lopdf_reports_zero_pages() {
    let pdf = pdf_with_pages(0);
    let doc = Document::load_mem(&pdf).expect("lopdf loads 0-page pdf");
    assert_eq!(doc.get_pages().len(), 0);
    assert_eq!(effective_source_pages(Some(&pdf), 447), 447);
}

fn make_pen_stroke() -> InkStroke {
    InkStroke {
        highlighter: false,
        color: PenColor::Black,
        points: vec![Point { x: 10, y: 10 }, Point { x: 50, y: 50 }],
        band: None,
    }
}

fn make_highlighter_stroke() -> InkStroke {
    InkStroke {
        highlighter: true,
        color: PenColor::Yellow,
        points: vec![Point { x: 10, y: 20 }, Point { x: 100, y: 20 }],
        band: Some(PdfRect { x0: 10, y0: 14, x1: 100, y1: 26 }),
    }
}

fn nothing(_: usize, _: &PdfRect) -> String {
    String::new()
}

fn drawn(_: usize, places: &Vec<usize>, opts: &InkOpts) -> Result<Vec<u8>, String> {
    assert_eq!(opts.background, Background::White);
    assert_eq!(opts.margin_px, 16);
    Ok(places.iter().map(|&p| p as u8 + 1).collect())
}

fn is_highlight(m: &Mark) -> bool {
    matches!(m, Mark::Highlight { .. })
}

#[test]
fn pen_stroke_gives_note() {
    let strokes = vec![make_pen_stroke()];
    let marks = page_marks(0, 1, &vec![], &strokes, &nothing, &drawn).unwrap();
    let notes: Vec<_> = marks.iter().filter(|m| matches!(m, Mark::Note { .. })).collect();
    assert_eq!(notes.len(), 1, "expected exactly one Note");
    if let Mark::Note { png, .. } = &notes[0] {
        assert!(!png.is_empty(), "PNG should be non-empty");
    }
    let highlights: Vec<_> = marks.iter().filter(|m| is_highlight(m)).collect();
    assert_eq!(highlights.len(), 0, "expected no highlights from pen stroke");
}

#[test]
fn inserted_page_when_index_exceeds_source() {
    let strokes = vec![make_pen_stroke()];
    let marks = page_marks(5, 2, &vec![], &strokes, &nothing, &drawn).unwrap();
    let inserted: Vec<_> =
        marks.iter().filter(|m| matches!(m, Mark::InsertedPage { .. })).collect();
    assert_eq!(inserted.len(), 1, "expected exactly one InsertedPage");
    if let Mark::InsertedPage { after_page, png } = &inserted[0] {
        assert_eq!(*after_page, 1, "after_page should be source_pages - 1 = 1");
        assert!(!png.is_empty(), "PNG should be non-empty");
    }
    let highlights: Vec<_> = marks.iter().filter(|m| is_highlight(m)).collect();
    assert_eq!(highlights.len(), 0, "expected no highlights for inserted page");
}

#[test]
fn text_highlight_verbatim() {
    let highlights =
        vec![TextHighlight { text: "hello world".into(), color: PenColor::Highlight }];
    let never = |_: usize, _: &PdfRect| -> String {
        panic!("reconstruct should not be called for TextHighlight")
    };
    let marks = page_marks(0, 1, &highlights, &vec![], &never, &drawn).unwrap();
    assert_eq!(marks.len(), 1);
    if let Mark::Highlight { text, .. } = &marks[0] {
        assert_eq!(text, "hello world");
    } else {
        panic!("expected a Highlight mark");
    }
}

#[test]
fn highlighter_stroke_reconstruct_hit() {
    let strokes = vec![make_highlighter_stroke()];
    let rebuilt = |_: usize, _: &PdfRect| "REBUILT".to_string();
    let marks = page_marks(0, 1, &vec![], &strokes, &rebuilt, &drawn).unwrap();
    let hl: Vec<_> = marks.iter().filter(|m| is_highlight(m)).collect();
    assert_eq!(hl.len(), 1, "expected one Highlight");
    if let Mark::Highlight { text, .. } = &hl[0] {
        assert_eq!(text, "REBUILT");
    }
}

#[test]
fn highlighter_stroke_reconstruct_miss() {
    let strokes = vec![make_highlighter_stroke()];
    let marks = page_marks(0, 1, &vec![], &strokes, &nothing, &drawn).unwrap();
    let hl: Vec<_> = marks.iter().filter(|m| is_highlight(m)).collect();
    assert_eq!(hl.len(), 0, "expected no Highlight when reconstruct returns empty");
}

#[test]
fn the_marks_of_a_page_have_an_order() {
    let highlights = vec![
        TextHighlight { text: "one".into(), color: PenColor::Green },
        TextHighlight { text: "two".into(), color: PenColor::Blue },
    ];
    let mut second = make_highlighter_stroke();
    second.band = Some(PdfRect { x0: 1, y0: 2, x1: 3, y1: 4 });
    let mut pointless = make_highlighter_stroke();
    pointless.band = None;
    let strokes = vec![
        make_pen_stroke(),
        make_highlighter_stroke(),
        pointless,
        make_pen_stroke(),
        second,
    ];
    let read = |page: usize, rect: &PdfRect| format!("{page}:{}", rect.x0);
    let marks = page_marks(4, 9, &highlights, &strokes, &read, &drawn).unwrap();
    assert_eq!(marks.len(), 5);
    let mut texts = Vec::new();
    for m in &marks[..4] {
        match m {
            Mark::Highlight { page, text, .. } => {
                assert_eq!(*page, 4);
                texts.push(text.as_str());
            }
            _ => panic!("expected a highlight"),
        }
    }
    assert_eq!(texts, vec!["one", "two", "4:10", "4:1"]);
    match &marks[4] {
        Mark::Note { page, png } => {
            assert_eq!(*page, 4);
            assert_eq!(*png, vec![1, 4]);
        }
        _ => panic!("expected a note"),
    }
}

#[test]
fn ink_that_cannot_be_drawn_ends_the_page() {
    let refuse = |_: usize, _: &Vec<usize>, _: &InkOpts| -> Result<Vec<u8>, String> { Err("no".to_string()) };
    let strokes = vec![make_pen_stroke()];
    assert_eq!(page_marks(0, 1, &vec![], &strokes, &nothing, &refuse).err(), Some("no".to_string()));
    assert_eq!(page_marks(3, 1, &vec![], &strokes, &nothing, &refuse).err(), Some("no".to_string()));
    assert!(page_marks(3, 1, &vec![], &vec![], &nothing, &refuse).unwrap().is_empty());
    let marks = page_marks(0, 0, &vec![], &strokes, &nothing, &drawn).unwrap();
    assert!(matches!(&marks[0], Mark::InsertedPage { after_page: 0, .. }));
}

#[test]
fn found_pages_come_before_the_notebooks() {
    assert_eq!(source_pages(3, 9), 3);
    assert_eq!(source_pages(0, 9), 9);
}

fn overlap(a: &PdfRect, b: &PdfRect) -> bool {
    a.x0 < b.x1 && b.x0 < a.x1 && a.y0 < b.y1 && b.y0 < a.y1
}

fn notebook() -> Vec<NotePage> {
    vec![
        NotePage {
            index: 0,
            scene: Some(Scene { text_highlights: vec![], strokes: vec![make_highlighter_stroke()] }),
        },
        NotePage { index: 1, scene: None },
        NotePage {
            index: 2,
            scene: Some(Scene { text_highlights: vec![], strokes: vec![make_pen_stroke()] }),
        },
    ]
}

fn layer() -> Option<TextLayer> {
    Some(TextLayer {
        words: vec![Word {
            page: 0,
            text: "ARCHIVE".into(),
            bbox: PdfRect { x0: 20, y0: 15, x1: 60, y1: 25 },
        }],
    })
}

#[test]
fn changed_pages_are_extracted() {
    let pdf = pdf_with_pages(2);
    let marks =
        extract(&notebook(), &vec![2, 0, 1], Some(&pdf), &layer(), &overlap, &drawn).unwrap();
    assert_eq!(marks.len(), 2);
    assert!(matches!(&marks[0], Mark::Highlight { page: 0, text, .. } if text == "ARCHIVE"));
    assert!(matches!(&marks[1], Mark::InsertedPage { after_page: 1, .. }));
    let marks = extract(&notebook(), &vec![2], Some(&pdf), &layer(), &overlap, &drawn).unwrap();
    assert_eq!(marks.len(), 1);
}

#[test]
fn pages_are_extracted_one_by_one() {
    let doc = lopdf::Document::load_mem(&pdf_with_pages(2)).unwrap();
    assert_eq!(count_pages(Some(&doc), 9), 2);
    assert_eq!(count_pages(None, 9), 9);
    let marks = |changed: Vec<usize>| -> Vec<String> {
        extract_from(&notebook(), &changed, Some(&doc), &layer(), &overlap, &drawn)
            .unwrap()
            .iter()
            .map(|m| format!("{m:?}"))
            .collect()
    };
    let mut parts = marks(vec![0]);
    parts.extend(marks(vec![1]));
    parts.extend(marks(vec![2]));
    assert_eq!(parts.len(), 2);
    assert_eq!(marks(vec![2, 1, 0]), parts);
    assert_eq!(marks(vec![0, 2, 2, 77, 0]), parts);
    assert!(marks(vec![]).is_empty());
    assert!(marks(vec![77]).is_empty());
}

#[test]
fn without_a_pdf_every_page_is_original() {
    let marks = extract(&notebook(), &vec![0, 2], None, &None, &overlap, &drawn).unwrap();
    assert_eq!(marks.len(), 1);
    assert!(matches!(&marks[0], Mark::Note { page: 2, .. }));
}

#[test]
fn extraction_can_fail() {
    let r = extract(&notebook(), &vec![0], Some(b"no pdf"), &None, &overlap, &drawn);
    assert!(matches!(r, Err(ExtractError::Source)));
    let refuse = |_: usize, _: &Vec<usize>, _: &InkOpts| -> Result<Vec<u8>, String> { Err("ink".to_string()) };
    let r = extract(&notebook(), &vec![0, 2], None, &None, &overlap, &refuse);
    assert!(matches!(r, Err(ExtractError::Render(m)) if m == "ink"));
}

#[test]
fn text_is_looked_up_in_the_layer() {
    let rect = PdfRect { x0: 0, y0: 0, x1: 30, y1: 30 };
    assert_eq!(look_up(&layer(), &overlap, 0, &rect), "ARCHIVE");
    assert_eq!(look_up(&layer(), &overlap, 1, &rect), "");
    assert_eq!(look_up(&None, &overlap, 0, &rect), "");
}

#[test]
fn the_box_of_a_page_is_its_own() {
    let doc = Document::load_mem(&pdf_with_pages(2)).unwrap();
    assert_eq!(page_box(&doc, 1).unwrap()[2], Object::Integer(595));
    assert_eq!(page_box(&doc, 7).unwrap().len(), 4);
    let empty = Document::load_mem(&pdf_with_pages(0)).unwrap();
    assert!(page_box(&empty, 0).is_none());
}
