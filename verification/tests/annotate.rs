use lopdf::content::Content;
use lopdf::{Dictionary, Document, Object, ObjectId, Stream};
use rmdigest::annotate::{add_goto_link, assemble, assemble_from, find_pages_root, find_sizes};
use rmdigest::annotate::{finish, insert_image_page, link_highlights, make_digest, media_box};
use rmdigest::annotate::{merge_digest_first, splice_inserted_pages, stamp_overlay};
use rmdigest::annotate::{stamp_pages, AnnotateError, AssembleError, LinkRect, PageSize};
use rmdigest::digest_doc::DigestMeta;
use rmdigest::extract::Mark;
use rmdigest::theme::PenColor;

fn dict(entries: Vec<(&str, Object)>) -> Dictionary {
    let mut d = Dictionary::new();
    for (k, v) in entries {
        d.set(k, v);
    }
    d
}

/// A document with pages of the given widths, and their numbers.
fn book(widths: &[i64]) -> (Document, ObjectId, Vec<ObjectId>) {
    let mut doc = Document::with_version("1.5");
    let pages_id = doc.new_object_id();
    let mut ids = Vec::new();
    for &w in widths {
        let content = Content { operations: vec![] };
        let content_id =
            doc.add_object(Stream::new(Dictionary::new(), content.encode().unwrap()));
        ids.push(doc.add_object(dict(vec![
            ("Type", "Page".into()),
            ("Parent", pages_id.into()),
            ("Contents", content_id.into()),
            (
                "MediaBox",
                Object::Array(vec![0.into(), 0.into(), w.into(), 842.into()]),
            ),
            ("Resources", Object::Dictionary(Dictionary::new())),
        ])));
    }
    let kids: Vec<Object> = ids.iter().map(|&id| Object::Reference(id)).collect();
    let count = kids.len() as i64;
    doc.objects.insert(
        pages_id,
        Object::Dictionary(dict(vec![
            ("Type", "Pages".into()),
            ("Kids", Object::Array(kids)),
            ("Count", count.into()),
        ])),
    );
    let catalog_id =
        doc.add_object(dict(vec![("Type", "Catalog".into()), ("Pages", pages_id.into())]));
    doc.trailer.set("Root", Object::Reference(catalog_id));
    (doc, pages_id, ids)
}

fn bytes_of(mut doc: Document) -> Vec<u8> {
    let mut buf = Vec::new();
    doc.save_to(&mut buf).unwrap();
    buf
}

fn size(w: f32, h: f32) -> PageSize {
    PageSize { width: Object::Real(w), height: Object::Real(h) }
}

fn png(w: u32, h: u32, color: tiny_skia::Color) -> Vec<u8> {
    let mut pixmap = tiny_skia::Pixmap::new(w, h).unwrap();
    pixmap.fill(color);
    pixmap.encode_png().unwrap()
}

fn white() -> Vec<u8> {
    png(10, 10, tiny_skia::Color::WHITE)
}

fn kids_of(doc: &Document, pages_id: ObjectId) -> Vec<ObjectId> {
    doc.get_dictionary(pages_id)
        .unwrap()
        .get(b"Kids")
        .unwrap()
        .as_array()
        .unwrap()
        .iter()
        .map(|o| o.as_reference().unwrap())
        .collect()
}

#[test]
fn overlay_coord_algebra() {
    let page_w_pt = 612.0_f32;
    let _page_h_pt = 792.0_f32;
    let dpi = 226.0_f32;
    let scale = dpi / 226.0;
    let origin_x = -(page_w_pt / 2.0) * (226.0 / 72.0);

    let dx = 0.0_f32;
    let px = (dx - origin_x) * scale;
    let expected_px = (page_w_pt / 2.0) * (dpi / 72.0);
    assert!((px - expected_px).abs() < 0.01, "px={px} expected={expected_px}");

    let dy = 0.0_f32;
    let py = (dy - 0.0_f32) * scale;
    assert!((py - 0.0).abs() < 0.01, "py={py}");
}

#[test]
fn splice_unit_test() {
    let (mut doc, pages_id, ids) = book(&[595, 595]);
    let (p0, p1) = (ids[0], ids[1]);
    assert_eq!(doc.get_pages().len(), 2);

    let inserted_marks = vec![Mark::InsertedPage { after_page: 0, png: white() }];
    let inserted =
        splice_inserted_pages(&mut doc, &inserted_marks, 2, &size(595.0, 842.0), pages_id)
            .expect("splice should succeed");

    assert_eq!(inserted, 1, "should have inserted 1 page");
    assert_eq!(doc.get_pages().len(), 3, "expected 3 pages after splice");

    let kids = doc
        .get_dictionary(pages_id)
        .unwrap()
        .get(b"Kids")
        .unwrap()
        .as_array()
        .unwrap()
        .clone();
    assert_eq!(kids.len(), 3);
    let k0_id = kids[0].as_reference().unwrap();
    let k2_id = kids[2].as_reference().unwrap();
    assert_eq!(k0_id, p0, "first kid should still be p0");
    assert_eq!(k2_id, p1, "third kid should still be p1");
    let k1_id = kids[1].as_reference().unwrap();
    assert_ne!(k1_id, p0);
    assert_ne!(k1_id, p1);
}

#[test]
fn inserted_pages_stand_behind_their_pages() {
    let (mut doc, pages_id, ids) = book(&[1, 2, 3]);
    let marks = vec![
        Mark::InsertedPage { after_page: 0, png: white() },
        Mark::Note { page: 0, png: white() },
        Mark::InsertedPage { after_page: 0, png: white() },
        Mark::InsertedPage { after_page: 1, png: white() },
    ];
    let first = doc.max_id + 3;
    assert_eq!(splice_inserted_pages(&mut doc, &marks, 3, &size(1.0, 2.0), pages_id), Ok(3));
    let kids = kids_of(&doc, pages_id);
    assert_eq!(
        kids,
        vec![ids[0], (first, 0), (first + 3, 0), ids[1], (first + 6, 0), ids[2]]
    );
    let count = doc.get_dictionary(pages_id).unwrap().get(b"Count").unwrap().as_i64().unwrap();
    assert_eq!(count, 6);
}

#[test]
fn inserted_pages_stand_behind_their_pages_in_any_order() {
    let (mut doc, pages_id, ids) = book(&[1, 2]);
    let at = |after_page: usize| Mark::InsertedPage { after_page, png: white() };
    let first = doc.max_id + 3;
    let s = size(1.0, 2.0);
    assert_eq!(splice_inserted_pages(&mut doc, &[at(1), at(0)], 2, &s, pages_id), Ok(2));
    assert_eq!(kids_of(&doc, pages_id), vec![ids[0], (first + 3, 0), ids[1], (first, 0)]);
    // Behind no page there is the end; the last page still comes before that.
    let (mut doc, pages_id, ids) = book(&[1, 2]);
    let marks = [at(7), at(1), at(9), at(1), at(0)];
    assert_eq!(splice_inserted_pages(&mut doc, &marks, 2, &s, pages_id), Ok(5));
    let new = |i: u32| (first + 3 * i, 0u16);
    assert_eq!(
        kids_of(&doc, pages_id),
        vec![ids[0], new(4), ids[1], new(1), new(3), new(0), new(2)]
    );
}

/// A document whose page tree has two nodes of two pages each.
fn nested_book() -> (Document, ObjectId, Vec<ObjectId>) {
    let (mut doc, root, ids) = book(&[10, 11, 20, 21]);
    let nodes: Vec<Object> = ids
        .chunks(2)
        .map(|pages| {
            let kids = pages.iter().map(|&id| Object::Reference(id)).collect();
            let node = doc.add_object(dict(vec![
                ("Type", "Pages".into()),
                ("Parent", root.into()),
                ("Kids", Object::Array(kids)),
                ("Count", 2.into()),
            ]));
            for &id in pages {
                let page = doc.get_object_mut(id).unwrap().as_dict_mut().unwrap();
                page.set("Parent", Object::Reference(node));
            }
            Object::Reference(node)
        })
        .collect();
    let top = doc.get_object_mut(root).unwrap().as_dict_mut().unwrap();
    top.set("Kids", Object::Array(nodes));
    (doc, root, ids)
}

#[test]
fn pages_are_counted_through_nodes() {
    let (mut doc, root, ids) = nested_book();
    let parent = doc.get_dictionary(ids[0]).unwrap().get(b"Parent").unwrap().clone();
    let id = insert_image_page(&mut doc, 0, &white(), &size(1.0, 1.0), root).unwrap();
    let pages: Vec<ObjectId> = doc.page_iter().collect();
    assert_eq!(pages, vec![ids[0], id, ids[1], ids[2], ids[3]]);
    let top = doc.get_dictionary(root).unwrap();
    assert_eq!(top.get(b"Count").unwrap().as_i64().unwrap(), 5);
    assert_eq!(*doc.get_dictionary(ids[0]).unwrap().get(b"Parent").unwrap(), parent);
}

#[test]
fn an_inserted_page_shows_its_image() {
    let (mut doc, pages_id, _) = book(&[595]);
    let id = insert_image_page(&mut doc, 9, &white(), &size(200.0, 300.5), pages_id).unwrap();
    assert_eq!(kids_of(&doc, pages_id)[1], id);
    let page = doc.get_dictionary(id).unwrap();
    assert_eq!(page.get(b"Type").unwrap().as_name().unwrap(), b"Page");
    assert_eq!(page.get(b"Parent").unwrap().as_reference().unwrap(), pages_id);
    let media = page.get(b"MediaBox").unwrap().as_array().unwrap();
    assert_eq!(media[2], Object::Real(200.0));
    assert_eq!(media[3], Object::Real(300.5));
    let image_id = id.0 - 2;
    let content = doc.get_page_content(id).unwrap();
    let text = String::from_utf8(content).unwrap();
    assert!(text.contains("200 0 0 300.5 0 0 cm"), "{text}");
    assert!(text.contains(&format!("/RmImg{image_id} Do")), "{text}");
    let image = doc.get_object((image_id, 0)).unwrap().as_stream().unwrap();
    assert_eq!(image.dict.get(b"Width").unwrap().as_i64().unwrap(), 10);
    assert_eq!(image.dict.get(b"ColorSpace").unwrap().as_name().unwrap(), b"DeviceRGB");
    assert_eq!(image.dict.get(b"Filter").unwrap().as_name().unwrap(), b"FlateDecode");
    assert_eq!(image.decompressed_content().unwrap(), vec![255u8; 300]);
}

#[test]
fn pages_cannot_be_inserted_everywhere() {
    let (mut doc, pages_id, ids) = book(&[595]);
    let s = size(1.0, 1.0);
    assert_eq!(
        insert_image_page(&mut doc, 0, b"no image", &s, pages_id),
        Err(AnnotateError::Image)
    );
    assert_eq!(
        insert_image_page(&mut doc, 0, &white(), &s, (999, 0)),
        Err(AnnotateError::NoTree)
    );
    assert_eq!(
        insert_image_page(&mut doc, 0, &white(), &s, ids[0]),
        Err(AnnotateError::NoKids)
    );
}

#[test]
fn a_stamp_keeps_the_page() {
    let (mut doc, _, ids) = book(&[595]);
    let before = doc.get_dictionary(ids[0]).unwrap().clone();
    let ink = png(2, 1, tiny_skia::Color::from_rgba8(255, 0, 0, 128));
    let top = doc.max_id;
    stamp_overlay(&mut doc, ids[0], &ink, &size(595.0, 842.0)).unwrap();
    let page = doc.get_dictionary(ids[0]).unwrap();
    let contents = page.get(b"Contents").unwrap().as_array().unwrap();
    assert_eq!(contents[0], *before.get(b"Contents").unwrap());
    assert_eq!(contents[1], Object::Reference((top + 3, 0)));
    assert_eq!(page.get(b"MediaBox").unwrap(), before.get(b"MediaBox").unwrap());
    let name = format!("RmInk{}", top + 2);
    let images = page.get(b"Resources").unwrap().as_dict().unwrap().get(b"XObject").unwrap();
    assert_eq!(
        images.as_dict().unwrap().get(name.as_bytes()).unwrap().as_reference().unwrap(),
        (top + 2, 0)
    );
    let mask = doc.get_object((top + 1, 0)).unwrap().as_stream().unwrap();
    assert_eq!(mask.content, vec![128, 128]);
    assert_eq!(mask.dict.get(b"ColorSpace").unwrap().as_name().unwrap(), b"DeviceGray");
    let colors = doc.get_object((top + 2, 0)).unwrap().as_stream().unwrap();
    assert_eq!(colors.content.len(), 6);
    assert_eq!(colors.dict.get(b"SMask").unwrap().as_reference().unwrap(), (top + 1, 0));
    let drawing = doc.get_object((top + 3, 0)).unwrap().as_stream().unwrap();
    let text = String::from_utf8(drawing.content.clone()).unwrap();
    assert!(text.contains("595 0 0 842 0 0 cm"), "{text}");
    assert!(text.contains(&format!("/{name} Do")), "{text}");
}

#[test]
fn ink_is_named_in_resources_behind_references() {
    for images_apart in [false, true] {
        let (mut doc, _, ids) = book(&[595]);
        let mut resources = Dictionary::new();
        if images_apart {
            let images = doc.add_object(Dictionary::new());
            resources.set("XObject", Object::Reference(images));
        }
        let at = doc.add_object(resources);
        doc.get_object_mut(ids[0])
            .unwrap()
            .as_dict_mut()
            .unwrap()
            .set("Resources", Object::Reference(at));
        let top = doc.max_id;
        stamp_overlay(&mut doc, ids[0], &white(), &size(1.0, 1.0)).unwrap();
        let page = doc.get_dictionary(ids[0]).unwrap();
        assert_eq!(page.get(b"Resources").unwrap().as_reference().unwrap(), at);
        let images = doc.get_dictionary(at).unwrap().get_deref(b"XObject", &doc).unwrap();
        let name = format!("RmInk{}", top + 2);
        let named = images.as_dict().unwrap().get(name.as_bytes()).unwrap();
        assert_eq!(named.as_reference().unwrap(), (top + 2, 0));
    }
}

#[test]
fn stamps_can_fail() {
    let (mut doc, _, ids) = book(&[595]);
    let s = size(1.0, 1.0);
    assert_eq!(stamp_overlay(&mut doc, ids[0], b"x", &s), Err(AnnotateError::Image));
    assert_eq!(stamp_overlay(&mut doc, (999, 0), &white(), &s), Err(AnnotateError::Contents));
    let odd = dict(vec![(
        "Resources",
        Object::Dictionary(dict(vec![("XObject", Object::Integer(1))])),
    )]);
    let id = doc.add_object(odd);
    assert_eq!(stamp_overlay(&mut doc, id, &white(), &s), Err(AnnotateError::Resources));
}

#[test]
fn the_page_tree_is_found() {
    let (mut doc, pages_id, _) = book(&[595]);
    assert_eq!(find_pages_root(&doc), Ok(pages_id));
    let catalog = doc.trailer.get(b"Root").unwrap().as_reference().unwrap();
    doc.objects.insert(catalog, Object::Dictionary(Dictionary::new()));
    assert_eq!(find_pages_root(&doc), Err(AnnotateError::NoPages));
    doc.objects.remove(&catalog);
    assert_eq!(find_pages_root(&doc), Err(AnnotateError::NoCatalog));
    doc.trailer.remove(b"Root");
    assert_eq!(find_pages_root(&doc), Err(AnnotateError::NoRoot));
}

#[test]
fn the_digest_stands_first() {
    let (book_doc, _, _) = book(&[100, 200]);
    let (digest_doc, _, _) = book(&[7, 8, 9]);
    let (doc, n) = merge_digest_first(book_doc, digest_doc).unwrap();
    assert_eq!(n, 3);
    let widths: Vec<i64> = doc
        .page_iter()
        .map(|id| media_box(&doc, id).unwrap()[2].as_i64().unwrap())
        .collect();
    assert_eq!(widths, vec![7, 8, 9, 100, 200]);
    let root = find_pages_root(&doc).unwrap();
    for id in doc.page_iter() {
        let parent = doc.get_dictionary(id).unwrap().get(b"Parent").unwrap();
        assert_eq!(parent.as_reference().unwrap(), root);
    }
}

fn band(n: i64) -> LinkRect {
    LinkRect {
        left: Object::Integer(n),
        bottom: Object::Integer(n + 1),
        right: Object::Integer(n + 2),
        top: Object::Integer(n + 3),
    }
}

fn links_of(doc: &Document, page: ObjectId) -> Vec<(i64, ObjectId)> {
    let annots = match doc.get_dictionary(page).unwrap().get(b"Annots") {
        Ok(o) => o.as_array().unwrap().clone(),
        Err(_) => vec![],
    };
    annots
        .iter()
        .map(|a| {
            let link = doc.get_dictionary(a.as_reference().unwrap()).unwrap();
            assert_eq!(link.get(b"Subtype").unwrap().as_name().unwrap(), b"Link");
            let left = link.get(b"Rect").unwrap().as_array().unwrap()[0].as_i64().unwrap();
            let action = link.get(b"A").unwrap().as_dict().unwrap();
            assert_eq!(action.get(b"S").unwrap().as_name().unwrap(), b"GoTo");
            let to = action.get(b"D").unwrap().as_array().unwrap();
            assert_eq!(to[1].as_name().unwrap(), b"Fit");
            (left, to[0].as_reference().unwrap())
        })
        .collect()
}

#[test]
fn links_lead_to_pages() {
    let (mut doc, _, ids) = book(&[1, 2]);
    add_goto_link(&mut doc, ids[0], &band(5), ids[1]).unwrap();
    add_goto_link(&mut doc, ids[0], &band(9), ids[0]).unwrap();
    assert_eq!(links_of(&doc, ids[0]), vec![(5, ids[1]), (9, ids[0])]);
    assert_eq!(
        add_goto_link(&mut doc, (999, 0), &band(0), ids[0]),
        Err(AnnotateError::LinkPage)
    );
}

#[test]
fn a_link_joins_the_annotations_behind_a_reference() {
    let (mut doc, _, ids) = book(&[1, 2]);
    let old = doc.add_object(dict(vec![("Type", "Annot".into())]));
    let list = doc.add_object(Object::Array(vec![Object::Reference(old)]));
    let set = |doc: &mut Document, v: Object| {
        doc.get_object_mut(ids[0]).unwrap().as_dict_mut().unwrap().set("Annots", v)
    };
    set(&mut doc, Object::Reference(list));
    let new = doc.max_id + 1;
    add_goto_link(&mut doc, ids[0], &band(5), ids[1]).unwrap();
    let page = doc.get_dictionary(ids[0]).unwrap();
    assert_eq!(page.get(b"Annots").unwrap().as_reference().unwrap(), list);
    let items = doc.get_object(list).unwrap().as_array().unwrap();
    assert_eq!(*items, vec![Object::Reference(old), Object::Reference((new, 0))]);
    // A reference to nothing stands for no annotations.
    set(&mut doc, Object::Reference((999, 0)));
    add_goto_link(&mut doc, ids[0], &band(7), ids[1]).unwrap();
    assert_eq!(links_of(&doc, ids[0]), vec![(7, ids[1])]);
}

fn highlight(page: usize) -> Mark {
    Mark::Highlight { page, text: "t".into(), color: PenColor::Yellow }
}

#[test]
fn a_highlight_off_the_book_takes_no_band() {
    let (mut doc, _, ids) = book(&[1, 2, 3]);
    let marks = vec![
        highlight(9),
        highlight(1),
        Mark::Note { page: 0, png: vec![] },
        highlight(usize::MAX - 1),
        highlight(0),
    ];
    let bands = vec![band(0), band(10), band(20), band(30)];
    let targets = vec![ids[1], ids[2]];
    assert_eq!(link_highlights(&mut doc, &marks, &targets, &bands), Ok(2));
    assert_eq!(links_of(&doc, ids[0]), vec![(0, ids[2]), (10, ids[1])]);
    let (mut empty, _, _) = book(&[]);
    assert_eq!(link_highlights(&mut empty, &[], &vec![], &vec![]), Err(AnnotateError::Empty));
}

fn own_size(media: Option<&Vec<Object>>) -> PageSize {
    match media {
        Some(b) => PageSize { width: b[2].clone(), height: b[3].clone() },
        None => size(595.28, 841.89),
    }
}

#[test]
fn sizes_come_from_boxes() {
    let (mut doc, pages_id, ids) = book(&[10, 20]);
    let (sizes, fallback) = find_sizes(&doc, &own_size);
    assert_eq!(sizes.len(), 2);
    assert_eq!(sizes[1].width, Object::Integer(20));
    assert_eq!(fallback.width, Object::Integer(10));
    doc.get_object_mut(ids[0]).unwrap().as_dict_mut().unwrap().remove(b"MediaBox");
    assert!(media_box(&doc, ids[0]).is_none());
    let inherited = Object::Array(vec![0.into(), 0.into(), 77.into(), 88.into()]);
    doc.get_object_mut(pages_id).unwrap().as_dict_mut().unwrap().set("MediaBox", inherited);
    assert_eq!(media_box(&doc, ids[0]).unwrap()[2], Object::Integer(77));
    assert_eq!(media_box(&doc, ids[1]).unwrap()[2], Object::Integer(20));
    assert!(media_box(&doc, (999, 0)).is_none());
}

#[test]
fn ink_is_stamped_page_by_page() {
    let (mut doc, _, ids) = book(&[10, 20]);
    let (sizes, fallback) = find_sizes(&doc, &own_size);
    let render = |place: usize, s: &PageSize| -> Result<Vec<u8>, String> {
        if place == 0 {
            assert_eq!(s.width, Object::Integer(20));
        }
        Ok(white())
    };
    stamp_pages(&mut doc, &vec![1, 5], &sizes, &fallback, &render).unwrap();
    let contents = |id: ObjectId| doc.get_dictionary(id).unwrap().get(b"Contents").unwrap().clone();
    assert!(contents(ids[0]).as_array().is_err());
    assert_eq!(contents(ids[1]).as_array().unwrap().len(), 2);
    let refuse = |_: usize, _: &PageSize| -> Result<Vec<u8>, String> { Err("ink".to_string()) };
    let (mut doc, _, _) = book(&[10]);
    let (sizes, fallback) = find_sizes(&doc, &own_size);
    let r = stamp_pages(&mut doc, &vec![0], &sizes, &fallback, &refuse);
    assert!(matches!(r, Err(AssembleError::Render(m)) if m == "ink"));
}

fn meta() -> DigestMeta {
    DigestMeta {
        title: "T".into(),
        author: "A".into(),
        n_highlights: 1,
        n_notes: 0,
        date_range: "2026".into(),
    }
}

#[test]
fn the_digest_is_compiled_from_its_source() {
    let marks = vec![highlight(0)];
    let compile = |source: &String, assets: &Vec<(String, Vec<u8>)>| -> Result<Vec<u8>, String> {
        assert!(source.contains("1 highlight"));
        assert!(assets.is_empty());
        Ok(bytes_of(book(&[303]).0))
    };
    assert_eq!(make_digest(&meta(), &marks, &compile).unwrap().get_pages().len(), 1);
    let garbled = |_: &String, _: &Vec<(String, Vec<u8>)>| -> Result<Vec<u8>, String> { Ok(vec![]) };
    assert!(matches!(
        make_digest(&meta(), &marks, &garbled),
        Err(AssembleError::Annotate(AnnotateError::Digest))
    ));
    let broken =
        |_: &String, _: &Vec<(String, Vec<u8>)>| -> Result<Vec<u8>, String> { Err("typ".into()) };
    assert!(matches!(
        make_digest(&meta(), &marks, &broken),
        Err(AssembleError::Compile(m)) if m == "typ"
    ));
}

#[test]
fn everything_is_put_together() {
    let source = bytes_of(book(&[100, 200]).0);
    let marks = vec![
        highlight(1),
        Mark::InsertedPage { after_page: 0, png: white() },
        Mark::InsertedPage { after_page: 1, png: white() },
    ];
    let render = |_: usize, _: &PageSize| -> Result<Vec<u8>, String> { Ok(white()) };
    let compile = |_: &String, _: &Vec<(String, Vec<u8>)>| -> Result<Vec<u8>, String> {
        Ok(bytes_of(book(&[303, 304]).0))
    };
    let pdf = assemble(
        Some(&source),
        &vec![1, 2],
        &meta(),
        &marks,
        &vec![band(0)],
        &own_size,
        &render,
        &compile,
    );
    let doc = Document::load_mem(&pdf.expect("assemble should succeed")).unwrap();
    let ids: Vec<ObjectId> = doc.page_iter().collect();
    let widths: Vec<i64> =
        ids.iter().map(|&id| media_box(&doc, id).unwrap()[2].as_i64().unwrap()).collect();
    assert_eq!(widths, vec![303, 304, 100, 100, 200, 100]);
    // The second page of the book, which an inserted page has moved on.
    assert_eq!(links_of(&doc, ids[0]), vec![(0, ids[4])]);
    let contents = doc.get_dictionary(ids[4]).unwrap().get(b"Contents").unwrap();
    assert_eq!(contents.as_array().unwrap().len(), 2);
    let numbers: Vec<u32> = doc.objects.keys().map(|id| id.0).collect();
    assert_eq!(numbers[0], 1);
}

#[test]
fn a_nested_book_is_put_together() {
    let marks = vec![
        Mark::InsertedPage { after_page: 2, png: white() },
        Mark::InsertedPage { after_page: 0, png: white() },
        highlight(3),
    ];
    let render = |_: usize, _: &PageSize| -> Result<Vec<u8>, String> { Ok(white()) };
    let compile = |_: &String, _: &Vec<(String, Vec<u8>)>| -> Result<Vec<u8>, String> {
        Ok(bytes_of(book(&[303]).0))
    };
    for inked in [vec![], vec![0, 3]] {
        let doc = nested_book().0;
        let bands = vec![band(0)];
        let pdf = assemble_from(doc, &inked, &meta(), &marks, &bands, &own_size, &render, &compile);
        let doc = Document::load_mem(&pdf.unwrap()).unwrap();
        let ids: Vec<ObjectId> = doc.page_iter().collect();
        let widths: Vec<i64> =
            ids.iter().map(|&id| media_box(&doc, id).unwrap()[2].as_i64().unwrap()).collect();
        assert_eq!(widths, vec![303, 10, 10, 11, 20, 10, 21]);
        assert_eq!(links_of(&doc, ids[0]), vec![(0, ids[6])]);
    }
}

#[test]
fn an_assembly_can_fail() {
    let render = |_: usize, _: &PageSize| -> Result<Vec<u8>, String> { Ok(vec![]) };
    let compile = |_: &String, _: &Vec<(String, Vec<u8>)>| -> Result<Vec<u8>, String> {
        Ok(bytes_of(book(&[303]).0))
    };
    let run = |source: Option<&[u8]>, inked: Vec<usize>, marks: Vec<Mark>| {
        assemble(source, &inked, &meta(), &marks, &vec![], &own_size, &render, &compile).err()
    };
    let is = |e: Option<AssembleError>, a: AnnotateError| {
        matches!(e, Some(AssembleError::Annotate(found)) if found == a)
    };
    let source = bytes_of(book(&[100]).0);
    assert!(is(run(None, vec![], vec![]), AnnotateError::NoSource));
    assert!(is(run(Some(b"x"), vec![], vec![]), AnnotateError::Source));
    assert!(is(run(Some(&source), vec![0], vec![]), AnnotateError::Image));
    let marks = vec![Mark::InsertedPage { after_page: 0, png: vec![] }];
    assert!(is(run(Some(&source), vec![], marks), AnnotateError::Image));
    assert!(run(Some(&source), vec![], vec![]).is_none());
}

#[test]
fn a_document_is_written() {
    let bytes = finish(book(&[1, 2]).0).unwrap();
    assert_eq!(Document::load_mem(&bytes).unwrap().get_pages().len(), 2);
}
