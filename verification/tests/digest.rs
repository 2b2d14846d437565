use rmdigest::digest_doc::{build_digest, darken_for_text, DigestMeta};
use rmdigest::extract::Mark;
use rmdigest::markup::{esc, esc_markup};
use rmdigest::theme::PenColor;

fn tiny_png() -> Vec<u8> {
    let mut pixmap = tiny_skia::Pixmap::new(4, 3).unwrap();
    pixmap.fill(tiny_skia::Color::WHITE);
    pixmap.encode_png().unwrap()
}

fn meta(title: &str, author: &str, n_highlights: usize, n_notes: usize, range: &str) -> DigestMeta {
    DigestMeta {
        title: title.into(),
        author: author.into(),
        n_highlights,
        n_notes,
        date_range: range.into(),
    }
}

#[test]
fn digest_cover_stats_appear_in_source() {
    let meta = meta("My Highlights", "Jane Doe", 5, 2, "Jan–Mar 2026");
    let (src, _) = build_digest(&meta, &[]);
    assert!(src.contains("5 highlights"), "highlights count missing");
    assert!(src.contains("2 notes"), "notes count missing");
    assert!(src.contains("My Highlights"), "title missing");
    assert!(src.contains("Jane Doe"), "author missing");
}

#[test]
fn digest_image_assets_indexed_correctly() {
    let png = tiny_png();
    let meta = meta("X", "Y", 0, 2, "2026");
    let marks = vec![
        Mark::Note { page: 0, png: png.clone() },
        Mark::InsertedPage { after_page: 1, png: png.clone() },
    ];
    let (src, assets) = build_digest(&meta, &marks);
    assert_eq!(assets.len(), 2);
    assert_eq!(assets[0].0, "/assets/img-0.png");
    assert_eq!(assets[1].0, "/assets/img-1.png");
    assert!(src.contains("/assets/img-0.png"));
    assert!(src.contains("/assets/img-1.png"));
    assert_eq!(assets[0].1, png);
}

#[test]
fn a_digest_without_marks_is_a_cover() {
    let (src, assets) = build_digest(&meta("T \"q\" \\", "A [b]", 1, 1, "#1"), &[]);
    assert!(assets.is_empty());
    assert!(src.starts_with("// ─── rmdigest Digest PDF"));
    assert!(src.contains("#set document(title: \"T \\\"q\\\" \\\\\", author: \"A [b]\")\n"));
    assert!(src.contains("hyphenate: false)[T \\\"q\\\" \\\\]\n"));
    assert!(src.contains("[A \\[b\\]]"));
    assert!(src.contains("[1 highlight · 1 note --- \\#1]\n]\n#pagebreak()\n"));
    assert!(src.ends_with("#pagebreak()\n"));
}

#[test]
fn a_highlight_is_quoted_in_its_colour() {
    let marks = vec![Mark::Highlight {
        page: 2,
        text: "The *quick* fox".into(),
        color: PenColor::Yellow,
    }];
    let (src, _) = build_digest(&meta("", "", 1, 0, ""), &marks);
    let block = "// Highlight — page 3\n\
#heading(level: 2, outlined: true)[#kick(\"page 3\", rgb(183,156,49))]\n\
#block(\n\
width: 100%,\n\
inset: (left: 11pt, right: 4pt, top: 4pt, bottom: 4pt),\n\
stroke: (left: 3pt + rgb(245,208,66).lighten(20%)),\n\
)[#par(leading: 0.7em)[#text(font: \"Newsreader\", size: 12pt,\n\
fill: rgb(26, 26, 26))[“The \\*quick\\* fox”]]]\n\
#v(10pt)\n\
#line(length: 22%, stroke: 0.4pt + rgb(200, 200, 200))\n\
#v(2pt)\n";
    assert!(src.ends_with(block), "{src}");
}

#[test]
fn a_note_is_framed() {
    let marks = vec![Mark::Note { page: 11, png: vec![1, 2] }];
    let (src, assets) = build_digest(&meta("", "", 0, 1, ""), &marks);
    assert!(src.contains("// Note — page 12\n#heading(level: 2, outlined: true)[#kick(\"page 12 · note\""));
    assert!(src.contains("[#image(\"/assets/img-0.png\", width: 100%)]\n#v(6pt)\n"));
    assert_eq!(assets, vec![("/assets/img-0.png".to_string(), vec![1, 2])]);
}

#[test]
fn an_inserted_page_is_labelled() {
    let marks = vec![Mark::InsertedPage { after_page: 0, png: vec![] }];
    let (src, _) = build_digest(&meta("", "", 0, 1, ""), &marks);
    assert!(src.contains("#heading(level: 2, outlined: true)[#kick(\"page 1 · inserted\", rgb(110, 110, 110))]"));
}

#[test]
fn colours_for_text_are_darkened() {
    assert_eq!(darken_for_text((255, 255, 255)), (102, 102, 102));
    assert_eq!(darken_for_text((180, 180, 180)), (135, 135, 135));
    assert_eq!(darken_for_text((120, 120, 120)), (120, 120, 120));
    assert_eq!(darken_for_text((60, 60, 60)), (60, 60, 60));
}

#[test]
fn darkening_is_a_product_of_reals() {
    for v in 0..=255u8 {
        for base in [0u8, 90, 200, 255] {
            let c = (v, base, base);
            let brightness = (v as u32 + 2 * base as u32) / 3;
            let by = |x: u8, f: f32| (x as f32 * f) as u8;
            let expected = if brightness > 180 {
                (by(v, 0.4), by(base, 0.4), by(base, 0.4))
            } else if brightness > 120 {
                (by(v, 0.75), by(base, 0.75), by(base, 0.75))
            } else {
                c
            };
            assert_eq!(darken_for_text(c), expected);
        }
    }
}

#[test]
fn special_characters_are_escaped() {
    assert_eq!(esc("a\"b\\c"), "a\\\"b\\\\c");
    assert_eq!(esc("#[x]"), "#[x]");
    assert_eq!(
        esc_markup("\\#$*_`<>@=~\"'[]"),
        "\\\\\\#\\$\\*\\_\\`\\<\\>\\@\\=\\~\\\"\\'\\[\\]"
    );
    assert_eq!(esc_markup("plain — text"), "plain — text");
    assert_eq!(esc_markup("see // here"), "see \\/\\/ here");
    assert_eq!(esc_markup("- a\n+ b"), "\\- a\n\\+ b");
}

#[test]
fn escaped_text_differs_where_the_text_does() {
    let texts = ["a", "\\a", "[a]", "\\[a\\]", "", "#", "\\#"];
    for a in texts {
        for b in texts {
            assert_eq!(esc_markup(a) == esc_markup(b), a == b);
            assert_eq!(esc(a) == esc(b), a == b);
        }
    }
}
