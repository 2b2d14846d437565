use rmdigest::digest_doc::DigestMeta;
use rmdigest::extract::Mark;
use rmdigest::linked_doc::{build_from, build_linked, ceil_boundary, context, context_at};
use rmdigest::linked_doc::{context_in, document_pages, find_page, first_with, floor_boundary};
use rmdigest::linked_doc::{locate, split_pages};
use rmdigest::linked_doc::{Device, Found};
use rmdigest::theme::PenColor;

#[test]
fn context_extracts_surrounding_sentences() {
    let text = "Intro sentence one. The roadside assistance line is open 24/7 for members. \
                Another following sentence here. And one more after that.";
    let (before, hl, after) = context(text, "roadside assistance line is open 24/7").unwrap();
    assert!(hl.to_lowercase().contains("roadside assistance"));
    assert!(before.starts_with("The"), "before={before:?}");
    assert!(after.contains("members"), "after={after:?}");
}

#[test]
fn context_none_when_text_absent() {
    let text = "Nothing relevant here at all.";
    assert!(context(text, "roadside assistance").is_none());
}

#[test]
fn find_page_locates_text_by_content_not_index() {
    let pages = vec![
        "front matter".to_string(),
        "table of contents".to_string(),
        "Roadside Assistance 24/7 call us".to_string(),
    ];
    assert_eq!(find_page(&pages, "roadside assistance 24/7"), Some(2));
    assert_eq!(find_page(&pages, "not present"), None);
}

#[test]
fn the_context_is_cut_at_sentences() {
    let text = "One. Two HERE three! Four.";
    assert_eq!(
        context(text, " here "),
        Some(("Two".to_string(), "HERE".to_string(), "three!".to_string()))
    );
    assert_eq!(context(text, "  "), None);
    assert_eq!(
        context("alone", "ALONE"),
        Some((String::new(), "alone".to_string(), String::new()))
    );
}

#[test]
fn the_context_is_bounded() {
    let text = format!("{}X{}", "a".repeat(300), "b".repeat(300));
    let (before, hl, after) = context(&text, "x").unwrap();
    assert_eq!(before, "a".repeat(240));
    assert_eq!(hl, "X");
    assert_eq!(after, "b".repeat(240));
}

#[test]
fn the_bounds_move_to_characters() {
    let text = format!("{}a{}X{}b", "é".repeat(10), "é".repeat(120), "é".repeat(150));
    let (before, hl, after) = context(&text, "x").unwrap();
    assert_eq!(before, "é".repeat(120));
    assert_eq!(hl, "X");
    assert_eq!(after, "é".repeat(120));
    let odd = format!("{}aX", "é".repeat(150));
    let (before, _, _) = context(&odd, "x").unwrap();
    assert_eq!(before, format!("{}a", "é".repeat(120)));
}

#[test]
fn a_highlight_is_cut_out_as_it_stands() {
    let (_, hl, _) = context("Say HeLLo there.", "hello").unwrap();
    assert_eq!(hl, "HeLLo");
}

#[test]
fn places_in_lower_case_lead_back_to_the_text() {
    // The small form of this letter has one byte more than the capital.
    let text = "\u{23a}\u{23a}\u{23a}é";
    let parts = context(text, "É").unwrap();
    assert_eq!(parts, ("\u{23a}\u{23a}\u{23a}".to_string(), "é".to_string(), String::new()));
    assert!(context(text, "e").is_none());
    // The small form of this one has two characters.
    let parts = context("\u{130} abc", "abc").unwrap();
    assert_eq!(parts, ("\u{130}".to_string(), "abc".to_string(), String::new()));
    let parts = context("x \u{130} Y", "\u{130}").unwrap();
    assert_eq!(parts, ("x".to_string(), "\u{130}".to_string(), "Y".to_string()));
    let pages = vec!["\u{130} abc".to_string()];
    assert_eq!(locate(&pages, "ABC").unwrap().context.unwrap().1, "abc");
}

#[test]
fn contexts_of_given_places() {
    let text = "Ab. cd EF gh. ij";
    let parts = context_at(text, 7, 9);
    assert_eq!(parts, ("cd".to_string(), "EF".to_string(), "gh.".to_string()));
    let parts = context_at(text, 14, 16);
    assert_eq!(parts, (String::new(), "ij".to_string(), String::new()));
    let ones = vec![1; 16];
    let found = context_in(text, &ones, "ab. cd ef gh. ij", "ef");
    assert_eq!(found.unwrap().1, "EF");
    assert!(context_in(text, &ones, "ab. cd ef gh. ij", "zz").is_none());
    let found = context_in("Xy", &vec![2, 1], "abc", "bc");
    assert_eq!(found.unwrap().1, "Xy");
}

#[test]
fn indices_move_to_boundaries() {
    let s = "aé";
    assert_eq!(floor_boundary(s, 0), 0);
    assert_eq!(floor_boundary(s, 1), 1);
    assert_eq!(floor_boundary(s, 2), 1);
    assert_eq!(floor_boundary(s, 9), 3);
    assert_eq!(ceil_boundary(s, 1), 1);
    assert_eq!(ceil_boundary(s, 2), 3);
    assert_eq!(ceil_boundary(s, 9), 3);
}

#[test]
fn pages_are_parted_at_form_feeds() {
    assert_eq!(split_pages("a  b\nc\u{c}\u{c} d "), vec!["a b c", "", "d"]);
    assert_eq!(split_pages(""), vec![""]);
    assert_eq!(document_pages(b"x\ty\x0cz"), vec!["x y", "z"]);
    assert_eq!(document_pages(b"caf\xff"), vec!["caf\u{fffd}"]);
}

#[test]
fn pages_are_found_in_whatever_case() {
    let pages = vec!["ÀÉ".to_string(), "Ab".to_string(), "ab".to_string()];
    assert_eq!(find_page(&pages, " àé "), Some(0));
    assert_eq!(find_page(&pages, "AB"), Some(1));
    assert_eq!(find_page(&pages, "   "), None);
    assert_eq!(first_with(&pages, "ab"), Some(2));
    assert_eq!(first_with(&pages, ""), None);
}

#[test]
fn a_found_highlight_has_a_context() {
    let pages = vec!["none".to_string(), "Here. It is found.".to_string()];
    let found = locate(&pages, "IT IS").unwrap();
    assert_eq!(found.page, 1);
    let (before, hl, after) = found.context.unwrap();
    assert_eq!((before.as_str(), hl.as_str(), after.as_str()), ("", "It is", "found."));
    assert!(locate(&pages, "absent").is_none());
}

fn meta(range: &str) -> DigestMeta {
    DigestMeta {
        title: "T".into(),
        author: "A#".into(),
        n_highlights: 1,
        n_notes: 2,
        date_range: range.into(),
    }
}

fn device() -> Device {
    Device { width_pt: "303.3".into(), height_pt: "541.4".into() }
}

fn marks() -> Vec<Mark> {
    vec![
        Mark::Highlight { page: 5, text: "it is".into(), color: PenColor::Green },
        Mark::Note { page: 3, png: vec![7] },
        Mark::InsertedPage { after_page: 0, png: vec![8] },
    ]
}

#[test]
fn the_cover_and_the_passage() {
    let pages = vec!["x".to_string(), "One. It is _here_ now.".to_string()];
    let (src, assets) = build_linked(&meta(""), &marks(), &pages, &device());
    assert!(src.starts_with("#set document(title: \"T\", author: \"A#\")\n#set page(width: 303.3pt, height: 541.4pt, margin: (x: 7mm, y: 8mm), fill: rgb(250, 249, 246))\n"));
    assert!(src.contains("[A\\#]"));
    assert!(src.contains("[1 highlight · 2 notes]\n]\n#pagebreak()\n#heading"));
    assert!(src.contains("#heading(level: 2, outlined: true)[#kick(\"page 2\", rgb(54, 110, 190))]\n"));
    assert!(src.contains("[ #highlight(fill: rgb(120,190,110), extent: 1pt)[#text(fill: rgb(26,26,26))[It is]] \\_here\\_ now.]]]\n"));
    assert!(src.contains("[#kick(\"page 4 · note\", rgb(120,120,120))]\n"));
    assert!(src.contains("[#kick(\"page 1 · note\", rgb(120,120,120))]\n"));
    assert_eq!(assets[0], ("/assets/note-0.png".to_string(), vec![7]));
    assert_eq!(assets[1], ("/assets/note-1.png".to_string(), vec![8]));
    assert!(src.contains("#image(\"/assets/note-0.png\", width: 100%)]\n#v(8pt)\n"));
    assert!(src.contains("#image(\"/assets/note-1.png\", width: 100%)]\n#v(8pt)\n"));
}

#[test]
fn a_highlight_that_is_not_found_is_quoted() {
    let (src, _) = build_linked(&meta("2026"), &marks(), &vec![], &device());
    assert!(src.contains("[1 highlight · 2 notes --- 2026]\n"));
    assert!(src.contains("#kick(\"page 6\", rgb(54, 110, 190))"));
    assert!(src.contains("#highlight(fill: rgb(120,190,110), extent: 1pt)[“it is”]]]]\n#v(8pt)\n#line(length: 22%, stroke: 0.4pt + rgb(200,200,200))\n#v(2pt)\n"));
}

#[test]
fn the_source_holds_its_blocks() {
    let (src, _) = build_linked(&meta(""), &marks(), &vec![], &device());
    assert!(src.contains("#show heading.where(level: 2): it => block(above: 20pt, below: 6pt, width: 100%)[#it.body]\n"));
    assert!(src.contains("]\n#block(stroke: 0.5pt + rgb(200,200,200), inset: 5pt, radius: 2pt)[#image(\"/assets/note-0.png\""));
    assert!(!src.contains("::"));
}

#[test]
fn a_digest_of_given_places() {
    let marks = vec![Mark::Highlight { page: 0, text: "q".into(), color: PenColor::Red }];
    let found = vec![Some(Found { page: 8, context: None })];
    let (src, _) = build_from(&meta(""), &marks, &found, &device());
    assert!(src.contains("#kick(\"page 9\""));
    assert!(src.contains("[“q”]"));
    let found = vec![Some(Found {
        page: 8,
        context: Some(("a".into(), "Q".into(), "z".into())),
    })];
    let (src, _) = build_from(&meta(""), &marks, &found, &device());
    assert!(src.contains("[a #highlight(fill: rgb(210,80,80), extent: 1pt)[#text(fill: rgb(26,26,26))[Q]] z]]]\n"));
}
