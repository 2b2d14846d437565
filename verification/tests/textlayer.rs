use rmdigest::textlayer::{parse_output, parse_xhtml, PdfRect, RawWord, TextLayer, Word};

const PRINTED: &str = "<!DOCTYPE html>\n<doc>\n  \
<page width=\"612.000000\" height=\"792.000000\">\n    \
<word xMin=\"100.000000\" yMin=\"70.000000\" xMax=\"181.000000\" yMax=\"97.000000\">HELLO</word>\n  \
</page>\n</doc>\n";

/// The coordinates in thousandths, with the vertical ones counted from the bottom.
fn thousandths(s: &Option<String>) -> i64 {
    (s.as_ref().unwrap().parse::<f64>().unwrap() * 1000.0) as i64
}

fn layer(words: &Vec<RawWord>) -> TextLayer {
    let words = words
        .iter()
        .map(|w| {
            let height = thousandths(&w.page_height);
            Word {
                page: w.page,
                text: w.text.clone(),
                bbox: PdfRect {
                    x0: thousandths(&w.x_min),
                    y0: height - thousandths(&w.y_max),
                    x1: thousandths(&w.x_max),
                    y1: height - thousandths(&w.y_min),
                },
            }
        })
        .collect();
    TextLayer { words }
}

fn intersects(a: &PdfRect, b: &PdfRect) -> bool {
    a.x0 < b.x1 && b.x0 < a.x1 && a.y0 < b.y1 && b.y0 < a.y1
}

#[test]
fn extracts_a_known_word() {
    let words = parse_xhtml(PRINTED).unwrap();
    assert!(words.iter().any(|w| w.text.contains("HELLO")), "expected HELLO in {:?}", words);
}

#[test]
fn words_under_matches_overlapping_rect() {
    let tl = layer(&parse_xhtml(PRINTED).unwrap());
    let rect = PdfRect { x0: 50_000, y0: 650_000, x1: 300_000, y1: 760_000 };
    let got = tl.words_under(0, &rect, &intersects);
    assert!(got.contains("HELLO"), "words_under returned {got:?}");
    assert_eq!(tl.words_under(1, &rect, &intersects), "");
    let away = PdfRect { x0: 50_000, y0: 10_000, x1: 300_000, y1: 20_000 };
    assert_eq!(tl.words_under(0, &away, &intersects), "");
}

#[test]
fn attributes_and_entities_are_read() {
    let words = parse_xhtml(
        "<page height='10'><word xMin='1' yMax=\"4\">a &amp;lt; &quot;b&quot; &#39;c&#39;</word>\
         <word xMin=\"2\"></word><word >d</word></page><page ><word >e</word></page>",
    )
    .unwrap();
    assert_eq!(words.len(), 3);
    assert_eq!(words[0].page, 0);
    assert_eq!(words[0].text, "a &lt; \"b\" 'c'");
    assert_eq!(words[0].x_min, Some("1".to_string()));
    assert_eq!(words[0].y_max, Some("4".to_string()));
    assert_eq!(words[0].y_min, None);
    assert_eq!(words[0].x_max, None);
    assert_eq!(words[0].page_height, Some("10".to_string()));
    assert_eq!(words[1].text, "d");
    assert_eq!(words[1].x_min, None);
    assert_eq!(words[2].page, 1);
    assert_eq!(words[2].text, "e");
    assert_eq!(words[2].page_height, None);
}

#[test]
fn what_is_not_closed_ends_the_page() {
    let words = parse_xhtml("<page ><word >a</word><word >b</page><page ><word >c</word>").unwrap();
    let texts: Vec<&str> = words.iter().map(|w| w.text.as_str()).collect();
    assert_eq!(texts, vec!["a", "c"]);
    assert!(parse_xhtml("no pages").unwrap().is_empty());
    assert!(parse_xhtml("<page </page>").is_none());
}

fn word(page: usize, text: &str, x0: i64, y0: i64) -> Word {
    Word { page, text: text.into(), bbox: PdfRect { x0, y0, x1: x0 + 5, y1: y0 + 5 } }
}

#[test]
fn words_come_in_reading_order() {
    let tl = TextLayer {
        words: vec![
            word(0, "low", 0, 10),
            word(0, "right", 50, 30),
            word(0, "left", 0, 30),
            word(1, "other", 0, 30),
            word(0, "twin", 0, 30),
        ],
    };
    let all = PdfRect { x0: -1, y0: -1, x1: 1000, y1: 1000 };
    assert_eq!(tl.words_under(0, &all, &intersects), "left twin right low");
}

#[test]
fn repeated_texts_are_read_once() {
    let tl = TextLayer {
        words: vec![
            word(0, "same run", 0, 30),
            word(0, "same run", 0, 20),
            word(0, "then", 0, 10),
            word(0, "same run", 0, 5),
        ],
    };
    let all = PdfRect { x0: -1, y0: -1, x1: 1000, y1: 1000 };
    assert_eq!(tl.words_under(0, &all, &intersects), "same run then same run");
}

#[test]
fn output_need_not_be_utf8() {
    let words = parse_output(b"<page ><word >caf\xe9</word></page>").unwrap();
    assert_eq!(words[0].text, "caf\u{fffd}");
    assert_eq!(parse_output(PRINTED.as_bytes()).unwrap()[0].text, "HELLO");
    assert!(parse_output(b"<page </page>").is_none());
}
