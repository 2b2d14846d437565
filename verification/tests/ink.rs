use rmdigest::ink::{default_width, ink_bbox, render_strokes, render_strokes_on_canvas};
use rmdigest::ink::{Background, InkError, InkOpts, InkStroke, Point, Trace};
use rmdigest::theme::PenColor;

fn stroke(highlighter: bool, color: PenColor, points: &[(i64, i64)]) -> InkStroke {
    InkStroke {
        highlighter,
        color,
        points: points.iter().map(|&(x, y)| Point { x, y }).collect(),
        band: None,
    }
}

fn make_test_strokes() -> Vec<InkStroke> {
    vec![
        stroke(true, PenColor::Yellow, &[(10, 20), (50, 20), (90, 20)]),
        stroke(false, PenColor::Black, &[(10, 10), (50, 50), (90, 30)]),
    ]
}

/// The lines of the strokes with the point `origin` at the top left.
fn traces(strokes: &Vec<InkStroke>, origin: (i64, i64)) -> Vec<Trace> {
    strokes
        .iter()
        .map(|s| {
            let mut pb = tiny_skia::PathBuilder::new();
            for (i, p) in s.points.iter().enumerate() {
                let (x, y) = ((p.x - origin.0) as f32, (p.y - origin.1) as f32);
                if i == 0 {
                    pb.move_to(x, y);
                } else {
                    pb.line_to(x, y);
                }
            }
            let mut pen = tiny_skia::Stroke::default();
            pen.width = default_width(s.highlighter) as f32;
            pen.line_cap = tiny_skia::LineCap::Round;
            pen.line_join = tiny_skia::LineJoin::Round;
            Trace { path: pb.finish(), pen }
        })
        .collect()
}

#[test]
fn ink_bbox_correct() {
    let bbox = ink_bbox(&make_test_strokes()).expect("bbox should exist");
    assert_eq!(bbox.0, 10, "min_x={}", bbox.0);
    assert_eq!(bbox.1, 10, "min_y={}", bbox.1);
    assert_eq!(bbox.2, 90, "max_x={}", bbox.2);
    assert_eq!(bbox.3, 50, "max_y={}", bbox.3);
}

#[test]
fn ink_bbox_empty() {
    assert!(ink_bbox(&vec![]).is_none());
}

#[test]
fn render_strokes_correct_dims() {
    let strokes = make_test_strokes();
    let opts = InkOpts { margin_px: 16, ..Default::default() };
    let lines = traces(&strokes, (10 - 16, 10 - 16));
    let png = render_strokes(&strokes, &lines, (80, 40), &opts).expect("render should succeed");
    assert!(!png.is_empty(), "PNG bytes should be non-empty");

    let img = image::load_from_memory(&png).expect("should decode as image");
    let (w, h) = (img.width(), img.height());
    assert_eq!(w, 112, "expected width 112, got {w}");
    assert_eq!(h, 72, "expected height 72, got {h}");

    let rgba = img.to_rgba8();
    let has_ink = rgba.pixels().any(|p| p.0[3] > 0);
    assert!(has_ink, "rendered image has no ink pixels");
}

#[test]
fn the_options_start_transparent() {
    let opts = InkOpts::default();
    assert_eq!(opts.background, Background::Transparent);
    assert_eq!(opts.margin_px, 16);
    assert_eq!(default_width(true), 18);
    assert_eq!(default_width(false), 3);
}

#[test]
fn a_highlighter_lets_text_show_through() {
    let strokes = vec![stroke(true, PenColor::Yellow, &[(0, 20), (40, 20)])];
    let opts = InkOpts { background: Background::Transparent, margin_px: 0 };
    let png =
        render_strokes_on_canvas(&strokes, &traces(&strokes, (0, 0)), 40, 40, &opts).unwrap();
    let img = image::load_from_memory(&png).unwrap().to_rgba8();
    assert_eq!(img.get_pixel(20, 20).0[3], 110);
    assert_eq!(img.get_pixel(20, 0).0, [0, 0, 0, 0]);
}

#[test]
fn a_pen_is_opaque_on_white() {
    let strokes = vec![stroke(false, PenColor::Black, &[(0, 20), (40, 20)])];
    let opts = InkOpts { background: Background::White, margin_px: 0 };
    let png =
        render_strokes_on_canvas(&strokes, &traces(&strokes, (0, 0)), 40, 40, &opts).unwrap();
    let img = image::load_from_memory(&png).unwrap().to_rgba8();
    assert_eq!(img.get_pixel(20, 20).0, [60, 60, 60, 255]);
    assert_eq!(img.get_pixel(20, 0).0, [255, 255, 255, 255]);
}

#[test]
fn a_single_point_leaves_no_line() {
    let strokes = vec![stroke(false, PenColor::Black, &[(5, 5)])];
    let mut lines = traces(&make_test_strokes(), (0, 0));
    lines.truncate(1);
    let opts = InkOpts { background: Background::Transparent, margin_px: 0 };
    let png = render_strokes_on_canvas(&strokes, &lines, 30, 30, &opts).unwrap();
    let img = image::load_from_memory(&png).unwrap().to_rgba8();
    assert!(img.pixels().all(|p| p.0[3] == 0));
}

#[test]
fn without_lines_there_is_background() {
    let strokes = vec![stroke(false, PenColor::Black, &[(5, 5)]), stroke(true, PenColor::Red, &[])];
    let lines = traces(&make_test_strokes(), (0, 0));
    for (background, pixel) in
        [(Background::White, [255, 255, 255, 255]), (Background::Transparent, [0, 0, 0, 0])]
    {
        let opts = InkOpts { background, margin_px: 0 };
        let png = render_strokes_on_canvas(&strokes, &lines, 30, 30, &opts).unwrap();
        let img = image::load_from_memory(&png).unwrap().to_rgba8();
        assert!(img.pixels().all(|p| p.0 == pixel));
    }
}

#[test]
fn a_pen_without_a_width_draws_nothing() {
    let opts = InkOpts { background: Background::White, margin_px: 0 };
    let strokes = vec![stroke(false, PenColor::Black, &[(0, 20), (40, 20)])];
    let with_width = |width: f32| -> Vec<u8> {
        let mut lines = traces(&strokes, (0, 0));
        lines[0].pen.width = width;
        let png = render_strokes_on_canvas(&strokes, &lines, 40, 40, &opts).unwrap();
        image::load_from_memory(&png).unwrap().to_rgba8().into_raw()
    };
    let blank = vec![255u8; 4 * 40 * 40];
    assert_eq!(with_width(f32::NAN), blank);
    assert_eq!(with_width(-f32::NAN), blank);
    assert_eq!(with_width(-1.0), blank);
    assert_ne!(with_width(0.0), blank);
    assert_eq!(with_width(-0.0), with_width(0.0));
    assert_ne!(with_width(1.0), blank);
}

#[test]
fn short_strokes_leave_no_trace() {
    let opts = InkOpts { background: Background::White, margin_px: 0 };
    let strokes = make_test_strokes();
    let expected =
        render_strokes_on_canvas(&strokes, &traces(&strokes, (0, 0)), 100, 60, &opts).unwrap();
    for at in 0..=2 {
        let mut more = make_test_strokes();
        more.insert(at, stroke(false, PenColor::Red, &[(40, 40)]));
        let png = render_strokes_on_canvas(&more, &traces(&more, (0, 0)), 100, 60, &opts).unwrap();
        assert_eq!(png, expected);
    }
}

#[test]
fn ink_that_cannot_be_rendered() {
    let opts = InkOpts { background: Background::White, margin_px: 0 };
    let dots = vec![stroke(false, PenColor::Black, &[(5, 5), (5, 5)])];
    let lines = traces(&dots, (0, 0));
    assert_eq!(render_strokes(&vec![], &vec![], (3, 3), &opts), Err(InkError::NoPoints));
    assert_eq!(render_strokes(&dots, &lines, (0, 5), &opts), Err(InkError::Empty));
    assert_eq!(
        render_strokes_on_canvas(&dots, &lines, 0, 5, &opts),
        Err(InkError::Canvas)
    );
    assert_eq!(
        render_strokes_on_canvas(&dots, &lines, u32::MAX, u32::MAX, &opts),
        Err(InkError::Canvas)
    );
}
