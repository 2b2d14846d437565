//! Renders ink strokes to images in PNG format.
//!
//! The lines of the strokes come as paths in pixels, with the pens that draw them;
//! here they are drawn in the colours of their pens, a highlighter's translucent.

use crate::textlayer::PdfRect;
use crate::theme;
use crate::theme::{pen_rgb, PenColor};
use tiny_skia::{Color, Paint, Path, Pixmap, Transform};
use vstd::prelude::*;

verus! {

/// `tiny_skia::Pixmap`, a canvas of pixels.
#[verifier::external_type_specification]
#[verifier::external_body]
pub struct ExPixmap(tiny_skia::Pixmap);

/// `tiny_skia::Path`, a line to draw.
#[verifier::external_type_specification]
#[verifier::external_body]
pub struct ExPath(tiny_skia::Path);

/// `tiny_skia::Stroke`, how to draw a line.
#[verifier::external_type_specification]
#[verifier::external_body]
pub struct ExStroke(tiny_skia::Stroke);

// ---------------------------------------------------------------------------
// Canvases
// ---------------------------------------------------------------------------
/// The width, the height and the bytes of the pixels of a canvas, four for each.
pub uninterp spec fn canvas(pixmap: Pixmap) -> (u32, u32, Seq<u8>);

/// The verbs and points of a path, by their bits.
pub uninterp spec fn path_data(path: Path) -> Seq<u32>;

/// The width, caps, joins and dashes of a pen, by their bits, the width first.
pub uninterp spec fn pen_data(pen: tiny_skia::Stroke) -> Seq<u32>;

/// The pixels after `tiny_skia::Pixmap::stroke_path` with a colour.
pub uninterp spec fn stroked(
    width: u32,
    height: u32,
    pixels: Seq<u8>,
    path: Seq<u32>,
    pen: Seq<u32>,
    rgba: (u8, u8, u8, u8),
) -> Seq<u8>;

/// The bytes of a canvas in PNG format, as `tiny_skia::Pixmap::encode_png` writes
/// them; nothing where it reports an error.
pub uninterp spec fn png_bytes(width: u32, height: u32, pixels: Seq<u8>) -> Option<Seq<u8>>;

/// There can be a canvas of the size: neither side is zero, and neither a row nor
/// the whole is too long.
pub open spec fn fits(width: u32, height: u32) -> bool {
    width > 0 && height > 0 && 4 * width <= i32::MAX && 4 * (width * height) <= isize::MAX
}

/// Pixels of one byte throughout.
pub open spec fn uniform(width: u32, height: u32, byte: u8) -> Seq<u8> {
    Seq::new((4 * (width * height)) as nat, |i: int| byte)
}

/// `tiny_skia::Pixmap::new`: a transparent canvas, where both sides are positive, a
/// row of pixels fits 31 bits and the whole can be allocated.
#[verifier::external_body]
pub(crate) fn new_canvas(width: u32, height: u32) -> (r: Option<Pixmap>)
    requires
        4 * (width * height) <= isize::MAX,
    ensures
        match r {
            Some(pixmap) => fits(width, height) && canvas(pixmap) == (
                width,
                height,
                uniform(width, height, 0),
            ),
            None => !fits(width, height),
        },
{
    Pixmap::new(width, height)
}

/// `tiny_skia::Pixmap::fill` with `Color::WHITE`: every pixel is opaque white.
#[verifier::external_body]
pub(crate) fn fill_white(pixmap: &mut Pixmap)
    ensures
        canvas(*final(pixmap)) == (
            canvas(*old(pixmap)).0,
            canvas(*old(pixmap)).1,
            uniform(canvas(*old(pixmap)).0, canvas(*old(pixmap)).1, 255),
        ),
{
    pixmap.fill(Color::WHITE);
}

/// The width of the pen is a number, negative or not, finite or not.
pub open spec fn has_width(pen: Seq<u32>) -> bool {
    pen[0] <= 0x7f80_0000 || 0x8000_0000 <= pen[0] <= 0xff80_0000
}

/// The field `width` of `tiny_skia::Stroke`, by its bits.
#[verifier::external_body]
pub(crate) fn width_bits(pen: &tiny_skia::Stroke) -> (r: u32)
    ensures
        r == pen_data(*pen)[0],
{
    pen.width.to_bits()
}

/// `tiny_skia::Pixmap::stroke_path`: draws a path with a pen in a colour, smoothed,
/// in place and without a mask. What the pixels are then is named [`stroked`]. A width
/// that is no number is left out: a build with debug assertions refuses it.
#[verifier::external_body]
pub(crate) fn stroke_path(
    pixmap: &mut Pixmap,
    path: &Path,
    pen: &tiny_skia::Stroke,
    rgba: (u8, u8, u8, u8),
)
    requires
        has_width(pen_data(*pen)),
    ensures
        canvas(*final(pixmap)) == (
            canvas(*old(pixmap)).0,
            canvas(*old(pixmap)).1,
            stroked(
                canvas(*old(pixmap)).0,
                canvas(*old(pixmap)).1,
                canvas(*old(pixmap)).2,
                path_data(*path),
                pen_data(*pen),
                rgba,
            ),
        ),
{
    let mut paint = Paint::default();
    paint.set_color_rgba8(rgba.0, rgba.1, rgba.2, rgba.3);
    paint.anti_alias = true;
    pixmap.stroke_path(path, &paint, pen, Transform::identity(), None);
}

/// `tiny_skia::Pixmap::encode_png`: the canvas in PNG format. What it writes is named
/// [`png_bytes`].
#[verifier::external_body]
pub(crate) fn encode_png(pixmap: &Pixmap) -> (r: Option<Vec<u8>>)
    ensures
        match r {
            Some(bytes) => png_bytes(canvas(*pixmap).0, canvas(*pixmap).1, canvas(*pixmap).2)
                == Some(bytes@),
            None => png_bytes(canvas(*pixmap).0, canvas(*pixmap).1, canvas(*pixmap).2) is None,
        },
{
    pixmap.encode_png().ok()
}

// ---------------------------------------------------------------------------
// Strokes
// ---------------------------------------------------------------------------
/// What is behind the ink.
#[derive(Debug, Clone, Copy, PartialEq, Eq, Structural)]
pub enum Background {
    /// Nothing: the ink goes over a page.
    Transparent,
    /// White: the ink stands for itself.
    White,
}

/// How to render ink.
#[derive(Debug, Clone, Copy, PartialEq, Eq, Structural)]
pub struct InkOpts {
    /// What is behind the ink.
    pub background: Background,
    /// The pixels around the ink.
    pub margin_px: u32,
}

impl Default for InkOpts {
    fn default() -> (o: Self)
        ensures
            o.background == Background::Transparent,
            o.margin_px == 16,
    {
        InkOpts { background: Background::Transparent, margin_px: 16 }
    }
}

/// A point of a stroke; each coordinate is an integer that stands for it in the
/// order of coordinates.
#[derive(Debug, Clone, Copy, PartialEq, Eq, Structural)]
pub struct Point {
    pub x: i64,
    pub y: i64,
}

/// A stroke of ink.
#[derive(Debug)]
pub struct InkStroke {
    /// It is a highlighter's.
    pub highlighter: bool,
    pub color: PenColor,
    pub points: Vec<Point>,
    /// The region of the page that a highlighter's stroke covers, where it has any
    /// points.
    pub band: Option<PdfRect>,
}

/// The line of a stroke in pixels, and the pen for it.
pub struct Trace {
    /// `None` where the points make no line.
    pub path: Option<Path>,
    pub pen: tiny_skia::Stroke,
}

/// Why ink could not be rendered.
#[derive(Debug, Clone, Copy, PartialEq, Eq, Structural)]
pub enum InkError {
    /// There are no points.
    NoPoints,
    /// The image has no width or no height.
    Empty,
    /// There can be no canvas of the size.
    Canvas,
    /// The image cannot be written.
    Png,
}

/// The points of the strokes, one stroke after the other.
pub open spec fn points_of(strokes: Seq<InkStroke>) -> Seq<Point>
    decreases strokes.len(),
{
    if strokes.len() == 0 {
        seq![]
    } else {
        points_of(strokes.drop_last()) + strokes.last().points@
    }
}

/// The four numbers are the bounds of the points: none lies beyond them, and each is
/// reached.
pub open spec fn bounds(points: Seq<Point>, b: (i64, i64, i64, i64)) -> bool {
    &&& forall|i: int|
        0 <= i < points.len() ==> b.0 <= (#[trigger] points[i]).x <= b.2 && b.1 <= points[i].y
            <= b.3
    &&& exists|i: int| 0 <= i < points.len() && (#[trigger] points[i]).x == b.0
    &&& exists|i: int| 0 <= i < points.len() && (#[trigger] points[i]).y == b.1
    &&& exists|i: int| 0 <= i < points.len() && (#[trigger] points[i]).x == b.2
    &&& exists|i: int| 0 <= i < points.len() && (#[trigger] points[i]).y == b.3
}

/// The bounds with one more point.
fn widened(bbox: Option<(i64, i64, i64, i64)>, p: Point) -> (r: (i64, i64, i64, i64))
    ensures
        match bbox {
            None => r == (p.x, p.y, p.x, p.y),
            Some(b) => {
                &&& r.0 == if p.x < b.0 { p.x } else { b.0 }
                &&& r.1 == if p.y < b.1 { p.y } else { b.1 }
                &&& r.2 == if p.x > b.2 { p.x } else { b.2 }
                &&& r.3 == if p.y > b.3 { p.y } else { b.3 }
            },
        },
{
    match bbox {
        None => (p.x, p.y, p.x, p.y),
        Some(b) => (
            if p.x < b.0 {
                p.x
            } else {
                b.0
            },
            if p.y < b.1 {
                p.y
            } else {
                b.1
            },
            if p.x > b.2 {
                p.x
            } else {
                b.2
            },
            if p.y > b.3 {
                p.y
            } else {
                b.3
            },
        ),
    }
}

/// What is reached stays reached with one more point.
proof fn widened_bounds(
    points: Seq<Point>,
    bbox: Option<(i64, i64, i64, i64)>,
    p: Point,
    r: (i64, i64, i64, i64),
)
    requires
        match bbox {
            None => points.len() == 0 && r == (p.x, p.y, p.x, p.y),
            Some(b) => {
                &&& bounds(points, b)
                &&& r.0 == if p.x < b.0 { p.x } else { b.0 }
                &&& r.1 == if p.y < b.1 { p.y } else { b.1 }
                &&& r.2 == if p.x > b.2 { p.x } else { b.2 }
                &&& r.3 == if p.y > b.3 { p.y } else { b.3 }
            },
        },
    ensures
        bounds(points.push(p), r),
{
    let all = points.push(p);
    let n = points.len() as int;
    assert(all[n] == p);
    assert forall|i: int| 0 <= i < all.len() implies r.0 <= (#[trigger] all[i]).x <= r.2 && r.1
        <= all[i].y <= r.3 by {
        if i < n {
            assert(all[i] == points[i]);
        }
    }
    if let Some(b) = bbox {
        let i0 = choose|i: int| 0 <= i < points.len() && (#[trigger] points[i]).x == b.0;
        let i1 = choose|i: int| 0 <= i < points.len() && (#[trigger] points[i]).y == b.1;
        let i2 = choose|i: int| 0 <= i < points.len() && (#[trigger] points[i]).x == b.2;
        let i3 = choose|i: int| 0 <= i < points.len() && (#[trigger] points[i]).y == b.3;
        assert(all[i0] == points[i0]);
        assert(all[i1] == points[i1]);
        assert(all[i2] == points[i2]);
        assert(all[i3] == points[i3]);
    }
}

/// The least `x`, the least `y`, the greatest `x` and the greatest `y` of all points
/// of the strokes; nothing where there are none.
pub fn ink_bbox(strokes: &Vec<InkStroke>) -> (r: Option<(i64, i64, i64, i64)>)
    ensures
        match r {
            Some(b) => bounds(points_of(strokes@), b),
            None => points_of(strokes@).len() == 0,
        },
{
    let mut bbox: Option<(i64, i64, i64, i64)> = None;
    let mut i: usize = 0;
    assert(strokes@.take(0) =~= seq![]);
    while i < strokes.len()
        invariant
            i <= strokes@.len(),
            match bbox {
                Some(b) => bounds(points_of(strokes@.take(i as int)), b),
                None => points_of(strokes@.take(i as int)).len() == 0,
            },
        decreases strokes@.len() - i,
    {
        let points = &strokes[i].points;
        let ghost before = points_of(strokes@.take(i as int));
        let mut j: usize = 0;
        assert(before + points@.take(0) =~= before);
        while j < points.len()
            invariant
                j <= points@.len(),
                match bbox {
                    Some(b) => bounds(before + points@.take(j as int), b),
                    None => (before + points@.take(j as int)).len() == 0,
                },
            decreases points@.len() - j,
        {
            let p = points[j];
            let wide = widened(bbox, p);
            proof {
                widened_bounds(before + points@.take(j as int), bbox, p, wide);
                assert((before + points@.take(j as int)).push(p) =~= before + points@.take(j + 1));
            }
            bbox = Some(wide);
            j = j + 1;
        }
        proof {
            assert(points@.take(points@.len() as int) =~= points@);
            assert(strokes@.take(i + 1).drop_last() =~= strokes@.take(i as int));
        }
        i = i + 1;
    }
    assert(strokes@.take(strokes@.len() as int) =~= strokes@);
    bbox
}

/// The colour of a stroke with its opacity: a highlighter's lets text show through.
pub open spec fn ink_color(stroke: InkStroke) -> (u8, u8, u8, u8) {
    let (r, g, b) = theme::rgb_of(stroke.color);
    (
        r,
        g,
        b,
        if stroke.highlighter {
            110u8
        } else {
            255u8
        },
    )
}

/// The width of a line whose points have none.
pub fn default_width(highlighter: bool) -> (w: u32)
    ensures
        w == if highlighter { 18u32 } else { 3u32 },
{
    if highlighter {
        18
    } else {
        3
    }
}

/// The pixels after the strokes are drawn in turn. A stroke of fewer than two
/// points, whose points make no line, or whose pen has no width is left out.
pub open spec fn painted(
    width: u32,
    height: u32,
    pixels: Seq<u8>,
    strokes: Seq<InkStroke>,
    traces: Seq<Trace>,
) -> Seq<u8>
    decreases strokes.len(),
{
    if strokes.len() == 0 {
        pixels
    } else {
        let before = painted(width, height, pixels, strokes.drop_last(), traces);
        let i = strokes.len() - 1;
        match traces[i].path {
            Some(path) => if strokes[i].points@.len() < 2 || !has_width(pen_data(traces[i].pen)) {
                before
            } else {
                stroked(
                    width,
                    height,
                    before,
                    path_data(path),
                    pen_data(traces[i].pen),
                    ink_color(strokes[i]),
                )
            },
            None => before,
        }
    }
}

/// The image of the strokes on a canvas of the size, or why there is none.
pub open spec fn rendered(
    strokes: Seq<InkStroke>,
    traces: Seq<Trace>,
    width: u32,
    height: u32,
    background: Background,
) -> Result<Seq<u8>, InkError> {
    let byte = if background == Background::White {
        255u8
    } else {
        0u8
    };
    if !fits(width, height) {
        Err(InkError::Canvas)
    } else {
        match png_bytes(
            width,
            height,
            painted(width, height, uniform(width, height, byte), strokes, traces),
        ) {
            Some(bytes) => Ok(bytes),
            None => Err(InkError::Png),
        }
    }
}

/// The bytes of an image.
pub open spec fn image_view(r: Result<Vec<u8>, InkError>) -> Result<Seq<u8>, InkError> {
    match r {
        Ok(bytes) => Ok(bytes@),
        Err(e) => Err(e),
    }
}

/// Renders the strokes on a canvas of the size. `traces` holds the line and the pen
/// of each stroke.
pub fn render_strokes_on_canvas(
    strokes: &Vec<InkStroke>,
    traces: &Vec<Trace>,
    width_px: u32,
    height_px: u32,
    opts: &InkOpts,
) -> (r: Result<Vec<u8>, InkError>)
    requires
        strokes@.len() == traces@.len(),
    ensures
        image_view(r) == rendered(strokes@, traces@, width_px, height_px, opts.background),
{
    assert(width_px * height_px <= u32::MAX * u32::MAX) by (nonlinear_arith)
        requires
            width_px <= u32::MAX,
            height_px <= u32::MAX,
    ;
    let area = width_px as u64 * height_px as u64;
    if area > isize::MAX as u64 / 4 {
        return Err(InkError::Canvas);
    }
    let mut pixmap = match new_canvas(width_px, height_px) {
        Some(pixmap) => pixmap,
        None => return Err(InkError::Canvas),
    };
    match opts.background {
        Background::White => fill_white(&mut pixmap),
        Background::Transparent => {},
    }
    let ghost blank = canvas(pixmap).2;
    let mut i: usize = 0;
    assert(strokes@.take(0) =~= seq![]);
    while i < strokes.len()
        invariant
            i <= strokes@.len(),
            strokes@.len() == traces@.len(),
            canvas(pixmap) == (
                width_px,
                height_px,
                painted(width_px, height_px, blank, strokes@.take(i as int), traces@),
            ),
        decreases strokes@.len() - i,
    {
        let stroke = &strokes[i];
        proof {
            assert(strokes@.take(i + 1).drop_last() =~= strokes@.take(i as int));
        }
        let width = width_bits(&traces[i].pen);
        if stroke.points.len() >= 2 && (width <= 0x7f80_0000 || (width >= 0x8000_0000 && width
            <= 0xff80_0000)) {
            match &traces[i].path {
                Some(path) => {
                    let (r, g, b) = pen_rgb(stroke.color);
                    let alpha: u8 = if stroke.highlighter {
                        110
                    } else {
                        255
                    };
                    stroke_path(&mut pixmap, path, &traces[i].pen, (r, g, b, alpha));
                },
                None => {},
            }
        }
        i = i + 1;
    }
    assert(strokes@.take(strokes@.len() as int) =~= strokes@);
    match encode_png(&pixmap) {
        Some(bytes) => Ok(bytes),
        None => Err(InkError::Png),
    }
}

/// Renders the strokes cropped to their ink, whose extent in pixels is `span`, with
/// the margin around it.
pub fn render_strokes(
    strokes: &Vec<InkStroke>,
    traces: &Vec<Trace>,
    span: (u32, u32),
    opts: &InkOpts,
) -> (r: Result<Vec<u8>, InkError>)
    requires
        strokes@.len() == traces@.len(),
        span.0 + 2 * opts.margin_px <= u32::MAX,
        span.1 + 2 * opts.margin_px <= u32::MAX,
    ensures
        image_view(r) == if points_of(strokes@).len() == 0 {
            Err(InkError::NoPoints)
        } else if span.0 + 2 * opts.margin_px == 0 || span.1 + 2 * opts.margin_px == 0 {
            Err(InkError::Empty)
        } else {
            rendered(
                strokes@,
                traces@,
                (span.0 + 2 * opts.margin_px) as u32,
                (span.1 + 2 * opts.margin_px) as u32,
                opts.background,
            )
        },
{
    if ink_bbox(strokes).is_none() {
        return Err(InkError::NoPoints);
    }
    let w = span.0 + 2 * opts.margin_px;
    let h = span.1 + 2 * opts.margin_px;
    if w == 0 || h == 0 {
        return Err(InkError::Empty);
    }
    render_strokes_on_canvas(strokes, traces, w, h, opts)
}

/// Points have one set of bounds.
pub proof fn bounds_are_unique(
    points: Seq<Point>,
    a: (i64, i64, i64, i64),
    b: (i64, i64, i64, i64),
)
    requires
        bounds(points, a),
        bounds(points, b),
    ensures
        a == b,
{
}

/// The pixels depend on the lines of the strokes that are drawn only.
pub(crate) proof fn painted_alike(
    width: u32,
    height: u32,
    pixels: Seq<u8>,
    strokes: Seq<InkStroke>,
    traces: Seq<Trace>,
    others: Seq<Trace>,
)
    requires
        forall|j: int| 0 <= j < strokes.len() ==> traces[j] == #[trigger] others[j],
    ensures
        painted(width, height, pixels, strokes, traces) == painted(
            width,
            height,
            pixels,
            strokes,
            others,
        ),
    decreases strokes.len(),
{
    if strokes.len() > 0 {
        painted_alike(width, height, pixels, strokes.drop_last(), traces, others);
        assert(traces[strokes.len() - 1] == others[strokes.len() - 1]);
    }
}

/// The pixels are the same without a stroke of fewer than two points.
proof fn painted_without(
    width: u32,
    height: u32,
    pixels: Seq<u8>,
    strokes: Seq<InkStroke>,
    traces: Seq<Trace>,
    i: int,
)
    requires
        strokes.len() == traces.len(),
        0 <= i < strokes.len(),
        strokes[i].points@.len() < 2,
    ensures
        painted(width, height, pixels, strokes, traces) == painted(
            width,
            height,
            pixels,
            strokes.remove(i),
            traces.remove(i),
        ),
    decreases strokes.len(),
{
    let n = strokes.len() - 1;
    if i == n {
        assert(strokes.remove(i) =~= strokes.drop_last());
        painted_alike(width, height, pixels, strokes.drop_last(), traces, traces.remove(i));
    } else {
        let (fewer, rest) = (strokes.drop_last(), traces.drop_last());
        painted_without(width, height, pixels, fewer, rest, i);
        painted_alike(width, height, pixels, fewer, rest, traces);
        assert(strokes.remove(i).drop_last() =~= fewer.remove(i));
        painted_alike(
            width,
            height,
            pixels,
            fewer.remove(i),
            rest.remove(i),
            traces.remove(i),
        );
        assert(strokes.remove(i)[n - 1] == strokes[n]);
        assert(traces.remove(i)[n - 1] == traces[n]);
    }
}

/// Nothing is drawn of strokes of which none has two points.
proof fn nothing_painted(
    width: u32,
    height: u32,
    pixels: Seq<u8>,
    strokes: Seq<InkStroke>,
    traces: Seq<Trace>,
)
    requires
        forall|i: int| 0 <= i < strokes.len() ==> (#[trigger] strokes[i]).points@.len() < 2,
    ensures
        painted(width, height, pixels, strokes, traces) == pixels,
    decreases strokes.len(),
{
    if strokes.len() > 0 {
        nothing_painted(width, height, pixels, strokes.drop_last(), traces);
        assert(strokes[strokes.len() - 1].points@.len() < 2);
    }
}

/// Where no stroke has two points, every pixel of an image is background: opaque white,
/// or transparent.
pub proof fn without_lines_there_is_background(
    strokes: Seq<InkStroke>,
    traces: Seq<Trace>,
    width: u32,
    height: u32,
    background: Background,
)
    requires
        forall|i: int| 0 <= i < strokes.len() ==> (#[trigger] strokes[i]).points@.len() < 2,
    ensures
        rendered(strokes, traces, width, height, background) == if !fits(width, height) {
            Err::<Seq<u8>, InkError>(InkError::Canvas)
        } else {
            match png_bytes(
                width,
                height,
                uniform(
                    width,
                    height,
                    if background == Background::White {
                        255
                    } else {
                        0
                    },
                ),
            ) {
                Some(bytes) => Ok(bytes),
                None => Err(InkError::Png),
            }
        },
{
    nothing_painted(width, height, uniform(width, height, 255), strokes, traces);
    nothing_painted(width, height, uniform(width, height, 0), strokes, traces);
}

/// A stroke of fewer than two points makes no difference to an image.
pub proof fn short_strokes_leave_no_trace(
    strokes: Seq<InkStroke>,
    traces: Seq<Trace>,
    width: u32,
    height: u32,
    background: Background,
    i: int,
)
    requires
        strokes.len() == traces.len(),
        0 <= i < strokes.len(),
        strokes[i].points@.len() < 2,
    ensures
        rendered(strokes, traces, width, height, background) == rendered(
            strokes.remove(i),
            traces.remove(i),
            width,
            height,
            background,
        ),
{
    painted_without(width, height, uniform(width, height, 255), strokes, traces, i);
    painted_without(width, height, uniform(width, height, 0), strokes, traces, i);
}

} // verus!
