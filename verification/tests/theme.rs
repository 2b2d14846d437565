use rmdigest::theme::{default_palette, pen_rgb, PenColor};

#[test]
fn pen_rgb_yellow_maps_correctly() {
    assert_eq!(pen_rgb(PenColor::Yellow), (245, 208, 66));
}

#[test]
fn pen_rgb_black_falls_back_to_ink() {
    assert_eq!(pen_rgb(PenColor::Black), (60, 60, 60));
}

#[test]
fn pen_rgb_other_falls_back_to_ink() {
    assert_eq!(pen_rgb(PenColor::Other(999)), (60, 60, 60));
}

#[test]
fn pen_rgb_highlight_is_yellow() {
    assert_eq!(pen_rgb(PenColor::Highlight), (245, 208, 66));
}

#[test]
fn pen_rgb_of_the_other_pens() {
    assert_eq!(pen_rgb(PenColor::Green2), (120, 190, 110));
    assert_eq!(pen_rgb(PenColor::Pink), (235, 130, 170));
    assert_eq!(pen_rgb(PenColor::Cyan), (90, 150, 220));
    assert_eq!(pen_rgb(PenColor::Magenta), (210, 80, 80));
    assert_eq!(pen_rgb(PenColor::GrayOverlap), (140, 140, 140));
    assert_eq!(pen_rgb(PenColor::White), (255, 255, 255));
}

#[test]
fn the_palette_is_newsprint() {
    let p = default_palette();
    assert_eq!(p.ink, (26, 26, 26));
    assert_eq!(p.rule, (180, 180, 180));
    assert_eq!(p.paper, (250, 249, 246));
}
