use giui::font::FontId;
use giui::text::{ShapeSpan, Span, SpannedString, StyleKind, TextStyle};
use giui::Color;

fn shape(start: usize, end: usize, font_id: FontId) -> ShapeSpan {
    ShapeSpan {
        byte_range: start..end,
        font_size: 16.0f32.to_bits(),
        font_id,
    }
}

#[test]
fn add_span() {
    let mut spanned = SpannedString::from_string("012345678".into(), Default::default());
    let a = FontId::new(1);
    let b = FontId::new(2);
    let c = FontId::new(3);
    let d = FontId::new(0);
    spanned.add_span(3..6, Span::FontId(a));
    spanned.add_span(1..4, Span::FontId(b));
    spanned.add_span(2..5, Span::FontId(c));
    assert_eq!(
        spanned.shape_spans(),
        &vec![
            shape(0, 1, d),
            shape(1, 2, b),
            shape(2, 5, c),
            shape(5, 6, a),
            shape(6, 9, d),
        ][..]
    );
    spanned.replace_range(3..7, "");
    assert_eq!(
        spanned.shape_spans(),
        &vec![shape(0, 1, d), shape(1, 2, b), shape(2, 3, c), shape(3, 5, d)][..]
    );
    assert_eq!(spanned.string(), "01278");
    spanned.replace_range(3..3, "aaa");
    assert_eq!(spanned.string(), "012aaa78");
    assert_eq!(
        spanned.shape_spans(),
        &vec![shape(0, 1, d), shape(1, 2, b), shape(2, 3, c), shape(3, 8, d)][..]
    );
}

#[test]
fn replace_range() {
    let mut spanned = SpannedString::from_string("Hel".into(), Default::default());
    spanned.replace_range(1..2, "");
    assert_eq!(spanned.shape_spans(), &vec![shape(0, 2, FontId::new(0))][..]);
}

#[test]
fn replace_range2() {
    let mut spanned = SpannedString::from_string("0123456789ab".into(), Default::default());
    spanned.add_span(8..11, Span::FontSize(0.1f32.to_bits()));
    spanned.replace_range(8..11, "_");
    assert_eq!(spanned.shape_spans(), &vec![shape(0, 10, FontId::new(0))][..]);
}

#[test]
fn replace_range3() {
    let mut spanned = SpannedString::from_string("012".into(), Default::default());
    spanned.replace_range(1..1, "_");
    assert_eq!(spanned.shape_spans(), &vec![shape(0, 4, FontId::new(0))][..]);
    spanned.replace_range(1..2, "_");
    assert_eq!(spanned.shape_spans(), &vec![shape(0, 4, FontId::new(0))][..]);
}

#[test]
fn split_shape() {
    let mut spanned = SpannedString::from_string("0123456789ab".into(), Default::default());
    spanned.split_shape_span(4);
    spanned.split_shape_span(7);
    spanned.split_shape_span(1);
    spanned.split_shape_span(4);
    spanned.split_shape_span(40);
    spanned.split_shape_span(0);
    let d = FontId::new(0);
    assert_eq!(
        spanned.shape_spans(),
        &vec![shape(0, 1, d), shape(1, 4, d), shape(4, 7, d), shape(7, 12, d)][..]
    );
}

#[test]
fn new_string_is_empty() {
    let spanned = SpannedString::new(TextStyle::default());
    assert_eq!(spanned.string(), "");
    assert!(spanned.shape_spans().is_empty());
    assert!(spanned.style_spans().is_empty());
}

#[test]
fn default_text_style() {
    let style = TextStyle::default();
    assert_eq!(style.font_size, 0x4180_0000);
    assert_eq!(style.font_id, FontId::new(0));
    assert_eq!(style.color, Color::black());
    let red = style.with_color(Color::from_array([255, 0, 0, 255]));
    assert_eq!(red.color, Color::from_array([255, 0, 0, 255]));
    assert_eq!(red.font_size, style.font_size);
}

#[test]
fn color_span_becomes_style_span() {
    let mut spanned = SpannedString::from_string("hello".into(), Default::default());
    let red = Color::from_array([255, 0, 0, 255]);
    spanned.add_span(1..3, Span::Color(red));
    let styles = spanned.style_spans();
    assert_eq!(styles.len(), 1);
    assert_eq!(styles[0].byte_range, 1..3);
    assert_eq!(styles[0].kind, StyleKind::Color(red));
    // the shape is untouched
    assert_eq!(spanned.shape_spans(), &vec![shape(0, 5, FontId::new(0))][..]);
}

#[test]
fn style_kind_from_span() {
    let c = Color::white();
    assert_eq!(StyleKind::from_span(Span::Color(c)), Ok(StyleKind::Color(c)));
    assert_eq!(
        StyleKind::from_span(Span::Selection { bg: c, fg: None }),
        Ok(StyleKind::Selection { bg: c, fg: None })
    );
    assert_eq!(
        StyleKind::from_span(Span::FontSize(3)),
        Err(Span::FontSize(3))
    );
}

#[test]
fn replace_range_drops_style_spans_inside() {
    let mut spanned = SpannedString::from_string("0123456789".into(), Default::default());
    spanned.add_span(2..4, Span::Color(Color::white()));
    spanned.add_span(6..9, Span::Color(Color::black()));
    spanned.replace_range(1..5, "");
    assert_eq!(spanned.string(), "056789");
    let styles = spanned.style_spans();
    assert_eq!(styles.len(), 1);
    assert_eq!(styles[0].kind, StyleKind::Color(Color::black()));
}

#[test]
fn replace_range_backwards_is_insertion() {
    let mut spanned = SpannedString::from_string("abc".into(), Default::default());
    spanned.replace_range(2..1, "X");
    assert_eq!(spanned.string(), "abXc");
}

#[test]
fn clear_and_set_style() {
    let mut spanned = SpannedString::from_string("abc".into(), Default::default());
    spanned.clear();
    assert_eq!(spanned.string(), "");
    assert!(spanned.shape_spans().is_empty());
    let style = TextStyle::default().with_color(Color::white());
    spanned.set_style(style);
    assert_eq!(spanned.default_text_style(), style);
}

#[test]
fn replacing_back_restores_the_text() {
    let mut spanned = SpannedString::from_string("hello world".into(), Default::default());
    let removed = spanned.string()[2..7].to_string();
    spanned.replace_range(2..7, "XY");
    assert_eq!(spanned.string(), "heXYorld");
    spanned.replace_range(2..4, &removed);
    assert_eq!(spanned.string(), "hello world");
}

#[test]
fn clear_selections_keeps_colors() {
    let mut spanned = SpannedString::from_string("hello".into(), Default::default());
    let white = Color::white();
    spanned.add_span(0..2, Span::Selection { bg: white, fg: None });
    spanned.add_span(1..3, Span::Color(white));
    spanned.add_span(2..4, Span::Selection { bg: white, fg: Some(white) });
    spanned.clear_selections();
    let styles = spanned.style_spans();
    assert_eq!(styles.len(), 1);
    assert_eq!(styles[0].byte_range, 1..3);
    assert_eq!(styles[0].kind, StyleKind::Color(white));
}

#[test]
fn font_applies_to_exactly_its_range() {
    let mut spanned = SpannedString::from_string("abcdef".into(), Default::default());
    let f = FontId::new(5);
    spanned.add_span(2..4, Span::FontId(f));
    spanned.add_span(0..6, Span::FontSize(20.0f32.to_bits()));
    let size = 20.0f32.to_bits();
    assert_eq!(
        spanned.shape_spans(),
        &vec![
            ShapeSpan { byte_range: 0..2, font_size: size, font_id: FontId::new(0) },
            ShapeSpan { byte_range: 2..4, font_size: size, font_id: f },
            ShapeSpan { byte_range: 4..6, font_size: size, font_id: FontId::new(0) },
        ][..]
    );
}
