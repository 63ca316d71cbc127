use giui::font::FontId;
use giui::text::{ShapeSpan, SpannedString};
use giui::text_layout::{classify_breaks, layout_paragraphs, line_breaks, style_glyph_range};

#[test]
fn breaks_of_a_sentence() {
    let (allowed, mandatory) = line_breaks("Hello world!");
    assert_eq!(allowed, vec![6]);
    assert_eq!(mandatory, vec![12]);
}

#[test]
fn classify_keeps_order() {
    let (allowed, mandatory) = classify_breaks(&[(2, false), (4, true), (5, false), (9, true)]);
    assert_eq!(allowed, vec![2, 5]);
    assert_eq!(mandatory, vec![4, 9]);
}

#[test]
fn paragraphs_split_at_mandatory_breaks() {
    let mut text = SpannedString::from_string("ab\ncd".into(), Default::default());
    let (_, mandatory) = line_breaks(text.string());
    assert_eq!(mandatory, vec![3, 5]);
    let paragraphs = layout_paragraphs(&mut text, &mandatory);
    assert_eq!(paragraphs, vec![0..1, 1..2]);
    let size = 16.0f32.to_bits();
    let id = FontId::new(0);
    assert_eq!(
        text.shape_spans(),
        &vec![
            ShapeSpan { byte_range: 0..3, font_size: size, font_id: id },
            ShapeSpan { byte_range: 3..5, font_size: size, font_id: id },
        ][..]
    );
}

#[test]
fn style_covers_glyphs() {
    // glyphs of 1, 2 and 3 bytes
    let glyphs = [0..1, 1..3, 3..6, 6..7];
    assert_eq!(style_glyph_range(&glyphs, 1..6), 1..3);
    assert_eq!(style_glyph_range(&glyphs, 2..4), 1..2);
    assert_eq!(style_glyph_range(&glyphs, 0..0), 0..0);
}
