use giui::flags::{InputFlags, LayoutDirtyFlags, RenderDirtyFlags};
use giui::font::{Font, FontId, Fonts};
use giui::layout::{Alignment, RectFill};

#[test]
fn render_flags() {
    let mut f = RenderDirtyFlags::empty();
    assert!(f.is_empty());
    f.insert(RenderDirtyFlags::from_bits_truncate(RenderDirtyFlags::WIDTH));
    assert!(f.contains(RenderDirtyFlags::from_bits_truncate(RenderDirtyFlags::WIDTH)));
    assert!(!f.contains(RenderDirtyFlags::all()));
    f.remove(RenderDirtyFlags::from_bits_truncate(RenderDirtyFlags::WIDTH));
    assert!(f.is_empty());
    assert_eq!(RenderDirtyFlags::from_bits_truncate(0xff).bits(), 0x7);
    assert_eq!(RenderDirtyFlags::default(), RenderDirtyFlags::all());
}

#[test]
fn layout_flags() {
    let mut f = LayoutDirtyFlags::empty();
    f.insert(LayoutDirtyFlags::from_bits_truncate(LayoutDirtyFlags::DIRTY));
    let min = LayoutDirtyFlags::from_bits_truncate(LayoutDirtyFlags::MIN_WIDTH | LayoutDirtyFlags::MIN_HEIGHT);
    assert!(!f.intersects(min));
    f.insert(LayoutDirtyFlags::from_bits_truncate(LayoutDirtyFlags::MIN_HEIGHT));
    assert!(f.intersects(min));
    assert_eq!(f.bits(), 0x30);
    assert_eq!(LayoutDirtyFlags::all().bits(), 0x3f);
}

#[test]
fn input_flags() {
    let mut f = InputFlags::empty();
    f.insert(InputFlags::from_bits_truncate(InputFlags::FOCUS));
    assert!(f.contains(InputFlags::from_bits_truncate(InputFlags::FOCUS)));
    assert!(!f.contains(InputFlags::from_bits_truncate(InputFlags::MOUSE)));
}

#[test]
fn font_ids() {
    assert_eq!(FontId::new(3).index(), 3);
    assert_eq!(FontId::default(), FontId::new(0));
}

#[test]
fn fonts_start_empty() {
    let fonts = Fonts::new();
    assert!(fonts.get(FontId::new(0)).is_none());
    assert!(fonts.as_slice().is_empty());
}

#[test]
fn garbage_is_not_a_font() {
    assert!(Font::try_new(&[1, 2, 3, 4]).is_none());
    assert!(Font::try_new(&[]).is_none());
}

#[test]
fn layout_defaults() {
    assert_eq!(RectFill::default(), RectFill::Fill);
    assert_eq!(Alignment::default(), Alignment::Start);
}
