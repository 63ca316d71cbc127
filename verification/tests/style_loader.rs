use giui::font::FontId;
use giui::style_loader::{grid_frames, nine_slice, StyleLoader, StyleLoaderCallback};

struct Textures {
    loaded: Vec<String>,
}

impl StyleLoaderCallback for Textures {
    fn load_texture(&mut self, name: String) -> (u32, u32, u32) {
        self.loaded.push(name);
        (self.loaded.len() as u32, 256, 128)
    }
    fn load_font(&mut self, name: String) -> FontId {
        self.loaded.push(name);
        FontId::new(7)
    }
}

#[test]
fn loader_asks_the_callback() {
    let mut loader = StyleLoader::new(Textures { loaded: Vec::new() });
    assert_eq!(loader.load_texture("a.png".into()), (1, 256, 128));
    assert_eq!(loader.load_texture("b.png".into()), (2, 256, 128));
    assert_eq!(loader.load_font("Sans".into()), FontId::new(7));
}

#[test]
fn animated_icon_grid() {
    // the grid of the animated icon style: 4 columns, 2 rows, 6 frames, over 256x256 pixels
    let frames = grid_frames([0, 0, 256, 256], 2, 4, Some(6));
    assert_eq!(
        frames,
        vec![
            [0, 0, 64, 128],
            [64, 0, 64, 128],
            [128, 0, 64, 128],
            [192, 0, 64, 128],
            [0, 128, 64, 128],
            [64, 128, 64, 128],
        ]
    );
}

#[test]
fn grid_len_defaults_to_all_cells() {
    let frames = grid_frames([10, 20, 30, 40], 2, 2, None);
    assert_eq!(
        frames,
        vec![[10, 20, 10, 10], [20, 20, 10, 10], [10, 30, 10, 10], [20, 30, 10, 10]]
    );
}

#[test]
fn grid_len_zero_or_too_large_gives_all_cells() {
    assert_eq!(grid_frames([0, 0, 4, 2], 1, 2, Some(0)).len(), 2);
    assert_eq!(grid_frames([0, 0, 4, 2], 1, 2, Some(9)).len(), 2);
    assert_eq!(grid_frames([0, 0, 4, 2], 1, 2, Some(1)), vec![[0, 0, 2, 2]]);
}

#[test]
fn grid_rounds_cells_toward_zero() {
    // 10 pixels in 3 columns: cells of 3 pixels; a reversed rectangle gives negative cells
    assert_eq!(grid_frames([0, 0, 10, 1], 1, 3, None), vec![[0, 0, 3, 1], [3, 0, 3, 1], [6, 0, 3, 1]]);
    assert_eq!(grid_frames([10, 0, 0, 1], 1, 3, None), vec![[10, 0, -3, 1], [7, 0, -3, 1], [4, 0, -3, 1]]);
}

#[test]
fn panel_nine_slice() {
    // the panel style: a 48x48 rectangle with a border of 16 pixels
    let pieces = nine_slice([0, 0, 48, 48], [16, 16, 16, 16]);
    assert_eq!(
        pieces,
        [
            [0, 0, 16, 16],
            [16, 0, 16, 16],
            [32, 0, 16, 16],
            [0, 16, 16, 16],
            [16, 16, 16, 16],
            [32, 16, 16, 16],
            [0, 32, 16, 16],
            [16, 32, 16, 16],
            [32, 32, 16, 16],
        ]
    );
}

#[test]
fn panel_nine_slice_uneven_border() {
    let pieces = nine_slice([0, 0, 30, 20], [2, 3, 4, 5]);
    assert_eq!(pieces[0], [0, 0, 2, 3]);
    assert_eq!(pieces[4], [2, 3, 24, 12]);
    assert_eq!(pieces[8], [26, 15, 4, 5]);
}

#[test]
fn panel_nine_slice_right_column_from_x() {
    // the third column starts at x + width - right: the panel of a 60x60 texture whose rect is
    // (30, 0, 30, 30) with a border of 10 has it at 50
    let pieces = nine_slice([30, 0, 30, 30], [10, 10, 10, 10]);
    assert_eq!(pieces[0], [30, 0, 10, 10]);
    assert_eq!(pieces[1], [40, 0, 10, 10]);
    assert_eq!(pieces[2], [50, 0, 10, 10]);
    assert_eq!(pieces[8], [50, 20, 10, 10]);
}
