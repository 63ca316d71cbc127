# giui

The core of a retained-mode GUI library, verified with Verus.

`src/` is the verified library:

- `control`: the slab of controls with generational Ids, the control tree (parents, children,
  ancestors, lowest common ancestor), focus changes, activation, tab navigation, the walk of a
  subtree and the path of the pointer down the tree.
- `text`: spanned strings (shape spans that give the font and size of ranges of the text, and
  style spans), adding spans, splitting them, and replacing ranges of the text.
- `text_layout`: line break opportunities and the split of a text into paragraphs.
- `editor`: the cursor and selection of a text editor, moved by grapheme clusters and lines.
- `scheduler`: events scheduled at a time, handed out earliest first, and cancelled by key.
- `event`, `flags`, `layout`, `color`, `font`, `style_loader`, `render`, `util`: the events a GUI
  exchanges, dirty and input flags, alignment enums, colors (and their hex notation), fonts, the
  geometry of nine-slice panels and animated icon grids, and the sprites a renderer can reuse.

Two limits are worth knowing. Each
`Controls` counts the generations of its Ids itself, so an Id is unique within the `Controls`
that handed it out (until its counter wraps around), not across every `Controls` of the program.
And `util::WithPriority` has no `==` or ordering by its priority: compare `priority()` instead.

Each public function states its result in its contract; the laws that span functions stand as
public proof functions (`lemma_*`) beside them.

`app/` is the rest of the GUI, in ordinary Rust: rects and graphics in floating point pixels, text
placed with font metrics, the renderer and its glyph cache, the style file loader (serde and ron),
and the driver that calls the behaviours and layouts that a program implements.

`tests/` runs the library on concrete values.
