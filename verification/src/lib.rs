//! A render-agnostic GUI toolkit: colors, the control tree, focus and activation, the lazy and
//! scheduled events, rich text with shape and style spans, text editing, paragraphs and line
//! breaks, and the rules of style files, with their behaviour stated as contracts.

pub mod color;
pub mod control;
pub mod editor;
pub mod event;
pub mod flags;
pub mod font;
pub mod layout;
pub mod render;
pub mod scheduler;
pub mod style_loader;
pub mod text;
pub mod text_layout;
pub mod util;

pub use color::Color;
