//! Arabic text shaping and visual right-to-left reordering for game engines
//! that only render left to right.
//!
//! The text is handled as a sequence of characters: `shaping` turns Arabic
//! letters into their contextual presentation forms, `tokens` splits a line
//! into tags, left-to-right, right-to-left and neutral runs, `reordering`
//! puts the runs in visual order and drives the whole pipeline, and
//! `normalize` cleans up spacing and step markers afterwards.
pub mod char_class;
pub mod detection;
pub mod laws;
pub mod normalize;
pub mod reordering;
pub mod shaping;
pub mod text;
pub mod tokens;

pub use detection::{contains_arabic_letters, is_arabic_char, is_arabic_numeral, is_bidi_mark, is_diacritic};
pub use normalize::normalize_visual_rtl_output;
pub use reordering::{manual_rtl_for_unity, reshape_arabic, try_manual_rtl_for_unity, try_reshape_arabic};
pub use shaping::{apply_arabic_shaping, get_arabic_form};
