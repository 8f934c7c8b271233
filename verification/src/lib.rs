//! Mushaf page engine: Arabic text tools and search keys, the words sidecar reader,
//! styles, masks and reveal, targets and citations over a page's text model, the
//! taxonomy's name tables, and the byte writers of the surah-name font.
pub mod strings;
pub mod text;
pub mod sidecar;
pub mod font;
pub mod model;
pub mod style;
pub mod modes;
pub mod convert;
pub mod page;
pub mod memorize;
pub mod selection;
pub mod target;
pub mod forms;
pub mod names;
pub mod zoom_levels;
pub mod meta;
pub mod webfont;
pub mod json;
pub mod json_value;
pub mod atlas;
pub mod anchors;
pub mod colors;
pub mod taxonomy;
pub mod escapes;
pub mod index_laws;

pub use memorize::{MaskMode, MaskState, Reveal};
pub use meta::{Division, Rosette, SurahInfo};
pub use modes::{BandHeight, Breaks, Fill, GapMode, HighlightMode, Sideways, ZoomMode};
pub use page::Page;
pub use selection::{Selection, Target};
pub use sidecar::{parse_words_sidecar, WordForms};
pub use style::{
    Handle, Paint, Selector, StyleEngine, Theme, LAYER_BASE, LAYER_HIGHLIGHT, LAYER_SELECTION, LAYER_THEME, LAYER_TOP,
};
pub use text::{
    fold, is_arabic_mark, loose_key, normalize_query, search_key, search_variants, strip_marks, Form, Match,
    SearchMode, SearchOptions,
};
