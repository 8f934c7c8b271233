//! The page's records as plain values: its lines, ayahs, words, paths and decorations.
use vstd::prelude::*;

verus! {

/// What a path draws.
#[derive(Clone, Copy, Debug, PartialEq, Eq, Hash, Structural)]
pub enum PathKind {
    Body,
    Mark,
    AyahNumber,
    AyahMarkOrnament,
    HeaderInk,
    Ornament,
    PageNumber,
    RunningHead,
}

/// What a decoration is.
#[derive(Clone, Copy, Debug, PartialEq, Eq, Hash, Structural)]
pub enum DecoKind {
    AyahMark,
    SurahName,
    Basmalah,
    SajdahMark,
    HizbMark,
    DivisionMark,
    PageNumber,
    RunningHead,
    Other,
}

/// Sentinel for an absent 16-bit index (no string, no line, no decoration).
pub const NONE_U16: u16 = 0xffff;

/// Mark codes of the taxonomy the page logic itself looks at.
pub const MARK_SAJDAH_SIGN: u8 = 30;
pub const MARK_SAJDAH_LINE: u8 = 31;

/// The largest coordinate magnitude a box may carry: differences of two coordinates, and a
/// coordinate less a tolerance, stay within `i32`.
pub const COORD_LIMIT: i32 = 0x3fff_ffff;

/// An axis-aligned box in quantised page units, inclusive on every side.
#[derive(Clone, Copy, Debug, PartialEq, Eq, Structural)]
pub struct IBox {
    pub x0: i32,
    pub y0: i32,
    pub x1: i32,
    pub y1: i32,
}

impl IBox {
    pub open spec fn spec_is_empty(self) -> bool {
        self.x0 > self.x1 || self.y0 > self.y1
    }

    /// Every coordinate within the limit.
    pub open spec fn bounded(self) -> bool {
        &&& -COORD_LIMIT <= self.x0 <= COORD_LIMIT
        &&& -COORD_LIMIT <= self.y0 <= COORD_LIMIT
        &&& -COORD_LIMIT <= self.x1 <= COORD_LIMIT
        &&& -COORD_LIMIT <= self.y1 <= COORD_LIMIT
    }

    /// The box that holds nothing; a union with it gives the other box back.
    pub open spec fn spec_empty() -> IBox {
        IBox { x0: i32::MAX, y0: i32::MAX, x1: i32::MIN, y1: i32::MIN }
    }

    pub open spec fn spec_union(self, o: IBox) -> IBox {
        IBox {
            x0: if o.x0 < self.x0 { o.x0 } else { self.x0 },
            y0: if o.y0 < self.y0 { o.y0 } else { self.y0 },
            x1: if o.x1 > self.x1 { o.x1 } else { self.x1 },
            y1: if o.y1 > self.y1 { o.y1 } else { self.y1 },
        }
    }

    pub fn empty() -> (b: IBox)
        ensures
            b == IBox::spec_empty(),
    {
        IBox { x0: i32::MAX, y0: i32::MAX, x1: i32::MIN, y1: i32::MIN }
    }

    pub fn is_empty(&self) -> (r: bool)
        ensures
            r == self.spec_is_empty(),
    {
        self.x0 > self.x1 || self.y0 > self.y1
    }

    /// Whether every coordinate is within the limit.
    pub fn is_bounded(&self) -> (r: bool)
        ensures
            r == self.bounded(),
    {
        -COORD_LIMIT <= self.x0 && self.x0 <= COORD_LIMIT && -COORD_LIMIT <= self.y0 && self.y0 <= COORD_LIMIT
            && -COORD_LIMIT <= self.x1 && self.x1 <= COORD_LIMIT && -COORD_LIMIT <= self.y1 && self.y1
            <= COORD_LIMIT
    }

    /// Grow this box to hold `o` too.
    pub fn union(&mut self, o: &IBox)
        ensures
            *final(self) == old(self).spec_union(*o),
    {
        if o.x0 < self.x0 {
            self.x0 = o.x0;
        }
        if o.y0 < self.y0 {
            self.y0 = o.y0;
        }
        if o.x1 > self.x1 {
            self.x1 = o.x1;
        }
        if o.y1 > self.y1 {
            self.y1 = o.y1;
        }
    }

    pub fn contains(&self, x: i32, y: i32) -> (r: bool)
        ensures
            r == (self.x0 <= x <= self.x1 && self.y0 <= y <= self.y1),
    {
        self.x0 <= x && x <= self.x1 && self.y0 <= y && y <= self.y1
    }
}

/// One drawn path: what it is, which mark of the taxonomy (0 for none), its family and the
/// category of its mark, and its box.
#[derive(Clone, Copy, Debug, PartialEq, Eq, Structural)]
pub struct PathRec {
    pub kind: PathKind,
    pub mark: u8,
    pub family: u8,
    pub category: u8,
    pub bbox: IBox,
}

/// One word: its id, the line it is printed on, its paths and its box.
#[derive(Clone, Copy, Debug, PartialEq, Eq, Structural)]
pub struct WordRec {
    pub surah: u16,
    pub ayah: u16,
    pub word: u16,
    pub line_index: u16,
    pub ayah_index: u16,
    pub first_path: u32,
    pub n_paths: u16,
    pub bbox: IBox,
}

/// The string index of each of a word's text forms (`NONE_U16` where absent): its Uthmani
/// text, its imlai spelling, the QPC encoding, the bare rasm, and the search form.
#[derive(Clone, Copy, Debug, PartialEq, Eq, Structural)]
pub struct WordStrings {
    pub text: u16,
    pub rasm_imlai: u16,
    pub qpc: u16,
    pub rasm: u16,
    pub search: u16,
}

/// One printed line: its number on the page and its words.
#[derive(Clone, Copy, Debug, PartialEq, Eq, Structural)]
pub struct LineRec {
    pub line_number: u8,
    pub first_word: u16,
    pub n_words: u16,
    pub bbox: IBox,
}

/// Ayah starts division flags.
/// Path flag: the path is filled by the even-odd rule.
pub const PF_EVENODD: u8 = 1;

pub const AF_JUZ_START: u8 = 1;
pub const AF_HIZB_START: u8 = 2;
pub const AF_NISF_START: u8 = 4;
pub const AF_RUBU_AL_HIZB_START: u8 = 8;

/// One fragment of an ayah on the page (an ayah can run over pages: `fragment` of
/// `fragments`), the divisions it starts, its words and the decoration of its closing mark.
#[derive(Clone, Copy, Debug, PartialEq, Eq, Structural)]
pub struct AyahRec {
    pub surah: u16,
    pub ayah: u16,
    pub fragment: u8,
    pub fragments: u8,
    pub flags: u8,
    pub first_word: u16,
    pub n_words: u16,
    pub ayah_mark_decoration: u16,
    pub rubu_al_hizb: u16,
    pub bbox: IBox,
}

/// One decoration: what it is, the ayah it belongs to, its text (string index or
/// `NONE_U16`), its paths, the line it was stored with (`NONE_U16` when none) and its box.
#[derive(Clone, Copy, Debug, PartialEq, Eq, Structural)]
pub struct DecoRec {
    pub kind: DecoKind,
    pub surah: u16,
    pub ayah: u16,
    pub text: u16,
    pub first_path: u32,
    pub n_paths: u16,
    pub line: u16,
    pub bbox: IBox,
}

/// A page's records: the quantisation, the page number, and its lines, ayahs, words (with the
/// text forms of each word beside it), paths, decorations and strings.
pub struct PageData {
    pub quant: u16,
    pub page: u16,
    pub lines: Vec<LineRec>,
    pub ayahs: Vec<AyahRec>,
    pub words: Vec<WordRec>,
    pub word_strings: Vec<WordStrings>,
    pub paths: Vec<PathRec>,
    pub decorations: Vec<DecoRec>,
    pub strings: Vec<String>,
}

pub open spec fn string_ok(i: u16, n: nat) -> bool {
    i == NONE_U16 || i < n
}

impl PageData {
    pub open spec fn word_ok(&self, w: WordRec) -> bool {
        &&& w.first_path + w.n_paths <= self.paths@.len()
        &&& w.line_index < self.lines@.len()
        &&& w.bbox.bounded()
    }

    pub open spec fn strings_ok(&self, t: WordStrings) -> bool {
        &&& string_ok(t.text, self.strings@.len())
        &&& string_ok(t.rasm_imlai, self.strings@.len())
        &&& string_ok(t.qpc, self.strings@.len())
        &&& string_ok(t.rasm, self.strings@.len())
        &&& string_ok(t.search, self.strings@.len())
    }

    pub open spec fn deco_ok(&self, d: DecoRec) -> bool {
        &&& d.first_path + d.n_paths <= self.paths@.len()
        &&& string_ok(d.text, self.strings@.len())
        &&& d.bbox.bounded()
    }

    /// Every index a record holds points into the page, the record counts leave room for the
    /// `u32` sentinel, and every box is within the coordinate limit.
    pub open spec fn wf(&self) -> bool {
        &&& self.paths@.len() < u32::MAX
        &&& self.words@.len() < u32::MAX
        &&& self.decorations@.len() < u32::MAX
        &&& self.lines@.len() < u32::MAX
        &&& self.ayahs@.len() < u32::MAX
        &&& self.strings@.len() <= NONE_U16
        &&& self.word_strings@.len() == self.words@.len()
        &&& forall|i: int| 0 <= i < self.words@.len() ==> self.word_ok(#[trigger] self.words@[i])
        &&& forall|i: int| 0 <= i < self.words@.len() ==> self.strings_ok(#[trigger] self.word_strings@[i])
        &&& forall|i: int| 0 <= i < self.decorations@.len() ==> self.deco_ok(#[trigger] self.decorations@[i])
        &&& forall|i: int|
            0 <= i < self.lines@.len() ==> (#[trigger] self.lines@[i]).first_word + self.lines@[i].n_words
                <= self.words@.len() && self.lines@[i].bbox.bounded()
        &&& forall|i: int|
            0 <= i < self.ayahs@.len() ==> (#[trigger] self.ayahs@[i]).first_word + self.ayahs@[i].n_words
                <= self.words@.len()
        &&& forall|i: int| 0 <= i < self.paths@.len() ==> (#[trigger] self.paths@[i]).bbox.bounded()
    }
}

} // verus!
