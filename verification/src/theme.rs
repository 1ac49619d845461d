use vstd::prelude::*;

use crate::history::{Entry, EntryV};

verus! {

/// The palette the presentation layer understands. A bridge value
/// names a color; turning it into a concrete terminal style is the
/// presentation adapter's business, outside this crate.
#[derive(Clone, Copy, Debug, PartialEq, Eq)]
pub enum ColorBridge {
    Red,
    Green,
    Yellow,
    Blue,
    Magenta,
    Cyan,
    White,
    LightRed,
    LightYellow,
    LightGreen,
    LightBlue,
}

/// Which color each displayed field gets.
#[derive(Debug, PartialEq, Eq)]
pub struct Theme {
    pub prompt: ColorBridge,
    pub user_input: ColorBridge,
    pub index: ColorBridge,
    pub canonical: ColorBridge,
    pub raw: ColorBridge,
    pub selected: ColorBridge,
    pub assist: ColorBridge,
}

impl Theme {
    pub fn prompt(&self) -> (r: ColorBridge)
        ensures
            r == self.prompt,
    {
        self.prompt
    }

    pub fn index(&self) -> (r: ColorBridge)
        ensures
            r == self.index,
    {
        self.index
    }

    pub fn canonical(&self) -> (r: ColorBridge)
        ensures
            r == self.canonical,
    {
        self.canonical
    }

    pub fn raw(&self) -> (r: ColorBridge)
        ensures
            r == self.raw,
    {
        self.raw
    }

    pub fn selected(&self) -> (r: ColorBridge)
        ensures
            r == self.selected,
    {
        self.selected
    }

    pub fn assist(&self) -> (r: ColorBridge)
        ensures
            r == self.assist,
    {
        self.assist
    }
}

impl Default for Theme {
    fn default() -> (r: Theme)
        ensures
            r == (Theme {
                prompt: ColorBridge::LightRed,
                user_input: ColorBridge::White,
                index: ColorBridge::LightYellow,
                canonical: ColorBridge::LightGreen,
                raw: ColorBridge::LightBlue,
                selected: ColorBridge::LightGreen,
                assist: ColorBridge::LightYellow,
            }),
    {
        Theme {
            prompt: ColorBridge::LightRed,
            user_input: ColorBridge::White,
            index: ColorBridge::LightYellow,
            canonical: ColorBridge::LightGreen,
            raw: ColorBridge::LightBlue,
            selected: ColorBridge::LightGreen,
            assist: ColorBridge::LightYellow,
        }
    }
}

/// A value paired with the color it should be rendered in.
pub struct StyledBridge<T> {
    pub content: T,
    pub style: ColorBridge,
}

impl<T> StyledBridge<T> {
    pub fn new(content: T, style: ColorBridge) -> (r: Self)
        ensures
            r.content == content,
            r.style == style,
    {
        StyledBridge { content, style }
    }
}

/// One listing row with each field paired to its color, ready for the
/// presentation adapter to render.
pub struct StyledEntry {
    pub index: StyledBridge<usize>,
    pub raw: StyledBridge<String>,
    pub canonical: StyledBridge<String>,
}

impl StyledEntry {
    /// The row's data shorn of styling: exactly what the engine
    /// records when the user picks this row.
    pub fn to_entry(&self) -> (r: Entry)
        ensures
            r@ == (EntryV { raw: self.raw.content@, canonical: self.canonical.content@ }),
    {
        Entry { raw: self.raw.content.clone(), canonical: self.canonical.content.clone() }
    }
}

impl Entry {
    /// Pairs the entry's fields and its window position with the
    /// theme's colors for display.
    pub fn prettify(&self, index: usize, theme: &Theme) -> (r: StyledEntry)
        ensures
            r.index.content == index,
            r.index.style == theme.index,
            r.canonical.content@ == self@.canonical,
            r.canonical.style == theme.canonical,
            r.raw.content@ == self@.raw,
            r.raw.style == theme.raw,
    {
        StyledEntry {
            index: StyledBridge::new(index, theme.index),
            canonical: StyledBridge::new(self.canonical.clone(), theme.canonical),
            raw: StyledBridge::new(self.raw.clone(), theme.raw),
        }
    }
}

} // verus!
