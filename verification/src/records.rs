//! The data stored in the database: keys paired with language facts.

use vstd::prelude::*;

verus! {

/// Whether a language checks its types before or while the program runs.
#[derive(Clone, Copy, Debug, PartialEq, Eq, Structural)]
pub enum Typing {
    Dynamic,
    Static,
}

/// The value stored under one key.
#[derive(Debug)]
pub struct LanguageInfo {
    pub creator: String,
    pub year: u16,
    pub typing: Typing,
}

/// Mathematical image of a [`LanguageInfo`].
pub struct InfoView {
    pub creator: Seq<char>,
    pub year: u16,
    pub typing: Typing,
}

impl View for LanguageInfo {
    type V = InfoView;

    open spec fn view(&self) -> InfoView {
        InfoView { creator: self.creator@, year: self.year, typing: self.typing }
    }
}

/// One logical write: a key paired with the value stored under it.
#[derive(Debug)]
pub struct Record {
    pub key: String,
    pub value: LanguageInfo,
}

/// Mathematical image of a [`Record`].
pub struct RecordView {
    pub key: Seq<char>,
    pub value: InfoView,
}

impl View for Record {
    type V = RecordView;

    open spec fn view(&self) -> RecordView {
        RecordView { key: self.key@, value: self.value@ }
    }
}

} // verus!
