//! The small enumerations of the launcher's resolved configuration that
//! the core consumes or hands to the selection collaborator by name.

use vstd::prelude::*;
use vstd::string::StringExecFns;

verus! {

/// The fuzzy-matching algorithm handed to the selection collaborator.
#[derive(Copy, Clone, PartialEq, Eq, Structural, Debug)]
pub enum Algorithm {
    SkimV1,
    SkimV2,
    Clangd,
}

impl Algorithm {
    /// The name under which the selection collaborator knows the
    /// algorithm.
    pub fn as_str(&self) -> (r: &'static str)
        ensures
            *self is SkimV1 ==> r@ == "skim_v1"@,
            *self is SkimV2 ==> r@ == "skim_v2"@,
            *self is Clangd ==> r@ == "clangd"@,
    {
        match self {
            Algorithm::SkimV1 => "skim_v1",
            Algorithm::SkimV2 => "skim_v2",
            Algorithm::Clangd => "clangd",
        }
    }
}

/// The tie-breaking criterion for equally scored matches.
#[derive(Copy, Clone, PartialEq, Eq, Structural, Debug)]
pub enum Tiebreak {
    Score,
    Index,
    Begin,
    End,
}

impl Tiebreak {
    /// The name under which the selection collaborator knows the
    /// criterion.
    pub fn to_string(&self) -> (r: String)
        ensures
            *self is Score ==> r@ == "score"@,
            *self is Index ==> r@ == "index"@,
            *self is Begin ==> r@ == "begin"@,
            *self is End ==> r@ == "end"@,
    {
        match self {
            Tiebreak::Score => String::from_str("score"),
            Tiebreak::Index => String::from_str("index"),
            Tiebreak::Begin => String::from_str("begin"),
            Tiebreak::End => String::from_str("end"),
        }
    }
}

/// The screen layout of the selection collaborator.
#[derive(Copy, Clone, PartialEq, Eq, Structural, Debug)]
pub enum Layout {
    Default,
    Reverse,
    ReverseList,
}

/// The accent colour of the preview pane.
#[derive(Copy, Clone, PartialEq, Eq, Structural, Debug)]
pub enum AccentColor {
    Black,
    Red,
    Green,
    Yellow,
    Blue,
    Magenta,
    Cyan,
    White,
}

/// The ANSI colour code of an accent colour choice.
pub open spec fn accent_code(c: Option<AccentColor>) -> u8 {
    match c {
        None => 5,
        Some(AccentColor::Black) => 0,
        Some(AccentColor::Red) => 1,
        Some(AccentColor::Green) => 2,
        Some(AccentColor::Yellow) => 3,
        Some(AccentColor::Blue) => 4,
        Some(AccentColor::Magenta) => 5,
        Some(AccentColor::Cyan) => 6,
        Some(AccentColor::White) => 7,
    }
}

/// The ANSI colour code of the configured accent colour; magenta where
/// none is configured.
pub fn get_accent_color(c: Option<AccentColor>) -> (r: u8)
    ensures
        r == accent_code(c),
{
    match c {
        None => 5,
        Some(AccentColor::Black) => 0,
        Some(AccentColor::Red) => 1,
        Some(AccentColor::Green) => 2,
        Some(AccentColor::Yellow) => 3,
        Some(AccentColor::Blue) => 4,
        Some(AccentColor::Magenta) => 5,
        Some(AccentColor::Cyan) => 6,
        Some(AccentColor::White) => 7,
    }
}

} // verus!
