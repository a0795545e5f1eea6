//! The unit of the catalog: one launchable target, either a bare
//! executable found on the search path or a desktop-style descriptor,
//! together with its mathematical model.

use vstd::prelude::*;
use core::cmp::Ordering;
use crate::strings::{lex_cmp, str_cmp};

verus! {

/// A file modification time: seconds and nanoseconds since the epoch.
/// Only equality of timestamps matters to the catalog.
#[derive(Clone, Copy, PartialEq, Eq, Structural, Debug)]
pub struct Timestamp {
    pub secs: u64,
    pub nanos: u32,
}

/// One launchable target.
///
/// `path` is the identity key of the entry across the whole catalog.
/// `mtime` is present only for descriptor-backed entries and drives cache
/// invalidation. `count` is the usage counter, the one field that must
/// survive rescans.
#[derive(Clone, Debug, PartialEq)]
pub struct Entry {
    pub path: String,
    pub mtime: Option<Timestamp>,
    pub name: String,
    pub exec_cmd: String,
    pub generic_name: Option<String>,
    pub comment: Option<String>,
    pub terminal: bool,
    pub desktop: bool,
    pub count: u32,
}

/// The mathematical model of an `Entry`: the same fields over character
/// sequences.
pub ghost struct EntryModel {
    pub path: Seq<char>,
    pub mtime: Option<Timestamp>,
    pub name: Seq<char>,
    pub exec_cmd: Seq<char>,
    pub generic_name: Option<Seq<char>>,
    pub comment: Option<Seq<char>>,
    pub terminal: bool,
    pub desktop: bool,
    pub count: u32,
}

pub open spec fn opt_str_view(o: Option<String>) -> Option<Seq<char>> {
    match o {
        Some(s) => Some(s@),
        None => None,
    }
}

impl View for Entry {
    type V = EntryModel;

    open spec fn view(&self) -> EntryModel {
        EntryModel {
            path: self.path@,
            mtime: self.mtime,
            name: self.name@,
            exec_cmd: self.exec_cmd@,
            generic_name: opt_str_view(self.generic_name),
            comment: opt_str_view(self.comment),
            terminal: self.terminal,
            desktop: self.desktop,
            count: self.count,
        }
    }
}

/// The model of the empty entry that `Entry::new` returns.
pub open spec fn empty_entry_model() -> EntryModel {
    EntryModel {
        path: Seq::empty(),
        mtime: None,
        name: Seq::empty(),
        exec_cmd: Seq::empty(),
        generic_name: None,
        comment: None,
        terminal: false,
        desktop: false,
        count: 0,
    }
}

impl Entry {
    /// An empty, non-descriptor entry with every field at its default.
    pub fn new() -> (r: Self)
        ensures
            r@ == empty_entry_model(),
    {
        Entry {
            path: String::new(),
            mtime: None,
            name: String::new(),
            exec_cmd: String::new(),
            generic_name: None,
            comment: None,
            terminal: false,
            desktop: false,
            count: 0,
        }
    }

    /// A copy of the entry with the same model.
    pub fn duplicate(&self) -> (r: Self)
        ensures
            r@ == self@,
    {
        Entry {
            path: self.path.clone(),
            mtime: self.mtime,
            name: self.name.clone(),
            exec_cmd: self.exec_cmd.clone(),
            generic_name: match &self.generic_name {
                Some(g) => Some(g.clone()),
                None => None,
            },
            comment: match &self.comment {
                Some(c) => Some(c.clone()),
                None => None,
            },
            terminal: self.terminal,
            desktop: self.desktop,
            count: self.count,
        }
    }
}

/// Orders two keyed entries by their display name, case-sensitively.
pub fn entry_cmp(_k1: &String, v1: &Entry, _k2: &String, v2: &Entry) -> (o: Ordering)
    ensures
        o == lex_cmp(v1@.name, v2@.name),
{
    str_cmp(v1.name.as_str(), v2.name.as_str())
}

} // verus!
