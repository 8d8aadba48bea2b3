//! Core data types: entry classification, terminal themes, and the
//! attribution record assigned to each path component.

use vstd::prelude::*;

verus! {

/// Classification of a listed entry: a plain file or a directory.
///
/// An attribution for a directory can come from a change to any of its
/// descendants, so this classifies the top-level path component itself,
/// not necessarily the specific file that was touched.
#[derive(Clone, Copy, PartialEq, Eq, Structural, Debug)]
pub enum FileType {
    File,
    Directory,
}

/// Terminal colour theme selected for rendering.
#[derive(Clone, Copy, PartialEq, Eq, Structural, Debug)]
pub enum Theme {
    Light,
    Dark,
    Dimm,
    Contrast,
}

/// The attribution resolved for one path component: the summary line and
/// timestamp of the most recent commit that touched something under it,
/// and the component's classification.
#[derive(Clone)]
pub struct LastCommit {
    pub summary: String,
    pub time: i64,
    pub file_type: FileType,
}

/// Mathematical value of a [`LastCommit`].
pub struct LastCommitView {
    pub summary: Seq<char>,
    pub time: int,
    pub file_type: FileType,
}

impl View for LastCommit {
    type V = LastCommitView;

    open spec fn view(&self) -> LastCommitView {
        LastCommitView { summary: self.summary@, time: self.time as int, file_type: self.file_type }
    }
}

impl LastCommit {
    /// A copy with the same mathematical value.
    pub fn duplicate(&self) -> (r: LastCommit)
        ensures
            r@ == self@,
    {
        LastCommit {
            summary: self.summary.clone(),
            time: self.time,
            file_type: self.file_type,
        }
    }
}

/// One rendered output line: an entry name, the bucketed age of its last
/// commit, and that commit's summary.
pub struct Row {
    pub file_type: FileType,
    pub file_name: String,
    pub time_since: String,
    pub summary: String,
}

/// Mathematical value of a [`Row`].
pub struct RowView {
    pub file_type: FileType,
    pub file_name: Seq<char>,
    pub time_since: Seq<char>,
    pub summary: Seq<char>,
}

impl View for Row {
    type V = RowView;

    open spec fn view(&self) -> RowView {
        RowView {
            file_type: self.file_type,
            file_name: self.file_name@,
            time_since: self.time_since@,
            summary: self.summary@,
        }
    }
}

/// Which theme a theme name selects; any unknown name falls back to `Dimm`.
pub open spec fn spec_get_theme(name: Seq<char>) -> Theme {
    if name == "light"@ {
        Theme::Light
    } else if name == "dark"@ {
        Theme::Dark
    } else if name == "contrast"@ {
        Theme::Contrast
    } else {
        Theme::Dimm
    }
}

/// Select the colour theme named by `theme`; unknown names give `Dimm`.
pub fn get_theme(theme: String) -> (t: Theme)
    ensures
        t == spec_get_theme(theme@),
{
    if theme == String::from_str("light") {
        Theme::Light
    } else if theme == String::from_str("dark") {
        Theme::Dark
    } else if theme == String::from_str("contrast") {
        Theme::Contrast
    } else {
        Theme::Dimm
    }
}

} // verus!
