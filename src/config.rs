use vstd::prelude::*;

verus! {

/// How matches from several documents are combined.
#[derive(Debug, Clone, Copy, PartialEq, Eq, Structural)]
pub enum OnConflict {
    /// The first document, in priority order, that has a match wins.
    Override,
    /// More than one match over all documents is an error.
    Error,
}

/// How configuration documents are discovered.
#[derive(Debug, Clone, Copy, PartialEq, Eq, Structural)]
pub enum Resolution {
    /// Only the current folder.
    CurrentFolder,
    /// The current folder and its parents.
    Recursive,
    /// The repository root.
    GitRoot,
}

/// Global settings.
#[derive(Debug)]
pub struct GlobalConfig {
    /// How matches from several documents are combined.
    pub on_conflict: OnConflict,
    /// How documents are discovered.
    pub resolution: Resolution,
    /// Extra documents or patterns to load.
    pub ds_files: Option<Vec<String>>,
}

impl Default for GlobalConfig {
    fn default() -> (r: Self)
        ensures
            r.on_conflict == OnConflict::Error,
            r.resolution == Resolution::Recursive,
            r.ds_files is None,
    {
        GlobalConfig { on_conflict: OnConflict::Error, resolution: Resolution::Recursive, ds_files: None }
    }
}

} // verus!
