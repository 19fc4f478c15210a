use vstd::prelude::*;

use crate::diff::{FileDiff, ModifiedExtension};

verus! {

/// An error reported by the inspection engine, carrying a human-readable message.
#[derive(Clone, Debug)]
pub struct LogicError(String);

pub type LogicResult<T> = Result<T, LogicError>;

impl LogicError {
    pub fn new(message: String) -> (e: Self)
        ensures
            e.message_view() == message@,
    {
        LogicError(message)
    }

    pub closed spec fn message_view(&self) -> Seq<char> {
        self.0@
    }

    /// The message, as shown to a user.
    pub fn message(&self) -> (m: String)
        ensures
            m@ == self.message_view(),
    {
        self.0.clone()
    }
}

/// A request handed from the interactive surface to the worker that runs the engine.
#[derive(Clone, Debug)]
pub enum LogicCommand {
    GetPullRequest(u64),
    DownloadExtension { extension: ModifiedExtension, artifact_url: String },
    /// Compare the file at the first path (old side) with the file at the second path.
    DiffFile(String, String),
}

/// A reply from the worker to the interactive surface.
#[derive(Debug)]
pub enum LogicResponse {
    PullRequest(LogicResult<crate::diff::PullRequestUpdate>),
    ExtensionDownloadComplete(LogicResult<crate::diff::DiffedExtension>),
    FileDiff(LogicResult<FileDiff>),
}

} // verus!
