use vstd::prelude::*;

use crate::diff::{DiffedExtension, PullRequestUpdate};
use crate::logic::{LogicError, LogicResult};

verus! {

/// The state of one request that runs in the background: its last value, whether it is
/// running, and its last error.
#[derive(Debug)]
pub struct AsyncState<T> {
    pub value: Option<T>,
    pub working: bool,
    pub error: Option<LogicError>,
}

impl<T> Default for AsyncState<T> {
    fn default() -> (r: Self)
        ensures
            r.value is None,
            !r.working,
            r.error is None,
    {
        Self { value: None, working: false, error: None }
    }
}

impl<T> AsyncState<T> {
    pub fn new(value: Option<T>) -> (r: Self)
        ensures
            r.value == value,
            !r.working,
            r.error is None,
    {
        Self { value, working: false, error: None }
    }

    /// Records the outcome of the request: its value, or its error; either way the
    /// request is no longer running.
    pub fn set(&mut self, result: LogicResult<T>)
        ensures
            !final(self).working,
            match result {
                Ok(v) => final(self).value == Some(v) && final(self).error is None,
                Err(e) => final(self).value is None && final(self).error == Some(e),
            },
    {
        match result {
            Ok(value) => {
                self.value = Some(value);
                self.working = false;
                self.error = None;
            },
            Err(err) => {
                self.value = None;
                self.working = false;
                self.error = Some(err);
            },
        }
    }

    /// Marks the request as running.
    pub fn start(&mut self)
        ensures
            final(self).working,
            final(self).value == old(self).value,
            final(self).error == old(self).error,
    {
        self.working = true;
    }

    /// Forgets the value and the error, and marks the request as not running.
    pub fn clear(&mut self)
        ensures
            final(self).value is None,
            !final(self).working,
            final(self).error is None,
    {
        self.value = None;
        self.working = false;
        self.error = None;
    }
}

/// Which of the two comparisons of an extension is shown.
#[derive(Debug, Clone, Copy, PartialEq, Eq, Structural)]
pub enum ViewType {
    Source,
    Asar,
}

impl Default for ViewType {
    fn default() -> (r: Self)
        ensures
            r == ViewType::Source,
    {
        ViewType::Source
    }
}

/// Everything the interactive surface keeps between frames.
#[derive(Debug)]
pub struct AppState {
    pub pull_request_id: u64,
    pub pull_request_update: AsyncState<PullRequestUpdate>,
    pub selected_extension: Option<String>,
    pub diffed_extension: AsyncState<DiffedExtension>,
    pub view_type: ViewType,
    pub selected_file: Option<String>,
    pub diff: Option<String>,
}

impl Default for AppState {
    fn default() -> (r: Self)
        ensures
            r.pull_request_id == 0,
            r.pull_request_update.value is None && !r.pull_request_update.working
                && r.pull_request_update.error is None,
            r.selected_extension is None,
            r.diffed_extension.value is None && !r.diffed_extension.working
                && r.diffed_extension.error is None,
            r.view_type == ViewType::Source,
            r.selected_file is None,
            r.diff is None,
    {
        AppState {
            pull_request_id: 0,
            pull_request_update: AsyncState::new(None),
            selected_extension: None,
            diffed_extension: AsyncState::new(None),
            view_type: ViewType::Source,
            selected_file: None,
            diff: None,
        }
    }
}

} // verus!
