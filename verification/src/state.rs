//! The persisted registration state: the set of registered package root
//! paths, kept under a fixed file name inside the state directory.
//!
//! Loading and saving the file are the runner's work; this module holds
//! the state value and where it lives.
use vstd::prelude::*;

use crate::util::join2;

verus! {

/// The registered package root paths, and the file they are saved in.
pub struct State {
    /// The registered package root paths.
    pub package_paths: Vec<String>,
    /// Where the state is saved.
    pub state_file: String,
}

impl State {
    /// Where the state is saved, within the given state directory.
    pub open spec fn state_file_spec(&self) -> Seq<char> {
        self.state_file@
    }

    /// A fresh, empty state saved under the given directory.
    pub fn new(state_dir: String) -> (s: State)
        ensures
            s.package_paths@.len() == 0,
            s.state_file_spec() == state_dir@ + "/serialized.json"@,
    {
        let state_file = State::get_state_file(state_dir);
        State { package_paths: Vec::new(), state_file }
    }

    /// The state file's path inside a state directory.
    pub fn get_state_file(state_dir: String) -> (f: String)
        ensures
            f@ == state_dir@ + "/serialized.json"@,
    {
        join2(state_dir.as_str(), "/serialized.json")
    }

    /// The saved file's path.
    pub fn get_path(&self) -> (f: &String)
        ensures
            f@ == self.state_file_spec(),
    {
        &self.state_file
    }
}

} // verus!
