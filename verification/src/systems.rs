use vstd::prelude::*;

use crate::resources::{CMDInput, InputKey, Key};
use crate::schedule::{RunOrder, SystemInfo, SystemType};

verus! {

/// The input-handling system: each frame it stores the key the terminal
/// reported into the `CMDInput` resource, or resets it to null when no
/// key was pending. Polling the terminal is the surrounding application's
/// work; the decision applied to the resource is here.
pub struct CMDInputHandler;

impl CMDInputHandler {
    /// A fresh instance; the system keeps no state of its own.
    pub fn new() -> (r: Self)
        ensures
            true,
    {
        CMDInputHandler
    }

    /// The registration record: the system's id, no hard dependencies, no
    /// ordering hints, run in the preprocessor phase.
    pub fn info() -> (r: SystemInfo)
        ensures
            r.id@ == "CMDInput"@,
            r.depends@.len() == 0,
            r.run_ord@.len() == 0,
            r.sys_type == SystemType::Preprocessor,
    {
        let depends: Vec<String> = Vec::new();
        let run_ord: Vec<RunOrder> = Vec::new();
        SystemInfo::new("CMDInput".to_owned(), depends, run_ord, SystemType::Preprocessor)
    }

    /// Apply one frame's polled input: a pending key is stored as is, and
    /// no pending key resets the resource to null.
    pub fn apply(&mut self, input: &mut CMDInput, polled: Option<InputKey>)
        ensures
            match polled {
                Some(k) => final(input).spec_key() == k,
                None => final(input).spec_key() == (InputKey { code: Key::Null, modifiers: 0u8 }),
            },
    {
        match polled {
            Some(k) => input.set(k),
            None => input.reset(),
        }
    }
}

} // verus!
