//! The state of the shell between two command lines.

use vstd::prelude::*;

use crate::commands::ParsedHead;
use crate::env::{insert_all, Env};

verus! {

/// The shell: the line being read, the environment, the tokens of the
/// line, the status of the line being run and that of the previous line.
pub struct Shell {
    pub line: String,
    pub env: Env,
    pub tokens: ParsedHead,
    pub error: i32,
    pub last_error: i32,
}

impl Shell {
    /// A fresh shell whose environment holds `vars` (later entries win).
    pub fn new(vars: Vec<(String, String)>) -> (r: Shell)
        ensures
            r.line@ == Seq::<char>::empty(),
            r.env@ == insert_all(Map::empty(), vars@),
            r.tokens.n_cmds == 0,
            r.tokens.tokens@.len() == 0,
            r.error == 0,
            r.last_error == 0,
    {
        Shell {
            line: String::new(),
            env: Env::new(vars),
            tokens: ParsedHead::new(),
            error: 0,
            last_error: 0,
        }
    }

    /// Gets ready for the next line: the line and its tokens are emptied,
    /// the status of this line becomes the previous status and the current
    /// status is cleared. The environment is kept.
    pub fn reset(&mut self)
        ensures
            final(self).line@ == Seq::<char>::empty(),
            final(self).last_error == old(self).error,
            final(self).error == 0,
            final(self).tokens.n_cmds == 0,
            final(self).tokens.tokens@.len() == 0,
            final(self).env@ == old(self).env@,
    {
        self.line = String::new();
        self.last_error = self.error;
        self.tokens = ParsedHead::new();
        self.error = 0;
    }
}

} // verus!
