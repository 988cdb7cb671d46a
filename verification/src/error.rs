//! The error that the preprocessors report.
use vstd::prelude::*;
use crate::text::{decimal, int_text};

verus! {

/// An error with a message, the line it concerns and, where known, the file.
#[derive(Debug)]
pub struct BooplError {
    pub message: String,
    pub line: i32,
    pub file: Option<String>,
}

impl BooplError {
    /// An error about `line` in no particular file.
    pub fn new(msg: String, line: i32) -> (e: Self)
        ensures
            e.message@ == msg@,
            e.line == line,
            e.file is None,
    {
        BooplError { message: msg, line, file: None }
    }

    /// The same error, attributed to `file`.
    pub fn with_file(self, file: String) -> (e: Self)
        ensures
            e.message@ == self.message@,
            e.line == self.line,
            e.file matches Some(f) && f@ == file@,
    {
        let mut e = self;
        e.file = Some(file);
        e
    }

    /// How the error reads when shown.
    pub open spec fn text(self) -> Seq<char> {
        match self.file {
            Some(f) => "\n   >>  ! "@ + self.message@ + "  ("@ + f@ + ":"@ + decimal(self.line as int) + ")\n\n"@,
            None => "\n   >>  ! "@ + self.message@ + "  ("@ + decimal(self.line as int) + ")\n\n"@,
        }
    }

    /// The error as it is shown: the message, then the file and the line.
    pub fn to_text(&self) -> (s: String)
        ensures
            s@ == self.text(),
    {
        let mut s = String::from_str("\n   >>  ! ");
        s.append(self.message.as_str());
        s.append("  (");
        match &self.file {
            Some(f) => {
                s.append(f.as_str());
                s.append(":");
            },
            None => {},
        }
        let l = int_text(self.line as i64);
        s.append(l.as_str());
        s.append(")\n\n");
        s
    }
}

} // verus!
