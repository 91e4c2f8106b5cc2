use vstd::prelude::*;

verus! {

/// Why a run is given up. There is no partial report: the first failure ends
/// the run, and what was found until then is dropped.
#[derive(Debug)]
pub enum UsageError {
    /// A directory that the walk had to list could not be listed.
    DirectoryUnreadable { path: String, reason: String },
    /// A candidate file could not be read as text.
    FileUnreadable { path: String, reason: String },
}

impl UsageError {
    /// The path that could not be read.
    pub open spec fn path(self) -> Seq<char> {
        match self {
            UsageError::DirectoryUnreadable { path, reason } => path@,
            UsageError::FileUnreadable { path, reason } => path@,
        }
    }

    /// What the reader said of the failure.
    pub open spec fn reason(self) -> Seq<char> {
        match self {
            UsageError::DirectoryUnreadable { path, reason } => reason@,
            UsageError::FileUnreadable { path, reason } => reason@,
        }
    }

    /// The line that tells a user of the failure.
    pub open spec fn text(self) -> Seq<char> {
        match self {
            UsageError::DirectoryUnreadable { path, reason } => "cannot list directory "@ + path@
                + ": "@ + reason@,
            UsageError::FileUnreadable { path, reason } => "cannot read file "@ + path@ + ": "@
                + reason@,
        }
    }

    /// Builds `text`.
    pub fn message(&self) -> (line: String)
        ensures
            line@ == self.text(),
    {
        match self {
            UsageError::DirectoryUnreadable { path, reason } => {
                let mut line = String::from_str("cannot list directory ");
                line.append(path.as_str());
                line.append(": ");
                line.append(reason.as_str());
                line
            },
            UsageError::FileUnreadable { path, reason } => {
                let mut line = String::from_str("cannot read file ");
                line.append(path.as_str());
                line.append(": ");
                line.append(reason.as_str());
                line
            },
        }
    }
}

} // verus!
