use vstd::prelude::*;
use vstd::string::StringExecFns;

verus! {

/// Errors produced by path normalization and by `Host` operations.
///
/// Each variant carries exactly the data its human-readable message needs:
/// the offending path, plus a detail string for `IoFailure`.
#[derive(Debug, Clone, PartialEq, Eq)]
pub enum HostError {
    /// The input cannot be made absolute for normalization.
    InvalidPath { path: String },
    /// A resolved path does not stay under the workspace root; returned
    /// instead of performing any host access.
    OutsideWorkspace { path: String },
    /// The underlying file or directory does not exist.
    NotFound { path: String },
    /// Any other I/O-level failure (permissions, reading a directory as a
    /// file, an unreadable directory entry, ...).
    IoFailure { path: String, detail: String },
}

impl HostError {
    /// The human-readable message carried by this error.
    pub open spec fn message_view(&self) -> Seq<char> {
        match self {
            HostError::InvalidPath { path } => "Path `"@ + path@
                + "` cannot be made absolute."@,
            HostError::OutsideWorkspace { path } => "Path \""@ + path@
                + "\" is outside the workspace."@,
            HostError::NotFound { path } => "No such file or directory: `"@
                + path@ + "`."@,
            HostError::IoFailure { path, detail } => "I/O failure at `"@
                + path@ + "`: "@ + detail@,
        }
    }

    /// Builds the human-readable message for this error.
    pub fn message(&self) -> (r: String)
        ensures
            r@ == self.message_view(),
    {
        match self {
            HostError::InvalidPath { path } => {
                let mut s = "Path `".to_owned();
                s.append(path.as_str());
                s.append("` cannot be made absolute.");
                s
            },
            HostError::OutsideWorkspace { path } => {
                let mut s = "Path \"".to_owned();
                s.append(path.as_str());
                s.append("\" is outside the workspace.");
                s
            },
            HostError::NotFound { path } => {
                let mut s = "No such file or directory: `".to_owned();
                s.append(path.as_str());
                s.append("`.");
                s
            },
            HostError::IoFailure { path, detail } => {
                let mut s = "I/O failure at `".to_owned();
                s.append(path.as_str());
                s.append("`: ");
                s.append(detail.as_str());
                s
            },
        }
    }
}

} // verus!
