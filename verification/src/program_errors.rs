use vstd::prelude::*;

verus! {

/// Every way the pipeline can fail.  Parse failures (the first four) are
/// recovered per folder during a scan; the rest are fatal to a run.
/// Each variant carries a human-readable description of the failure.
#[derive(Debug, Clone)]
pub enum ProgramError {
    NameNotDetected(String),
    CannotReadDirectory(String),
    NotEnoughUnderscores(String),
    StringNotNumber(String),
    AsciiErrorInFileName(String),
    NoPath(String),
    FailedToDelete(String),
    FailedToReadDir(String),
}

impl ProgramError {
    /// The description carried by the variant, for reporting.
    pub fn message(&self) -> (m: &String)
        ensures
            m == match self {
                ProgramError::NameNotDetected(s) => s,
                ProgramError::CannotReadDirectory(s) => s,
                ProgramError::NotEnoughUnderscores(s) => s,
                ProgramError::StringNotNumber(s) => s,
                ProgramError::AsciiErrorInFileName(s) => s,
                ProgramError::NoPath(s) => s,
                ProgramError::FailedToDelete(s) => s,
                ProgramError::FailedToReadDir(s) => s,
            },
    {
        match self {
            ProgramError::NameNotDetected(s) => s,
            ProgramError::CannotReadDirectory(s) => s,
            ProgramError::NotEnoughUnderscores(s) => s,
            ProgramError::StringNotNumber(s) => s,
            ProgramError::AsciiErrorInFileName(s) => s,
            ProgramError::NoPath(s) => s,
            ProgramError::FailedToDelete(s) => s,
            ProgramError::FailedToReadDir(s) => s,
        }
    }
}

impl PartialEq for ProgramError {
    fn eq(&self, other: &Self) -> (r: bool) {
        match (self, other) {
            (ProgramError::NameNotDetected(a), ProgramError::NameNotDetected(b)) => *a == *b,
            (ProgramError::CannotReadDirectory(a), ProgramError::CannotReadDirectory(b)) => *a
                == *b,
            (ProgramError::NotEnoughUnderscores(a), ProgramError::NotEnoughUnderscores(b)) => *a
                == *b,
            (ProgramError::StringNotNumber(a), ProgramError::StringNotNumber(b)) => *a == *b,
            (ProgramError::AsciiErrorInFileName(a), ProgramError::AsciiErrorInFileName(b)) => *a
                == *b,
            (ProgramError::NoPath(a), ProgramError::NoPath(b)) => *a == *b,
            (ProgramError::FailedToDelete(a), ProgramError::FailedToDelete(b)) => *a == *b,
            (ProgramError::FailedToReadDir(a), ProgramError::FailedToReadDir(b)) => *a == *b,
            _ => false,
        }
    }
}

impl vstd::std_specs::cmp::PartialEqSpecImpl for ProgramError {
    open spec fn obeys_eq_spec() -> bool {
        true
    }

    open spec fn eq_spec(&self, other: &Self) -> bool {
        match (self, other) {
            (ProgramError::NameNotDetected(a), ProgramError::NameNotDetected(b)) => a@ == b@,
            (ProgramError::CannotReadDirectory(a), ProgramError::CannotReadDirectory(b)) => a@
                == b@,
            (ProgramError::NotEnoughUnderscores(a), ProgramError::NotEnoughUnderscores(b)) => a@
                == b@,
            (ProgramError::StringNotNumber(a), ProgramError::StringNotNumber(b)) => a@ == b@,
            (ProgramError::AsciiErrorInFileName(a), ProgramError::AsciiErrorInFileName(b)) => a@
                == b@,
            (ProgramError::NoPath(a), ProgramError::NoPath(b)) => a@ == b@,
            (ProgramError::FailedToDelete(a), ProgramError::FailedToDelete(b)) => a@ == b@,
            (ProgramError::FailedToReadDir(a), ProgramError::FailedToReadDir(b)) => a@ == b@,
            _ => false,
        }
    }
}

} // verus!
