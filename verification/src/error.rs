//! Errors of the reduction core.
use vstd::prelude::*;

verus! {

/// A failure of reduction, readback or codec work.
#[derive(Debug, Clone, PartialEq, Eq)]
pub enum DnxError {
    LinError(LinError),
    LOPathDepthExceeded,
    StepLimitExceeded(u64),
    ArenaCapacityExceeded,
    DeltaOverflow,
    StalePair,
    ABAViolation,
    PrimError(String),
    ReadbackIncomplete,
}

/// A linearity failure found by the elaborator.
#[derive(Debug, Clone, PartialEq, Eq)]
pub enum LinError {
    Unused(String),
    MultiUse(String, u32),
    MutualRecursion(Vec<String>),
    TooManyFreeVars,
}

impl From<LinError> for DnxError {
    fn from(e: LinError) -> (r: DnxError) {
        DnxError::LinError(e)
    }
}

impl vstd::std_specs::convert::FromSpecImpl<LinError> for DnxError {
    open spec fn obeys_from_spec() -> bool {
        true
    }

    open spec fn from_spec(e: LinError) -> DnxError {
        DnxError::LinError(e)
    }
}

/// The text of a linearity error.
pub open spec fn lin_message(e: LinError) -> Seq<char> {
    match e {
        LinError::Unused(n) => "variable `"@ + n@ + "` unused"@,
        LinError::MultiUse(n, _) => "variable `"@ + n@ + "` used more than once"@,
        LinError::MutualRecursion(_) => "mutual recursion without `fix`"@,
        LinError::TooManyFreeVars => "too many free variables (>16383)"@,
    }
}

/// The text of an error.
pub open spec fn dnx_message(e: DnxError) -> Seq<char> {
    match e {
        DnxError::LinError(l) => "linearity: "@ + lin_message(l),
        DnxError::LOPathDepthExceeded => "LO path depth exceeded (>384)"@,
        DnxError::StepLimitExceeded(_) => "step limit exceeded"@,
        DnxError::ArenaCapacityExceeded => "arena capacity exceeded"@,
        DnxError::DeltaOverflow => "replicator delta overflow"@,
        DnxError::StalePair => "stale active pair"@,
        DnxError::ABAViolation => "ABA generation violation"@,
        DnxError::PrimError(m) => "primitive error: "@ + m@,
        DnxError::ReadbackIncomplete => "readback incomplete: net not canonical"@,
    }
}

impl DnxError {
    /// The human-readable message of the error.
    pub fn message(&self) -> (s: String)
        ensures
            s@ == dnx_message(*self),
    {
        match self {
            DnxError::LinError(e) => {
                let mut s = String::from_str("linearity: ");
                let m = e.message();
                s.append(m.as_str());
                s
            },
            DnxError::LOPathDepthExceeded => String::from_str("LO path depth exceeded (>384)"),
            DnxError::StepLimitExceeded(_) => String::from_str("step limit exceeded"),
            DnxError::ArenaCapacityExceeded => String::from_str("arena capacity exceeded"),
            DnxError::DeltaOverflow => String::from_str("replicator delta overflow"),
            DnxError::StalePair => String::from_str("stale active pair"),
            DnxError::ABAViolation => String::from_str("ABA generation violation"),
            DnxError::PrimError(m) => {
                let mut s = String::from_str("primitive error: ");
                s.append(m.as_str());
                s
            },
            DnxError::ReadbackIncomplete => String::from_str(
                "readback incomplete: net not canonical",
            ),
        }
    }
}

impl LinError {
    /// The human-readable message of the error.
    pub fn message(&self) -> (s: String)
        ensures
            s@ == lin_message(*self),
    {
        match self {
            LinError::Unused(n) => {
                let mut s = String::from_str("variable `");
                s.append(n.as_str());
                s.append("` unused");
                s
            },
            LinError::MultiUse(n, _) => {
                let mut s = String::from_str("variable `");
                s.append(n.as_str());
                s.append("` used more than once");
                s
            },
            LinError::MutualRecursion(_) => String::from_str("mutual recursion without `fix`"),
            LinError::TooManyFreeVars => String::from_str("too many free variables (>16383)"),
        }
    }
}

} // verus!
