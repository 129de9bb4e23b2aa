//! The return codes of the transport.
use vstd::prelude::*;

verus! {

/// Return codes of the transport, as a closed set.
#[derive(Debug, PartialEq, Eq, Structural, Clone, Copy)]
pub enum DDSError {
    DdsOk,
    DdsError,
    Unsupported,
    BadParameter,
    PreconditionNotMet,
    OutOfResources,
    NotEnabled,
    ImmutablePolicy,
    InconsistentPolicy,
    AlreadyDeleted,
    Timeout,
    NoData,
    IllegalOperation,
    NotAllowedBySecurity,
}

/// The variant that stands for a return code of the transport: zero and
/// every positive value (a handle or a count) mean success, `-1` to `-13`
/// are the named failures, and anything below is the unspecified error.
pub open spec fn error_of_code(code: int) -> DDSError {
    if code >= 0 {
        DDSError::DdsOk
    } else if code == -1 {
        DDSError::DdsError
    } else if code == -2 {
        DDSError::Unsupported
    } else if code == -3 {
        DDSError::BadParameter
    } else if code == -4 {
        DDSError::PreconditionNotMet
    } else if code == -5 {
        DDSError::OutOfResources
    } else if code == -6 {
        DDSError::NotEnabled
    } else if code == -7 {
        DDSError::ImmutablePolicy
    } else if code == -8 {
        DDSError::InconsistentPolicy
    } else if code == -9 {
        DDSError::AlreadyDeleted
    } else if code == -10 {
        DDSError::Timeout
    } else if code == -11 {
        DDSError::NoData
    } else if code == -12 {
        DDSError::IllegalOperation
    } else if code == -13 {
        DDSError::NotAllowedBySecurity
    } else {
        DDSError::DdsError
    }
}

impl From<i32> for DDSError {
    fn from(entity: i32) -> (ret: Self) {
        if entity >= 0 {
            DDSError::DdsOk
        } else {
            match entity {
                -1 => DDSError::DdsError,
                -2 => DDSError::Unsupported,
                -3 => DDSError::BadParameter,
                -4 => DDSError::PreconditionNotMet,
                -5 => DDSError::OutOfResources,
                -6 => DDSError::NotEnabled,
                -7 => DDSError::ImmutablePolicy,
                -8 => DDSError::InconsistentPolicy,
                -9 => DDSError::AlreadyDeleted,
                -10 => DDSError::Timeout,
                -11 => DDSError::NoData,
                -12 => DDSError::IllegalOperation,
                -13 => DDSError::NotAllowedBySecurity,
                _ => DDSError::DdsError,
            }
        }
    }
}

impl vstd::std_specs::convert::FromSpecImpl<i32> for DDSError {
    open spec fn obeys_from_spec() -> bool {
        true
    }

    open spec fn from_spec(entity: i32) -> Self {
        error_of_code(entity as int)
    }
}

impl DDSError {
    /// The text shown for this code.
    pub open spec fn text(self) -> Seq<char> {
        match self {
            DDSError::DdsOk => "OK"@,
            DDSError::DdsError => "Unspecified Error"@,
            DDSError::Unsupported => "Unsupported"@,
            DDSError::BadParameter => "Bad parameter"@,
            DDSError::PreconditionNotMet => "Preconditions not met"@,
            DDSError::OutOfResources => "Out of resources"@,
            DDSError::NotEnabled => "Not enabled"@,
            DDSError::ImmutablePolicy => "Immutable policy"@,
            DDSError::InconsistentPolicy => "Inconsistent polocy"@,
            DDSError::AlreadyDeleted => "Already deleted"@,
            DDSError::Timeout => "Timeout"@,
            DDSError::NoData => "No Data"@,
            DDSError::IllegalOperation => "Illegal operation"@,
            DDSError::NotAllowedBySecurity => "Not allowed by security"@,
        }
    }

    /// Renders the code as text.
    pub fn to_string(&self) -> (s: String)
        ensures
            s@ == self.text(),
    {
        let text = match self {
            DDSError::DdsOk => "OK",
            DDSError::DdsError => "Unspecified Error",
            DDSError::Unsupported => "Unsupported",
            DDSError::BadParameter => "Bad parameter",
            DDSError::PreconditionNotMet => "Preconditions not met",
            DDSError::OutOfResources => "Out of resources",
            DDSError::NotEnabled => "Not enabled",
            DDSError::ImmutablePolicy => "Immutable policy",
            DDSError::InconsistentPolicy => "Inconsistent polocy",
            DDSError::AlreadyDeleted => "Already deleted",
            DDSError::Timeout => "Timeout",
            DDSError::NoData => "No Data",
            DDSError::IllegalOperation => "Illegal operation",
            DDSError::NotAllowedBySecurity => "Not allowed by security",
        };
        text.to_owned()
    }

    /// Reads a return code of the transport where a negative code is the
    /// failure it names and anything else is passed on: a handle, a count, or
    /// plain success.
    pub fn check(code: i32) -> (r: Result<i32, DDSError>)
        ensures
            code >= 0 ==> r == Ok::<i32, DDSError>(code),
            code < 0 ==> r == Err::<i32, DDSError>(error_of_code(code as int)),
    {
        if code >= 0 {
            Ok(code)
        } else {
            Err(DDSError::from(code))
        }
    }

    /// Reads a return code of the transport where only a positive code is a
    /// handle, and every other code, zero among them, is what it names.
    pub fn check_handle(code: i32) -> (r: Result<i32, DDSError>)
        ensures
            code > 0 ==> r == Ok::<i32, DDSError>(code),
            code <= 0 ==> r == Err::<i32, DDSError>(error_of_code(code as int)),
    {
        if code > 0 {
            Ok(code)
        } else {
            Err(DDSError::from(code))
        }
    }
}

} // verus!
