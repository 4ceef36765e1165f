//! Errors surfaced to applications.
use vstd::prelude::*;
use vstd::string::StringExecFns;
use crate::abi::terms::ProtocolError;
use crate::kernel::error::{KernelError, SharedError};

verus! {

/// Errors surfaced to applications.
#[derive(Debug, Clone, Copy, PartialEq, Eq)]
#[non_exhaustive]
pub enum SdkError {
    /// A rule that the kernel and the applications share was broken.
    Shared(SharedError),
    /// An error from the kernel.
    Kernel(KernelError),
    /// A channel operation failed.
    Channel(ProtocolError),
    /// The application exceeded a resource limit.
    LimitExceeded {
        /// The resource whose limit was hit.
        resource: &'static str,
    },
}

impl SdkError {
    /// What the error says.
    pub open spec fn text(self) -> Seq<char> {
        match self {
            SdkError::Shared(e) => e.text(),
            SdkError::Kernel(e) => e.text(),
            SdkError::Channel(e) => "channel error: "@ + e.text(),
            SdkError::LimitExceeded { resource } => "resource limit exceeded: "@ + resource@,
        }
    }

    /// What the error says.
    pub fn message(&self) -> (s: String)
        ensures
            s@ == self.text(),
    {
        match self {
            SdkError::Shared(e) => e.message().to_owned(),
            SdkError::Kernel(e) => e.message(),
            SdkError::Channel(e) => "channel error: ".to_owned().concat(e.message()),
            SdkError::LimitExceeded { resource } => {
                "resource limit exceeded: ".to_owned().concat(resource)
            },
        }
    }
}

impl From<SharedError> for SdkError {
    fn from(e: SharedError) -> (r: SdkError) {
        SdkError::Shared(e)
    }
}

impl vstd::std_specs::convert::FromSpecImpl<SharedError> for SdkError {
    open spec fn obeys_from_spec() -> bool {
        true
    }

    open spec fn from_spec(e: SharedError) -> SdkError {
        SdkError::Shared(e)
    }
}

impl From<KernelError> for SdkError {
    fn from(e: KernelError) -> (r: SdkError) {
        SdkError::Kernel(e)
    }
}

impl vstd::std_specs::convert::FromSpecImpl<KernelError> for SdkError {
    open spec fn obeys_from_spec() -> bool {
        true
    }

    open spec fn from_spec(e: KernelError) -> SdkError {
        SdkError::Kernel(e)
    }
}

impl From<ProtocolError> for SdkError {
    fn from(e: ProtocolError) -> (r: SdkError) {
        SdkError::Channel(e)
    }
}

impl vstd::std_specs::convert::FromSpecImpl<ProtocolError> for SdkError {
    open spec fn obeys_from_spec() -> bool {
        true
    }

    open spec fn from_spec(e: ProtocolError) -> SdkError {
        SdkError::Channel(e)
    }
}

/// Result alias for application-facing operations.
pub type SdkResult<T> = Result<T, SdkError>;

} // verus!
