//! Kernel errors.
use vstd::prelude::*;
use vstd::string::StringExecFns;

verus! {

/// Errors of the rules that the kernel and the applications share.
#[derive(Debug, Clone, Copy, PartialEq, Eq, Structural)]
pub enum SharedError {
    /// An allocation would exceed the memory ceiling of its boundary.
    MemoryLimit,
    /// A handoff record does not start with the magic number.
    BadMagic,
    /// A handoff record has another version.
    VersionMismatch,
    /// The firmware's profile must not launch a kernel of the profile asked for.
    ForbiddenPairing,
    /// A memory region has an unknown kind, or ends past the last address.
    InvalidRegion,
}

impl SharedError {
    /// What the error says.
    pub open spec fn text(self) -> Seq<char> {
        match self {
            SharedError::MemoryLimit => "memory limit exceeded"@,
            SharedError::BadMagic => "not a handoff record"@,
            SharedError::VersionMismatch => "handoff version mismatch"@,
            SharedError::ForbiddenPairing => "forbidden profile pairing"@,
            SharedError::InvalidRegion => "invalid memory region"@,
        }
    }

    /// What the error says.
    pub fn message(&self) -> (s: &'static str)
        ensures
            s@ == self.text(),
    {
        match self {
            SharedError::MemoryLimit => "memory limit exceeded",
            SharedError::BadMagic => "not a handoff record",
            SharedError::VersionMismatch => "handoff version mismatch",
            SharedError::ForbiddenPairing => "forbidden profile pairing",
            SharedError::InvalidRegion => "invalid memory region",
        }
    }
}

/// Errors of the runtime that holds the lanes.
#[derive(Debug, Clone, Copy, PartialEq, Eq, Structural)]
pub enum RuntimeError {
    /// As many lanes are in flight as the runtime takes.
    LaneLimit,
}

impl RuntimeError {
    /// What the error says.
    pub open spec fn text(self) -> Seq<char> {
        match self {
            RuntimeError::LaneLimit => "lane limit reached"@,
        }
    }

    /// What the error says.
    pub fn message(&self) -> (s: &'static str)
        ensures
            s@ == self.text(),
    {
        match self {
            RuntimeError::LaneLimit => "lane limit reached",
        }
    }
}

/// Errors originating in the kernel.
#[derive(Debug, Clone, Copy, PartialEq, Eq)]
#[non_exhaustive]
pub enum KernelError {
    /// A rule that the kernel and the applications share was broken.
    Shared(SharedError),
    /// A runtime error.
    Runtime(RuntimeError),
    /// Initialization failed during a specific phase.
    InitFailed {
        /// The phase that failed.
        phase: &'static str,
    },
    /// A referenced container does not exist.
    UnknownContainer,
    /// A referenced channel does not exist.
    UnknownChannel,
    /// A resource limit was exceeded.
    LimitExceeded {
        /// The resource whose limit was hit.
        resource: &'static str,
    },
    /// An operation was attempted against an invalid or inconsistent state
    /// (e.g. mapping an already-mapped page, or an unaligned address).
    InvalidState {
        /// What was wrong.
        reason: &'static str,
    },
}

impl KernelError {
    /// What the error says.
    pub open spec fn text(self) -> Seq<char> {
        match self {
            KernelError::Shared(e) => e.text(),
            KernelError::Runtime(e) => e.text(),
            KernelError::InitFailed { phase } => "kernel init failed at "@ + phase@,
            KernelError::UnknownContainer => "unknown container"@,
            KernelError::UnknownChannel => "unknown channel"@,
            KernelError::LimitExceeded { resource } => "resource limit exceeded: "@ + resource@,
            KernelError::InvalidState { reason } => "invalid state: "@ + reason@,
        }
    }

    /// What the error says.
    pub fn message(&self) -> (s: String)
        ensures
            s@ == self.text(),
    {
        match self {
            KernelError::Shared(e) => e.message().to_owned(),
            KernelError::Runtime(e) => e.message().to_owned(),
            KernelError::InitFailed { phase } => "kernel init failed at ".to_owned().concat(phase),
            KernelError::UnknownContainer => "unknown container".to_owned(),
            KernelError::UnknownChannel => "unknown channel".to_owned(),
            KernelError::LimitExceeded { resource } => {
                "resource limit exceeded: ".to_owned().concat(resource)
            },
            KernelError::InvalidState { reason } => "invalid state: ".to_owned().concat(reason),
        }
    }

    /// The limit of `resource` was hit.
    pub open spec fn is_limit(self, resource: Seq<char>) -> bool {
        self matches KernelError::LimitExceeded { resource: r } && r@ == resource
    }

    /// The state was invalid for `reason`.
    pub open spec fn is_invalid(self, reason: Seq<char>) -> bool {
        self matches KernelError::InvalidState { reason: r } && r@ == reason
    }

    /// Initialization failed during `phase`.
    pub open spec fn is_init(self, phase: Seq<char>) -> bool {
        self matches KernelError::InitFailed { phase: p } && p@ == phase
    }
}

impl From<SharedError> for KernelError {
    fn from(e: SharedError) -> (r: KernelError) {
        KernelError::Shared(e)
    }
}

impl vstd::std_specs::convert::FromSpecImpl<SharedError> for KernelError {
    open spec fn obeys_from_spec() -> bool {
        true
    }

    open spec fn from_spec(e: SharedError) -> KernelError {
        KernelError::Shared(e)
    }
}

impl From<RuntimeError> for KernelError {
    fn from(e: RuntimeError) -> (r: KernelError) {
        KernelError::Runtime(e)
    }
}

impl vstd::std_specs::convert::FromSpecImpl<RuntimeError> for KernelError {
    open spec fn obeys_from_spec() -> bool {
        true
    }

    open spec fn from_spec(e: RuntimeError) -> KernelError {
        KernelError::Runtime(e)
    }
}

/// Result alias for kernel operations.
pub type KernelResult<T> = Result<T, KernelError>;

/// What an error says ends with what it is about, and an error that the kernel only passes
/// on says what it said.
pub proof fn messages_name_their_subject(
    subject: &'static str,
    limit: String,
    state: String,
    init: String,
    shared: SharedError,
    passed: String,
    said: &'static str,
)
    requires
        call_ensures(
            KernelError::message,
            (&KernelError::LimitExceeded { resource: subject },),
            limit,
        ),
        call_ensures(
            KernelError::message,
            (&KernelError::InvalidState { reason: subject },),
            state,
        ),
        call_ensures(KernelError::message, (&KernelError::InitFailed { phase: subject },), init),
        call_ensures(KernelError::message, (&KernelError::Shared(shared),), passed),
        call_ensures(SharedError::message, (&shared,), said),
    ensures
        subject@.is_suffix_of(limit@),
        subject@.is_suffix_of(state@),
        subject@.is_suffix_of(init@),
        passed@ == said@,
        limit@ != state@ && limit@ != init@ && state@ != init@,
{
    reveal_strlit("resource limit exceeded: ");
    reveal_strlit("invalid state: ");
    reveal_strlit("kernel init failed at ");
    assert(limit@.subrange(limit@.len() - subject@.len(), limit@.len() as int) =~= subject@);
    assert(state@.subrange(state@.len() - subject@.len(), state@.len() as int) =~= subject@);
    assert(init@.subrange(init@.len() - subject@.len(), init@.len() as int) =~= subject@);
}

} // verus!
