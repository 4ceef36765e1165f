use cibos::abi::terms::ProtocolError;
use cibos::kernel::error::{KernelError, RuntimeError, SharedError};
use cibos::sdk::error::SdkError;
use cibos::sdk::net::NetError;

#[test]
fn kernel_errors_say_what_happened() {
    assert_eq!(
        KernelError::InitFailed { phase: "memory" }.message(),
        "kernel init failed at memory"
    );
    assert_eq!(
        KernelError::LimitExceeded { resource: "lanes" }.message(),
        "resource limit exceeded: lanes"
    );
    assert_eq!(KernelError::InvalidState { reason: "x" }.message(), "invalid state: x");
    assert_eq!(KernelError::UnknownContainer.message(), "unknown container");
    assert_eq!(KernelError::UnknownChannel.message(), "unknown channel");
    assert_eq!(
        KernelError::from(SharedError::ForbiddenPairing).message(),
        "forbidden profile pairing"
    );
    assert_eq!(KernelError::from(RuntimeError::LaneLimit).message(), "lane limit reached");
}

#[test]
fn application_errors_say_what_happened() {
    assert_eq!(
        SdkError::from(ProtocolError::ChannelClosed).message(),
        "channel error: channel closed"
    );
    assert_eq!(
        SdkError::from(KernelError::UnknownChannel).message(),
        "unknown channel"
    );
    assert_eq!(
        SdkError::LimitExceeded { resource: "memory" }.message(),
        "resource limit exceeded: memory"
    );
    assert_eq!(NetError::Refused.message(), "connection refused");
    assert_eq!(NetError::AlreadyBound.message(), "gate already bound");
    assert_eq!(NetError::Blocked.message(), "blocked by warden");
    assert_eq!(NetError::LinkClosed.message(), "link closed");
}
