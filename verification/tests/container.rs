use cibos::abi::ids::{BoundaryId, ChannelId, LaneId};
use cibos::abi::limits::ResourceLimits;
use cibos::abi::sched::WeightClass;
use cibos::kernel::container::ContainerRegistry;
use cibos::kernel::error::KernelError;

fn small_limits() -> ResourceLimits {
    ResourceLimits {
        memory_bytes: 1024,
        max_lanes: 2,
        max_channels: 1,
        max_message_bytes: 256,
        max_channel_buffer: 8,
    }
}

#[test]
fn create_and_destroy() {
    let mut reg = ContainerRegistry::new();
    let id = reg.create(small_limits(), WeightClass::User);
    assert!(reg.contains(id));
    assert_eq!(reg.count(), 1);
    reg.destroy(id).unwrap();
    assert!(!reg.contains(id));
    assert!(matches!(reg.destroy(id), Err(KernelError::UnknownContainer)));
}

#[test]
fn system_boundary_is_unique() {
    let mut reg = ContainerRegistry::new();
    reg.create_system(ResourceLimits::default_application()).unwrap();
    assert!(reg.contains(BoundaryId::system()));
    assert!(reg.create_system(ResourceLimits::default_application()).is_err());
}

#[test]
fn lane_ceiling_enforced() {
    let mut reg = ContainerRegistry::new();
    let id = reg.create(small_limits(), WeightClass::User);
    reg.add_lane(id, LaneId::new(1)).unwrap();
    reg.add_lane(id, LaneId::new(2)).unwrap();
    assert!(matches!(
        reg.add_lane(id, LaneId::new(3)),
        Err(KernelError::LimitExceeded { resource: "lanes" })
    ));
    reg.remove_lane(id, LaneId::new(1));
    // Slot freed: another lane fits.
    reg.add_lane(id, LaneId::new(3)).unwrap();
}

#[test]
fn channel_ceiling_enforced() {
    let mut reg = ContainerRegistry::new();
    let id = reg.create(small_limits(), WeightClass::User);
    reg.add_channel(id, ChannelId::new(1)).unwrap();
    assert!(matches!(
        reg.add_channel(id, ChannelId::new(2)),
        Err(KernelError::LimitExceeded { resource: "channels" })
    ));
}

#[test]
fn memory_ceiling_enforced() {
    let mut reg = ContainerRegistry::new();
    let id = reg.create(small_limits(), WeightClass::User);
    reg.allocate(id, 512).unwrap();
    reg.allocate(id, 512).unwrap();
    // 1024 used; one more byte exceeds the 1024 limit.
    assert!(reg.allocate(id, 1).is_err());
    let usage = reg.usage(id).unwrap();
    assert_eq!(usage.allocated_bytes, 1024);
    assert_eq!(usage.peak_bytes, 1024);
    // Release and reallocate.
    reg.release_memory(id, 512);
    assert_eq!(reg.usage(id).unwrap().allocated_bytes, 512);
    reg.allocate(id, 256).unwrap();
    assert_eq!(reg.usage(id).unwrap().peak_bytes, 1024, "peak retained");
}

#[test]
fn unknown_container_is_refused() {
    let mut reg = ContainerRegistry::new();
    let id = BoundaryId::new(9);
    assert!(matches!(reg.add_lane(id, LaneId::new(1)), Err(KernelError::UnknownContainer)));
    assert!(matches!(reg.add_channel(id, ChannelId::new(1)), Err(KernelError::UnknownContainer)));
    assert!(matches!(reg.allocate(id, 1), Err(KernelError::UnknownContainer)));
    assert_eq!(reg.usage(id), None);
}

#[test]
fn memory_over_the_limit_is_a_limit_error() {
    let mut reg = ContainerRegistry::new();
    let id = reg.create(small_limits(), WeightClass::User);
    assert!(matches!(
        reg.allocate(id, u64::MAX),
        Err(KernelError::LimitExceeded { resource: "memory" })
    ));
    reg.allocate(id, 512).unwrap();
    reg.allocate(id, 512).unwrap();
    assert!(matches!(
        reg.allocate(id, 1),
        Err(KernelError::LimitExceeded { resource: "memory" })
    ));
    assert_eq!(reg.usage(id).unwrap().allocated_bytes, 1024);
    assert_eq!(reg.usage(id).unwrap().peak_bytes, 1024);
    reg.release_memory(id, 1024);
    reg.release_memory(id, 10);
    assert_eq!(reg.usage(id).unwrap().allocated_bytes, 0);
}

#[test]
fn removed_channels_free_their_place() {
    let mut reg = ContainerRegistry::new();
    let id = reg.create(small_limits(), WeightClass::User);
    reg.add_channel(id, ChannelId::new(1)).unwrap();
    reg.remove_channel(id, ChannelId::new(1));
    reg.add_channel(id, ChannelId::new(2)).unwrap();
    assert_eq!(reg.usage(id).unwrap().channel_count, 1);
}
