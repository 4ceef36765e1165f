use cibos::kernel::net_device::{LoopbackNic, NetDevice, NetDeviceError, DEFAULT_MTU};

const MAC: [u8; 6] = [0x52, 0x54, 0x00, 0x12, 0x34, 0x56];

#[test]
fn mac_and_default_mtu() {
    let nic = LoopbackNic::new(MAC);
    assert_eq!(nic.mac(), [0x52, 0x54, 0x00, 0x12, 0x34, 0x56]);
    assert_eq!(nic.mtu(), DEFAULT_MTU);
    assert!(nic.link_up());
}

#[test]
fn send_then_recv_round_trips_a_frame() {
    let mut nic = LoopbackNic::new(MAC);
    nic.send_frame(b"hello-frame").unwrap();
    let mut buf = vec![0u8; 64];
    let n = nic.recv_frame(&mut buf).unwrap().expect("a frame is waiting");
    assert_eq!(&buf[..n], b"hello-frame");
}

#[test]
fn recv_with_no_frame_returns_none() {
    let mut nic = LoopbackNic::new(MAC);
    let mut buf = vec![0u8; 64];
    assert_eq!(nic.recv_frame(&mut buf).unwrap(), None);
}

#[test]
fn oversized_frame_is_rejected() {
    let mut nic = LoopbackNic::new(MAC);
    let big = vec![0u8; DEFAULT_MTU + 1];
    assert_eq!(nic.send_frame(&big), Err(NetDeviceError::TooLarge));
}

#[test]
fn recv_into_small_buffer_is_too_large() {
    let mut nic = LoopbackNic::new(MAC);
    nic.send_frame(b"0123456789").unwrap();
    let mut small = vec![0u8; 4];
    assert_eq!(nic.recv_frame(&mut small), Err(NetDeviceError::TooLarge));
}

#[test]
fn link_down_blocks_send_and_recv() {
    let mut nic = LoopbackNic::new(MAC);
    nic.set_link(false);
    assert_eq!(nic.send_frame(b"x"), Err(NetDeviceError::LinkDown));
    let mut buf = vec![0u8; 16];
    assert_eq!(nic.recv_frame(&mut buf), Err(NetDeviceError::LinkDown));
}

#[test]
fn frames_keep_their_order() {
    let mut nic = LoopbackNic::new(MAC);
    nic.send_frame(b"one").unwrap();
    nic.send_frame(b"three").unwrap();
    let mut buf = vec![0u8; 3];
    assert_eq!(nic.recv_frame(&mut buf).unwrap(), Some(3));
    assert_eq!(&buf, b"one");
    // The second does not fit, and stays.
    assert_eq!(nic.recv_frame(&mut buf), Err(NetDeviceError::TooLarge));
    let mut buf = vec![0u8; 8];
    assert_eq!(nic.recv_frame(&mut buf).unwrap(), Some(5));
    assert_eq!(&buf[..5], b"three");
}

#[test]
fn refused_frames_stay_and_the_address_is_kept() {
    let mut nic = LoopbackNic::new(MAC);
    nic.send_frame(b"0123456789").unwrap();
    let mut small = vec![0u8; 9];
    assert_eq!(nic.recv_frame(&mut small), Err(NetDeviceError::TooLarge));
    assert_eq!(nic.mac(), MAC);
    let mut buf = vec![0u8; 10];
    assert_eq!(nic.recv_frame(&mut buf), Ok(Some(10)));
    assert_eq!(&buf, b"0123456789");
    assert_eq!(nic.mac(), MAC);
}
