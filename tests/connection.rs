use nibble_link::connection::Connection;
use nibble_link::device::{DebugDevice, Device, MirrorDevice};
use nibble_link::hex::bytes_to_debug_string;
use nibble_link::input::Command;

#[test]
fn debug_string_lists_bytes_in_hex() {
    assert_eq!(bytes_to_debug_string(&[0x00, 0x0a, 0xff]), "[00, 0a, ff]");
    assert_eq!(bytes_to_debug_string(&[0x12]), "[12]");
    assert_eq!(bytes_to_debug_string(&[]), "[]");
}

#[test]
fn mirror_device_keeps_what_was_sent() {
    let mut device = MirrorDevice::new();
    assert_eq!(device.read(), 0);
    device.send(0x7);
    assert_eq!(device.read(), 0);
    assert_eq!(device.name(), "Mirror");
}

#[test]
fn first_frame_crosses_between_two_connections() {
    let payload: Vec<u8> = (0..64).map(|i| if i % 2 == 0 { 0xf0 } else { 0x9a }).collect();
    let mut a = Connection::new(MirrorDevice::new(), payload.clone());
    let mut b = Connection::new(MirrorDevice::new(), Vec::new());
    let mut got = Vec::new();
    for _ in 0..1000 {
        a.poll();
        b.poll();
        b.set_incoming(a.outgoing());
        a.set_incoming(b.outgoing());
        got.extend(b.take_received());
    }
    assert_eq!(got, payload);
}

#[test]
fn debug_device_delivers_the_other_sides_frame() {
    // the other side has nothing to send: its first frame is all zeros
    let mut connection = Connection::new(DebugDevice::new(), vec![0x42; 10]);
    let mut got = Vec::new();
    for _ in 0..1000 {
        assert!(connection.poll());
        got.extend(connection.take_received());
    }
    assert_eq!(got, vec![0u8; 64]);
}

#[test]
fn dispatch_stop_and_resend() {
    // exactly one frame: the source has not reported its end yet
    let mut c = Connection::new(MirrorDevice::new(), vec![0x21; 64]);
    c.dispatch(Command::StopReceivingData);
    assert!(c.take_nibble(0));
    c.dispatch(Command::SendNextFrame);
    // the second frame found the source empty
    assert!(!c.take_nibble(0));
    let first: Vec<u8> = (0..4).map(|_| c.pull_nibble()).collect();
    c.dispatch(Command::ResendLastFrame);
    let again: Vec<u8> = (0..4).map(|_| c.pull_nibble()).collect();
    assert_eq!(first, again);
}

#[test]
fn short_source_is_done_after_the_first_frame() {
    let mut c = Connection::new(MirrorDevice::new(), vec![0x21]);
    assert!(c.take_nibble(0));
    c.dispatch(Command::StopReceivingData);
    assert!(!c.take_nibble(0));
}

#[test]
fn dispatch_received_appends_the_data() {
    let mut c = Connection::new(MirrorDevice::new(), Vec::new());
    c.dispatch(Command::Received([0x5a; 64]));
    c.dispatch(Command::Nothing);
    assert_eq!(c.take_received(), vec![0x5a; 64]);
    assert!(c.take_received().is_empty());
}
