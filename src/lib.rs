//! A half-duplex link layer over a cable that carries one nibble at a time:
//! an escape encoder, a frame packer, an output stream that never repeats a
//! nibble, an input stream that reassembles frames from the edges it sees,
//! and a connection that drives both over a device.
use vstd::prelude::*;

pub mod connection;
pub mod device;
pub mod escape;
pub mod frame;
pub mod hex;
pub mod input;
pub mod line;
pub mod output;
pub mod types;
pub mod window;

verus! {

} // verus!
