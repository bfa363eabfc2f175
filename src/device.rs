use vstd::prelude::*;

use crate::connection::{armed, Connection};
use crate::escape::escape_encode;
use crate::input::initial_input;
use crate::output::initial_output;

verus! {

/// A line that carries one nibble at a time in each direction.
pub trait Device {
    /// What the device keeps true of itself between calls.
    open spec fn inv(&self) -> bool {
        true
    }

    /// Only sends the lower nibble of the byte.
    fn send(&mut self, data: u8)
        requires
            old(self).inv(),
        ensures
            final(self).inv(),
    ;

    /// Only reads the lower nibble of the byte.
    fn read(&self) -> u8
        requires
            self.inv(),
    ;

    /// Gives a simulated peer its turn; a real line has nothing to do.
    fn debug_poll(&mut self)
        requires
            old(self).inv(),
        ensures
            final(self).inv(),
    ;

    fn name(&self) -> &'static str;
}

/// An Arduino board as the other end of the cable.
pub struct Arduino;

/// One end of an in-process line: it keeps what each side last wrote.
pub struct MirrorDevice {
    incoming: u8,
    outgoing: u8,
}

impl MirrorDevice {
    pub closed spec fn spec_incoming(&self) -> u8 {
        self.incoming
    }

    pub closed spec fn spec_outgoing(&self) -> u8 {
        self.outgoing
    }

    pub fn new() -> (r: MirrorDevice)
        ensures
            r.spec_incoming() == 0,
            r.spec_outgoing() == 0,
    {
        MirrorDevice { incoming: 0, outgoing: 0 }
    }

    /// Puts `data` on the line towards this end.
    pub fn set_incoming(&mut self, data: u8)
        ensures
            final(self).spec_incoming() == data,
            final(self).spec_outgoing() == old(self).spec_outgoing(),
    {
        self.incoming = data;
    }

    /// What this end last put on the line.
    pub fn outgoing(&self) -> (r: u8)
        ensures
            r == self.spec_outgoing(),
    {
        self.outgoing
    }
}

impl Device for MirrorDevice {
    fn send(&mut self, data: u8)
        ensures
            final(self).spec_outgoing() == data,
            final(self).spec_incoming() == old(self).spec_incoming(),
    {
        self.outgoing = data;
    }

    fn read(&self) -> (r: u8)
        ensures
            r == self.spec_incoming(),
    {
        self.incoming
    }

    fn debug_poll(&mut self) {
    }

    fn name(&self) -> &'static str {
        "Mirror"
    }
}

/// A line whose other end is a connection in the same process, which sends
/// nothing of its own and echoes the protocol back.
pub struct DebugDevice {
    other_side: Connection<MirrorDevice>,
}

impl DebugDevice {
    pub closed spec fn wf(&self) -> bool {
        self.other_side.wf()
    }

    /// The connection at the other end of the line.
    pub closed spec fn peer(&self) -> Connection<MirrorDevice> {
        self.other_side
    }

    /// The other end is a new connection with nothing to send, over a line
    /// on which nothing has been put yet.
    pub fn new() -> (r: DebugDevice)
        ensures
            r.wf(),
            r.peer().input_view() == initial_input(),
            r.peer().output_view() == armed(initial_output(), Seq::empty()),
            r.peer().source() == Seq::<u8>::empty(),
            r.peer().source_done(),
            !r.peer().spec_done_receiving(),
            r.peer().spec_received() == Seq::<u8>::empty(),
            r.peer().spec_device().spec_incoming() == 0,
            r.peer().spec_device().spec_outgoing() == 0,
    {
        proof {
            assert(escape_encode(Seq::<u8>::empty()) == Seq::<u8>::empty());
            assert(Seq::<u8>::empty().skip(0) =~= Seq::<u8>::empty());
        }
        DebugDevice { other_side: Connection::new(MirrorDevice::new(), Vec::new()) }
    }
}

impl Device for DebugDevice {
    closed spec fn inv(&self) -> bool {
        self.wf()
    }

    fn send(&mut self, data: u8)
        ensures
            final(self).peer().spec_device().spec_incoming() == data,
            final(self).peer().spec_device().spec_outgoing() == old(
                self,
            ).peer().spec_device().spec_outgoing(),
            final(self).peer().input_view() == old(self).peer().input_view(),
            final(self).peer().output_view() == old(self).peer().output_view(),
    {
        self.other_side.set_incoming(data);
    }

    fn read(&self) -> (r: u8)
        ensures
            r == self.peer().spec_device().spec_outgoing(),
    {
        self.other_side.outgoing()
    }

    /// The other end takes its tick.
    fn debug_poll(&mut self) {
        self.other_side.poll();
    }

    fn name(&self) -> &'static str {
        "Debug"
    }
}

} // verus!
