use vstd::prelude::*;

use crate::device::{Device, MirrorDevice};
use crate::escape::{escape_encode, Escaped};
use crate::frame::{encode_frame, frame_of, frame_take, FRAME_DATA_LEN};
use crate::input::{initial_input, push_step, Command, CommandView, InputStream, InputView};
use crate::output::{initial_output, next_step, OutputStream, OutputView};

verus! {

/// Drives both streams over one device, a tick at a time.
pub struct Connection<D: Device> {
    i_stream: InputStream,
    o_stream: OutputStream,
    data: Escaped,
    done_receiving: bool,
    pub(crate) device: D,
    /// Payload received and not yet taken
    received: Vec<u8>,
}

/// The output stream's state once it has been given the next frame of `source`.
pub open spec fn armed(o: OutputView, source: Seq<u8>) -> OutputView {
    OutputView {
        writing: true,
        frame: frame_of(source.take(frame_take(source.len()) as int)),
        index: 0,
        pending: Seq::empty(),
        last: o.last,
    }
}

/// What acting on the command `c` does to a connection, apart from its
/// input stream: `a` before, `b` after.
pub open spec fn dispatched<D: Device>(a: Connection<D>, b: Connection<D>, c: CommandView) -> bool {
    &&& b.spec_device() == a.spec_device()
    &&& c is Received ==> b.spec_received() == a.spec_received() + c->Received_0.take(
        FRAME_DATA_LEN as int,
    )
    &&& !(c is Received) ==> b.spec_received() == a.spec_received()
    &&& c is SendNextFrame ==> b.output_view() == armed(a.output_view(), a.source())
        && b.source() == a.source().skip(frame_take(a.source().len()) as int) && b.source_done()
        == (a.source_done() || a.source().len() < FRAME_DATA_LEN)
    &&& !(c is SendNextFrame) ==> b.source() == a.source() && b.source_done() == a.source_done()
    &&& c is ResendLastFrame ==> b.output_view() == (OutputView {
        writing: true,
        index: 0,
        pending: Seq::empty(),
        ..a.output_view()
    })
    &&& !(c is SendNextFrame) && !(c is ResendLastFrame) ==> b.output_view() == a.output_view()
    &&& b.spec_done_receiving() == (a.spec_done_receiving() || c is StopReceivingData)
}

/// One tick of a connection, `a` before and `b` after, in which `nibble`
/// was read off the line: the output stream sent its next nibble, the input
/// stream took the one read, and the connection acted on its command.
pub open spec fn after_tick<D: Device>(a: Connection<D>, b: Connection<D>, nibble: u8) -> bool {
    let (m, c) = push_step(a.input_view(), nibble);
    let o = next_step(a.output_view()).0;
    &&& b.input_view() == m
    &&& c is Received ==> b.spec_received() == a.spec_received() + c->Received_0.take(
        FRAME_DATA_LEN as int,
    )
    &&& !(c is Received) ==> b.spec_received() == a.spec_received()
    &&& c is SendNextFrame ==> b.output_view() == armed(o, a.source()) && b.source()
        == a.source().skip(frame_take(a.source().len()) as int) && b.source_done() == (
    a.source_done() || a.source().len() < FRAME_DATA_LEN)
    &&& !(c is SendNextFrame) ==> b.source() == a.source() && b.source_done() == a.source_done()
    &&& c is ResendLastFrame ==> b.output_view() == (OutputView {
        writing: true,
        index: 0,
        pending: Seq::empty(),
        ..o
    })
    &&& !(c is SendNextFrame) && !(c is ResendLastFrame) ==> b.output_view() == o
    &&& b.spec_done_receiving() == (a.spec_done_receiving() || c is StopReceivingData)
}

impl<D: Device> Connection<D> {
    pub closed spec fn wf(&self) -> bool {
        &&& self.i_stream.wf()
        &&& self.o_stream.wf()
        &&& self.data.wf()
        &&& self.device.inv()
    }

    pub closed spec fn input_view(&self) -> InputView {
        self.i_stream@
    }

    pub closed spec fn output_view(&self) -> OutputView {
        self.o_stream@
    }

    /// The escaped bytes not yet put into a frame.
    pub closed spec fn source(&self) -> Seq<u8> {
        self.data.remaining()
    }

    pub closed spec fn source_done(&self) -> bool {
        self.data.spec_done()
    }

    pub closed spec fn spec_done_receiving(&self) -> bool {
        self.done_receiving
    }

    pub closed spec fn spec_received(&self) -> Seq<u8> {
        self.received@
    }

    pub closed spec fn spec_device(&self) -> D {
        self.device
    }

    /// Sets up both streams; the first frame of `bytes` is armed at once.
    pub fn new(device: D, bytes: Vec<u8>) -> (r: Connection<D>)
        requires
            device.inv(),
        ensures
            r.wf(),
            r.input_view() == initial_input(),
            r.output_view() == armed(initial_output(), escape_encode(bytes@)),
            r.source() == escape_encode(bytes@).skip(
                frame_take(escape_encode(bytes@).len()) as int,
            ),
            r.source_done() == (escape_encode(bytes@).len() < FRAME_DATA_LEN),
            !r.spec_done_receiving(),
            r.spec_received() == Seq::<u8>::empty(),
            r.spec_device() == device,
    {
        let mut data = Escaped::new(bytes);
        let mut o_stream = OutputStream::new();
        let frame = encode_frame(&mut data);
        o_stream.send_frame(frame);
        Connection {
            i_stream: InputStream::new(),
            o_stream,
            data,
            done_receiving: false,
            device,
            received: Vec::new(),
        }
    }

    /// The nibble to send in this tick.
    pub fn pull_nibble(&mut self) -> (r: u8)
        requires
            old(self).wf(),
        ensures
            final(self).wf(),
            (final(self).output_view(), r) == next_step(old(self).output_view()),
            final(self).input_view() == old(self).input_view(),
            final(self).source() == old(self).source(),
            final(self).source_done() == old(self).source_done(),
            final(self).spec_done_receiving() == old(self).spec_done_receiving(),
            final(self).spec_received() == old(self).spec_received(),
            final(self).spec_device() == old(self).spec_device(),
    {
        self.o_stream.next()
    }

    /// Acts on what the peer said.
    pub fn dispatch(&mut self, command: Command)
        requires
            old(self).wf(),
        ensures
            final(self).wf(),
            final(self).input_view() == old(self).input_view(),
            dispatched(*old(self), *final(self), command@),
    {
        match command {
            Command::Received(frame) => {
                let mut i: usize = 0;
                let ghost start = self.received@;
                while i < FRAME_DATA_LEN
                    invariant
                        i <= FRAME_DATA_LEN,
                        frame@.len() == FRAME_DATA_LEN,
                        self.received@ == start + frame@.take(i as int),
                        self.wf(),
                        self.i_stream == old(self).i_stream,
                        self.o_stream == old(self).o_stream,
                        self.data == old(self).data,
                        self.device == old(self).device,
                        self.done_receiving == old(self).done_receiving,
                    decreases FRAME_DATA_LEN - i,
                {
                    self.received.push(frame[i]);
                    i = i + 1;
                    assert(self.received@ =~= start + frame@.take(i as int));
                }
            },
            Command::SendNextFrame => {
                let frame = encode_frame(&mut self.data);
                self.o_stream.send_frame(frame);
            },
            Command::ResendLastFrame => self.o_stream.resend_frame(),
            Command::StopReceivingData => self.done_receiving = true,
            Command::Nothing => {},
        }
    }

    /// Takes the nibble read in this tick; returns whether the connection
    /// has more to do.
    pub fn take_nibble(&mut self, nibble: u8) -> (r: bool)
        requires
            old(self).wf(),
        ensures
            final(self).wf(),
            final(self).input_view() == push_step(old(self).input_view(), nibble).0,
            dispatched(*old(self), *final(self), push_step(old(self).input_view(), nibble).1),
            r == !(final(self).source_done() && final(self).spec_done_receiving()),
    {
        let command = self.i_stream.push(nibble);
        self.dispatch(command);
        !(self.data.is_done() && self.done_receiving)
    }

    /// One tick: send a nibble, read one, act on it. Returns false once all
    /// data has been sent and the peer has finished sending.
    pub fn poll(&mut self) -> (r: bool)
        requires
            old(self).wf(),
        ensures
            final(self).wf(),
            r == !(final(self).source_done() && final(self).spec_done_receiving()),
            exists|nibble: u8| #[trigger] after_tick(*old(self), *final(self), nibble),
    {
        let nibble_out = self.pull_nibble();
        self.device.send(nibble_out);
        let nibble_in = self.device.read();
        let command = self.i_stream.push(nibble_in);
        self.dispatch(command);
        self.device.debug_poll();
        assert(after_tick(*old(self), *self, nibble_in));
        !(self.data.is_done() && self.done_receiving)
    }

    /// Hands over the payload received so far and forgets it.
    pub fn take_received(&mut self) -> (r: Vec<u8>)
        requires
            old(self).wf(),
        ensures
            final(self).wf(),
            r@ == old(self).spec_received(),
            final(self).spec_received() == Seq::<u8>::empty(),
            final(self).input_view() == old(self).input_view(),
            final(self).output_view() == old(self).output_view(),
            final(self).source() == old(self).source(),
            final(self).source_done() == old(self).source_done(),
            final(self).spec_done_receiving() == old(self).spec_done_receiving(),
    {
        let mut r: Vec<u8> = Vec::new();
        std::mem::swap(&mut r, &mut self.received);
        r
    }
}

impl Connection<MirrorDevice> {
    /// Puts `data` on the line towards this end.
    pub fn set_incoming(&mut self, data: u8)
        ensures
            final(self).spec_device().spec_incoming() == data,
            final(self).spec_device().spec_outgoing() == old(self).spec_device().spec_outgoing(),
            old(self).wf() ==> final(self).wf(),
            final(self).input_view() == old(self).input_view(),
            final(self).output_view() == old(self).output_view(),
            final(self).source() == old(self).source(),
            final(self).source_done() == old(self).source_done(),
            final(self).spec_done_receiving() == old(self).spec_done_receiving(),
            final(self).spec_received() == old(self).spec_received(),
    {
        self.device.set_incoming(data);
    }

    /// What this end last put on the line.
    pub fn outgoing(&self) -> (r: u8)
        ensures
            r == self.spec_device().spec_outgoing(),
    {
        self.device.outgoing()
    }
}

} // verus!
