use vstd::prelude::*;

use crate::frame::{Frame, FRAME_LEN};
use crate::window::Window;

verus! {

/// High nibble of the Buffer code.
pub const BUFFER_HIGH: u8 = 0x5;
/// Low nibble of the Buffer code.
pub const BUFFER_LOW: u8 = 0x6;

/// Nibble `i` of `frame`, high nibble of each byte first.
pub open spec fn frame_nibble(frame: Seq<u8>, i: nat) -> u8 {
    if i % 2 == 0 {
        frame[i as int / 2] / 16
    } else {
        frame[i as int / 2] % 16
    }
}

/// What is put on the line between two equal nibbles `c`: the Buffer code's
/// nibbles, or the one of them that differs from `c` where `c` is one of them.
pub open spec fn separator(c: u8) -> Seq<u8> {
    if c == BUFFER_HIGH {
        seq![BUFFER_LOW]
    } else if c == BUFFER_LOW {
        seq![BUFFER_HIGH]
    } else {
        seq![BUFFER_HIGH, BUFFER_LOW]
    }
}

/// The idle pattern: 0xF and 0x0 in turn.
pub open spec fn idle_after(last: u8) -> u8 {
    if last == 0x0f {
        0x00
    } else {
        0x0f
    }
}

/// The state of an output stream, as the contracts see it.
pub struct OutputView {
    pub writing: bool,
    pub frame: Seq<u8>,
    /// Index of the next nibble of the frame
    pub index: nat,
    /// Nibbles decided on but not yet sent
    pub pending: Seq<u8>,
    /// The nibble sent last
    pub last: u8,
}

/// One call of `next`: the new state and the nibble sent.
pub open spec fn next_step(m: OutputView) -> (OutputView, u8) {
    if m.pending.len() > 0 {
        (OutputView { pending: m.pending.drop_first(), last: m.pending[0], ..m }, m.pending[0])
    } else if m.writing && m.index < 2 * FRAME_LEN {
        let c = frame_nibble(m.frame, m.index);
        if c != m.last {
            (OutputView { index: m.index + 1, last: c, ..m }, c)
        } else {
            let s = separator(c).push(c);
            (OutputView { index: m.index + 1, pending: s.drop_first(), last: s[0], ..m }, s[0])
        }
    } else {
        let c = idle_after(m.last);
        (OutputView { writing: false, last: c, ..m }, c)
    }
}

/// The nibbles sent by `n` calls of `next`, starting from `m`.
pub open spec fn emitted(m: OutputView, n: nat) -> Seq<u8>
    decreases n,
{
    if n == 0 {
        Seq::empty()
    } else {
        seq![next_step(m).1] + emitted(next_step(m).0, (n - 1) as nat)
    }
}

/// The state after `n` calls of `next`, starting from `m`.
pub open spec fn after_steps(m: OutputView, n: nat) -> OutputView
    decreases n,
{
    if n == 0 {
        m
    } else {
        after_steps(next_step(m).0, (n - 1) as nat)
    }
}

/// The state of a new output stream.
pub open spec fn initial_output() -> OutputView {
    OutputView {
        writing: false,
        frame: Seq::new(FRAME_LEN as nat, |i: int| 0u8),
        index: 0,
        pending: Seq::empty(),
        last: 0,
    }
}

/// What every reachable state of an output stream satisfies.
pub open spec fn output_inv(m: OutputView) -> bool {
    &&& m.frame.len() == FRAME_LEN
    &&& m.index <= 2 * FRAME_LEN
    &&& m.last < 16
    &&& m.pending.len() <= 2
    &&& forall|i: int| 0 <= i < m.pending.len() ==> #[trigger] m.pending[i] < 16
    &&& m.pending.len() > 0 ==> m.pending[0] != m.last
    &&& m.pending.len() == 2 ==> m.pending[0] != m.pending[1]
}

/// A state that satisfies the invariant keeps it across `next`, and the
/// nibble sent is a nibble that differs from the one sent before.
pub proof fn lemma_next_step(m: OutputView)
    requires
        output_inv(m),
    ensures
        output_inv(next_step(m).0),
        next_step(m).1 < 16,
        next_step(m).1 != m.last,
        next_step(m).0.last == next_step(m).1,
{
    if m.pending.len() == 0 && m.writing && m.index < 2 * FRAME_LEN {
        let c = frame_nibble(m.frame, m.index);
        assert(c < 16);
    }
}

/// No two nibbles sent one after the other by `next` are equal: for any
/// number of calls, each nibble differs from the one before it.
pub proof fn lemma_adjacent_transition(m: OutputView, n: nat)
    requires
        output_inv(m),
    ensures
        emitted(m, n).len() == n,
        forall|i: int| 0 <= i < n ==> #[trigger] emitted(m, n)[i] < 16,
        forall|i: int| 0 < i < n ==> #[trigger] emitted(m, n)[i] != emitted(m, n)[i - 1],
        n > 0 ==> emitted(m, n)[0] != m.last,
    decreases n,
{
    if n > 0 {
        lemma_next_step(m);
        let m1 = next_step(m).0;
        lemma_adjacent_transition(m1, (n - 1) as nat);
        let e = emitted(m, n);
        let rest = emitted(m1, (n - 1) as nat);
        assert(e == seq![next_step(m).1] + rest);
        assert forall|i: int| 0 < i < n implies #[trigger] e[i] != e[i - 1] by {
            if i == 1 {
                assert(e[1] == rest[0]);
            } else {
                assert(e[i] == rest[i - 1] && e[i - 1] == rest[i - 2]);
            }
        }
        assert forall|i: int| 0 <= i < n implies #[trigger] e[i] < 16 by {
            if i > 0 {
                assert(e[i] == rest[i - 1]);
            }
        }
    }
}

/// A call on an output stream.
pub enum OutputCall {
    Next,
    SendFrame(Seq<u8>),
    ResendFrame,
}

/// A call's effect on the state, and the nibble it sent, if any.
pub open spec fn call_step(m: OutputView, c: OutputCall) -> (OutputView, Seq<u8>) {
    match c {
        OutputCall::Next => (next_step(m).0, seq![next_step(m).1]),
        OutputCall::SendFrame(f) => (
            OutputView { writing: true, frame: f, index: 0, pending: Seq::empty(), ..m },
            Seq::empty(),
        ),
        OutputCall::ResendFrame => (
            OutputView { writing: true, index: 0, pending: Seq::empty(), ..m },
            Seq::empty(),
        ),
    }
}

/// The nibbles sent by a run of calls, in order.
pub open spec fn calls_emitted(m: OutputView, cs: Seq<OutputCall>) -> Seq<u8>
    decreases cs.len(),
{
    if cs.len() == 0 {
        Seq::empty()
    } else {
        call_step(m, cs[0]).1 + calls_emitted(call_step(m, cs[0]).0, cs.drop_first())
    }
}

/// Frames of the right length, as `send_frame` takes them.
pub open spec fn calls_ok(cs: Seq<OutputCall>) -> bool {
    forall|i: int|
        0 <= i < cs.len() ==> (#[trigger] cs[i] matches OutputCall::SendFrame(f) ==> f.len()
            == FRAME_LEN)
}

/// Whatever runs of `next`, `send_frame` and `resend_frame` calls an output
/// stream takes, no nibble it sends equals the one it sent before.
pub proof fn lemma_calls_transition(m: OutputView, cs: Seq<OutputCall>)
    requires
        output_inv(m),
        calls_ok(cs),
    ensures
        forall|i: int| 0 <= i < calls_emitted(m, cs).len() ==> #[trigger] calls_emitted(m, cs)[i] < 16,
        forall|i: int|
            0 < i < calls_emitted(m, cs).len() ==> #[trigger] calls_emitted(m, cs)[i]
                != calls_emitted(m, cs)[i - 1],
        calls_emitted(m, cs).len() > 0 ==> calls_emitted(m, cs)[0] != m.last,
    decreases cs.len(),
{
    if cs.len() > 0 {
        let (m1, e) = call_step(m, cs[0]);
        let rest = cs.drop_first();
        assert(calls_ok(rest)) by {
            assert forall|i: int| 0 <= i < rest.len() implies (#[trigger] rest[i] matches OutputCall::SendFrame(f) ==> f.len() == FRAME_LEN) by {
                assert(rest[i] == cs[i + 1]);
            }
        }
        lemma_next_step(m);
        assert(output_inv(m1)) by {
            assert(cs[0] matches OutputCall::SendFrame(f) ==> f.len() == FRAME_LEN);
        }
        assert(m1.last == m.last || (e.len() == 1 && m1.last == e[0]));
        lemma_calls_transition(m1, rest);
        let all = calls_emitted(m, cs);
        let tail = calls_emitted(m1, rest);
        assert(all == e + tail);
        assert forall|i: int| 0 <= i < all.len() implies #[trigger] all[i] < 16 by {
            if i >= e.len() {
                assert(all[i] == tail[i - e.len()]);
            }
        }
        assert forall|i: int| 0 < i < all.len() implies #[trigger] all[i] != all[i - 1] by {
            if i > e.len() {
                assert(all[i] == tail[i - e.len()] && all[i - 1] == tail[i - 1 - e.len()]);
            } else if i == e.len() {
                assert(all[i] == tail[0]);
            }
        }
    }
}

enum OutputState {
    WaitingForFrame,
    WritingFrame,
}

/// Turns frames into a stream of nibbles in which no nibble repeats the one
/// before it.
pub struct OutputStream {
    state: OutputState,
    /// Data to send
    frame: Frame,
    /// Index of the nibble to send
    index: usize,
    /// Nibbles decided on but not yet sent
    window: Window<2>,
    /// The nibble sent last
    last: u8,
}

impl View for OutputStream {
    type V = OutputView;

    closed spec fn view(&self) -> OutputView {
        OutputView {
            writing: self.state is WritingFrame,
            frame: self.frame@,
            index: self.index as nat,
            pending: self.window@,
            last: self.last,
        }
    }
}

proof fn lemma_split_byte(b: u8)
    ensures
        b >> 4u8 == b / 16,
        b & 0x0fu8 == b % 16,
{
    assert(b >> 4u8 == b / 16) by (bit_vector);
    assert(b & 0x0fu8 == b % 16) by (bit_vector);
}

impl OutputStream {
    pub closed spec fn wf(&self) -> bool {
        &&& self.window.wf()
        &&& output_inv(self@)
    }

    pub fn new() -> (r: OutputStream)
        ensures
            r.wf(),
            r@ == initial_output(),
    {
        let r = OutputStream {
            state: OutputState::WaitingForFrame,
            frame: [0u8; FRAME_LEN],
            index: 0,
            window: Window::new(),
            last: 0,
        };
        assert(r@.frame =~= initial_output().frame);
        assert(r@.pending =~= initial_output().pending);
        r
    }

    /// Starts sending `frame` from its first nibble.
    pub fn send_frame(&mut self, frame: Frame)
        requires
            old(self).wf(),
        ensures
            final(self).wf(),
            final(self)@ == (OutputView {
                writing: true,
                frame: frame@,
                index: 0,
                pending: Seq::empty(),
                last: old(self)@.last,
            }),
            final(self)@ == call_step(old(self)@, OutputCall::SendFrame(frame@)).0,
    {
        self.state = OutputState::WritingFrame;
        self.frame = frame;
        self.index = 0;
        self.window = Window::new();
    }

    /// Sends the current frame again from its first nibble.
    pub fn resend_frame(&mut self)
        requires
            old(self).wf(),
        ensures
            final(self).wf(),
            final(self)@ == (OutputView {
                writing: true,
                index: 0,
                pending: Seq::empty(),
                ..old(self)@
            }),
            final(self)@ == call_step(old(self)@, OutputCall::ResendFrame).0,
    {
        self.state = OutputState::WritingFrame;
        self.index = 0;
        self.window = Window::new();
    }

    /// Returns the next nibble to send.
    pub fn next(&mut self) -> (r: u8)
        requires
            old(self).wf(),
        ensures
            final(self).wf(),
            (final(self)@, r) == next_step(old(self)@),
            (final(self)@, seq![r]) == call_step(old(self)@, OutputCall::Next),
            r < 16,
            r != old(self)@.last,
    {
        proof {
            lemma_next_step(self@);
        }
        if let Some(nibble) = self.window.pop_front() {
            self.last = nibble;
            return nibble;
        }
        if matches!(self.state, OutputState::WritingFrame) && self.index < 2 * FRAME_LEN {
            let byte = self.frame[self.index / 2];
            proof {
                lemma_split_byte(byte);
            }
            let nibble = if self.index % 2 == 0 {
                byte >> 4
            } else {
                byte & 0x0f
            };
            self.index = self.index + 1;
            if nibble != self.last {
                self.last = nibble;
                return nibble;
            }
            // equal nibbles would make no edge: put the Buffer code between them
            let first = if nibble == BUFFER_HIGH {
                BUFFER_LOW
            } else {
                BUFFER_HIGH
            };
            if nibble != BUFFER_HIGH && nibble != BUFFER_LOW {
                self.window.push_back(BUFFER_LOW);
            }
            self.window.push_back(nibble);
            self.last = first;
            assert(self.window@ =~= separator(nibble).push(nibble).drop_first());
            return first;
        }
        self.state = OutputState::WaitingForFrame;
        let nibble = if self.last == 0x0f {
            0x00
        } else {
            0x0f
        };
        self.last = nibble;
        nibble
    }
}

} // verus!
