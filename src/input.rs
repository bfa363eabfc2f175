use vstd::prelude::*;

use crate::escape::{is_escape, EscapeCode};
use crate::frame::DATA_LEN;

verus! {

/// What the decoder reads out of its window of four nibbles.
#[derive(Clone, Copy, Debug)]
pub enum DecodedValue {
    /// One nibble of data
    Nibble(u8),
    /// A control byte sent twice: one byte of data
    Byte(u8),
    /// A control byte
    EscapeCode(EscapeCode),
}

/// What a push hands to the caller, as the contracts see it.
pub enum CommandView {
    Received(Seq<u8>),
    SendNextFrame,
    ResendLastFrame,
    StopReceivingData,
    Nothing,
}

/// What a push hands to the caller.
#[derive(Debug, PartialEq, Eq)]
pub enum Command {
    /// A complete frame's data and checksum
    Received([u8; DATA_LEN]),
    /// The peer has taken our last frame
    SendNextFrame,
    /// The peer rejected our last frame, or our side saw a broken one
    ResendLastFrame,
    /// From now on the other side will only send escape codes
    StopReceivingData,
    /// Keep polling
    Nothing,
}

impl View for Command {
    type V = CommandView;

    open spec fn view(&self) -> CommandView {
        match self {
            Command::Received(d) => CommandView::Received(d@),
            Command::SendNextFrame => CommandView::SendNextFrame,
            Command::ResendLastFrame => CommandView::ResendLastFrame,
            Command::StopReceivingData => CommandView::StopReceivingData,
            Command::Nothing => CommandView::Nothing,
        }
    }
}

/// The state of an input stream, as the contracts see it.
pub struct InputView {
    pub reading: bool,
    /// The nibble read last (0 before any)
    pub last: u8,
    /// The nibbles read but not yet decoded, oldest first
    pub pending: Seq<u8>,
    pub data: Seq<u8>,
    /// Index of the nibble of `data` to write next
    pub data_index: nat,
}

/// The byte with high nibble `hi` and low nibble `lo`.
pub open spec fn byte_of(hi: u8, lo: u8) -> u8 {
    (hi * 16 + lo) as u8
}

/// Decodes a full window: the value and how many of its nibbles stay.
pub open spec fn decode_window(p: Seq<u8>) -> (DecodedValue, nat) {
    let hi = byte_of(p[0], p[1]);
    let lo = byte_of(p[2], p[3]);
    match EscapeCode::spec_from_byte(hi) {
        Some(code) => if hi == lo {
            (DecodedValue::Byte(hi), 0)
        } else {
            (DecodedValue::EscapeCode(code), 2)
        },
        None => (DecodedValue::Nibble(p[0]), 3),
    }
}

/// How far `data_index` may run: past the end of the data, so that an
/// overlong frame is told from one of the right length.
pub const INDEX_LIMIT: usize = 2 * DATA_LEN + 2;

pub open spec fn advance(index: nat, k: nat) -> nat {
    if index + k > INDEX_LIMIT {
        INDEX_LIMIT as nat
    } else {
        index + k
    }
}

/// `data` with nibble `index` (high nibble of each byte first) set to `v`.
pub open spec fn set_nibble(data: Seq<u8>, index: nat, v: u8) -> Seq<u8> {
    let i = index as int / 2;
    if i < data.len() {
        let b = data[i];
        data.update(
            i,
            if index % 2 == 0 {
                (v * 16 + b % 16) as u8
            } else {
                (b - b % 16 + v) as u8
            },
        )
    } else {
        data
    }
}

/// `data` with the byte that holds nibble `index` set to `b`.
pub open spec fn set_byte(data: Seq<u8>, index: nat, b: u8) -> Seq<u8> {
    let i = index as int / 2;
    if i < data.len() {
        data.update(i, b)
    } else {
        data
    }
}

/// A decoded value while no frame is being read.
pub open spec fn waiting_step(m: InputView, v: DecodedValue) -> (InputView, CommandView) {
    match v {
        DecodedValue::EscapeCode(EscapeCode::StartOfFrame) => (
            InputView { reading: true, data_index: 0, ..m },
            CommandView::Nothing,
        ),
        DecodedValue::EscapeCode(EscapeCode::CorrectFrameData) => (m, CommandView::SendNextFrame),
        DecodedValue::EscapeCode(EscapeCode::IncorrectFrameData) => (
            m,
            CommandView::ResendLastFrame,
        ),
        DecodedValue::EscapeCode(EscapeCode::FinishedSending) => (
            m,
            CommandView::StopReceivingData,
        ),
        _ => (m, CommandView::Nothing),
    }
}

/// A decoded value while a frame is being read.
pub open spec fn reading_step(m: InputView, v: DecodedValue) -> (InputView, CommandView) {
    match v {
        DecodedValue::Nibble(n) => (
            InputView {
                data: set_nibble(m.data, m.data_index, n),
                data_index: advance(m.data_index, 1),
                ..m
            },
            CommandView::Nothing,
        ),
        DecodedValue::Byte(b) => (
            InputView {
                data: set_byte(m.data, m.data_index, b),
                data_index: advance(m.data_index, 2),
                ..m
            },
            CommandView::Nothing,
        ),
        DecodedValue::EscapeCode(code) => match code {
            EscapeCode::EndOfFrame => {
                let done = InputView { reading: false, data_index: 0, ..m };
                if m.data_index == 2 * DATA_LEN {
                    (done, CommandView::Received(m.data))
                } else {
                    (done, CommandView::ResendLastFrame)
                }
            },
            EscapeCode::StartOfFrame => if m.data_index != 0 {
                (InputView { data_index: 0, ..m }, CommandView::ResendLastFrame)
            } else {
                (m, CommandView::Nothing)
            },
            EscapeCode::CorrectFrameData => (m, CommandView::SendNextFrame),
            EscapeCode::IncorrectFrameData => (m, CommandView::ResendLastFrame),
            EscapeCode::FinishedSending => (m, CommandView::StopReceivingData),
            EscapeCode::Buffer => (m, CommandView::Nothing),
        },
    }
}

/// One call of `push`: the new state and the command returned.
pub open spec fn push_step(m: InputView, nibble: u8) -> (InputView, CommandView) {
    let n = nibble % 16;
    if n == m.last {
        // no edge on the line
        (m, CommandView::Nothing)
    } else {
        let p = m.pending.push(n);
        if p.len() < 4 {
            (InputView { last: n, pending: p, ..m }, CommandView::Nothing)
        } else {
            let (v, keep) = decode_window(p);
            let m1 = InputView { last: n, pending: p.subrange(4 - keep, 4), ..m };
            if m.reading {
                reading_step(m1, v)
            } else {
                waiting_step(m1, v)
            }
        }
    }
}

/// Nibble `k` of `w`, counted from the least significant.
pub open spec fn win_nib(w: u16, k: int) -> u8 {
    ((w >> (4 * k) as u16) & 0x0fu16) as u8
}

proof fn lemma_shift_in(w: u16, n: u8)
    requires
        n < 16,
    ensures
        win_nib(((w << 4u16) | (n as u16)) as u16, 0) == n,
        win_nib(((w << 4u16) | (n as u16)) as u16, 1) == win_nib(w, 0),
        win_nib(((w << 4u16) | (n as u16)) as u16, 2) == win_nib(w, 1),
        win_nib(((w << 4u16) | (n as u16)) as u16, 3) == win_nib(w, 2),
{
    let w2 = ((w << 4u16) | (n as u16)) as u16;
    assert(((w2 >> 0u16) & 0x0fu16) as u8 == n) by (bit_vector)
        requires
            w2 == ((w << 4u16) | (n as u16)) as u16,
            n < 16,
    ;
    assert(((w2 >> 4u16) & 0x0fu16) == ((w >> 0u16) & 0x0fu16)) by (bit_vector)
        requires
            w2 == ((w << 4u16) | (n as u16)) as u16,
            n < 16,
    ;
    assert(((w2 >> 8u16) & 0x0fu16) == ((w >> 4u16) & 0x0fu16)) by (bit_vector)
        requires
            w2 == ((w << 4u16) | (n as u16)) as u16,
            n < 16,
    ;
    assert(((w2 >> 12u16) & 0x0fu16) == ((w >> 8u16) & 0x0fu16)) by (bit_vector)
        requires
            w2 == ((w << 4u16) | (n as u16)) as u16,
            n < 16,
    ;
}

proof fn lemma_window_bytes(w: u16)
    ensures
        ((w as u8) & 0x0fu8) == win_nib(w, 0),
        (w >> 8u16) as u8 == byte_of(win_nib(w, 3), win_nib(w, 2)),
        w as u8 == byte_of(win_nib(w, 1), win_nib(w, 0)),
        (w >> 12u16) as u8 == win_nib(w, 3),
        win_nib(w, 0) < 16,
        win_nib(w, 1) < 16,
        win_nib(w, 2) < 16,
        win_nib(w, 3) < 16,
{
    assert(((w as u8) & 0x0fu8) == ((w >> 0u16) & 0x0fu16) as u8) by (bit_vector);
    assert((w >> 12u16) as u8 == ((w >> 12u16) & 0x0fu16) as u8) by (bit_vector);
    let a = ((w >> 12u16) & 0x0fu16) as u8;
    let b = ((w >> 8u16) & 0x0fu16) as u8;
    let c = ((w >> 4u16) & 0x0fu16) as u8;
    let d = ((w >> 0u16) & 0x0fu16) as u8;
    assert(a < 16 && b < 16 && c < 16 && d < 16) by (bit_vector)
        requires
            a == ((w >> 12u16) & 0x0fu16) as u8,
            b == ((w >> 8u16) & 0x0fu16) as u8,
            c == ((w >> 4u16) & 0x0fu16) as u8,
            d == ((w >> 0u16) & 0x0fu16) as u8,
    ;
    assert((w >> 8u16) as u8 == ((a as u16) * 16u16 + (b as u16)) as u8) by (bit_vector)
        requires
            a == ((w >> 12u16) & 0x0fu16) as u8,
            b == ((w >> 8u16) & 0x0fu16) as u8,
    ;
    assert(w as u8 == ((c as u16) * 16u16 + (d as u16)) as u8) by (bit_vector)
        requires
            c == ((w >> 4u16) & 0x0fu16) as u8,
            d == ((w >> 0u16) & 0x0fu16) as u8,
    ;
}

proof fn lemma_set_nibble_bits(b: u8, v: u8)
    requires
        v < 16,
    ensures
        (b & 0x0fu8) | (v << 4u8) == (v * 16 + b % 16) as u8,
        (b & 0xf0u8) | v == (b - b % 16 + v) as u8,
{
    assert((b & 0x0fu8) | (v << 4u8) == ((v as u16) * 16u16 + ((b as u16) % 16u16)) as u8)
        by (bit_vector)
        requires
            v < 16,
    ;
    assert((b & 0xf0u8) | v == ((b as u16) - ((b as u16) % 16u16) + (v as u16)) as u8)
        by (bit_vector)
        requires
            v < 16,
    ;
}

/// While a frame that already holds data is being read, a start-of-frame
/// code on the line makes the decoder ask for the frame again, and the
/// frame read so far is dropped.
pub proof fn lemma_start_inside_frame(m: InputView, nibble: u8)
    requires
        input_inv(m),
        m.reading,
        m.data_index != 0,
        nibble % 16 != m.last,
        m.pending.len() == 3,
        decode_window(m.pending.push(nibble % 16)).0 == DecodedValue::EscapeCode(
            EscapeCode::StartOfFrame,
        ),
    ensures
        push_step(m, nibble).1 == CommandView::ResendLastFrame,
        push_step(m, nibble).0.data_index == 0,
        push_step(m, nibble).0.reading,
{
}

/// A control byte sent twice in a row, inside a frame, is one byte of data:
/// the decoder writes it and goes on reading the frame, asking for nothing.
/// Since the packer gives the doubled byte two cells of the frame, a frame
/// that holds a control byte value thus ends one byte short at its EOF and
/// is answered with `ResendLastFrame`.
pub proof fn lemma_doubled_code_is_data(m: InputView, b: u8)
    requires
        m.reading,
        is_escape(b),
    ensures
        decode_window(seq![b / 16, b % 16, b / 16, b % 16]) == (DecodedValue::Byte(b), 0nat),
        reading_step(m, DecodedValue::Byte(b)) == ((InputView {
            data: set_byte(m.data, m.data_index, b),
            data_index: advance(m.data_index, 2),
            ..m
        }), CommandView::Nothing),
{
    let p = seq![b / 16, b % 16, b / 16, b % 16];
    assert(byte_of(p[0], p[1]) == b);
    assert(byte_of(p[2], p[3]) == b);
}

enum InputState {
    WaitingForFrame,
    ReadingFrame,
}

/// Reassembles frames from the nibbles read off the line.
pub struct InputStream {
    state: InputState,
    // the last 4 nibbles that have been received
    window: u16,
    // how many nibbles of the window are not decoded yet
    window_length: u8,
    data: [u8; DATA_LEN],
    // index of nibble in the frame to write to next
    data_index: usize,
}

impl View for InputStream {
    type V = InputView;

    closed spec fn view(&self) -> InputView {
        InputView {
            reading: self.state is ReadingFrame,
            last: win_nib(self.window, 0),
            pending: Seq::new(
                self.window_length as nat,
                |i: int| win_nib(self.window, self.window_length - 1 - i),
            ),
            data: self.data@,
            data_index: self.data_index as nat,
        }
    }
}

/// The state of a new input stream.
pub open spec fn initial_input() -> InputView {
    InputView {
        reading: false,
        last: 0,
        pending: Seq::empty(),
        data: Seq::new(DATA_LEN as nat, |i: int| 0u8),
        data_index: 0,
    }
}

/// What every reachable state of an input stream satisfies.
pub open spec fn input_inv(m: InputView) -> bool {
    &&& m.pending.len() <= 3
    &&& input_fields_ok(m)
}

/// The bounds on each part of the state.
pub open spec fn input_fields_ok(m: InputView) -> bool {
    &&& forall|i: int| 0 <= i < m.pending.len() ==> #[trigger] m.pending[i] < 16
    &&& m.last < 16
    &&& m.data.len() == DATA_LEN
    &&& m.data_index <= INDEX_LIMIT
}

impl InputStream {
    pub closed spec fn wf(&self) -> bool {
        &&& self.window_length <= 3
        &&& input_inv(self@)
    }

    pub fn new() -> (r: InputStream)
        ensures
            r.wf(),
            r@ == initial_input(),
    {
        let r = InputStream {
            state: InputState::WaitingForFrame,
            window: 0x0000,
            window_length: 0,
            data: [0u8; DATA_LEN],
            data_index: 0,
        };
        proof {
            lemma_window_bytes(0);
        }
        assert(r@.pending =~= Seq::<u8>::empty());
        assert(r@.data =~= Seq::new(DATA_LEN as nat, |i: int| 0u8));
        r
    }

    /// Takes one read of the line.
    pub fn push(&mut self, nibble: u8) -> (r: Command)
        requires
            old(self).wf(),
        ensures
            final(self).wf(),
            (final(self)@, r@) == push_step(old(self)@, nibble),
    {
        let changed = self.window_push(nibble);
        if !changed {
            return Command::Nothing;
        }
        let value = self.window_decode_value();
        match self.state {
            InputState::WaitingForFrame => self.waiting_for_frame(value),
            InputState::ReadingFrame => self.reading_frame(value),
        }
    }

    /// Pushes the nibble into the window and returns whether the window is
    /// full and should be decoded.
    fn window_push(&mut self, nibble: u8) -> (full: bool)
        requires
            old(self).wf(),
        ensures
            final(self).data == old(self).data,
            final(self).data_index == old(self).data_index,
            final(self).state == old(self).state,
            final(self).window_length <= 4,
            input_fields_ok(final(self)@),
            !full ==> final(self).wf() && (final(self)@, CommandView::Nothing) == push_step(
                old(self)@,
                nibble,
            ),
            full ==> final(self).window_length == 4 && final(self)@.pending.len() == 4
                && nibble % 16 != old(self)@.last && final(self)@.pending == old(
                self,
            )@.pending.push(nibble % 16) && final(self)@.last == nibble % 16,
    {
        // ensures that the unused nibble is 0
        let n = nibble & 0x0f;
        proof {
            lemma_window_bytes(self.window);
            assert(n == nibble % 16 && n < 16) by (bit_vector)
                requires
                    n == nibble & 0x0fu8,
            ;
        }
        let ghost old_m = self@;
        // truncates the u16, so that only the least significant nibble is left
        let previous_nibble = (#[verifier::truncate] (self.window as u8)) & 0x0f;
        // whether the value on the line has changed
        if previous_nibble == n {
            return false;
        }
        proof {
            lemma_shift_in(self.window, n);
        }
        self.window = (self.window << 4) | (n as u16);
        self.window_length = self.window_length + 1;
        proof {
            lemma_window_bytes(self.window);
            assert(self@.pending =~= old_m.pending.push(n)) by {
                assert forall|i: int| 0 <= i < self.window_length implies #[trigger] self@.pending[i]
                    == old_m.pending.push(n)[i] by {
                    let k = self.window_length - 1 - i;
                    assert(0 <= k <= 3);
                }
            }
        }
        self.window_length == 4
    }

    /// Decodes the full window and keeps the nibbles that are not used up.
    fn window_decode_value(&mut self) -> (v: DecodedValue)
        requires
            old(self).window_length == 4,
            old(self)@.pending.len() == 4,
            input_fields_ok(old(self)@),
        ensures
            final(self).wf(),
            final(self).data == old(self).data,
            final(self).data_index == old(self).data_index,
            final(self).state == old(self).state,
            final(self)@.last == old(self)@.last,
            (v, (final(self).window_length as nat)) == decode_window(old(self)@.pending),
            final(self)@.pending == old(self)@.pending.subrange(
                4 - final(self).window_length,
                4,
            ),
    {
        let higher_byte = #[verifier::truncate] ((self.window >> 8) as u8);
        let lower_byte = #[verifier::truncate] (self.window as u8);
        proof {
            lemma_window_bytes(self.window);
            assert(self@.pending[0] == win_nib(self.window, 3));
            assert(self@.pending[1] == win_nib(self.window, 2));
            assert(self@.pending[2] == win_nib(self.window, 1));
            assert(self@.pending[3] == win_nib(self.window, 0));
        }
        // detect escape codes and shrink the window,
        // so that the data is not decoded again in the next iteration
        let v = match EscapeCode::from_byte(higher_byte) {
            Some(_) if higher_byte == lower_byte => {
                self.window_length = 0;
                DecodedValue::Byte(higher_byte)
            },
            Some(escape_code) => {
                self.window_length = 2;
                DecodedValue::EscapeCode(escape_code)
            },
            None => {
                self.window_length = 3;
                DecodedValue::Nibble(#[verifier::truncate] ((self.window >> 12) as u8))
            },
        };
        assert(self@.pending =~= old(self)@.pending.subrange(4 - self.window_length, 4));
        v
    }

    fn waiting_for_frame(&mut self, value: DecodedValue) -> (r: Command)
        requires
            old(self).wf(),
            old(self).state is WaitingForFrame,
        ensures
            final(self).wf(),
            (final(self)@, r@) == waiting_step(old(self)@, value),
    {
        match value {
            DecodedValue::EscapeCode(escape_code) => match escape_code {
                EscapeCode::StartOfFrame => {
                    self.state = InputState::ReadingFrame;
                    self.data_index = 0;
                    Command::Nothing
                },
                EscapeCode::CorrectFrameData => Command::SendNextFrame,
                EscapeCode::IncorrectFrameData => Command::ResendLastFrame,
                EscapeCode::FinishedSending => Command::StopReceivingData,
                // unexpected outside a frame
                EscapeCode::Buffer | EscapeCode::EndOfFrame => Command::Nothing,
            },
            _ => Command::Nothing,
        }
    }

    fn reading_frame(&mut self, value: DecodedValue) -> (r: Command)
        requires
            old(self).wf(),
            old(self).state is ReadingFrame,
            value matches DecodedValue::Nibble(n) ==> n < 16,
        ensures
            final(self).wf(),
            (final(self)@, r@) == reading_step(old(self)@, value),
    {
        match value {
            DecodedValue::Nibble(nibble) => {
                let i = self.data_index / 2;
                if i < DATA_LEN {
                    let b = self.data[i];
                    proof {
                        lemma_set_nibble_bits(b, nibble);
                    }
                    self.data[i] = if self.data_index % 2 == 0 {
                        (b & 0x0f) | (nibble << 4)
                    } else {
                        (b & 0xf0) | nibble
                    };
                }
                self.data_index = if self.data_index + 1 > INDEX_LIMIT {
                    INDEX_LIMIT
                } else {
                    self.data_index + 1
                };
                Command::Nothing
            },
            DecodedValue::Byte(byte) => {
                let i = self.data_index / 2;
                if i < DATA_LEN {
                    self.data[i] = byte;
                }
                self.data_index = if self.data_index + 2 > INDEX_LIMIT {
                    INDEX_LIMIT
                } else {
                    self.data_index + 2
                };
                Command::Nothing
            },
            DecodedValue::EscapeCode(escape_code) => match escape_code {
                EscapeCode::EndOfFrame => {
                    let complete = self.data_index == 2 * DATA_LEN;
                    self.state = InputState::WaitingForFrame;
                    self.data_index = 0;
                    if complete {
                        Command::Received(self.data)
                    } else {
                        Command::ResendLastFrame
                    }
                },
                EscapeCode::StartOfFrame => {
                    if self.data_index != 0 {
                        // a new frame began inside this one: drop it
                        self.data_index = 0;
                        Command::ResendLastFrame
                    } else {
                        Command::Nothing
                    }
                },
                EscapeCode::CorrectFrameData => Command::SendNextFrame,
                EscapeCode::IncorrectFrameData => Command::ResendLastFrame,
                EscapeCode::FinishedSending => Command::StopReceivingData,
                // line filler
                EscapeCode::Buffer => Command::Nothing,
            },
        }
    }
}

} // verus!
