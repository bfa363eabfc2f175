use vstd::prelude::*;

use crate::escape::{Escaped, EOF, SOF};

verus! {

pub const ESCAPE_CODE_LEN: usize = 1;
pub const CHECKSUM_LEN: usize = 0;
pub const FRAME_DATA_LEN: usize = 64;
/// Payload and checksum: what a received frame hands over.
pub const DATA_LEN: usize = FRAME_DATA_LEN + CHECKSUM_LEN;
pub const FRAME_LEN: usize = ESCAPE_CODE_LEN + FRAME_DATA_LEN + CHECKSUM_LEN + ESCAPE_CODE_LEN;

/// `[SOF | data | checksum | EOF]`
pub type Frame = [u8; FRAME_LEN];

/// The frame that holds `payload` (at most `FRAME_DATA_LEN` bytes), padded
/// with zeros.
pub open spec fn frame_of(payload: Seq<u8>) -> Seq<u8> {
    Seq::new(
        FRAME_LEN as nat,
        |i: int|
            if i == 0 {
                SOF
            } else if i == FRAME_LEN - 1 {
                EOF
            } else if i - 1 < payload.len() {
                payload[i - 1]
            } else {
                0u8
            },
    )
}

/// How many bytes one frame takes from a stream with `n` bytes left.
pub open spec fn frame_take(n: nat) -> nat {
    if n < FRAME_DATA_LEN {
        n
    } else {
        FRAME_DATA_LEN as nat
    }
}

/// Builds one frame from the next bytes of the escaped stream.
pub fn encode_frame(data: &mut Escaped) -> (frame: Frame)
    requires
        old(data).wf(),
    ensures
        final(data).wf(),
        frame@ == frame_of(old(data).remaining().take(frame_take(old(data).remaining().len()) as int)),
        final(data).remaining() == old(data).remaining().skip(
            frame_take(old(data).remaining().len()) as int,
        ),
        final(data).spec_done() == (old(data).spec_done() || old(data).remaining().len()
            < FRAME_DATA_LEN),
{
    let ghost start = data.remaining();
    let mut frame: Frame = [0u8; FRAME_LEN];
    frame[0] = SOF;
    let mut i: usize = 0;
    let mut exhausted = false;
    while i < FRAME_DATA_LEN && !exhausted
        invariant
            data.wf(),
            i <= FRAME_DATA_LEN,
            frame@.len() == FRAME_LEN,
            frame@[0] == SOF,
            !exhausted ==> i <= start.len() && data.remaining() == start.skip(i as int)
                && data.spec_done() == old(data).spec_done(),
            exhausted ==> i == start.len() && start.len() < FRAME_DATA_LEN
                && data.remaining() == start.skip(i as int) && data.spec_done(),
            forall|j: int| 1 <= j <= i ==> #[trigger] frame@[j] == start[j - 1],
            forall|j: int| i < j < FRAME_LEN ==> #[trigger] frame@[j] == 0u8,
        decreases 2 * (FRAME_DATA_LEN - i) + if exhausted {
            0int
        } else {
            1int
        },
    {
        match data.next() {
            Some(byte) => {
                frame[i + 1] = byte;
                i = i + 1;
                assert(start.skip((i - 1) as int).drop_first() =~= start.skip(i as int));
            },
            // the source has ended: the rest of the frame stays zero
            None => {
                exhausted = true;
            },
        }
    }
    frame[FRAME_LEN - 1] = EOF;
    let ghost k = frame_take(start.len());
    assert(k == i as nat);
    assert(frame@ =~= frame_of(start.take(k as int)));
    frame
}

/// The data bytes of a frame.
pub fn decode_frame(frame: &Frame) -> (r: Vec<u8>)
    ensures
        r@ == frame@.subrange(1, 1 + FRAME_DATA_LEN),
{
    let mut r: Vec<u8> = Vec::new();
    let mut i: usize = 1;
    while i < 1 + FRAME_DATA_LEN
        invariant
            1 <= i <= 1 + FRAME_DATA_LEN,
            frame@.len() == FRAME_LEN,
            r@ == frame@.subrange(1, i as int),
        decreases 1 + FRAME_DATA_LEN - i,
    {
        r.push(frame[i]);
        i = i + 1;
        assert(r@ =~= frame@.subrange(1, i as int));
    }
    r
}

} // verus!
