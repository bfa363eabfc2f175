use vstd::prelude::*;

verus! {

/// Start of frame.
pub const SOF: u8 = 0x12;
/// End of frame.
pub const EOF: u8 = 0x23;
/// Correct frame data.
pub const CFD: u8 = 0x34;
/// Incorrect frame data.
pub const IFD: u8 = 0x45;
/// Line filler between equal nibbles.
pub const BUFFER: u8 = 0x56;
/// Finished sending.
pub const FS: u8 = 0x67;

/// The in-band control bytes.
#[derive(Clone, Copy, Debug, PartialEq, Eq, Structural)]
pub enum EscapeCode {
    /// SOF
    StartOfFrame,
    /// EOF
    EndOfFrame,
    /// CFD
    CorrectFrameData,
    /// IFD
    IncorrectFrameData,
    /// BU
    Buffer,
    /// FS
    FinishedSending,
}

/// Whether `b` is one of the control bytes.
pub open spec fn is_escape(b: u8) -> bool {
    b == SOF || b == EOF || b == CFD || b == IFD || b == BUFFER || b == FS
}

impl EscapeCode {
    /// The byte that stands for the code on the wire.
    pub open spec fn spec_byte(self) -> u8 {
        match self {
            EscapeCode::StartOfFrame => SOF,
            EscapeCode::EndOfFrame => EOF,
            EscapeCode::CorrectFrameData => CFD,
            EscapeCode::IncorrectFrameData => IFD,
            EscapeCode::Buffer => BUFFER,
            EscapeCode::FinishedSending => FS,
        }
    }

    /// The code that `b` stands for, if any.
    pub open spec fn spec_from_byte(b: u8) -> Option<EscapeCode> {
        if b == SOF {
            Some(EscapeCode::StartOfFrame)
        } else if b == EOF {
            Some(EscapeCode::EndOfFrame)
        } else if b == CFD {
            Some(EscapeCode::CorrectFrameData)
        } else if b == IFD {
            Some(EscapeCode::IncorrectFrameData)
        } else if b == BUFFER {
            Some(EscapeCode::Buffer)
        } else if b == FS {
            Some(EscapeCode::FinishedSending)
        } else {
            None
        }
    }

    #[verifier::when_used_as_spec(spec_byte)]
    pub fn byte(self) -> (r: u8)
        ensures
            r == self.spec_byte(),
            is_escape(r),
    {
        match self {
            EscapeCode::StartOfFrame => SOF,
            EscapeCode::EndOfFrame => EOF,
            EscapeCode::CorrectFrameData => CFD,
            EscapeCode::IncorrectFrameData => IFD,
            EscapeCode::Buffer => BUFFER,
            EscapeCode::FinishedSending => FS,
        }
    }

    pub fn from_byte(byte: u8) -> (r: Option<EscapeCode>)
        ensures
            r == EscapeCode::spec_from_byte(byte),
            r is Some <==> is_escape(byte),
            r matches Some(c) ==> c.spec_byte() == byte,
    {
        if byte == SOF {
            Some(EscapeCode::StartOfFrame)
        } else if byte == EOF {
            Some(EscapeCode::EndOfFrame)
        } else if byte == CFD {
            Some(EscapeCode::CorrectFrameData)
        } else if byte == IFD {
            Some(EscapeCode::IncorrectFrameData)
        } else if byte == BUFFER {
            Some(EscapeCode::Buffer)
        } else if byte == FS {
            Some(EscapeCode::FinishedSending)
        } else {
            None
        }
    }
}

/// Every control byte has two different nibbles, so it always makes an edge.
pub proof fn lemma_escape_nibbles_differ(b: u8)
    requires
        is_escape(b),
    ensures
        b / 16 != b % 16,
{
}

/// What the escape encoder makes of `s`: each control byte twice, every other
/// byte once.
pub open spec fn escape_encode(s: Seq<u8>) -> Seq<u8>
    decreases s.len(),
{
    if s.len() == 0 {
        Seq::empty()
    } else {
        let head = if is_escape(s[0]) {
            seq![s[0], s[0]]
        } else {
            seq![s[0]]
        };
        head + escape_encode(s.drop_first())
    }
}

/// Reading back an escape-encoded stream: a control byte that comes twice
/// in a row stands for one byte of data.
pub open spec fn unescape(t: Seq<u8>) -> Seq<u8>
    decreases t.len(),
{
    if t.len() == 0 {
        Seq::empty()
    } else if is_escape(t[0]) && t.len() >= 2 && t[1] == t[0] {
        seq![t[0]] + unescape(t.subrange(2, t.len() as int))
    } else {
        seq![t[0]] + unescape(t.drop_first())
    }
}

/// Escape encoding followed by reading back gives the original bytes.
pub proof fn lemma_unescape_escape_encode(s: Seq<u8>)
    ensures
        unescape(escape_encode(s)) == s,
    decreases s.len(),
{
    if s.len() > 0 {
        let t = escape_encode(s);
        let rest = escape_encode(s.drop_first());
        lemma_unescape_escape_encode(s.drop_first());
        if is_escape(s[0]) {
            assert(t.subrange(2, t.len() as int) =~= rest);
        } else {
            assert(t.drop_first() =~= rest);
        }
        assert(s =~= seq![s[0]] + s.drop_first());
    }
}

/// A lazy byte filter that doubles every control byte of its source.
pub struct Escaped {
    bytes: Vec<u8>,
    /// Index of the next byte of `bytes` to read
    pos: usize,
    /// Second half of an escaped value
    escape: Option<u8>,
    done: bool,
}

impl Escaped {
    /// The bytes still to come, in order.
    pub closed spec fn remaining(&self) -> Seq<u8> {
        let rest = escape_encode(self.bytes@.subrange(self.pos as int, self.bytes@.len() as int));
        match self.escape {
            Some(b) => seq![b] + rest,
            None => rest,
        }
    }

    /// Whether the source has reported its end.
    pub closed spec fn spec_done(&self) -> bool {
        self.done
    }

    pub closed spec fn wf(&self) -> bool {
        self.pos <= self.bytes@.len()
    }

    pub fn new(bytes: Vec<u8>) -> (r: Escaped)
        ensures
            r.wf(),
            r.remaining() == escape_encode(bytes@),
            !r.spec_done(),
    {
        let r = Escaped { bytes, pos: 0, escape: None, done: false };
        assert(r.bytes@.subrange(0, r.bytes@.len() as int) =~= r.bytes@);
        r
    }

    /// True once the source has run out and a read has found it so.
    pub fn is_done(&self) -> (r: bool)
        ensures
            r == self.spec_done(),
    {
        self.done
    }

    /// The next byte of the encoded stream; `None` once it is exhausted.
    pub fn next(&mut self) -> (r: Option<u8>)
        requires
            old(self).wf(),
        ensures
            final(self).wf(),
            old(self).remaining().len() == 0 ==> r is None && final(self).remaining().len() == 0
                && final(self).spec_done(),
            old(self).remaining().len() > 0 ==> r == Some(old(self).remaining()[0])
                && final(self).remaining() == old(self).remaining().drop_first()
                && final(self).spec_done() == old(self).spec_done(),
    {
        let ghost rest = self.bytes@.subrange(self.pos as int, self.bytes@.len() as int);
        if let Some(b) = self.escape {
            self.escape = None;
            assert(seq![b] + escape_encode(rest) == old(self).remaining());
            assert((seq![b] + escape_encode(rest)).drop_first() =~= escape_encode(rest));
            return Some(b);
        }
        if self.pos < self.bytes.len() {
            let byte = self.bytes[self.pos];
            self.pos = self.pos + 1;
            let ghost tail = self.bytes@.subrange(self.pos as int, self.bytes@.len() as int);
            assert(rest.drop_first() =~= tail);
            assert(rest[0] == byte);
            if EscapeCode::from_byte(byte).is_some() {
                // Repeat the value of an escape code to escape it
                self.escape = Some(byte);
                assert(old(self).remaining() =~= seq![byte, byte] + escape_encode(tail));
                assert(self.remaining() =~= seq![byte] + escape_encode(tail));
            } else {
                assert(old(self).remaining() =~= seq![byte] + escape_encode(tail));
            }
            Some(byte)
        } else {
            assert(rest.len() == 0);
            self.done = true;
            None
        }
    }

    /// Calls `next` until the stream is exhausted and returns what it gave.
    pub fn collect_rest(&mut self) -> (r: Vec<u8>)
        requires
            old(self).wf(),
        ensures
            final(self).wf(),
            r@ == old(self).remaining(),
            final(self).remaining().len() == 0,
            final(self).spec_done(),
    {
        let mut out: Vec<u8> = Vec::new();
        let ghost start = self.remaining();
        loop
            invariant
                self.wf(),
                start == old(self).remaining(),
                out@ + self.remaining() == start,
            decreases self.remaining().len(),
        {
            match self.next() {
                Some(b) => {
                    out.push(b);
                    assert(out@ + self.remaining() =~= start);
                },
                None => {
                    assert(out@ =~= start);
                    return out;
                },
            }
        }
    }
}

} // verus!
