use vstd::prelude::*;
use vstd::string::StringExecFns;

verus! {

/// The character that stands for bit `k` of `v`.
pub open spec fn bit_char(v: u8, k: u8) -> char {
    if (v >> k) & 1u8 == 1u8 {
        '1'
    } else {
        '0'
    }
}

/// The lowest `width` bits of `v` as binary digits, most significant first.
pub open spec fn binary_digits(v: u8, width: nat) -> Seq<char> {
    Seq::new(width, |i: int| bit_char(v, (width - 1 - i) as u8))
}

fn push_binary_digits(s: &mut String, v: u8, width: u8)
    requires
        width <= 8,
    ensures
        final(s)@ == old(s)@ + binary_digits(v, width as nat),
{
    let ghost start = s@;
    let mut i: u8 = 0;
    while i < width
        invariant
            i <= width <= 8,
            s@ == start + Seq::new(i as nat, |j: int| bit_char(v, (width - 1 - j) as u8)),
        decreases width - i,
    {
        let k: u8 = width - 1 - i;
        proof {
            reveal_strlit("1");
            reveal_strlit("0");
        }
        if (v >> k) & 1u8 == 1u8 {
            s.append("1");
        } else {
            s.append("0");
        }
        i = i + 1;
        assert(s@ =~= start + Seq::new(i as nat, |j: int| bit_char(v, (width - 1 - j) as u8)));
    }
    assert(s@ =~= old(s)@ + binary_digits(v, width as nat));
}

/// Eight bits, written high nibble first.
#[derive(Clone, Copy, Debug)]
pub struct Byte(u8);

impl View for Byte {
    type V = u8;

    closed spec fn view(&self) -> u8 {
        self.0
    }
}

impl Byte {
    pub fn from_u8(data: u8) -> (r: Byte)
        ensures
            r@ == data,
    {
        Byte(data)
    }

    pub fn upper_nibble(&self) -> (r: Nibble)
        ensures
            r@ == self@ >> 4u8,
    {
        Nibble::from_u8(self.0 >> 4)
    }

    pub fn lower_nibble(&self) -> (r: Nibble)
        ensures
            r@ == self@,
    {
        Nibble::from_u8(self.0)
    }

    /// Whether all bits are set to one.
    pub fn all(&self) -> (r: bool)
        ensures
            r == (self@ == 0xffu8),
    {
        self.0 == 0b11111111
    }

    pub fn not(self) -> (r: Byte)
        ensures
            r@ == !self@,
    {
        Byte(!self.0)
    }

    pub fn bitxor(self, rhs: Byte) -> (r: Byte)
        ensures
            r@ == self@ ^ rhs@,
    {
        Byte(self.0 ^ rhs.0)
    }

    /// The eight bits as binary digits, most significant first.
    pub fn to_string(&self) -> (r: String)
        ensures
            r@ == binary_digits(self@, 8),
    {
        let mut s = String::new();
        push_binary_digits(&mut s, self.0, 8);
        assert(s@ =~= binary_digits(self@, 8));
        s
    }
}

/// Four bits in the low half of a byte; the upper half is carried along but
/// takes no part in comparisons.
#[derive(Clone, Copy, Debug)]
pub struct Nibble(u8);

impl View for Nibble {
    type V = u8;

    closed spec fn view(&self) -> u8 {
        self.0
    }
}

impl Nibble {
    /// The four bits that count.
    pub open spec fn value(self) -> u8 {
        self@ & 0x0fu8
    }

    pub fn from_u8(data: u8) -> (r: Nibble)
        ensures
            r@ == data,
    {
        Nibble(data)
    }

    /// Bit `index`, counted from the least significant bit.
    pub fn get_lsb(&self, index: u8) -> (r: bool)
        requires
            index < 8,
        ensures
            r == ((self@ >> index) & 1u8 == 1u8),
    {
        (self.0 >> index) & 0b0001 == 0b0001
    }

    /// Bit `index`, counted from the most significant of the four bits.
    pub fn get_msb(&self, index: u8) -> (r: bool)
        requires
            index < 4,
        ensures
            r == ((self@ >> (3 - index) as u8) & 1u8 == 1u8),
    {
        (self.0 >> (3 - index)) & 0b0001 == 0b0001
    }

    pub fn not(self) -> (r: Nibble)
        ensures
            r@ == !self@,
    {
        Nibble(!self.0)
    }

    pub fn bitxor(self, rhs: Nibble) -> (r: Nibble)
        ensures
            r@ == self@ ^ rhs@,
    {
        Nibble(self.0 ^ rhs.0)
    }

    /// The four bits as binary digits, most significant first.
    pub fn to_string(&self) -> (r: String)
        ensures
            r@ == binary_digits(self.value(), 4),
    {
        let mut s = String::new();
        push_binary_digits(&mut s, self.0 & 0x0f, 4);
        assert(s@ =~= binary_digits(self.value(), 4));
        s
    }
}

impl PartialEq for Nibble {
    fn eq(&self, other: &Nibble) -> (r: bool)
        ensures
            r == (self.value() == other.value()),
    {
        self.0 & 0x0f == other.0 & 0x0f
    }
}

impl vstd::std_specs::cmp::PartialEqSpecImpl for Nibble {
    open spec fn obeys_eq_spec() -> bool {
        true
    }

    open spec fn eq_spec(&self, other: &Nibble) -> bool {
        self.value() == other.value()
    }
}

impl Eq for Nibble {
}

} // verus!
