use vstd::prelude::*;

verus! {

/// Nibble `k` of `data`, counted from the low nibble of the last byte.
pub open spec fn nibble_at(data: Seq<u8>, k: int) -> u8 {
    let b = data[data.len() - 1 - k / 2];
    if k % 2 == 0 {
        b & 0x0fu8
    } else {
        b >> 4u8
    }
}

proof fn lemma_shift_in(a: u8, b: u8)
    ensures
        (((a << 4u8) | b) as u8) & 0x0fu8 == b & 0x0fu8,
        (((a << 4u8) | (b >> 4u8)) as u8) & 0x0fu8 == b >> 4u8,
        (((a << 4u8) | b) as u8) >> 4u8 == a & 0x0fu8 || b >= 16,
        (((a << 4u8) | (b >> 4u8)) as u8) >> 4u8 == a & 0x0fu8,
{
    assert((((a << 4u8) | b) as u8) & 0x0fu8 == b & 0x0fu8) by (bit_vector);
    assert((((a << 4u8) | (b >> 4u8)) as u8) & 0x0fu8 == b >> 4u8) by (bit_vector);
    assert(b < 16 ==> (((a << 4u8) | b) as u8) >> 4u8 == a & 0x0fu8) by (bit_vector);
    assert((((a << 4u8) | (b >> 4u8)) as u8) >> 4u8 == a & 0x0fu8) by (bit_vector);
}

proof fn lemma_shift_out(a: u8, b: u8)
    ensures
        ((a >> 4u8) | (b << 4u8)) & 0x0fu8 == a >> 4u8,
        ((a >> 4u8) | (b << 4u8)) >> 4u8 == b & 0x0fu8,
        (a >> 4u8) & 0x0fu8 == a >> 4u8,
        (a >> 4u8) >> 4u8 == 0,
{
    assert(((a >> 4u8) | (b << 4u8)) & 0x0fu8 == a >> 4u8) by (bit_vector);
    assert(((a >> 4u8) | (b << 4u8)) >> 4u8 == b & 0x0fu8) by (bit_vector);
    assert((a >> 4u8) & 0x0fu8 == a >> 4u8) by (bit_vector);
    assert((a >> 4u8) >> 4u8 == 0) by (bit_vector);
}

/// A queue of nibbles with room for `2 * N` of them, packed into `N` bytes.
///
/// byte index:   <  0,   1,   2,   3    >
/// nibble index: <  7 6, 5 4, 3 2, 1 0  >
///
/// The newest nibble sits in the low half of the last byte; each push moves
/// every nibble one place to the left.
pub struct Window<const N: usize> {
    // underlying bytes
    data: [u8; N],
    // length in nibbles
    len: usize,
}

impl<const N: usize> View for Window<N> {
    type V = Seq<u8>;

    /// The nibbles held, oldest first.
    closed spec fn view(&self) -> Seq<u8> {
        Seq::new(self.len as nat, |i: int| nibble_at(self.data@, self.len - 1 - i))
    }
}

impl<const N: usize> Window<N> {
    pub closed spec fn wf(&self) -> bool {
        0 < N && 2 * N <= usize::MAX && self.len <= 2 * N
    }

    /// How many nibbles fit.
    pub open spec fn capacity() -> nat {
        2 * N as nat
    }

    pub closed spec fn spec_data(&self) -> Seq<u8> {
        self.data@
    }

    pub fn new() -> (r: Window<N>)
        requires
            0 < N,
            2 * N <= usize::MAX,
        ensures
            r.wf(),
            r@ == Seq::<u8>::empty(),
    {
        let r = Window { data: [0u8; N], len: 0 };
        assert(r@ =~= Seq::<u8>::empty());
        r
    }

    pub fn len(&self) -> (r: usize)
        ensures
            r == self@.len(),
    {
        self.len
    }

    /// The underlying bytes: the newest nibble in the low half of the last
    /// byte, each older one a place further to the left.
    pub fn data(&self) -> (r: [u8; N])
        requires
            self.wf(),
        ensures
            r@ == self.spec_data(),
            r@.len() == N,
            forall|k: int| 0 <= k < self@.len() ==> #[trigger] nibble_at(r@, k) == self@[self@.len() - 1 - k],
    {
        self.data
    }

    /// Appends a nibble; when the window is full the oldest nibble falls out
    /// and is returned.
    pub fn push_back(&mut self, nibble: u8) -> (r: Option<u8>)
        requires
            old(self).wf(),
            nibble < 16,
        ensures
            final(self).wf(),
            old(self)@.len() < Self::capacity() ==> r is None && final(self)@ == old(self)@.push(
                nibble,
            ),
            old(self)@.len() == Self::capacity() ==> r == Some(old(self)@[0]) && final(self)@
                == old(self)@.drop_first().push(nibble),
    {
        let prev = self.data;
        let mut index: usize = 0;
        // Shift every nibble 4 bits to the left
        while index < N
            invariant
                0 < N,
                2 * N <= usize::MAX,
                index <= N,
                nibble < 16,
                prev@.len() == N,
                self.data@.len() == N,
                self.len == old(self).len,
                prev == old(self).data,
                forall|j: int|
                    0 <= j < index ==> #[trigger] self.data@[j] == (if j + 1 < N {
                        ((prev@[j] << 4u8) | (prev@[j + 1] >> 4u8)) as u8
                    } else {
                        ((prev@[j] << 4u8) | nibble) as u8
                    }),
                forall|j: int| index <= j < N ==> #[trigger] self.data@[j] == prev@[j],
            decreases N - index,
        {
            let low = if index + 1 < N {
                prev[index + 1] >> 4
            } else {
                nibble
            };
            let b = self.data[index];
            self.data[index] = ((b << 4) | low) as u8;
            index = index + 1;
        }
        let ghost shifted = self.data@;
        assert forall|k: int| 0 < k < 2 * N implies nibble_at(shifted, k) == nibble_at(
            prev@,
            k - 1,
        ) by {
            let j = N - 1 - k / 2;
            lemma_shift_in(prev@[j], nibble);
            if j + 1 < N {
                lemma_shift_in(prev@[j], prev@[j + 1]);
            }
        }
        assert(nibble_at(shifted, 0) == nibble) by {
            lemma_shift_in(prev@[N - 1], nibble);
            assert(nibble & 0x0fu8 == nibble) by (bit_vector)
                requires
                    nibble < 16,
            ;
        }
        let filled = self.len == 2 * N;
        if !filled {
            self.len = self.len + 1;
            assert(self@ =~= old(self)@.push(nibble));
            None
        } else {
            assert(self@ =~= old(self)@.drop_first().push(nibble));
            Some(prev[0] >> 4)
        }
    }

    /// Removes and returns the oldest nibble.
    pub fn pop_front(&mut self) -> (r: Option<u8>)
        requires
            old(self).wf(),
        ensures
            final(self).wf(),
            old(self)@.len() == 0 ==> r is None && final(self)@ == old(self)@,
            old(self)@.len() > 0 ==> r == Some(old(self)@[0]) && final(self)@ == old(
                self,
            )@.drop_first(),
    {
        if self.len == 0 {
            return None;
        }
        let result = self.get(self.len - 1);
        self.len = self.len - 1;
        assert(self@ =~= old(self)@.drop_first());
        result
    }

    /// Removes and returns the newest nibble.
    pub fn pop_back(&mut self) -> (r: Option<u8>)
        requires
            old(self).wf(),
        ensures
            final(self).wf(),
            old(self)@.len() == 0 ==> r is None && final(self)@ == old(self)@,
            old(self)@.len() > 0 ==> r == Some(old(self)@.last()) && final(self)@ == old(
                self,
            )@.drop_last(),
    {
        let prev = self.data;
        let mut index: usize = 0;
        // Shift every nibble 4 bits to the right
        while index < N
            invariant
                0 < N,
                2 * N <= usize::MAX,
                index <= N,
                prev@.len() == N,
                self.data@.len() == N,
                self.len == old(self).len,
                prev == old(self).data,
                forall|j: int|
                    0 <= j < index ==> #[trigger] self.data@[j] == (if j >= 1 {
                        (prev@[j] >> 4u8) | (prev@[j - 1] << 4u8)
                    } else {
                        prev@[j] >> 4u8
                    }),
                forall|j: int| index <= j < N ==> #[trigger] self.data@[j] == prev@[j],
            decreases N - index,
        {
            let high = if index >= 1 {
                prev[index - 1] << 4
            } else {
                0u8
            };
            let b = self.data[index];
            self.data[index] = (b >> 4) | high;
            proof {
                if index < 1 {
                    assert((b >> 4u8) | 0u8 == b >> 4u8) by (bit_vector);
                }
            }
            index = index + 1;
        }
        let ghost shifted = self.data@;
        assert forall|k: int| 0 <= k < 2 * N - 1 implies nibble_at(shifted, k) == nibble_at(
            prev@,
            k + 1,
        ) by {
            let j = N - 1 - k / 2;
            lemma_shift_out(prev@[j], 0);
            if j >= 1 {
                lemma_shift_out(prev@[j], prev@[j - 1]);
            }
        }
        if self.len == 0 {
            assert(self@ =~= old(self)@);
            return None;
        }
        self.len = self.len - 1;
        assert(self@ =~= old(self)@.drop_last());
        Some(prev[N - 1] & 0x0f)
    }

    /// The nibble `index` places back from the newest one.
    pub fn get(&self, index: usize) -> (r: Option<u8>)
        requires
            self.wf(),
        ensures
            index >= self@.len() ==> r is None,
            index < self@.len() ==> r == Some(self@[self@.len() - 1 - index]),
    {
        if index >= self.len {
            return None;
        }
        let byte_index = N - 1 - index / 2;
        let byte = self.data[byte_index];
        let nibble = if index % 2 == 0 {
            byte & 0x0f
        } else {
            byte >> 4
        };
        Some(nibble)
    }
}

} // verus!
