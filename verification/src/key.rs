//! A key of `N` bytes read as a path of `8 * N` bits, most significant bit
//! first.

use vstd::prelude::*;

verus! {

/// A key of `N` bytes.
#[derive(Eq, PartialEq)]
pub struct Key<const N: usize>([u8; N]);

const BYTE_SIZE: u8 = 8;

/// Bit `i` of the bytes, counted from the most significant bit of the
/// first byte.
pub open spec fn bit_at(bytes: Seq<u8>, i: int) -> bool {
    (bytes[i / 8] >> ((7 - i % 8) as u8)) & 1 != 0
}

impl<const N: usize> View for Key<N> {
    type V = Seq<u8>;

    closed spec fn view(&self) -> Seq<u8> {
        self.0@
    }
}

impl<const N: usize> Key<N> {
    /// The key has `N` bytes.
    pub proof fn lemma_len(&self)
        ensures
            self@.len() == N,
    {
    }

    /// The key of the given bytes.
    pub fn new(key: [u8; N]) -> (k: Key<N>)
        ensures
            k@ == key@,
    {
        Key(key)
    }

    /// The key whose bits are all zero.
    pub fn zero() -> (k: Self)
        ensures
            k@ == Seq::new(N as nat, |i: int| 0u8),
    {
        let k = Key([0u8;N]);
        assert(k@ =~= Seq::new(N as nat, |i: int| 0u8));
        k
    }

    /// Whether all bits of the key are zero.
    pub fn is_zero(&self) -> (zero: bool)
        ensures
            zero == (self@ == Seq::new(N as nat, |i: int| 0u8)),
    {
        let mut i: usize = 0;
        while i < N
            invariant
                i <= N,
                self@.len() == N,
                forall|j: int| 0 <= j < i ==> self@[j] == 0,
            decreases N - i,
        {
            if self.0[i] != 0 {
                assert(Seq::new(N as nat, |i: int| 0u8)[i as int] == 0);
                return false;
            }
            i += 1;
        }
        assert(self@ =~= Seq::new(N as nat, |i: int| 0u8));
        true
    }

    /// Bit `i` of the key, counted from the most significant bit of the
    /// first byte.
    pub fn get_bit(&self, i: &u8) -> (bit: bool)
        requires
            *i / 8 < N,
        ensures
            bit == bit_at(self@, *i as int),
    {
        let byte_pos = *i / BYTE_SIZE;
        let bit_pos = *i % BYTE_SIZE;
        let bit = self.0[byte_pos as usize] >> (7 - bit_pos) & 1;
        bit != 0
    }

    /// The bytes of the key.
    pub fn as_slice(&self) -> (bytes: &[u8])
        ensures
            bytes@ == self@,
    {
        self.0.as_slice()
    }

    /// An iterator over the bits of the key, from the first.
    pub fn iter(&self) -> (it: KeyIter<'_, N>)
        ensures
            it.key() == self@,
            it.position() == 0,
    {
        KeyIter { key: self, element: 0 }
    }
}

/// The bits of a key, one after the other.
pub struct KeyIter<'a, const N: usize> {
    key: &'a Key<N>,
    element: u8,
}

impl<'a, const N: usize> KeyIter<'a, N> {
    /// The bytes of the key that is walked.
    pub closed spec fn key(&self) -> Seq<u8> {
        self.key@
    }

    /// How many bits have been handed out.
    pub closed spec fn position(&self) -> int {
        self.element as int
    }

    /// The next bit of the key, or `None` after the last one.
    pub fn next(&mut self) -> (bit: Option<bool>)
        requires
            N * 8 <= u8::MAX,
        ensures
            final(self).key() == old(self).key(),
            old(self).position() >= N * 8 ==> bit.is_none(),
            old(self).position() >= N * 8 ==> final(self).position() == old(self).position(),
            old(self).position() < N * 8 ==> bit == Some(
                bit_at(old(self).key(), old(self).position()),
            ),
            old(self).position() < N * 8 ==> final(self).position() == old(self).position() + 1,
    {
        if self.element >= N as u8 * 8 {
            return None;
        }
        let result = self.key.get_bit(&self.element);
        self.element += 1;

        Some(result)
    }
}

} // verus!
