//! Bit vectors as the database stores them: `bitvec`'s `BitVec` over bytes, least significant
//! bit first.
//!
//! A bit vector is described by two things: how many bits it has, and the bytes that hold them.
//! The bytes are kept apart from the bits because the last byte may hold bits beyond the end of
//! the vector, and those bits are written to disk too.
use crate::outside::{
    all_bits, bit_bytes, bit_count, bytes_of_bits, copy_bits, number_of_bits, repeat_false,
    truncate_bits, Bitfield,
};
use vstd::prelude::*;

verus! {

/// The largest number of bits that a stored bit vector may have and still be read back.
pub const MAX_STORED_BITS: u32 = 0x1fff_ffff;

/// What a bit vector holds: the number of its bits and the bytes that they lie in.
#[verifier::ext_equal]
pub struct Bits {
    pub count: nat,
    pub bytes: Seq<u8>,
}

/// A bit vector can have `n` bits, in memory and in encoded form.
pub open spec fn bits_fit(n: nat) -> bool {
    n <= u32::MAX && n <= usize::MAX / 8
}

impl Bits {
    /// `n` bits, all of them zero.
    pub open spec fn zeros(n: nat) -> Bits {
        Bits { count: n, bytes: Seq::new((n + 7) / 8, |i: int| 0u8) }
    }

    /// The bits lie in as many bytes as they need, and no more.
    pub open spec fn packed(self) -> bool {
        self.bytes.len() == (self.count + 7) / 8
    }

    /// The bits can be encoded.
    pub open spec fn encodable(self) -> bool {
        self.count <= u32::MAX
    }

    /// The bits can be encoded, and decoding brings them back. The last condition matters only
    /// where addresses have 32 bits.
    pub open spec fn storable(self) -> bool {
        &&& self.packed()
        &&& self.count <= MAX_STORED_BITS
        &&& self.bytes.len() <= usize::MAX / 64
    }
}

impl View for Bitfield {
    type V = Bits;

    open spec fn view(&self) -> Bits {
        Bits { count: bit_count(*self), bytes: bit_bytes(*self) }
    }
}

impl Bitfield {
    /// A bit vector of `n` zero bits.
    pub fn zeros(n: usize) -> (r: Bitfield)
        requires
            bits_fit(n as nat),
        ensures
            r@ == Bits::zeros(n as nat),
            r@.count == n,
            r@.bytes.len() == (n + 7) / 8,
            forall|i: int| 0 <= i < r@.bytes.len() ==> #[trigger] r@.bytes[i] == 0,
    {
        let r = repeat_false(n);
        assert(r@ =~= Bits::zeros(n as nat));
        r
    }

    /// The first `n` of the bits that lie in `bytes`, if that is the number of bytes that they
    /// need.
    pub fn from_bytes(bytes: Vec<u8>, n: usize) -> (r: Option<Bitfield>)
        ensures
            match r {
                Some(b) => {
                    &&& bytes.len() == (n + 7) / 8
                    &&& bytes.len() <= usize::MAX / 64
                    &&& b@ == (Bits { count: n as nat, bytes: bytes@ })
                },
                None => bytes.len() != (n + 7) / 8 || bytes.len() > usize::MAX / 64,
            },
    {
        let need: usize = n / 8 + if n % 8 == 0 {
            0
        } else {
            1
        };
        if bytes.len() != need || bytes.len() > usize::MAX / 64 {
            return None;
        }
        let ghost given = bytes@;
        let mut r = all_bits(bytes);
        truncate_bits(&mut r, n);
        assert(given.take((n + 7) / 8) =~= given);
        Some(r)
    }

    /// The number of bits.
    pub fn len(&self) -> (r: usize)
        ensures
            r == self@.count,
    {
        number_of_bits(self)
    }

    /// The bytes that the bits lie in, least significant bit first.
    pub fn to_bytes(&self) -> (r: Vec<u8>)
        ensures
            r@ == self@.bytes,
    {
        bytes_of_bits(self)
    }
}

impl Clone for Bitfield {
    fn clone(&self) -> (r: Bitfield)
        ensures
            r@ == self@,
    {
        copy_bits(self)
    }
}

} // verus!
