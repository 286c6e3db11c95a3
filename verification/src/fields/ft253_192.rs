use vstd::prelude::*;

use crate::fields::byte_math::{
    be_bytes_to_u64_at, be_to_nat, lemma_be_to_nat_bound, lemma_nat_to_be_of_be,
    lemma_pow256_values, nat_to_be, u64_to_be_bytes,
};
use crate::fields::data_field::{ByteOrder, DataField};

verus! {

/// Number of bits of the modulus.
pub const NUM_BITS: u32 = 253;

/// Number of bits that any value below the modulus can hold.
pub const CAPACITY: u32 = 252;

/// Number of bytes of the internal representation.
pub const WRITTEN_BYTES_WIDTH: u32 = 32;

/// An element of the 253-bit prime field with modulus
/// 14474011154664524421669271390699307717822958659997404088829842556525106692097,
/// held as four 64-bit limbs, least significant first.  It carries 31 data bytes:
/// the prime takes up 32 bytes with its top byte incomplete, so the top limb keeps its
/// most significant byte zero and every element made from data stays below the prime.
#[derive(Clone, Copy, Debug, PartialEq, Eq)]
pub struct Ft253_192([u64; 4]);

/// The modulus of the field.
pub open spec fn modulus_253() -> nat {
    14474011154664524421669271390699307717822958659997404088829842556525106692097nat
}

/// The 32 bytes that 31 data bytes occupy: the first 24 data bytes, then a zero byte
/// that leads the top limb, then the last 7 data bytes.
pub open spec fn padded_data(b: Seq<u8>) -> Seq<u8> {
    b.subrange(0, 24) + seq![0u8] + b.subrange(24, 31)
}

impl Ft253_192 {
    /// Limb `i` of the internal representation.
    pub closed spec fn limb(self, i: int) -> u64 {
        self.0[i]
    }

    /// The number the limbs stand for, least significant limb first.
    pub open spec fn limbs_value(self) -> nat {
        self.limb(0) as nat + self.limb(1) as nat * 0x1_0000_0000_0000_0000nat + self.limb(2) as nat
            * 0x1_0000_0000_0000_0000_0000_0000_0000_0000nat + self.limb(3) as nat
            * 0x1_0000_0000_0000_0000_0000_0000_0000_0000_0000_0000_0000_0000nat
    }

    /// Whether the limbs stand for a number below the modulus.
    pub open spec fn canonical(self) -> bool {
        self.limbs_value() < modulus_253()
    }
}

impl DataField for Ft253_192 {
    open spec fn spec_data_byte_capacity() -> nat {
        31
    }

    open spec fn spec_data_bytes(self) -> Seq<u8> {
        nat_to_be(self.limb(0) as nat, 8) + nat_to_be(self.limb(1) as nat, 8) + nat_to_be(
            self.limb(2) as nat,
            8,
        ) + nat_to_be(self.limb(3) as nat, 8).subrange(1, 8)
    }

    closed spec fn spec_from_data_bytes(b: Seq<u8>) -> Self {
        let pb = padded_data(b);
        Ft253_192(
            [
                be_to_nat(pb.subrange(0, 8)) as u64,
                be_to_nat(pb.subrange(8, 16)) as u64,
                be_to_nat(pb.subrange(16, 24)) as u64,
                be_to_nat(pb.subrange(24, 32)) as u64,
            ],
        )
    }

    fn data_byte_capacity() -> (r: usize) {
        31
    }

    fn written_bytes_width() -> (r: usize) {
        WRITTEN_BYTES_WIDTH as usize
    }

    /// Each limb holds its eight data bytes most significant first.
    open spec fn spec_endianness() -> ByteOrder {
        ByteOrder::BigEndian
    }

    fn endianness() -> (r: ByteOrder) {
        ByteOrder::BigEndian
    }

    fn test_type_sizes_are_correct() -> (r: bool) {
        (CAPACITY / 8) as usize == 31 && (31 as usize) < WRITTEN_BYTES_WIDTH as usize
    }

    /// Lays the 31 bytes out as 32 with a zero byte leading the top limb, and reads each
    /// group of 8 as a big-endian limb; the element is below the modulus.
    fn from_data_bytes(buf: &[u8]) -> (r: Self)
        ensures
            r.canonical(),
    {
        let mut padded: Vec<u8> = Vec::new();
        let mut i: usize = 0;
        while i < 32
            invariant
                i <= 32,
                buf@.len() == 31,
                padded@ =~= padded_data(buf@).subrange(0, i as int),
            decreases 32 - i,
        {
            if i < 24 {
                padded.push(buf[i]);
            } else if i == 24 {
                padded.push(0u8);
            } else {
                padded.push(buf[i - 1]);
            }
            i = i + 1;
        }
        proof {
            assert(padded@ =~= padded_data(buf@));
        }
        let l0 = be_bytes_to_u64_at(padded.as_slice(), 0);
        let l1 = be_bytes_to_u64_at(padded.as_slice(), 8);
        let l2 = be_bytes_to_u64_at(padded.as_slice(), 16);
        let l3 = be_bytes_to_u64_at(padded.as_slice(), 24);
        let r = Ft253_192([l0, l1, l2, l3]);
        proof {
            assert(r == Self::spec_from_data_bytes(buf@));
            lemma_top_limb_small(padded@.subrange(24, 32));
            assert(padded@.subrange(24, 32)[0] == 0u8);
        }
        r
    }

    /// Writes the three low limbs in full and the top limb without its leading byte,
    /// each big-endian.
    fn to_data_bytes(&self) -> (r: Vec<u8>) {
        let mut out = u64_to_be_bytes(self.0[0]);
        let mut b1 = u64_to_be_bytes(self.0[1]);
        let mut b2 = u64_to_be_bytes(self.0[2]);
        let b3 = u64_to_be_bytes(self.0[3]);
        out.append(&mut b1);
        out.append(&mut b2);
        let mut i: usize = 0;
        let ghost head = out@;
        while i < 7
            invariant
                i <= 7,
                b3@.len() == 8,
                out@ =~= head + b3@.subrange(1, i + 1),
            decreases 7 - i,
        {
            out.push(b3[i + 1]);
            i = i + 1;
        }
        proof {
            assert(out@ =~= self.spec_data_bytes());
        }
        out
    }

    proof fn lemma_data_bytes_len(x: Self) {
    }

    proof fn lemma_capacity_positive() {
    }

    open spec fn spec_written_bytes_width() -> nat {
        32
    }

    proof fn lemma_width_positive() {
    }

    proof fn lemma_data_bytes_roundtrip(b: Seq<u8>) {
        let pb = padded_data(b);
        let x = Self::spec_from_data_bytes(b);
        lemma_pow256_values();
        let mut k: int = 0;
        lemma_be_to_nat_bound(pb.subrange(0, 8));
        lemma_be_to_nat_bound(pb.subrange(8, 16));
        lemma_be_to_nat_bound(pb.subrange(16, 24));
        lemma_be_to_nat_bound(pb.subrange(24, 32));
        lemma_nat_to_be_of_be(pb.subrange(0, 8));
        lemma_nat_to_be_of_be(pb.subrange(8, 16));
        lemma_nat_to_be_of_be(pb.subrange(16, 24));
        lemma_nat_to_be_of_be(pb.subrange(24, 32));
        assert(x.limb(0) as nat == be_to_nat(pb.subrange(0, 8)));
        assert(x.limb(1) as nat == be_to_nat(pb.subrange(8, 16)));
        assert(x.limb(2) as nat == be_to_nat(pb.subrange(16, 24)));
        assert(x.limb(3) as nat == be_to_nat(pb.subrange(24, 32)));
        assert(pb.subrange(24, 32).subrange(1, 8) =~= b.subrange(24, 31));
        assert(x.spec_data_bytes() =~= b);
    }
}

/// Eight big-endian bytes that start with a zero byte stand for a number below 2^56.
proof fn lemma_top_limb_small(s: Seq<u8>)
    requires
        s.len() == 8,
        s[0] == 0u8,
    ensures
        be_to_nat(s) < 0x100_0000_0000_0000,
{
    lemma_be_to_nat_bound(s.subrange(1, 8));
    lemma_pow256_values();
    crate::fields::byte_math::lemma_be_to_nat_leading_zero(s);
}

} // verus!
