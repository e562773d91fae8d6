//! The value of the Block1/Block2 options (RFC 7959 section 2.2).
use crate::option_value::{
    be_value, lemma_minimal_be_bytes, minimal_be_bytes, uint_from_option_bytes, uint_option_bytes,
};
use vstd::arithmetic::power2::{lemma2_to64, lemma_pow2_strictly_increases, pow2};
use vstd::prelude::*;

verus! {

/// Largest block number that the option can carry (20 bits).
pub const MAX_BLOCK_NUM: u32 = 0xFFFFF;

/// Largest size exponent that the option can carry (block size 2048, which RFC 7959 reserves).
pub const MAX_SIZE_EXPONENT: u8 = 7;

/// A Block1/Block2 option value: block number, more-blocks flag, size exponent.
#[derive(Debug, Clone, Copy, PartialEq, Eq, Structural)]
pub struct BlockValue {
    pub num: u32,
    pub more: bool,
    pub size_exponent: u8,
}

/// Why a block value cannot be built.
#[derive(Debug, Clone, Copy, PartialEq, Eq, Structural)]
pub enum InvalidBlockValue {
    /// The requested block size has no size exponent (below 16, or 4096 and above).
    SizeExponentEncodingError(usize),
    /// The block number does not fit in 20 bits.
    TypeBoundsError,
}

/// The option bytes did not hold a block value.
#[derive(Debug, Clone, Copy, PartialEq, Eq, Structural)]
pub enum InvalidBlockOption {
    /// More than four bytes.
    TooLong,
    /// The block number encoded exceeds 20 bits.
    NumOutOfRange,
}

/// Block size in bytes for a size exponent: `2^(e + 4)`.
pub open spec fn block_size_of(e: nat) -> nat {
    pow2(e + 4)
}

impl BlockValue {
    /// Every field is within the bounds that the option encoding can carry.
    pub open spec fn wf(&self) -> bool {
        self.num <= MAX_BLOCK_NUM && self.size_exponent <= MAX_SIZE_EXPONENT
    }

    pub open spec fn spec_size(&self) -> nat {
        block_size_of(self.size_exponent as nat)
    }

    /// The option's integer: `num << 4 | more << 3 | size_exponent`.
    pub open spec fn scalar(&self) -> nat {
        self.num as nat * 16 + (if self.more { 8nat } else { 0nat }) + self.size_exponent as nat
    }

    /// Exponent `e` of the largest power of two not above `target`, or `None` for zero.
    pub fn largest_power_of_2_not_in_excess(target: usize) -> (r: Option<usize>)
        ensures
            target == 0 <==> r is None,
            r matches Some(e) ==> e < 64 && pow2(e as nat) <= target < pow2(e as nat + 1),
    {
        if target == 0 {
            return None;
        }
        let mut rest: usize = target;
        let mut e: usize = 0;
        proof {
            lemma2_to64();
        }
        while rest > 1
            invariant
                1 <= rest,
                e < 64,
                pow2(e as nat) * rest <= target < pow2(e as nat) * (rest + 1),
            decreases rest,
        {
            let half = rest / 2;
            proof {
                vstd::arithmetic::power2::lemma_pow2_unfold(e as nat + 1);
                vstd::arithmetic::power2::lemma_pow2_pos(e as nat);
                let p = pow2(e as nat);
                assert(p * rest == p * (2 * half) + p * (rest - 2 * half)) by (nonlinear_arith)
                    requires rest - 2 * half >= 0;
                assert(p * (2 * half) == (2 * p) * half) by (nonlinear_arith);
                assert(p * (rest + 1) <= (2 * p) * (half + 1)) by (nonlinear_arith)
                    requires rest <= 2 * half + 1, p > 0;
                assert(p * (rest - 2 * half) >= 0) by (nonlinear_arith)
                    requires rest - 2 * half >= 0, p > 0;
                assert(p * 2 <= p * rest) by (nonlinear_arith)
                    requires rest >= 2, p > 0;
                if e >= 63 {
                    vstd::arithmetic::power2::lemma2_to64_rest();
                    if e > 63 {
                        lemma_pow2_strictly_increases(63, e as nat);
                    }
                    assert(false);
                }
            }
            rest = half;
            e = e + 1;
        }
        proof {
            vstd::arithmetic::power2::lemma_pow2_unfold(e as nat + 1);
            assert(rest == 1);
            assert(pow2(e as nat) * 1 == pow2(e as nat));
            assert(pow2(e as nat) * 2 == pow2(e as nat + 1));
        }
        Some(e)
    }

    /// Builds a block value for block `num`, with the largest block size that does not
    /// exceed `size`.
    pub fn new(num: usize, more: bool, size: usize) -> (r: Result<BlockValue, InvalidBlockValue>)
        ensures
            (size < 16 || size >= 4096) ==> r == Err::<BlockValue, InvalidBlockValue>(
                InvalidBlockValue::SizeExponentEncodingError(size),
            ),
            (16 <= size < 4096 && num > MAX_BLOCK_NUM) ==> r == Err::<BlockValue, InvalidBlockValue>(
                InvalidBlockValue::TypeBoundsError,
            ),
            (16 <= size < 4096 && num <= MAX_BLOCK_NUM) ==> (r matches Ok(v) && v.num == num
                && v.more == more && v.wf() && v.spec_size() <= size < 2 * v.spec_size()
                && forall|k: nat| #[trigger] pow2(k) <= size ==> pow2(k) <= v.spec_size()),
    {
        let true_size_exponent = match Self::largest_power_of_2_not_in_excess(size) {
            Some(e) => e,
            None => return Err(InvalidBlockValue::SizeExponentEncodingError(size)),
        };
        proof {
            lemma_exponent_range(true_size_exponent as nat, size as nat);
        }
        if true_size_exponent < 4 || true_size_exponent > 11 {
            return Err(InvalidBlockValue::SizeExponentEncodingError(size));
        }
        if num > MAX_BLOCK_NUM as usize {
            return Err(InvalidBlockValue::TypeBoundsError);
        }
        let size_exponent = (true_size_exponent - 4) as u8;
        proof {
            vstd::arithmetic::power2::lemma_pow2_unfold(true_size_exponent as nat + 1);
            assert forall|k: nat| #[trigger] pow2(k) <= size implies pow2(k) <= pow2(
                true_size_exponent as nat,
            ) by {
                lemma_power_not_above(true_size_exponent as nat, size as nat, k);
            }
        }
        Ok(BlockValue { num: num as u32, more, size_exponent })
    }

    /// The option value: the scalar big-endian, leading zero bytes left out.
    pub open spec fn spec_encode(&self) -> Seq<u8> {
        minimal_be_bytes(self.scalar())
    }

    /// What [`BlockValue::decode`] gives for option bytes `b`.
    pub open spec fn spec_decode(b: Seq<u8>) -> Result<BlockValue, InvalidBlockOption> {
        if b.len() > 4 {
            Err(InvalidBlockOption::TooLong)
        } else if be_value(b) > MAX_BLOCK_NUM as nat * 16 + 15 {
            Err(InvalidBlockOption::NumOutOfRange)
        } else {
            Ok(from_scalar(be_value(b)))
        }
    }

    /// Encodes the block value as option bytes.
    pub fn encode(&self) -> (r: Vec<u8>)
        requires
            self.wf(),
        ensures
            r@ == self.spec_encode(),
    {
        let flag: u32 = if self.more {
            8
        } else {
            0
        };
        let scalar: u32 = self.num * 16 + flag + self.size_exponent as u32;
        uint_option_bytes(scalar)
    }

    /// Decodes option bytes into a block value.
    pub fn decode(bytes: Vec<u8>) -> (r: Result<BlockValue, InvalidBlockOption>)
        ensures
            r == Self::spec_decode(bytes@),
            r matches Ok(v) ==> v.wf(),
    {
        let ghost b = bytes@;
        let scalar = match uint_from_option_bytes(bytes) {
            Ok(n) => n,
            Err(_) => return Err(InvalidBlockOption::TooLong),
        };
        if scalar > MAX_BLOCK_NUM * 16 + 15 {
            return Err(InvalidBlockOption::NumOutOfRange);
        }
        let num = scalar / 16;
        let more = (scalar / 8) % 2 == 1;
        let size_exponent = (scalar % 8) as u8;
        Ok(BlockValue { num, more, size_exponent })
    }

    /// Block size in bytes: `2^(size_exponent + 4)`.
    pub fn size(&self) -> (r: usize)
        requires
            self.size_exponent <= MAX_SIZE_EXPONENT,
        ensures
            r == self.spec_size(),
    {
        proof {
            lemma2_to64();
        }
        let e = self.size_exponent;
        let r: usize = 16usize << e;
        assert(r == 16 * pow2(e as nat)) by {
            assert(e <= 7);
            assert(e == 0 ==> 16usize << e == 16) by (bit_vector);
            assert(e == 1 ==> 16usize << e == 32) by (bit_vector);
            assert(e == 2 ==> 16usize << e == 64) by (bit_vector);
            assert(e == 3 ==> 16usize << e == 128) by (bit_vector);
            assert(e == 4 ==> 16usize << e == 256) by (bit_vector);
            assert(e == 5 ==> 16usize << e == 512) by (bit_vector);
            assert(e == 6 ==> 16usize << e == 1024) by (bit_vector);
            assert(e == 7 ==> 16usize << e == 2048) by (bit_vector);
        }
        proof {
            vstd::arithmetic::power2::lemma_pow2_adds(e as nat, 4);
        }
        r
    }
}

/// Splits an option scalar into its three fields.
pub open spec fn from_scalar(s: nat) -> BlockValue {
    BlockValue { num: (s / 16) as u32, more: (s / 8) % 2 == 1, size_exponent: (s % 8) as u8 }
}

/// Encoding a valid block value and decoding the bytes gives the block value back.
pub proof fn lemma_block_value_round_trip(v: BlockValue)
    requires
        v.wf(),
    ensures
        BlockValue::spec_decode(v.spec_encode()) == Ok::<BlockValue, InvalidBlockOption>(v),
{
    lemma_minimal_be_bytes(v.scalar());
    let s = v.scalar();
    let m: nat = if v.more { 1 } else { 0 };
    assert(s == v.num as nat * 16 + m * 8 + v.size_exponent as nat);
    assert(s / 16 == v.num as nat) by (nonlinear_arith)
        requires s == v.num as nat * 16 + m * 8 + v.size_exponent as nat, m <= 1,
            v.size_exponent <= 7;
    assert(s / 8 == v.num as nat * 2 + m) by (nonlinear_arith)
        requires s == v.num as nat * 16 + m * 8 + v.size_exponent as nat, m <= 1,
            v.size_exponent <= 7;
    assert((v.num as nat * 2 + m) % 2 == m) by (nonlinear_arith)
        requires m <= 1;
    assert(s % 8 == v.size_exponent as nat) by (nonlinear_arith)
        requires s == v.num as nat * 16 + m * 8 + v.size_exponent as nat, m <= 1,
            v.size_exponent <= 7;
}

proof fn lemma_power_not_above(e: nat, size: nat, k: nat)
    requires
        pow2(e) <= size < pow2(e + 1),
        pow2(k) <= size,
    ensures
        pow2(k) <= pow2(e),
{
    if k > e {
        if k > e + 1 {
            lemma_pow2_strictly_increases(e + 1, k);
        }
    } else if k < e {
        lemma_pow2_strictly_increases(k, e);
    }
}

/// Where `2^e <= size < 2^(e + 1)`, the size is representable exactly when `4 <= e <= 11`.
proof fn lemma_exponent_range(e: nat, size: nat)
    requires
        pow2(e) <= size < pow2(e + 1),
    ensures
        size >= 16 <==> e >= 4,
        size < 4096 <==> e <= 11,
{
    lemma2_to64();
    if e < 4 {
        if e + 1 < 4 {
            lemma_pow2_strictly_increases(e + 1, 4);
        }
    } else if e > 4 {
        lemma_pow2_strictly_increases(4, e);
    }
    if e > 12 {
        lemma_pow2_strictly_increases(12, e);
    } else if e < 11 {
        lemma_pow2_strictly_increases(e + 1, 12);
    }
    if e + 1 < 12 {
        lemma_pow2_strictly_increases(e + 1, 12);
    }
}

} // verus!
