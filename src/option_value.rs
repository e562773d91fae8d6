//! Unsigned-integer option values (RFC 7252 section 3.2), through coap_lite's codec.
use coap_lite::error::IncompatibleOptionValueFormat;
use coap_lite::option_value::OptionValueU32;
use vstd::prelude::*;

verus! {

/// Big-endian bytes of `n` without leading zero bytes (zero has none).
pub open spec fn minimal_be_bytes(n: nat) -> Seq<u8>
    decreases n,
{
    if n == 0 {
        Seq::empty()
    } else {
        minimal_be_bytes(n / 256).push((n % 256) as u8)
    }
}

/// The unsigned integer that bytes `b` encode big-endian.
pub open spec fn be_value(b: Seq<u8>) -> nat
    decreases b.len(),
{
    if b.len() == 0 {
        0
    } else {
        be_value(b.drop_last()) * 256 + b.last() as nat
    }
}

#[verifier::external_type_specification]
#[verifier::external_body]
pub struct ExIncompatibleOptionValueFormat(IncompatibleOptionValueFormat);

/// Relies on coap_lite's `From<OptionValueU32> for Vec<u8>`: the integer big-endian, leading
/// zero bytes left out.
#[verifier::external_body]
pub(crate) fn uint_option_bytes(value: u32) -> (r: Vec<u8>)
    ensures
        r@ == minimal_be_bytes(value as nat),
{
    Vec::from(OptionValueU32(value))
}

/// Relies on coap_lite's `TryFrom<Vec<u8>> for OptionValueU32`: up to four bytes read
/// big-endian; more than four is an error.
#[verifier::external_body]
pub(crate) fn uint_from_option_bytes(bytes: Vec<u8>) -> (r: Result<u32, IncompatibleOptionValueFormat>)
    ensures
        r is Ok <==> bytes@.len() <= 4,
        r matches Ok(v) ==> v as nat == be_value(bytes@),
{
    OptionValueU32::try_from(bytes).map(|v| v.0)
}

/// The minimal encoding reads back as the integer, and is at most three bytes long below 2^24.
pub proof fn lemma_minimal_be_bytes(n: nat)
    ensures
        be_value(minimal_be_bytes(n)) == n,
        n < 0x100 ==> minimal_be_bytes(n).len() <= 1,
        n < 0x10000 ==> minimal_be_bytes(n).len() <= 2,
        n < 0x1000000 ==> minimal_be_bytes(n).len() <= 3,
    decreases n,
{
    if n > 0 {
        lemma_minimal_be_bytes(n / 256);
        let b = minimal_be_bytes(n);
        assert(b.drop_last() =~= minimal_be_bytes(n / 256));
        assert(minimal_be_bytes(0).len() == 0);
    }
}

} // verus!
