//! The field encodings of structured payloads.
//!
//! A structured payload is its fields one behind the other, each encoded by `postcard`: an
//! unsigned number as a varint, a list as its length and then its elements, an array as its
//! elements. An enum stands on the wire as the number of its variant, a 32-bit float as its four
//! bytes, least significant first.

use vstd::prelude::*;
use vstd::arithmetic::power2::{lemma_pow2_adds, lemma_pow2_pos, pow2};
use super::messages::WireError;

verus! {

/// The error type of `postcard`.
#[verifier::external_type_specification]
#[verifier::external_body]
pub struct ExPostcardError(postcard::Error);

/// A number as a varint: seven bits per byte, least significant first, with the top bit set on
/// every byte but the last.
pub open spec fn varint(n: nat) -> Seq<u8>
    decreases n,
{
    if n < 128 {
        seq![n as u8]
    } else {
        seq![(n % 128 + 128) as u8] + varint(n / 128)
    }
}

/// The number of at most `bits` bits whose varint stands at the front of `bytes`, and what
/// follows it. The varint may be cut off, and the number may have more bits.
pub open spec fn take_varint(bytes: Seq<u8>, bits: nat) -> Result<(nat, Seq<u8>), WireError>
    decreases bytes.len(),
{
    if bytes.len() == 0 {
        Err(WireError::UnexpectedEnd)
    } else if bytes[0] < 128 {
        if bits >= 7 || bytes[0] < pow2(bits) {
            Ok((bytes[0] as nat, bytes.skip(1)))
        } else {
            Err(WireError::BadVarint)
        }
    } else if bits <= 7 {
        Err(WireError::BadVarint)
    } else {
        match take_varint(bytes.skip(1), (bits - 7) as nat) {
            Ok((high, rest)) => Ok(((bytes[0] - 128 + 128 * high) as nat, rest)),
            Err(e) => Err(e),
        }
    }
}

/// The varints of a list of numbers, one behind the other.
pub open spec fn varints(numbers: Seq<u32>) -> Seq<u8>
    decreases numbers.len(),
{
    if numbers.len() == 0 {
        Seq::empty()
    } else {
        varint(numbers[0] as nat) + varints(numbers.skip(1))
    }
}

/// A list of bytes from the front of `bytes`: its length, then its elements.
pub open spec fn take_byte_list(bytes: Seq<u8>) -> Result<(Seq<u8>, Seq<u8>), WireError> {
    match take_varint(bytes, usize::BITS as nat) {
        Ok((count, rest)) => if count <= rest.len() {
            Ok((rest.take(count as int), rest.skip(count as int)))
        } else {
            Err(WireError::UnexpectedEnd)
        },
        Err(e) => Err(e),
    }
}

/// `postcard::to_allocvec` of a `u32`: its varint. It does not fail, as the buffer grows.
#[verifier::external_body]
pub(crate) fn encode_u32(value: u32) -> (r: Result<Vec<u8>, postcard::Error>)
    ensures
        r is Ok,
        r->Ok_0@ == varint(value as nat),
{
    postcard::to_allocvec(&value)
}

/// `postcard::to_allocvec` of a `u64`: its varint. It does not fail, as the buffer grows.
#[verifier::external_body]
pub(crate) fn encode_u64(value: u64) -> (r: Result<Vec<u8>, postcard::Error>)
    ensures
        r is Ok,
        r->Ok_0@ == varint(value as nat),
{
    postcard::to_allocvec(&value)
}

/// `postcard::to_allocvec` of a list of bytes: the varint of its length, then the bytes. It does
/// not fail, as the buffer grows.
#[verifier::external_body]
pub(crate) fn encode_byte_list(value: &Vec<u8>) -> (r: Result<Vec<u8>, postcard::Error>)
    ensures
        r is Ok,
        r->Ok_0@ == varint(value@.len()) + value@,
{
    postcard::to_allocvec(value)
}

/// `postcard::to_allocvec` of a list of numbers: the varint of its length, then the varint of
/// each. It does not fail, as the buffer grows.
#[verifier::external_body]
pub(crate) fn encode_number_list(value: &Vec<u32>) -> (r: Result<Vec<u8>, postcard::Error>)
    ensures
        r is Ok,
        r->Ok_0@ == varint(value@.len()) + varints(value@),
{
    postcard::to_allocvec(value)
}

/// `postcard::to_allocvec` of an array of four bytes: the four bytes. It does not fail, as the
/// buffer grows.
#[verifier::external_body]
pub(crate) fn encode_word(value: [u8; 4]) -> (r: Result<Vec<u8>, postcard::Error>)
    ensures
        r is Ok,
        r->Ok_0@ == value@,
{
    postcard::to_allocvec(&value)
}

/// `postcard::take_from_bytes` of a `u32`: the varint at the front, and what follows it. It fails
/// with `DeserializeUnexpectedEnd` where the varint is cut off, and with `DeserializeBadVarint`
/// where it does not fit.
#[verifier::external_body]
pub(crate) fn take_u32(bytes: &[u8]) -> (r: Result<(u32, &[u8]), WireError>)
    ensures
        match r {
            Ok((value, rest)) => take_varint(bytes@, 32) == Ok::<_, WireError>(
                (value as nat, rest@),
            ),
            Err(e) => take_varint(bytes@, 32) == Err::<(nat, Seq<u8>), _>(e),
        },
{
    postcard::take_from_bytes(bytes).map_err(|e| match e {
        postcard::Error::DeserializeUnexpectedEnd => WireError::UnexpectedEnd,
        postcard::Error::DeserializeBadVarint => WireError::BadVarint,
        _ => WireError::Malformed,
    })
}

/// `postcard::take_from_bytes` of a `u64`: the varint at the front, and what follows it. It fails
/// with `DeserializeUnexpectedEnd` where the varint is cut off, and with `DeserializeBadVarint`
/// where it does not fit.
#[verifier::external_body]
pub(crate) fn take_u64(bytes: &[u8]) -> (r: Result<(u64, &[u8]), WireError>)
    ensures
        match r {
            Ok((value, rest)) => take_varint(bytes@, 64) == Ok::<_, WireError>(
                (value as nat, rest@),
            ),
            Err(e) => take_varint(bytes@, 64) == Err::<(nat, Seq<u8>), _>(e),
        },
{
    postcard::take_from_bytes(bytes).map_err(|e| match e {
        postcard::Error::DeserializeUnexpectedEnd => WireError::UnexpectedEnd,
        postcard::Error::DeserializeBadVarint => WireError::BadVarint,
        _ => WireError::Malformed,
    })
}

/// `postcard::take_from_bytes` of a list of bytes: a length, that many bytes, and what follows
/// them. It fails with `DeserializeUnexpectedEnd` where either is cut off, and with
/// `DeserializeBadVarint` where the length is no machine word.
#[verifier::external_body]
pub(crate) fn take_bytes(bytes: &[u8]) -> (r: Result<(Vec<u8>, &[u8]), WireError>)
    ensures
        match r {
            Ok((value, rest)) => take_byte_list(bytes@) == Ok::<_, WireError>((value@, rest@)),
            Err(e) => take_byte_list(bytes@) == Err::<(Seq<u8>, Seq<u8>), _>(e),
        },
{
    postcard::take_from_bytes(bytes).map_err(|e| match e {
        postcard::Error::DeserializeUnexpectedEnd => WireError::UnexpectedEnd,
        postcard::Error::DeserializeBadVarint => WireError::BadVarint,
        _ => WireError::Malformed,
    })
}

/// `postcard::take_from_bytes` of an array of four bytes: the next four, and what follows them. It
/// fails with `DeserializeUnexpectedEnd` where there are fewer.
#[verifier::external_body]
pub(crate) fn take_word(bytes: &[u8]) -> (r: Result<([u8; 4], &[u8]), WireError>)
    ensures
        match r {
            Ok((value, rest)) => bytes@.len() >= 4 && value@ == bytes@.take(4) && rest@
                == bytes@.skip(4),
            Err(e) => bytes@.len() < 4 && e == WireError::UnexpectedEnd,
        },
{
    postcard::take_from_bytes(bytes).map_err(|e| match e {
        postcard::Error::DeserializeUnexpectedEnd => WireError::UnexpectedEnd,
        postcard::Error::DeserializeBadVarint => WireError::BadVarint,
        _ => WireError::Malformed,
    })
}

/// A number of at most `bits` bits is read back from its varint, whatever follows.
pub proof fn lemma_varint_round_trip(n: nat, bits: nat, rest: Seq<u8>)
    requires
        n < pow2(bits),
    ensures
        take_varint(varint(n) + rest, bits) == Ok::<_, WireError>((n, rest)),
    decreases n,
{
    let bytes = varint(n) + rest;
    if n < 128 {
        assert(bytes.skip(1) =~= rest);
    } else {
        let high = n / 128;
        assert(bytes =~= seq![(n % 128 + 128) as u8] + (varint(high) + rest));
        assert(bytes.skip(1) =~= varint(high) + rest);
        vstd::arithmetic::power2::lemma2_to64();
        if bits <= 7 {
            if bits < 7 {
                vstd::arithmetic::power2::lemma_pow2_strictly_increases(bits, 7);
            }
            assert(false);
        }
        lemma_pow2_adds(7, (bits - 7) as nat);
        lemma_pow2_pos((bits - 7) as nat);
        let p = pow2((bits - 7) as nat);
        assert(pow2(bits) == 128 * p);
        assert(high < p);
        lemma_varint_round_trip(high, (bits - 7) as nat, rest);
    }
}

/// A number that was read has no more bits than it may.
pub proof fn lemma_varint_bound(bytes: Seq<u8>, bits: nat)
    ensures
        take_varint(bytes, bits) matches Ok((n, _)) ==> n < pow2(bits),
    decreases bytes.len(),
{
    if bytes.len() > 0 {
        vstd::arithmetic::power2::lemma2_to64();
        if bytes[0] < 128 {
            if bits > 7 {
                vstd::arithmetic::power2::lemma_pow2_strictly_increases(7, bits);
            }
        } else if bits > 7 {
            lemma_varint_bound(bytes.skip(1), (bits - 7) as nat);
            lemma_pow2_adds(7, (bits - 7) as nat);
        }
    }
}

/// Every machine word is below two to the number of its bits.
pub proof fn lemma_word_fits(n: nat)
    requires
        n <= usize::MAX,
    ensures
        n < pow2(usize::BITS as nat),
{
    vstd::arithmetic::power2::lemma2_to64();
    vstd::layout::unsigned_int_max_values();
}

/// The number that bytes hold seven bits at a time, least significant first.
pub open spec fn sevens(bytes: Seq<u8>) -> int
    decreases bytes.len(),
{
    if bytes.len() == 0 {
        0
    } else {
        bytes[0] % 128 + 128 * sevens(bytes.skip(1))
    }
}

/// A varint holds its number seven bits at a time, and its last byte is the only one without the top
/// bit.
pub proof fn law_varint_holds_its_number(n: nat)
    ensures
        sevens(varint(n)) == n,
        varint(n).len() > 0,
        varint(n).last() < 128,
        forall|i: int| 0 <= i < varint(n).len() - 1 ==> #[trigger] varint(n)[i] >= 128,
    decreases n,
{
    let v = varint(n);
    reveal_with_fuel(sevens, 2);
    if n < 128 {
        assert(v.skip(1).len() == 0);
    } else {
        let high = varint(n / 128);
        law_varint_holds_its_number(n / 128);
        assert(v.skip(1) =~= high);
        assert forall|i: int| 0 <= i < v.len() - 1 implies #[trigger] v[i] >= 128 by {
            if i > 0 {
                assert(v[i] == high[i - 1]);
            }
        }
    }
}

} // verus!
