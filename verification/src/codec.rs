//! The binary codec the index is built on: little-endian `u64` reads
//! (performed by the external serialization collaborator) and the
//! variable-length integer that prefixes the offset header.

use vstd::prelude::*;

verus! {

/// The little-endian `u64` stored at byte position `pos` of `data`.
pub open spec fn u64_le_at(data: Seq<u8>, pos: int) -> u64
    recommends
        0 <= pos,
        pos + 8 <= data.len(),
{
    (data[pos] as u64) | ((data[pos + 1] as u64) << 8u64) | ((data[pos + 2] as u64) << 16u64)
        | ((data[pos + 3] as u64) << 24u64) | ((data[pos + 4] as u64) << 32u64) | ((data[pos
        + 5] as u64) << 40u64) | ((data[pos + 6] as u64) << 48u64) | ((data[pos
        + 7] as u64) << 56u64)
}

/// Relies on `<u64 as tantivy_common::BinarySerializable>::deserialize`: it
/// reads exactly eight bytes in little-endian byte order (`Endianness` is
/// `byteorder::LittleEndian`) and fails if and only if fewer than eight bytes
/// remain in the reader.
#[verifier::external_body]
pub(crate) fn read_u64_at(data: &[u8], pos: usize) -> (r: Option<u64>)
    requires
        pos <= data@.len(),
    ensures
        r == (if pos + 8 <= data@.len() {
            Some(u64_le_at(data@, pos as int))
        } else {
            None::<u64>
        }),
{
    let mut cursor: &[u8] = &data[pos..];
    <u64 as tantivy_common::BinarySerializable>::deserialize(&mut cursor).ok()
}

/// A decodable payload: a value that can be read from a byte buffer at a
/// given position, together with the number of bytes it occupied there.
pub trait Decodable: Sized {
    /// What decoding at position `pos` of `data` yields: the value and the
    /// number of bytes consumed, or `None` if no value can be read there.
    spec fn spec_decode(data: Seq<u8>, pos: int) -> Option<(Self, int)>;

    /// A successful decode consumes a non-negative number of bytes and stays
    /// within the buffer.
    proof fn lemma_decode_len(data: Seq<u8>, pos: int)
        requires
            0 <= pos <= data.len(),
        ensures
            Self::spec_decode(data, pos) matches Some(vc) ==> 0 <= vc.1 <= data.len() - pos,
    ;

    /// Decode one value at byte position `pos` of `data`.
    fn decode(data: &[u8], pos: usize) -> (r: Option<(Self, usize)>)
        requires
            pos <= data@.len(),
        ensures
            r is Some <==> Self::spec_decode(data@, pos as int) is Some,
            r matches Some(vc) ==> Self::spec_decode(data@, pos as int) == Some(
                (vc.0, vc.1 as int),
            ),
    ;
}

impl Decodable for u64 {
    open spec fn spec_decode(data: Seq<u8>, pos: int) -> Option<(u64, int)> {
        if pos + 8 <= data.len() {
            Some((u64_le_at(data, pos), 8))
        } else {
            None
        }
    }

    proof fn lemma_decode_len(data: Seq<u8>, pos: int) {
    }

    fn decode(data: &[u8], pos: usize) -> (r: Option<(u64, usize)>) {
        match read_u64_at(data, pos) {
            Some(v) => Some((v, 8)),
            None => None,
        }
    }
}

/// Byte length of the variable-length integer starting at position `i`:
/// one past the position of the first byte whose stop bit (the high bit) is
/// set, looking at most ten bytes into the encoding. `None` when the buffer
/// ends, or ten bytes pass, before a stop bit appears.
pub open spec fn vint_len_from(data: Seq<u8>, i: int) -> Option<int>
    recommends
        0 <= i,
    decreases 10 - i,
{
    if i >= 10 || i >= data.len() {
        None
    } else if data[i] >= 128 {
        Some(i + 1)
    } else {
        vint_len_from(data, i + 1)
    }
}

/// Value of a variable-length integer occupying bytes `i .. l` of `data`:
/// each byte contributes its low seven bits, least-significant group first.
pub open spec fn vint_val_from(data: Seq<u8>, i: int, l: int) -> u64
    recommends
        0 <= i <= l <= data.len(),
    decreases l - i,
{
    if i < 0 || i >= l {
        0u64
    } else {
        (((data[i] % 128) as u64) << ((7 * i) as u64)) | vint_val_from(data, i + 1, l)
    }
}

/// A found stop bit lies within the first ten bytes of the buffer.
proof fn lemma_vint_len_bounds(data: Seq<u8>, i: int)
    requires
        0 <= i,
    ensures
        vint_len_from(data, i) matches Some(l) ==> i < l <= 10 && l <= data.len(),
    decreases 10 - i,
{
    if i >= 10 || i >= data.len() {
    } else if data[i] >= 128 {
    } else {
        lemma_vint_len_bounds(data, i + 1);
    }
}

/// Skipping over bytes without a stop bit does not change where the
/// variable-length integer ends.
proof fn lemma_vint_len_skip(data: Seq<u8>, i: int)
    requires
        0 <= i <= 10,
        forall|j: int| 0 <= j < i ==> data[j] < 128,
    ensures
        vint_len_from(data, 0) == vint_len_from(data, i),
    decreases i,
{
    if i > 0 {
        lemma_vint_len_skip(data, i - 1);
        if i - 1 >= 10 || i - 1 >= data.len() {
            assert(vint_len_from(data, i - 1) is None);
            assert(vint_len_from(data, i) is None);
        } else {
            assert(data[i - 1] < 128);
        }
    }
}

/// Read the variable-length integer at the start of `data`, returning its
/// value and the number of bytes it occupied. The encoding stores seven bits
/// per byte, least-significant group first; a set high bit marks the final
/// byte. An encoding that shows no stop bit within ten bytes, or that runs
/// past the end of the buffer, is malformed and yields `None`.
pub(crate) fn read_vint(data: &[u8]) -> (r: Option<(u64, usize)>)
    ensures
        r is Some <==> vint_len_from(data@, 0) is Some,
        r matches Some(vl) ==> vint_len_from(data@, 0) == Some(vl.1 as int) && vl.0
            == vint_val_from(data@, 0, vl.1 as int) && vl.1 <= data@.len(),
{
    let mut result: u64 = 0;
    let mut i: usize = 0;
    proof {
        assert(forall|x: u64| (0u64 | x) == x) by (bit_vector);
    }
    loop
        invariant
            0 <= i <= 10,
            i <= data@.len(),
            forall|j: int| 0 <= j < i ==> data@[j] < 128,
            forall|l: int|
                i <= l ==> vint_val_from(data@, 0, l) == result | vint_val_from(data@, i as int, l),
        ensures
            vint_len_from(data@, 0) matches Some(l)
                ==> i < 10 && i < data@.len() && data@[i as int] >= 128 && i + 1 == l && (result | (
            ((data@[i as int] % 128) as u64) << ((7 * (i as int)) as u64))) == vint_val_from(
                data@,
                0,
                l,
            ),
            vint_len_from(data@, 0) is None ==> (i >= 10 || i >= data@.len()),
        decreases 10 - i,
    {
        if i >= 10 || i >= data.len() {
            proof {
                lemma_vint_len_skip(data@, i as int);
            }
            break ;
        }
        let b: u8 = data[i];
        if b >= 128 {
            proof {
                lemma_vint_len_skip(data@, i as int);
                let l = i as int + 1;
                assert(vint_len_from(data@, i as int) == Some(l));
                assert(vint_val_from(data@, l, l) == 0u64);
                assert(vint_val_from(data@, i as int, l) == (((data@[i as int] % 128) as u64) << ((
                7 * (i as int)) as u64)) | vint_val_from(data@, l, l));
                assert(forall|x: u64| (x | 0u64) == x) by (bit_vector);
            }
            break ;
        }
        let ghost iold = i as int;
        let ghost rold = result;
        result = result | (((b % 128) as u64) << ((7 * i) as u64));
        i = i + 1;
        proof {
            assert forall|l: int| i <= l implies vint_val_from(data@, 0, l) == result
                | vint_val_from(data@, i as int, l) by {
                assert(vint_val_from(data@, 0, l) == rold | vint_val_from(data@, iold, l));
                assert(vint_val_from(data@, iold, l) == (((data@[iold] % 128) as u64) << ((7
                    * iold) as u64)) | vint_val_from(data@, iold + 1, l));
                assert(forall|x: u64, y: u64, z: u64| (x | (y | z)) == ((x | y) | z))
                    by (bit_vector);
            }
        }
    }
    if i >= 10 || i >= data.len() {
        None
    } else {
        proof {
            lemma_vint_len_bounds(data@, 0);
        }
        let b: u8 = data[i];
        let last: u64 = result | (((b % 128) as u64) << ((7 * i) as u64));
        Some((last, i + 1))
    }
}

} // verus!
