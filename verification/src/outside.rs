//! What the library takes from the crates it builds on: a bounded list, a writer
//! of single bits, and integers in the byte order of the machine. The functions
//! here make the calls; what they promise of them is stated and not proved.

use arrayvec::ArrayVec;
use bitstream_io::{BigEndian, BitWrite, BitWriter};
use byteorder::{NativeEndian, WriteBytesExt};
use vstd::prelude::*;

use crate::partition::{PartitionType, TileBlockOffset};

verus! {

/// `arrayvec::ArrayVec`, a list with a fixed capacity.
#[verifier::external_type_specification]
#[verifier::external_body]
#[verifier::reject_recursive_types(T)]
pub struct ExArrayVec<T, const CAP: usize>(ArrayVec<T, CAP>);

/// A list of at most eight numbers.
pub type ShortList = ArrayVec<u64, 8>;

/// The numbers of the list, in order.
pub uninterp spec fn listed(v: ArrayVec<u64, 8>) -> Seq<u64>;

/// `ArrayVec::new`: a list without elements.
#[verifier::external_body]
pub(crate) fn new_list() -> (r: ShortList)
    ensures
        listed(r) == Seq::<u64>::empty(),
{
    ArrayVec::new()
}

/// `ArrayVec::push`: adds an element at the end. It panics where the list is full,
/// which the precondition rules out.
#[verifier::external_body]
pub(crate) fn push_to_list(v: &mut ShortList, x: u64)
    requires
        listed(*old(v)).len() < 8,
    ensures
        listed(*final(v)) == listed(*old(v)).push(x),
{
    v.push(x)
}

/// `ArrayVec::as_slice`: the elements as a slice, in order.
#[verifier::external_body]
pub(crate) fn list_slice(v: &ShortList) -> (r: &[u64])
    ensures
        r@ == listed(*v),
{
    v.as_slice()
}

/// A list of at most three partition types.
pub type TypeList = ArrayVec<PartitionType, 3>;

/// The partition types of the list, in order.
pub uninterp spec fn listed_types(v: ArrayVec<PartitionType, 3>) -> Seq<PartitionType>;

/// `ArrayVec::new`: a list without partition types.
#[verifier::external_body]
pub(crate) fn new_types() -> (r: TypeList)
    ensures
        listed_types(r) == Seq::<PartitionType>::empty(),
{
    ArrayVec::new()
}

/// `ArrayVec::push`: adds an element at the end. It panics where the list is full,
/// which the precondition rules out.
#[verifier::external_body]
pub(crate) fn push_type(v: &mut TypeList, x: PartitionType)
    requires
        listed_types(*old(v)).len() < 3,
    ensures
        listed_types(*final(v)) == listed_types(*old(v)).push(x),
{
    v.push(x)
}

/// `ArrayVec::as_slice`: the elements as a slice, in order.
#[verifier::external_body]
pub(crate) fn types_slice(v: &TypeList) -> (r: &[PartitionType])
    ensures
        r@ == listed_types(*v),
{
    v.as_slice()
}

/// A list of at most four offsets.
pub type OffsetList = ArrayVec<TileBlockOffset, 4>;

/// The offsets of the list, in order.
pub uninterp spec fn listed_offsets(v: ArrayVec<TileBlockOffset, 4>) -> Seq<TileBlockOffset>;

/// `ArrayVec::new`: a list without offsets.
#[verifier::external_body]
pub(crate) fn new_offsets() -> (r: OffsetList)
    ensures
        listed_offsets(r) == Seq::<TileBlockOffset>::empty(),
{
    ArrayVec::new()
}

/// `ArrayVec::push`: adds an element at the end. It panics where the list is full,
/// which the precondition rules out.
#[verifier::external_body]
pub(crate) fn push_offset(v: &mut OffsetList, x: TileBlockOffset)
    requires
        listed_offsets(*old(v)).len() < 4,
    ensures
        listed_offsets(*final(v)) == listed_offsets(*old(v)).push(x),
{
    v.push(x)
}

/// `ArrayVec::as_slice`: the elements as a slice, in order.
#[verifier::external_body]
pub(crate) fn offsets_slice(v: &OffsetList) -> (r: &[TileBlockOffset])
    ensures
        r@ == listed_offsets(*v),
{
    v.as_slice()
}

/// A writer of single bits into memory, the first bit of a byte its highest:
/// `bitstream_io::BitWriter` on a vector with `BigEndian`.
#[verifier::external_body]
pub struct BitBuffer {
    inner: BitWriter<Vec<u8>, BigEndian>,
}

/// The bits written so far, in order.
pub uninterp spec fn written_bits(w: BitBuffer) -> Seq<bool>;

/// `BitWriter::endian` on an empty vector: a writer without bits.
#[verifier::external_body]
pub(crate) fn new_bits() -> (r: BitBuffer)
    ensures
        written_bits(r) == Seq::<bool>::empty(),
{
    BitBuffer { inner: BitWriter::endian(Vec::new(), BigEndian) }
}

/// `BitWrite::write_bit`: adds one bit. Writing to memory does not fail.
#[verifier::external_body]
pub(crate) fn push_bit(w: &mut BitBuffer, bit: bool)
    ensures
        written_bits(*final(w)) == written_bits(*old(w)).push(bit),
{
    w.inner.write_bit(bit).unwrap()
}

/// `BitWrite::byte_align`: adds zero bits up to the next whole byte, none where the
/// writer is at one. Writing to memory does not fail.
#[verifier::external_body]
pub(crate) fn align_bits(w: &mut BitBuffer)
    ensures
        written_bits(*final(w)) == written_bits(*old(w)) + Seq::new(
            ((8 - written_bits(*old(w)).len() % 8) % 8) as nat,
            |i: int| false,
        ),
{
    w.inner.byte_align().unwrap()
}

/// `BitWrite::write_bytes`: adds the bits of whole bytes. Writing to memory does
/// not fail.
#[verifier::external_body]
pub(crate) fn push_bytes(w: &mut BitBuffer, buf: &[u8])
    ensures
        written_bits(*final(w)) == written_bits(*old(w)) + bits_of(buf@),
{
    w.inner.write_bytes(buf).unwrap()
}

/// `BitWriter::into_writer`: the bytes written; bits past the last whole byte are
/// lost, which the precondition rules out.
#[verifier::external_body]
pub(crate) fn into_bytes(w: BitBuffer) -> (r: Vec<u8>)
    requires
        written_bits(w).len() % 8 == 0,
    ensures
        bits_of(r@) == written_bits(w),
{
    w.inner.into_writer()
}

/// The `i`-th bit of a byte from the highest.
pub open spec fn bit_of(b: u8, i: int) -> bool {
    if i == 0 {
        b & 128 != 0
    } else if i == 1 {
        b & 64 != 0
    } else if i == 2 {
        b & 32 != 0
    } else if i == 3 {
        b & 16 != 0
    } else if i == 4 {
        b & 8 != 0
    } else if i == 5 {
        b & 4 != 0
    } else if i == 6 {
        b & 2 != 0
    } else {
        b & 1 != 0
    }
}

/// The bits of bytes, in order.
pub open spec fn bits_of(s: Seq<u8>) -> Seq<bool> {
    Seq::new((8 * s.len()) as nat, |i: int| bit_of(s[i / 8], i % 8))
}

/// `v` as bytes, the lowest first.
pub open spec fn low_first(v: int, n: nat) -> Seq<u8>
    decreases n,
{
    if n == 0 { seq![] } else { seq![(v % 256) as u8] + low_first(v / 256, (n - 1) as nat) }
}

/// `v` as bytes, the highest first.
pub open spec fn high_first(v: int, n: nat) -> Seq<u8> {
    low_first(v, n).reverse()
}

/// `WriteBytesExt::write_u64::<NativeEndian>` on a vector: adds eight bytes, in the
/// order of the machine. Writing to memory does not fail.
#[verifier::external_body]
pub(crate) fn push_native_u64(buf: &mut Vec<u8>, v: u64)
    ensures
        final(buf)@ == old(buf)@ + low_first(v as int, 8) || final(buf)@ == old(buf)@ + high_first(v as int, 8),
{
    buf.write_u64::<NativeEndian>(v).unwrap()
}

/// `WriteBytesExt::write_u32::<NativeEndian>` on a vector: adds four bytes, in the
/// order of the machine. Writing to memory does not fail.
#[verifier::external_body]
pub(crate) fn push_native_u32(buf: &mut Vec<u8>, v: u32)
    ensures
        final(buf)@ == old(buf)@ + low_first(v as int, 4) || final(buf)@ == old(buf)@ + high_first(v as int, 4),
{
    buf.write_u32::<NativeEndian>(v).unwrap()
}

/// Bytes with the same bits are the same.
pub proof fn lemma_bits_injective(a: Seq<u8>, b: Seq<u8>)
    requires
        bits_of(a) == bits_of(b),
    ensures
        a == b,
{
    assert(bits_of(a).len() == 8 * a.len() && bits_of(b).len() == 8 * b.len());
    assert forall|k: int| 0 <= k < a.len() implies a[k] == b[k] by {
        assert forall|j: int| 0 <= j < 8 implies bit_of(a[k], j) == bit_of(b[k], j) by {
            let i = 8 * k + j;
            assert(i / 8 == k && i % 8 == j);
            assert(bits_of(a)[i] == bit_of(a[k], j));
            assert(bits_of(b)[i] == bit_of(b[k], j));
        }
        let x = a[k];
        let y = b[k];
        assert(bit_of(x, 0) == bit_of(y, 0) && bit_of(x, 1) == bit_of(y, 1) && bit_of(x, 2) == bit_of(y, 2) && bit_of(x, 3) == bit_of(y, 3));
        assert(bit_of(x, 4) == bit_of(y, 4) && bit_of(x, 5) == bit_of(y, 5) && bit_of(x, 6) == bit_of(y, 6) && bit_of(x, 7) == bit_of(y, 7));
        assert(x == y) by (bit_vector)
            requires
                (x & 128 != 0) == (y & 128 != 0),
                (x & 64 != 0) == (y & 64 != 0),
                (x & 32 != 0) == (y & 32 != 0),
                (x & 16 != 0) == (y & 16 != 0),
                (x & 8 != 0) == (y & 8 != 0),
                (x & 4 != 0) == (y & 4 != 0),
                (x & 2 != 0) == (y & 2 != 0),
                (x & 1 != 0) == (y & 1 != 0),
        ;
    }
    assert(a =~= b);
}

/// The bits of joined bytes are the joined bits.
pub proof fn lemma_bits_join(a: Seq<u8>, b: Seq<u8>)
    ensures
        bits_of(a + b) == bits_of(a) + bits_of(b),
{
    assert forall|i: int| 0 <= i < bits_of(a + b).len() implies bits_of(a + b)[i] == (bits_of(a) + bits_of(b))[i] by {
        if i >= 8 * a.len() {
            let j = i - 8 * a.len();
            assert(i / 8 == a.len() + j / 8 && i % 8 == j % 8);
        }
    }
    assert(bits_of(a + b) =~= bits_of(a) + bits_of(b));
}

} // verus!
