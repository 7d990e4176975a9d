//! The power-of-two ring buffer of `bit_mask_ring_buf`, seen through the
//! sequence of samples it holds.
//!
//! Samples are carried as `u64` words (the bit patterns of the audio samples),
//! so that the contents can be spoken of as a `Seq<u64>`.

use vstd::prelude::*;
use bit_mask_ring_buf::BitMaskRB;

verus! {

/// `n` is a power of two.
pub open spec fn is_pow2(n: nat) -> bool
    decreases n,
{
    if n == 1 {
        true
    } else if n >= 2 && n % 2 == 0 {
        is_pow2(n / 2)
    } else {
        false
    }
}

/// `p` is the smallest power of two that is at least `n`.
pub open spec fn is_next_pow2(n: nat, p: nat) -> bool {
    &&& is_pow2(p)
    &&& n <= p
    &&& (p == 1 || p / 2 < n)
}

/// The length that `BitMaskRB::new(len, ..)` gives the buffer: the next power
/// of two, and at least two.
pub open spec fn ring_len_for(len: nat, ring_len: nat) -> bool {
    is_next_pow2(if len < 2 { 2 } else { len }, ring_len)
}

/// Where the logical position `i` lands in a ring of `len` cells.
pub open spec fn ring_pos(i: int, len: nat) -> int {
    i % (len as int)
}

pub proof fn lemma_pow2_double(n: nat)
    requires
        is_pow2(n),
    ensures
        is_pow2(2 * n),
        n >= 1,
{
    assert((2 * n) / 2 == n);
    assert(is_pow2(2 * n));
}

/// Two powers of two with `a <= b < 2a` are equal.
pub proof fn lemma_pow2_unique(a: nat, b: nat)
    requires
        is_pow2(a),
        is_pow2(b),
        a <= b < 2 * a,
    ensures
        a == b,
    decreases b,
{
    if a == 1 {
        if b != 1 {
            assert(b >= 2);
        }
    } else {
        assert(a >= 2 && a % 2 == 0);
        assert(b >= 2);
        assert(b % 2 == 0);
        lemma_pow2_unique(a / 2, b / 2);
    }
}

#[verifier::external_type_specification]
#[verifier::external_body]
#[verifier::reject_recursive_types(T)]
pub struct ExBitMaskRB<T>(BitMaskRB<T>);

/// The cells of a ring buffer, from index 0 up to its length.
pub uninterp spec fn ring_contents(rb: BitMaskRB<u64>) -> Seq<u64>;

/// Calls `BitMaskRB::new`: a buffer of `len` rounded up to the next power of
/// two (at least 2), every cell set to `value`. The crate panics when `len`
/// exceeds `usize::MAX / 2 + 1`, which `requires` leaves out.
#[verifier::external_body]
pub(crate) fn ring_new(len: usize, value: u64) -> (rb: BitMaskRB<u64>)
    requires
        len <= usize::MAX / 2 + 1,
    ensures
        ring_len_for(len as nat, ring_contents(rb).len()),
        ring_contents(rb) == Seq::new(ring_contents(rb).len(), |i: int| value),
{
    BitMaskRB::new(len, value)
}

/// Calls `BitMaskRB::len`: the number of cells.
#[verifier::external_body]
pub(crate) fn ring_len(rb: &BitMaskRB<u64>) -> (n: usize)
    ensures
        n == ring_contents(*rb).len(),
{
    rb.len().get()
}

/// Calls `<BitMaskRB as Index<isize>>::index`: the cell `i & (len - 1)`, which
/// for a power-of-two length is `i` modulo the length.
#[verifier::external_body]
pub(crate) fn ring_get(rb: &BitMaskRB<u64>, i: isize) -> (v: u64)
    requires
        is_pow2(ring_contents(*rb).len()),
    ensures
        v == ring_contents(*rb)[ring_pos(i as int, ring_contents(*rb).len())],
{
    rb[i]
}

/// Calls `<BitMaskRB as IndexMut<isize>>::index_mut` and stores `v` in the cell
/// `i` modulo the length; no other cell changes.
#[verifier::external_body]
pub(crate) fn ring_set(rb: &mut BitMaskRB<u64>, i: isize, v: u64)
    requires
        is_pow2(ring_contents(*old(rb)).len()),
    ensures
        ring_contents(*final(rb)) == ring_contents(*old(rb)).update(
            ring_pos(i as int, ring_contents(*old(rb)).len()),
            v,
        ),
{
    rb[i] = v;
}

/// Calls `BitMaskRB::read_into`: cell `k` of `slice` receives the ring cell at
/// logical position `start + k`, wrapping as often as the slice is long.
#[verifier::external_body]
pub(crate) fn ring_read_into(rb: &BitMaskRB<u64>, slice: &mut [u64], start: isize)
    requires
        is_pow2(ring_contents(*rb).len()),
    ensures
        final(slice)@ == Seq::new(
            old(slice)@.len(),
            |k: int| ring_contents(*rb)[ring_pos(start + k, ring_contents(*rb).len())],
        ),
{
    rb.read_into(slice, start);
}

/// What `write_latest(slice, start)` leaves in a ring that held `before`: the
/// last `len` items of `slice` stand at their logical positions `start + k`,
/// and a cell that no item of `slice` reaches keeps its value.
pub open spec fn ring_written(before: Seq<u64>, after: Seq<u64>, slice: Seq<u64>, start: int) -> bool {
    let len = before.len();
    &&& after.len() == len
    &&& forall|k: int|
        #![trigger slice[k]]
        0 <= k < slice.len() && slice.len() - len <= k ==> after[ring_pos(start + k, len)]
            == slice[k]
    &&& forall|p: int|
        #![trigger after[p]]
        0 <= p < len && ring_pos(p - start, len) >= slice.len() ==> after[p] == before[p]
}

/// Calls `BitMaskRB::write_latest`: copies `slice` to the logical positions
/// `start ..`, where a later item wins over an earlier one at the same cell.
/// The crate adds `start` and the slice's length as `isize`, which `requires`
/// keeps from overflowing.
#[verifier::external_body]
pub(crate) fn ring_write_latest(rb: &mut BitMaskRB<u64>, slice: &[u64], start: isize)
    requires
        is_pow2(ring_contents(*old(rb)).len()),
        slice@.len() <= isize::MAX,
        start + slice@.len() <= isize::MAX,
    ensures
        ring_written(ring_contents(*old(rb)), ring_contents(*final(rb)), slice@, start as int),
{
    rb.write_latest(slice, start);
}

} // verus!
