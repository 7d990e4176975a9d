//! The pair of ring buffers that carry samples from the host to the engine
//! (input) and back (output), each with a write cursor and a read cursor.
//!
//! Cursors are logical positions that only grow; a position `p` names the cell
//! `p` modulo the buffer's length.

use vstd::prelude::*;
use bit_mask_ring_buf::BitMaskRB;
use crate::ring::{
    is_next_pow2, is_pow2, lemma_pow2_double, lemma_pow2_unique, ring_contents, ring_get, ring_len,
    ring_new, ring_pos, ring_read_into, ring_set, ring_write_latest, ring_written,
};

verus! {

/// The largest capacity a `ProcessorBuffers` can be asked for: a ring of
/// `u64` cells longer than this cannot be allocated.
pub const MAX_CAPACITY: usize = usize::MAX / 16;

/// The abstract state of a `ProcessorBuffers`.
pub struct BuffersView {
    pub input: Seq<u64>,
    pub output: Seq<u64>,
    pub in_write: int,
    pub in_read: int,
    pub out_write: int,
    pub out_read: int,
    pub init_value: u64,
}

impl BuffersView {
    /// Both rings have the same power-of-two length, at least 2, and the
    /// cursors are `isize` values.
    pub open spec fn wf(self) -> bool {
        &&& self.input.len() == self.output.len()
        &&& is_pow2(self.input.len())
        &&& 2 <= self.input.len() <= 2 * MAX_CAPACITY
        &&& isize::MIN <= self.in_write <= isize::MAX
        &&& isize::MIN <= self.in_read <= isize::MAX
        &&& isize::MIN <= self.out_write <= isize::MAX
        &&& isize::MIN <= self.out_read <= isize::MAX
    }

    /// A pair of rings of `len` cells holding `init`, all cursors at 0.
    pub open spec fn fresh(len: nat, init: u64) -> BuffersView {
        BuffersView {
            input: Seq::new(len, |i: int| init),
            output: Seq::new(len, |i: int| init),
            in_write: 0,
            in_read: 0,
            out_write: 0,
            out_read: 0,
            init_value: init,
        }
    }

    pub open spec fn capacity(self) -> nat {
        self.input.len()
    }

    /// The input sample at logical position `p`.
    pub open spec fn input_at(self, p: int) -> u64 {
        self.input[ring_pos(p, self.input.len())]
    }

    /// The output sample at logical position `p`.
    pub open spec fn output_at(self, p: int) -> u64 {
        self.output[ring_pos(p, self.output.len())]
    }

    /// Number of input samples written and not yet read.
    pub open spec fn input_size(self) -> int {
        self.in_write - self.in_read
    }

    /// Number of output samples written and not yet read.
    pub open spec fn output_size(self) -> int {
        self.out_write - self.out_read
    }

    /// The state after storing `sample` at input position `p`.
    pub open spec fn with_input(self, p: int, sample: u64) -> BuffersView {
        BuffersView {
            input: self.input.update(ring_pos(p, self.input.len()), sample),
            ..self
        }
    }

    /// The state after moving the input write cursor by `d`.
    pub open spec fn advance_in_write(self, d: int) -> BuffersView {
        BuffersView { in_write: self.in_write + d, ..self }
    }

    /// The state after moving the input read cursor by `d`.
    pub open spec fn advance_in_read(self, d: int) -> BuffersView {
        BuffersView { in_read: self.in_read + d, ..self }
    }

    /// The state after moving the output write cursor by `d`.
    pub open spec fn advance_out_write(self, d: int) -> BuffersView {
        BuffersView { out_write: self.out_write + d, ..self }
    }

    /// The state after moving the output read cursor by `d`.
    pub open spec fn advance_out_read(self, d: int) -> BuffersView {
        BuffersView { out_read: self.out_read + d, ..self }
    }

    /// The `n` input samples from the read cursor on.
    pub open spec fn input_from_read(self, n: nat) -> Seq<u64> {
        Seq::new(n, |k: int| self.input_at(self.in_read + k))
    }

    /// `after` is `self` once `slice` has been written to the output ring at
    /// the output write cursor, and that cursor moved past it.
    pub open spec fn output_written(self, after: BuffersView, slice: Seq<u64>) -> bool {
        &&& ring_written(self.output, after.output, slice, self.out_write)
        &&& after.out_write == self.out_write + slice.len()
        &&& after.input == self.input
        &&& after.in_write == self.in_write
        &&& after.in_read == self.in_read
        &&& after.out_read == self.out_read
        &&& after.init_value == self.init_value
    }

    /// The state after each `(offset, sample)` of `ws`, in order, has been
    /// stored at input position `in_write + offset`; a later write to the same
    /// cell wins. The write cursor stays in place.
    pub open spec fn with_input_writes(self, ws: Seq<(int, u64)>) -> BuffersView
        decreases ws.len(),
    {
        if ws.len() == 0 {
            self
        } else {
            self.with_input_writes(ws.drop_last()).with_input(
                self.in_write + ws.last().0,
                ws.last().1,
            )
        }
    }

    /// The state after the samples of `xs` have been stored one by one at the
    /// input positions `in_write + k`, the write cursor left in place.
    pub open spec fn with_inputs(self, xs: Seq<u64>) -> BuffersView
        decreases xs.len(),
    {
        if xs.len() == 0 {
            self
        } else {
            self.with_inputs(xs.drop_last()).with_input(
                self.in_write + xs.len() - 1,
                xs.last(),
            )
        }
    }
}

/// Input and output sample rings with their cursors.
pub struct ProcessorBuffers {
    input: BitMaskRB<u64>,
    output: BitMaskRB<u64>,
    in_write: isize,
    in_read: isize,
    out_write: isize,
    out_read: isize,
    init_value: u64,
}

impl View for ProcessorBuffers {
    type V = BuffersView;

    closed spec fn view(&self) -> BuffersView {
        BuffersView {
            input: ring_contents(self.input),
            output: ring_contents(self.output),
            in_write: self.in_write as int,
            in_read: self.in_read as int,
            out_write: self.out_write as int,
            out_read: self.out_read as int,
            init_value: self.init_value,
        }
    }
}

/// The smallest power of two that is at least `n` (1 for 0).
pub fn next_power_of_two(n: usize) -> (p: usize)
    requires
        n <= usize::MAX / 2 + 1,
    ensures
        is_next_pow2(n as nat, p as nat),
{
    let mut p: usize = 1;
    while p < n
        invariant
            is_pow2(p as nat),
            1 <= p,
            p == 1 || p / 2 < n,
            n <= usize::MAX / 2 + 1,
        decreases usize::MAX - p,
    {
        proof {
            lemma_pow2_double(p as nat);
        }
        p = p * 2;
    }
    p
}

impl ProcessorBuffers {
    /// Two rings of `capacity` rounded up to a power of two (at least 2),
    /// every cell holding `value`, all cursors at 0.
    pub fn new(capacity: usize, value: u64) -> (b: Self)
        requires
            capacity <= MAX_CAPACITY,
        ensures
            b@.wf(),
            is_next_pow2(if capacity < 2 { 2 } else { capacity as nat }, b@.capacity()),
            b@ == BuffersView::fresh(b@.capacity(), value),
    {
        let cap = next_power_of_two(capacity);
        let input = ring_new(cap, value);
        let output = ring_new(cap, value);
        let b = ProcessorBuffers {
            input,
            output,
            in_write: 0,
            in_read: 0,
            out_write: 0,
            out_read: 0,
            init_value: value,
        };
        proof {
            let len = ring_contents(b.input).len();
            let olen = ring_contents(b.output).len();
            let m: nat = if cap < 2 { 2 } else { cap as nat };
            if cap >= 2 {
                lemma_pow2_unique(cap as nat, len);
                lemma_pow2_unique(cap as nat, olen);
            } else {
                lemma_pow2_unique(2, len);
                lemma_pow2_unique(2, olen);
            }
            assert(ring_contents(b.output) =~= Seq::new(len, |i: int| value));
            assert(ring_contents(b.input) =~= Seq::new(len, |i: int| value));
            assert(b@ == BuffersView::fresh(len, value));
        }
        b
    }

    /// Input samples written and not yet read.
    pub fn input_size(&self) -> (n: usize)
        requires
            isize::MIN <= self@.input_size() <= isize::MAX,
        ensures
            n == self@.input_size() as usize,
    {
        (self.in_write - self.in_read) as usize
    }

    /// Output samples written and not yet read.
    pub fn output_size(&self) -> (n: usize)
        requires
            isize::MIN <= self@.output_size() <= isize::MAX,
        ensures
            n == self@.output_size() as usize,
    {
        (self.out_write - self.out_read) as usize
    }

    /// The cursors: input write, input read, output write, output read.
    pub fn cursors(&self) -> (c: (isize, isize, isize, isize))
        ensures
            c.0 == self@.in_write,
            c.1 == self@.in_read,
            c.2 == self@.out_write,
            c.3 == self@.out_read,
    {
        (self.in_write, self.in_read, self.out_write, self.out_read)
    }

    /// Stores `sample` at `index` past the input write cursor; the cursor stays.
    pub fn write_input(&mut self, sample: u64, index: usize)
        requires
            old(self)@.wf(),
            isize::MIN <= old(self)@.in_write + (index as isize) <= isize::MAX,
        ensures
            final(self)@ == old(self)@.with_input(old(self)@.in_write + (index as isize), sample),
    {
        ring_set(&mut self.input, self.in_write + (index as isize), sample);
    }

    /// Fills `slice` with the input samples from the read cursor on, and moves
    /// the read cursor past them.
    pub fn read_input_into(&mut self, slice: &mut [u64])
        requires
            old(self)@.wf(),
            isize::MIN <= old(self)@.in_read + (old(slice)@.len() as isize) <= isize::MAX,
        ensures
            final(slice)@ == old(self)@.input_from_read(old(slice)@.len()),
            final(slice)@.len() == old(slice)@.len(),
            forall|k: int|
                0 <= k < old(slice)@.len() ==> #[trigger] final(slice)@[k] == old(self)@.input_at(
                    old(self)@.in_read + k,
                ),
            final(self)@ == old(self)@.advance_in_read(old(slice)@.len() as isize as int),
    {
        ring_read_into(&self.input, slice, self.in_read);
        self.in_read = self.in_read + (slice.len() as isize);
    }

    /// Moves the input write cursor by `size`.
    pub fn advance_input_write_cursor(&mut self, size: usize)
        requires
            isize::MIN <= old(self)@.in_write + (size as isize) <= isize::MAX,
        ensures
            final(self)@ == old(self)@.advance_in_write(size as isize as int),
    {
        self.in_write = self.in_write + (size as isize);
    }

    /// The output sample at `index` past the output read cursor.
    pub fn read_output(&mut self, index: usize) -> (v: u64)
        requires
            old(self)@.wf(),
            isize::MIN <= old(self)@.out_read + (index as isize) <= isize::MAX,
        ensures
            final(self)@ == old(self)@,
            v == old(self)@.output_at(old(self)@.out_read + (index as isize)),
    {
        ring_get(&self.output, self.out_read + (index as isize))
    }

    /// Writes `slice` to the output ring at the output write cursor, and moves
    /// that cursor past it.
    pub fn write_output_latest(&mut self, slice: &[u64])
        requires
            old(self)@.wf(),
            slice@.len() <= isize::MAX,
            old(self)@.out_write + slice@.len() <= isize::MAX,
        ensures
            old(self)@.output_written(final(self)@, slice@),
    {
        ring_write_latest(&mut self.output, slice, self.out_write);
        self.out_write = self.out_write + (slice.len() as isize);
    }

    /// Moves the output read cursor by `size`.
    pub fn advance_output_read_cursor(&mut self, size: usize)
        requires
            isize::MIN <= old(self)@.out_read + (size as isize) <= isize::MAX,
        ensures
            final(self)@ == old(self)@.advance_out_read(size as isize as int),
    {
        self.out_read = self.out_read + (size as isize);
    }

    /// Moves the output write cursor by `size`.
    pub fn advance_output_write_cursor(&mut self, size: usize)
        requires
            isize::MIN <= old(self)@.out_write + (size as isize) <= isize::MAX,
        ensures
            final(self)@ == old(self)@.advance_out_write(size as isize as int),
    {
        self.out_write = self.out_write + (size as isize);
    }

    /// Sets every cell of both rings back to the initial value and all cursors
    /// to 0.
    pub fn reset(&mut self)
        requires
            old(self)@.wf(),
        ensures
            final(self)@.wf(),
            final(self)@ == BuffersView::fresh(old(self)@.capacity(), old(self)@.init_value),
    {
        let cap = ring_len(&self.input);
        let ghost len = cap as nat;
        let ghost init = self.init_value;
        let ghost in0 = ring_contents(self.input);
        let ghost out0 = ring_contents(self.output);
        for i in 0..cap
            invariant
                cap == len,
                len == ring_contents(self.input).len(),
                len == ring_contents(self.output).len(),
                is_pow2(len),
                2 <= len <= 2 * MAX_CAPACITY,
                init == self.init_value,
                forall|j: int|
                    0 <= j < len ==> #[trigger] ring_contents(self.input)[j] == (if j < i {
                        init
                    } else {
                        in0[j]
                    }),
                forall|j: int|
                    0 <= j < len ==> #[trigger] ring_contents(self.output)[j] == (if j < i {
                        init
                    } else {
                        out0[j]
                    }),
        {
            proof {
                assert(ring_pos(i as isize as int, len) == i as int) by {
                    vstd::arithmetic::div_mod::lemma_small_mod(i as nat, len);
                }
            }
            ring_set(&mut self.input, i as isize, self.init_value);
            ring_set(&mut self.output, i as isize, self.init_value);
        }
        self.in_write = 0;
        self.in_read = 0;
        self.out_write = 0;
        self.out_read = 0;
        proof {
            assert(ring_contents(self.input) =~= Seq::new(len, |i: int| init));
            assert(ring_contents(self.output) =~= Seq::new(len, |i: int| init));
            assert(self@ == BuffersView::fresh(len, init));
        }
    }
}

/// Two logical positions less than a ring's length apart name different cells.
pub proof fn lemma_ring_pos_distinct(a: int, b: int, len: nat)
    requires
        0 < b - a < len,
    ensures
        ring_pos(a, len) != ring_pos(b, len),
{
    let l = len as int;
    vstd::arithmetic::div_mod::lemma_fundamental_div_mod(a, l);
    vstd::arithmetic::div_mod::lemma_fundamental_div_mod(b, l);
    vstd::arithmetic::div_mod::lemma_mod_bound(a, l);
    vstd::arithmetic::div_mod::lemma_mod_bound(b, l);
    let qa = a / l;
    let qb = b / l;
    if a % l == b % l {
        assert(false) by (nonlinear_arith)
            requires
                a == l * qa + a % l,
                b == l * qb + b % l,
                a % l == b % l,
                0 < b - a < l,
        ;
    }
}

/// Storing samples one by one at consecutive input positions changes neither
/// the cursors nor the output, and keeps the rings well formed.
pub proof fn lemma_with_inputs_frame(v: BuffersView, xs: Seq<u64>)
    requires
        v.wf(),
    ensures
        v.with_inputs(xs).wf(),
        v.with_inputs(xs).input.len() == v.input.len(),
        v.with_inputs(xs).output == v.output,
        v.with_inputs(xs).in_write == v.in_write,
        v.with_inputs(xs).in_read == v.in_read,
        v.with_inputs(xs).out_write == v.out_write,
        v.with_inputs(xs).out_read == v.out_read,
        v.with_inputs(xs).init_value == v.init_value,
    decreases xs.len(),
{
    if xs.len() > 0 {
        lemma_with_inputs_frame(v, xs.drop_last());
    }
}

/// After samples are stored one by one at consecutive input positions, each
/// position holds its sample, as long as they do not wrap around the ring.
pub proof fn lemma_with_inputs_at(v: BuffersView, xs: Seq<u64>)
    requires
        v.wf(),
        xs.len() <= v.capacity(),
    ensures
        forall|k: int| 0 <= k < xs.len() ==> #[trigger] v.with_inputs(xs).input_at(v.in_write + k) == xs[k],
    decreases xs.len(),
{
    if xs.len() > 0 {
        let ys = xs.drop_last();
        lemma_with_inputs_at(v, ys);
        lemma_with_inputs_frame(v, ys);
        let n = xs.len() as int;
        assert forall|k: int| 0 <= k < xs.len() implies #[trigger] v.with_inputs(xs).input_at(
            v.in_write + k,
        ) == xs[k] by {
            if k < n - 1 {
                lemma_ring_pos_distinct(v.in_write + k, v.in_write + n - 1, v.capacity());
                assert(v.with_inputs(ys).input_at(v.in_write + k) == ys[k]);
            }
        }
    }
}

/// Input is first in, first out: samples stored at consecutive positions from
/// the write cursor, once the write cursor has moved past them, are read back
/// from the read cursor in the order they were stored, as long as no more were
/// stored than the ring holds.
pub proof fn lemma_input_fifo(v: BuffersView, xs: Seq<u64>)
    requires
        v.wf(),
        xs.len() <= v.capacity(),
        v.in_read == v.in_write,
    ensures
        v.with_inputs(xs).advance_in_write(xs.len() as int).input_size() == xs.len(),
        v.with_inputs(xs).advance_in_write(xs.len() as int).input_from_read(xs.len()) == xs,
{
    lemma_with_inputs_at(v, xs);
    lemma_with_inputs_frame(v, xs);
    let w = v.with_inputs(xs).advance_in_write(xs.len() as int);
    assert(w.input_from_read(xs.len()) =~= xs) by {
        assert forall|k: int| 0 <= k < xs.len() implies #[trigger] w.input_from_read(xs.len())[k]
            == xs[k] by {
            assert(v.with_inputs(xs).input_at(v.in_write + k) == xs[k]);
        }
    }
}

/// Reads take the oldest samples first, however many are pending: once `xs`
/// has been queued at the read cursor and the write cursor moved past it, a
/// read of `n` samples gives the first `n` of `xs`, and a read of `m` more
/// after it gives the next `m`.
pub proof fn lemma_input_fifo_partial(v: BuffersView, xs: Seq<u64>, n: nat, m: nat)
    requires
        v.wf(),
        xs.len() <= v.capacity(),
        v.in_read == v.in_write,
        n + m <= xs.len(),
    ensures
        v.with_inputs(xs).advance_in_write(xs.len() as int).input_from_read(n) == xs.take(
            n as int,
        ),
        v.with_inputs(xs).advance_in_write(xs.len() as int).advance_in_read(n as int).input_from_read(
            m,
        ) == xs.subrange(n as int, (n + m) as int),
{
    lemma_with_inputs_at(v, xs);
    lemma_with_inputs_frame(v, xs);
    let w = v.with_inputs(xs).advance_in_write(xs.len() as int);
    assert(w.input_from_read(n) =~= xs.take(n as int)) by {
        assert forall|k: int| 0 <= k < n implies #[trigger] w.input_from_read(n)[k] == xs[k] by {
            assert(v.with_inputs(xs).input_at(v.in_write + k) == xs[k]);
        }
    }
    let r = w.advance_in_read(n as int);
    assert(r.input_from_read(m) =~= xs.subrange(n as int, (n + m) as int)) by {
        assert forall|k: int| 0 <= k < m implies #[trigger] r.input_from_read(m)[k] == xs[n + k] by {
            assert(v.with_inputs(xs).input_at(v.in_write + (n + k)) == xs[n + k]);
        }
    }
}

/// Output is read back as written, behind what already waits: when a block
/// is written at the output write cursor and the samples waiting plus the
/// block fit in the ring, the waiting samples are still read first, as they
/// were, and the block follows them in order.
pub proof fn lemma_output_read_back(v: BuffersView, w: BuffersView, slice: Seq<u64>)
    requires
        v.wf(),
        v.output_written(w, slice),
        v.out_write + slice.len() <= isize::MAX,
        0 <= v.output_size(),
        v.output_size() + slice.len() <= v.capacity(),
    ensures
        w.wf(),
        w.output_size() == v.output_size() + slice.len(),
        forall|k: int|
            0 <= k < v.output_size() ==> #[trigger] w.output_at(w.out_read + k) == v.output_at(
                v.out_read + k,
            ),
        forall|k: int|
            0 <= k < slice.len() ==> #[trigger] w.output_at(w.out_read + v.output_size() + k)
                == slice[k],
{
    let len = v.capacity() as int;
    let s = v.output_size();
    assert forall|k: int| 0 <= k < slice.len() implies #[trigger] w.output_at(
        w.out_read + v.output_size() + k,
    ) == slice[k] by {
        assert(w.out_read + s + k == v.out_write + k);
        assert(slice[k] == slice[k]);
    }
    assert forall|k: int| 0 <= k < v.output_size() implies #[trigger] w.output_at(w.out_read + k)
        == v.output_at(v.out_read + k) by {
        let q = v.out_read + k;
        let p = ring_pos(q, v.capacity());
        vstd::arithmetic::div_mod::lemma_fundamental_div_mod(q, len);
        vstd::arithmetic::div_mod::lemma_mod_bound(q, len);
        let d = q / len;
        assert(p - v.out_write == len * (-d - 1) + (len + k - s)) by (nonlinear_arith)
            requires
                q == len * d + p,
                q == v.out_read + k,
                v.out_write == v.out_read + s,
        ;
        vstd::arithmetic::div_mod::lemma_mod_multiples_vanish(-d - 1, len + k - s, len);
        vstd::arithmetic::div_mod::lemma_small_mod((len + k - s) as nat, len as nat);
        assert(ring_pos(p - v.out_write, v.capacity()) == len + k - s);
        assert(w.output[p] == v.output[p]);
    }
}

/// Moving a cursor changes the matching count of samples by as much: write
/// cursors add to it, read cursors take from it.
pub proof fn lemma_cursor_sizes(v: BuffersView, d: int)
    ensures
        v.advance_in_write(d).input_size() == v.input_size() + d,
        v.advance_in_read(d).input_size() == v.input_size() - d,
        v.advance_out_write(d).output_size() == v.output_size() + d,
        v.advance_out_read(d).output_size() == v.output_size() - d,
        v.advance_in_write(d).output_size() == v.output_size(),
        v.advance_out_write(d).input_size() == v.input_size(),
{
}

/// Storing a list of writes changes neither the cursors nor the output, and
/// keeps the rings well formed.
pub proof fn lemma_input_writes_frame(v: BuffersView, ws: Seq<(int, u64)>)
    requires
        v.wf(),
    ensures
        v.with_input_writes(ws).wf(),
        v.with_input_writes(ws).input.len() == v.input.len(),
        v.with_input_writes(ws).output == v.output,
        v.with_input_writes(ws).in_write == v.in_write,
        v.with_input_writes(ws).in_read == v.in_read,
        v.with_input_writes(ws).out_write == v.out_write,
        v.with_input_writes(ws).out_read == v.out_read,
        v.with_input_writes(ws).init_value == v.init_value,
    decreases ws.len(),
{
    if ws.len() > 0 {
        lemma_input_writes_frame(v, ws.drop_last());
    }
}

/// A write leaves the input at a position it does not reach unchanged.
pub proof fn lemma_with_input_other(v: BuffersView, p: int, q: int, sample: u64)
    requires
        v.wf(),
        ring_pos(p, v.input.len()) != ring_pos(q, v.input.len()),
    ensures
        v.with_input(p, sample).input_at(q) == v.input_at(q),
        v.with_input(p, sample).input_at(p) == sample,
{
    lemma_with_input_same(v, p, sample);
    vstd::arithmetic::div_mod::lemma_mod_bound(q, v.input.len() as int);
}

/// A write is read back at its own position.
pub proof fn lemma_with_input_same(v: BuffersView, p: int, sample: u64)
    requires
        v.wf(),
    ensures
        v.with_input(p, sample).input_at(p) == sample,
{
    vstd::arithmetic::div_mod::lemma_mod_bound(p, v.input.len() as int);
}

/// Writes to consecutive offsets `0, 1, 2, ..` that fit in the ring all stay
/// in place: offset `k` holds the `k`-th sample written.
pub proof fn lemma_consecutive_writes(v: BuffersView, ws: Seq<(int, u64)>)
    requires
        v.wf(),
        ws.len() <= v.capacity(),
        forall|k: int| 0 <= k < ws.len() ==> (#[trigger] ws[k]).0 == k,
    ensures
        forall|k: int|
            0 <= k < ws.len() ==> #[trigger] v.with_input_writes(ws).input_at(v.in_write + k)
                == ws[k].1,
    decreases ws.len(),
{
    if ws.len() > 0 {
        let a = ws.drop_last();
        let n = ws.len() as int;
        assert forall|k: int| 0 <= k < a.len() implies (#[trigger] a[k]).0 == k by {
            assert(a[k] == ws[k]);
        }
        lemma_consecutive_writes(v, a);
        lemma_input_writes_frame(v, a);
        let u = v.with_input_writes(a);
        assert(ws.last().0 == n - 1);
        assert forall|k: int| 0 <= k < ws.len() implies #[trigger] v.with_input_writes(ws).input_at(
            v.in_write + k,
        ) == ws[k].1 by {
            if k < n - 1 {
                lemma_ring_pos_distinct(v.in_write + k, v.in_write + n - 1, v.capacity());
                lemma_with_input_other(u, v.in_write + n - 1, v.in_write + k, ws.last().1);
                assert(a[k] == ws[k]);
            } else {
                lemma_with_input_same(u, v.in_write + n - 1, ws.last().1);
            }
        }
    }
}

/// No operation changes a pair of rings' capacity or initial value.
pub proof fn lemma_ops_keep_shape(
    v: BuffersView,
    p: int,
    sample: u64,
    d: int,
    w: BuffersView,
    slice: Seq<u64>,
)
    requires
        v.wf(),
    ensures
        v.with_input(p, sample).capacity() == v.capacity(),
        v.with_input(p, sample).init_value == v.init_value,
        v.advance_in_write(d).capacity() == v.capacity(),
        v.advance_in_write(d).init_value == v.init_value,
        v.advance_in_read(d).capacity() == v.capacity(),
        v.advance_in_read(d).init_value == v.init_value,
        v.advance_out_write(d).capacity() == v.capacity(),
        v.advance_out_write(d).init_value == v.init_value,
        v.advance_out_read(d).capacity() == v.capacity(),
        v.advance_out_read(d).init_value == v.init_value,
        v.output_written(w, slice) ==> w.capacity() == v.capacity() && w.init_value
            == v.init_value,
{
    vstd::arithmetic::div_mod::lemma_mod_bound(p, v.input.len() as int);
}

/// A reset pair of rings is a fresh one: whatever was written, read or
/// advanced since `new(c, init)` made `made`, resetting gives back exactly
/// what `new` gave, as operations keep the capacity and initial value.
pub proof fn lemma_reset_matches_new(made: BuffersView, v: BuffersView)
    requires
        made == BuffersView::fresh(made.capacity(), made.init_value),
        v.capacity() == made.capacity(),
        v.init_value == made.init_value,
    ensures
        BuffersView::fresh(v.capacity(), v.init_value) == made,
{
}

/// Some write of `ws` goes to offset `k`.
pub open spec fn writes_to(ws: Seq<(int, u64)>, k: int) -> bool {
    exists|j: int| 0 <= j < ws.len() && (#[trigger] ws[j]).0 == k
}

/// Input written in any order reads back in order: when every offset below
/// `xs.len()` is written with its sample, in whatever order and however
/// often, and the write cursor then moves past them, the read cursor that
/// stood at the write cursor reads `xs`.
pub proof fn lemma_input_any_order(v: BuffersView, xs: Seq<u64>, ws: Seq<(int, u64)>)
    requires
        v.wf(),
        xs.len() <= v.capacity(),
        v.in_read == v.in_write,
        forall|j: int|
            0 <= j < ws.len() ==> 0 <= (#[trigger] ws[j]).0 < xs.len() && ws[j].1 == xs[ws[j].0],
        forall|k: int| 0 <= k < xs.len() ==> #[trigger] writes_to(ws, k),
    ensures
        v.with_input_writes(ws).advance_in_write(xs.len() as int).input_size() == xs.len(),
        v.with_input_writes(ws).advance_in_write(xs.len() as int).input_from_read(xs.len()) == xs,
{
    lemma_input_writes_frame(v, ws);
    lemma_writes_of_samples(v, xs, ws);
    let w = v.with_input_writes(ws).advance_in_write(xs.len() as int);
    assert(w.input_from_read(xs.len()) =~= xs) by {
        assert forall|k: int| 0 <= k < xs.len() implies #[trigger] w.input_from_read(xs.len())[k]
            == xs[k] by {
            assert(writes_to(ws, k));
            let j = choose|j: int| 0 <= j < ws.len() && (#[trigger] ws[j]).0 == k;
            assert(v.with_input_writes(ws).input_at(v.in_write + ws[j].0) == xs[ws[j].0]);
        }
    }
}

/// Writes that each carry the sample of their offset leave every offset
/// they reach holding its sample.
proof fn lemma_writes_of_samples(v: BuffersView, xs: Seq<u64>, ws: Seq<(int, u64)>)
    requires
        v.wf(),
        xs.len() <= v.capacity(),
        forall|j: int|
            0 <= j < ws.len() ==> 0 <= (#[trigger] ws[j]).0 < xs.len() && ws[j].1 == xs[ws[j].0],
    ensures
        forall|j: int|
            0 <= j < ws.len() ==> #[trigger] v.with_input_writes(ws).input_at(v.in_write + ws[j].0)
                == xs[ws[j].0],
    decreases ws.len(),
{
    if ws.len() > 0 {
        let a = ws.drop_last();
        let n = ws.len() as int;
        assert forall|j: int| 0 <= j < a.len() implies 0 <= (#[trigger] a[j]).0 < xs.len() && a[j].1
            == xs[a[j].0] by {
            assert(a[j] == ws[j]);
        }
        lemma_writes_of_samples(v, xs, a);
        lemma_input_writes_frame(v, a);
        let u = v.with_input_writes(a);
        let last = ws[n - 1];
        assert forall|j: int| 0 <= j < ws.len() implies #[trigger] v.with_input_writes(ws).input_at(
            v.in_write + ws[j].0,
        ) == xs[ws[j].0] by {
            let o = ws[j].0;
            if o == last.0 {
                lemma_with_input_same(u, v.in_write + last.0, last.1);
            } else {
                assert(j < n - 1);
                assert(a[j] == ws[j]);
                if o < last.0 {
                    lemma_ring_pos_distinct(v.in_write + o, v.in_write + last.0, v.capacity());
                } else {
                    lemma_ring_pos_distinct(v.in_write + last.0, v.in_write + o, v.capacity());
                }
                lemma_with_input_other(u, v.in_write + last.0, v.in_write + o, last.1);
            }
        }
    }
}

} // verus!
