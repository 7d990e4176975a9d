//! The decisions of the audio processor: how a host buffer is cut into
//! blocks around timed events, which routing a block takes, and how samples
//! move between the host's channels and the interleaved rings.
//!
//! Samples are carried as `u64` words (bit patterns); scaling them and talking
//! to the Csound engine is left to the caller.

use vstd::prelude::*;
use crate::buffer::{BuffersView, ProcessorBuffers};
use crate::ring::is_next_pow2;
use crate::csd_info::{parse_csd_settings, settings_of_events, CsdSettings};
use crate::xml::csd_events;

verus! {

// ---------------------------------------------------------------------------
// Cutting a buffer into blocks
// ---------------------------------------------------------------------------

/// What the processor does next while it walks through a host buffer.
#[derive(Debug, Clone, Copy, PartialEq, Eq)]
pub enum PlanStep {
    /// Handle the pending event and fetch the next one.
    HandleEvent,
    /// Process the samples `start .. end`.
    ProcessBlock { start: usize, end: usize },
    /// The buffer is done.
    Finished,
}

/// The step taken at block start `bs` of a buffer of `n` samples, when the
/// pending event (if any) is due at `ev`: an event due at or before the block
/// start is handled first; otherwise the block runs up to the pending event,
/// or to the end of the buffer when there is none before it.
pub open spec fn next_step(bs: usize, n: usize, ev: Option<usize>) -> PlanStep {
    if bs >= n {
        PlanStep::Finished
    } else {
        match ev {
            Some(t) => if t <= bs {
                PlanStep::HandleEvent
            } else if t < n {
                PlanStep::ProcessBlock { start: bs, end: t }
            } else {
                PlanStep::ProcessBlock { start: bs, end: n }
            },
            None => PlanStep::ProcessBlock { start: bs, end: n },
        }
    }
}

/// The block start after a step.
pub open spec fn start_after(bs: usize, step: PlanStep) -> usize {
    match step {
        PlanStep::ProcessBlock { start, end } => end,
        _ => bs,
    }
}

/// The pending event of the due times `ts`.
pub open spec fn pending(ts: Seq<usize>) -> Option<usize> {
    if ts.len() > 0 {
        Some(ts[0])
    } else {
        None
    }
}

/// The steps taken from block start `bs` in a buffer of `n` samples, the
/// pending events being due at `ts`, in the order they come.
pub open spec fn plan_run(bs: usize, n: usize, ts: Seq<usize>) -> Seq<PlanStep>
    decreases n - bs, ts.len(),
{
    if bs >= n {
        seq![PlanStep::Finished]
    } else {
        let step = next_step(bs, n, pending(ts));
        if step is HandleEvent {
            seq![step] + plan_run(bs, n, ts.drop_first())
        } else {
            seq![step] + plan_run(start_after(bs, step), n, ts)
        }
    }
}

/// Walks through a host buffer of `num_samples` samples.
pub struct BlockPlanner {
    pub block_start: usize,
    pub num_samples: usize,
}

impl BlockPlanner {
    /// A walk that starts at the first sample.
    pub fn new(num_samples: usize) -> (p: Self)
        ensures
            p.block_start == 0,
            p.num_samples == num_samples,
    {
        BlockPlanner { block_start: 0, num_samples }
    }

    /// The next step, given when the pending event is due (if there is one);
    /// the block start moves past a processed block.
    pub fn step(&mut self, next_event_timing: Option<usize>) -> (step: PlanStep)
        ensures
            step == next_step(old(self).block_start, old(self).num_samples, next_event_timing),
            final(self).block_start == start_after(old(self).block_start, step),
            final(self).num_samples == old(self).num_samples,
    {
        if self.block_start >= self.num_samples {
            return PlanStep::Finished;
        }
        let block_end = match next_event_timing {
            Some(t) => {
                if t <= self.block_start {
                    return PlanStep::HandleEvent;
                }
                if t < self.num_samples {
                    t
                } else {
                    self.num_samples
                }
            },
            None => self.num_samples,
        };
        let start = self.block_start;
        self.block_start = block_end;
        PlanStep::ProcessBlock { start, end: block_end }
    }
}

/// All steps of the walk through a buffer of `num_samples` samples whose
/// events are due at `timings`, in the order they come.
pub fn plan_blocks(num_samples: usize, timings: &Vec<usize>) -> (steps: Vec<PlanStep>)
    ensures
        steps@ == plan_run(0, num_samples, timings@),
{
    let mut planner = BlockPlanner::new(num_samples);
    let mut steps: Vec<PlanStep> = Vec::new();
    let mut i: usize = 0;
    assert(timings@.skip(0) =~= timings@);
    loop
        invariant
            planner.num_samples == num_samples,
            i <= timings.len(),
            plan_run(0, num_samples, timings@) == steps@ + plan_run(
                planner.block_start,
                num_samples,
                timings@.skip(i as int),
            ),
        decreases num_samples - planner.block_start, timings.len() - i,
    {
        let ev = if i < timings.len() {
            Some(timings[i])
        } else {
            None
        };
        let ghost bs = planner.block_start;
        let ghost rest = timings@.skip(i as int);
        assert(pending(rest) == ev);
        let step = planner.step(ev);
        if let PlanStep::Finished = step {
            assert(plan_run(bs, num_samples, rest) == seq![PlanStep::Finished]);
            assert(steps@.push(step) =~= steps@ + seq![PlanStep::Finished]);
            steps.push(step);
            return steps;
        }
        let ghost tail = if step is HandleEvent {
            rest.drop_first()
        } else {
            rest
        };
        assert(plan_run(bs, num_samples, rest) == seq![step] + plan_run(
            planner.block_start,
            num_samples,
            tail,
        ));
        assert(steps@ + (seq![step] + plan_run(planner.block_start, num_samples, tail)) =~= steps@.push(
            step,
        ) + plan_run(planner.block_start, num_samples, tail));
        steps.push(step);
        if let PlanStep::HandleEvent = step {
            assert(rest.drop_first() =~= timings@.skip(i + 1));
            i += 1;
        }
    }
}

/// The blocks `(start, end)` processed by the steps `steps`, in order.
pub open spec fn blocks_of(steps: Seq<PlanStep>) -> Seq<(usize, usize)>
    decreases steps.len(),
{
    if steps.len() == 0 {
        seq![]
    } else {
        match steps[0] {
            PlanStep::ProcessBlock { start, end } => seq![(start, end)] + blocks_of(
                steps.drop_first(),
            ),
            _ => blocks_of(steps.drop_first()),
        }
    }
}

/// The number of events handled by the steps `steps`.
pub open spec fn handled_count(steps: Seq<PlanStep>) -> nat
    decreases steps.len(),
{
    if steps.len() == 0 {
        0
    } else {
        (if steps[0] is HandleEvent {
            1nat
        } else {
            0nat
        }) + handled_count(steps.drop_first())
    }
}

/// The blocks `bl` cover `a .. b` without gap or overlap, in order, and none
/// is empty.
pub open spec fn tiles(bl: Seq<(usize, usize)>, a: int, b: int) -> bool {
    &&& (bl.len() == 0 ==> a == b)
    &&& (bl.len() > 0 ==> bl[0].0 == a && bl[bl.len() - 1].1 == b)
    &&& forall|i: int| 0 <= i < bl.len() ==> a <= (#[trigger] bl[i]).0 < bl[i].1 <= b
    &&& forall|i: int| 0 <= i < bl.len() - 1 ==> (#[trigger] bl[i]).1 == bl[i + 1].0
}

/// Where a block that starts before the due times `ts` of the pending events
/// ends: at the first of them when it is due before `n`, else at `n`.
pub open spec fn block_end_for(ts: Seq<usize>, n: usize) -> usize {
    if ts.len() > 0 && ts[0] < n {
        ts[0]
    } else {
        n
    }
}

/// The walk through a buffer processes it whole: its blocks cover the samples
/// from the block start to the end without gap or overlap, in order, none of
/// them empty; and the walk ends with its one `Finished` step.
pub proof fn lemma_plan_tiles(bs: usize, n: usize, ts: Seq<usize>)
    requires
        bs <= n,
    ensures
        tiles(blocks_of(plan_run(bs, n, ts)), bs as int, n as int),
        plan_run(bs, n, ts).len() > 0,
        plan_run(bs, n, ts).last() == PlanStep::Finished,
        forall|j: int|
            0 <= j < plan_run(bs, n, ts).len() - 1 ==> !(#[trigger] plan_run(bs, n, ts)[j] is Finished),
    decreases n - bs, ts.len(),
{
    let run = plan_run(bs, n, ts);
    if bs >= n {
        assert(run.drop_first() =~= Seq::<PlanStep>::empty());
        assert(blocks_of(run.drop_first()) =~= Seq::<(usize, usize)>::empty());
    } else {
        let step = next_step(bs, n, pending(ts));
        if step is HandleEvent {
            let r = plan_run(bs, n, ts.drop_first());
            lemma_plan_tiles(bs, n, ts.drop_first());
            assert(run.drop_first() =~= r);
            assert(blocks_of(run) == blocks_of(r));
            assert forall|j: int| 0 <= j < run.len() - 1 implies !(#[trigger] run[j] is Finished) by {
                if j > 0 {
                    assert(run[j] == r[j - 1]);
                }
            }
        } else {
            let e = start_after(bs, step);
            let r = plan_run(e, n, ts);
            lemma_plan_tiles(e, n, ts);
            assert(run.drop_first() =~= r);
            let rb = blocks_of(r);
            assert(blocks_of(run) == seq![(bs, e)] + rb);
            assert forall|j: int| 0 <= j < run.len() - 1 implies !(#[trigger] run[j] is Finished) by {
                if j > 0 {
                    assert(run[j] == r[j - 1]);
                }
            }
            let bl = blocks_of(run);
            assert(bl[0] == (bs, e));
            if rb.len() > 0 {
                assert(bl[bl.len() - 1] == rb[rb.len() - 1]);
            }
            assert forall|i: int| 0 <= i < bl.len() - 1 implies (#[trigger] bl[i]).1 == bl[i + 1].0 by {
                if i > 0 {
                    assert(bl[i] == rb[i - 1]);
                    assert(bl[i + 1] == rb[i]);
                }
            }
            assert forall|i: int| 0 <= i < bl.len() implies bs <= (#[trigger] bl[i]).0 < bl[i].1 <= n by {
                if i > 0 {
                    assert(bl[i] == rb[i - 1]);
                }
            }
        }
    }
}

/// Events and blocks keep time: when the walk processes a block, every event
/// it has handled so far was due at or before the block's start, and the
/// block ends where the next pending event is due, or at the end of the
/// buffer when that event is due later or there is none.
pub proof fn lemma_plan_events(bs: usize, n: usize, ts: Seq<usize>, j: int)
    requires
        bs <= n,
        0 <= j < plan_run(bs, n, ts).len(),
        plan_run(bs, n, ts)[j] is ProcessBlock,
    ensures
        ({
            let run = plan_run(bs, n, ts);
            let h = handled_count(run.take(j));
            let s = run[j]->start;
            let e = run[j]->end;
            &&& bs <= s
            &&& h <= ts.len()
            &&& forall|i: int| 0 <= i < h ==> #[trigger] ts[i] <= s
            &&& e == block_end_for(ts.skip(h as int), n)
        }),
    decreases n - bs, ts.len(),
{
    let run = plan_run(bs, n, ts);
    let step = next_step(bs, n, pending(ts));
    if step is HandleEvent {
        let ts1 = ts.drop_first();
        let r = plan_run(bs, n, ts1);
        assert(run.drop_first() =~= r);
        assert(j > 0);
        lemma_plan_events(bs, n, ts1, j - 1);
        assert(run.take(j).drop_first() =~= r.take(j - 1));
        let h1 = handled_count(r.take(j - 1));
        assert(handled_count(run.take(j)) == 1 + h1);
        assert(ts.skip((1 + h1) as int) =~= ts1.skip(h1 as int));
        assert forall|i: int| 0 <= i < 1 + h1 implies #[trigger] ts[i] <= run[j]->start by {
            if i > 0 {
                assert(ts[i] == ts1[i - 1]);
            }
        }
    } else {
        let e = start_after(bs, step);
        let r = plan_run(e, n, ts);
        assert(run.drop_first() =~= r);
        if j > 0 {
            lemma_plan_events(e, n, ts, j - 1);
            assert(run.take(j).drop_first() =~= r.take(j - 1));
            assert(handled_count(run.take(j)) == handled_count(r.take(j - 1)));
        } else {
            assert(run.take(0) =~= Seq::<PlanStep>::empty());
            assert(ts.skip(0) =~= ts);
        }
    }
}

// ---------------------------------------------------------------------------
// Routing and moving samples
// ---------------------------------------------------------------------------

/// How a block is routed, by the number of input channels the orchestra asks
/// for.
#[derive(Debug, Clone, Copy, PartialEq, Eq)]
pub enum BatchPlan {
    /// No input: the engine runs, its output goes to the host.
    NoInput,
    /// Stereo input from the host's main channels.
    Stereo,
    /// Stereo input plus the stereo side chain, four interleaved channels.
    SideChain,
    /// Any other count: the block is left alone.
    Skip,
}

/// The routing for `in_size` input channels: 0, 2 and 4 are supported.
pub open spec fn batch_plan_for(in_size: usize) -> BatchPlan {
    if in_size == 0 {
        BatchPlan::NoInput
    } else if in_size == 2 {
        BatchPlan::Stereo
    } else if in_size == 4 {
        BatchPlan::SideChain
    } else {
        BatchPlan::Skip
    }
}

/// The contents of host channels.
pub open spec fn channels_view(chs: Seq<Vec<u64>>) -> Seq<Seq<u64>> {
    chs.map_values(|v: Vec<u64>| v@)
}

/// The writes of frame `i`: sample `at + i` of each channel `c` of `chs`
/// goes to input offset `i * stride + base + c`, channel by channel.
pub open spec fn frame_writes(chs: Seq<Seq<u64>>, at: int, i: int, stride: int, base: int) -> Seq<
    (int, u64),
> {
    Seq::new(chs.len(), |c: int| (i * stride + base + c, chs[c][at + i]))
}

/// The writes of the first `frames` frames of stereo input, frame by frame.
pub open spec fn stereo_writes(chs: Seq<Seq<u64>>, at: int, frames: nat) -> Seq<(int, u64)>
    decreases frames,
{
    if frames == 0 {
        seq![]
    } else {
        stereo_writes(chs, at, (frames - 1) as nat) + frame_writes(
            chs,
            at,
            frames - 1,
            2,
            0,
        )
    }
}

/// The side-chain writes of frame `i`: the side-chain channels at offsets
/// 2 and 3 of the frame, or silence (zero words) when there is no side chain.
pub open spec fn side_frame_writes(side: Option<Seq<Seq<u64>>>, at: int, i: int) -> Seq<(int, u64)> {
    match side {
        Some(sc) => frame_writes(sc, at, i, 4, 2),
        None => seq![(i * 4 + 2, 0u64), (i * 4 + 3, 0u64)],
    }
}

/// The writes of the first `frames` frames of input with a side chain: per
/// frame, the main channels at offsets 0 and 1, then the side chain.
pub open spec fn side_chain_writes(
    chs: Seq<Seq<u64>>,
    side: Option<Seq<Seq<u64>>>,
    at: int,
    frames: nat,
) -> Seq<(int, u64)>
    decreases frames,
{
    if frames == 0 {
        seq![]
    } else {
        side_chain_writes(chs, side, at, (frames - 1) as nat) + frame_writes(
            chs,
            at,
            frames - 1,
            4,
            0,
        ) + side_frame_writes(side, at, frames - 1)
    }
}

/// The number of side-chain channels.
pub open spec fn side_len(side: Option<&Vec<Vec<u64>>>) -> nat {
    match side {
        Some(sc) => sc@.len(),
        None => 0,
    }
}

/// The contents of the side-chain channels, if any.
pub open spec fn side_view(side: Option<&Vec<Vec<u64>>>) -> Option<Seq<Seq<u64>>> {
    match side {
        Some(sc) => Some(channels_view(sc@)),
        None => None,
    }
}

/// The settings a processor falls back on when the document states none.
pub open spec fn settings_or_default(s: Option<CsdSettings>) -> CsdSettings {
    match s {
        Some(s) => s,
        None => CsdSettings { out_size: 2, in_size: 2 },
    }
}

/// The abstract state of a `CsoundAudioProcessor`.
pub struct ProcessorView {
    pub buffers: BuffersView,
    pub csound_frame_size: nat,
    pub frame_size: nat,
    pub csound_settings: CsdSettings,
}

impl ProcessorView {
    /// The rings are well formed and start out silent (initial value 0), and
    /// an engine cycle holds two interleaved samples per frame.
    pub open spec fn wf(self) -> bool {
        &&& self.buffers.wf()
        &&& self.buffers.init_value == 0
        &&& self.frame_size == 2 * self.csound_frame_size
        &&& self.frame_size <= isize::MAX
    }

    /// The state after a reset: fresh rings whose output is one engine cycle
    /// ahead; the frame sizes and settings stay.
    pub open spec fn after_reset(self) -> ProcessorView {
        ProcessorView {
            buffers: BuffersView::fresh(
                self.buffers.capacity(),
                self.buffers.init_value,
            ).advance_out_write(self.frame_size as int),
            ..self
        }
    }
}

/// The part of the audio processor that is plain data: the sample rings,
/// the engine's frame size, and the channel settings of its orchestra.
pub struct CsoundAudioProcessor {
    buffers: ProcessorBuffers,
    /// Samples per channel in one engine cycle (`ksmps`).
    csound_frame_size: usize,
    /// Interleaved stereo samples in one engine cycle.
    frame_size: usize,
    csound_settings: CsdSettings,
}

impl View for CsoundAudioProcessor {
    type V = ProcessorView;

    closed spec fn view(&self) -> ProcessorView {
        ProcessorView {
            buffers: self.buffers@,
            csound_frame_size: self.csound_frame_size as nat,
            frame_size: self.frame_size as nat,
            csound_settings: self.csound_settings,
        }
    }
}

/// The capacity asked of the sample rings.
pub const BUFFER_CAPACITY: usize = 8000;

impl CsoundAudioProcessor {
    /// A processor for the document `csd` run with `ksmps` samples per cycle:
    /// the settings are the document's, or stereo in and out; the rings hold
    /// silence (zero words), and the output is ahead by one engine cycle.
    pub fn new(csd: &str, ksmps: u32) -> (p: Self)
        requires
            2 * ksmps <= isize::MAX,
        ensures
            p@.wf(),
            p@.csound_settings == settings_or_default(settings_of_events(csd_events(csd@))),
            settings_of_events(csd_events(csd@)) matches Some(s) ==> p@.csound_settings == s,
            settings_of_events(csd_events(csd@)) is None ==> p@.csound_settings == (CsdSettings {
                out_size: 2,
                in_size: 2,
            }),
            p@.csound_frame_size == ksmps,
            p@.frame_size == 2 * ksmps,
            is_next_pow2(BUFFER_CAPACITY as nat, p@.buffers.capacity()),
            p@ == p@.after_reset(),
    {
        let parsed = parse_csd_settings(csd);
        let csound_settings = match parsed {
            Some(s) => s,
            None => CsdSettings::default(),
        };
        let mut buffers = ProcessorBuffers::new(BUFFER_CAPACITY, 0);
        let frame_size = 2 * (ksmps as usize);
        buffers.advance_output_write_cursor(frame_size);
        CsoundAudioProcessor { buffers, csound_frame_size: ksmps as usize, frame_size, csound_settings }
    }

    /// Sets the rings back to their initial value and puts the output one
    /// engine cycle ahead again.
    pub fn reset(&mut self)
        requires
            old(self)@.wf(),
        ensures
            final(self)@.wf(),
            final(self)@ == old(self)@.after_reset(),
    {
        self.buffers.reset();
        self.buffers.advance_output_write_cursor(self.frame_size);
    }

    /// The rings.
    pub fn buffers(&self) -> (b: &ProcessorBuffers)
        ensures
            b@ == self@.buffers,
    {
        &self.buffers
    }

    /// Samples per channel in one engine cycle.
    pub fn csound_frame_size(&self) -> (n: usize)
        ensures
            n == self@.csound_frame_size,
    {
        self.csound_frame_size
    }

    /// Interleaved samples in one engine cycle.
    pub fn frame_size(&self) -> (n: usize)
        ensures
            n == self@.frame_size,
    {
        self.frame_size
    }

    /// The orchestra's channel settings.
    pub fn csound_settings(&self) -> (s: CsdSettings)
        ensures
            s == self@.csound_settings,
    {
        self.csound_settings
    }

    /// Fills the engine's input frame `spin` from the input ring and moves
    /// its read cursor past it.
    pub fn read_csound_input(&mut self, spin: &mut [u64])
        requires
            old(self)@.wf(),
            isize::MIN <= old(self)@.buffers.in_read + (old(spin)@.len() as isize) <= isize::MAX,
        ensures
            final(self)@.wf(),
            final(spin)@ == old(self)@.buffers.input_from_read(old(spin)@.len()),
            final(self)@ == (ProcessorView {
                buffers: old(self)@.buffers.advance_in_read(old(spin)@.len() as isize as int),
                ..old(self)@
            }),
    {
        self.buffers.read_input_into(spin);
    }

    /// Writes the engine's output frame `spout` to the output ring and moves
    /// its write cursor past it.
    pub fn write_csound_output(&mut self, spout: &[u64])
        requires
            old(self)@.wf(),
            spout@.len() <= isize::MAX,
            old(self)@.buffers.out_write + spout@.len() <= isize::MAX,
        ensures
            final(self)@.wf(),
            old(self)@.buffers.output_written(final(self)@.buffers, spout@),
            final(self)@.csound_frame_size == old(self)@.csound_frame_size,
            final(self)@.frame_size == old(self)@.frame_size,
            final(self)@.csound_settings == old(self)@.csound_settings,
    {
        self.buffers.write_output_latest(spout);
    }

    /// The number of whole engine cycles in the block `block_start ..
    /// block_end`.
    pub fn csound_cycle_size(&self, block_start: usize, block_end: usize) -> (n: usize)
        requires
            block_start <= block_end,
            self@.csound_frame_size > 0,
        ensures
            n == (block_end - block_start) / (self@.csound_frame_size as int),
    {
        (block_end - block_start) / self.csound_frame_size
    }

    /// The routing of a block, by the orchestra's number of input channels.
    pub fn batch_plan(&self) -> (plan: BatchPlan)
        ensures
            plan == batch_plan_for(self@.csound_settings.in_size),
            plan is NoInput <==> self@.csound_settings.in_size == 0,
            plan is Stereo <==> self@.csound_settings.in_size == 2,
            plan is SideChain <==> self@.csound_settings.in_size == 4,
            plan is Skip <==> (self@.csound_settings.in_size != 0 && self@.csound_settings.in_size
                != 2 && self@.csound_settings.in_size != 4),
    {
        match self.csound_settings.in_size {
            0 => BatchPlan::NoInput,
            2 => BatchPlan::Stereo,
            4 => BatchPlan::SideChain,
            _ => BatchPlan::Skip,
        }
    }

    /// Interleaves the samples `block_start .. block_end` of the host's
    /// channels into the input ring, two samples per frame (channel `c` of
    /// frame `i` at offset `2 i + c` past the write cursor), then moves the
    /// write cursor past the block.
    pub fn write_daw_input_to_buffer_stereo(
        &mut self,
        channels: &Vec<Vec<u64>>,
        block_start: usize,
        block_end: usize,
    )
        requires
            old(self)@.wf(),
            block_start <= block_end,
            forall|c: int| 0 <= c < channels@.len() ==> block_end <= (#[trigger] channels@[c])@.len(),
            (block_end - block_start) * 2 + channels@.len() <= isize::MAX,
            old(self)@.buffers.in_write + (block_end - block_start) * 2 + channels@.len()
                <= isize::MAX,
        ensures
            final(self)@.buffers == old(self)@.buffers.with_input_writes(
                stereo_writes(
                    channels_view(channels@),
                    block_start as int,
                    (block_end - block_start) as nat,
                ),
            ).advance_in_write((block_end - block_start) * 2),
            final(self)@.wf(),
            final(self)@.csound_frame_size == old(self)@.csound_frame_size,
            final(self)@.frame_size == old(self)@.frame_size,
            final(self)@.csound_settings == old(self)@.csound_settings,
    {
        let batch_size = block_end - block_start;
        let ghost v0 = self.buffers@;
        let ghost chs = channels_view(channels@);
        let n_channels = channels.len();
        for index in 0..batch_size
            invariant
                v0.wf(),
                n_channels == channels@.len(),
                chs == channels_view(channels@),
                batch_size == block_end - block_start,
                forall|c: int| 0 <= c < channels@.len() ==> block_end <= (#[trigger] channels@[c])@.len(),
                batch_size * 2 + n_channels <= isize::MAX,
                v0.in_write + batch_size * 2 + n_channels <= isize::MAX,
                self.buffers@ == v0.with_input_writes(
                    stereo_writes(chs, block_start as int, index as nat),
                ),
                self.csound_frame_size == old(self).csound_frame_size,
                self.frame_size == old(self).frame_size,
                self.csound_settings == old(self).csound_settings,
        {
            let ghost before = stereo_writes(chs, block_start as int, index as nat);
            let ghost fw = frame_writes(chs, block_start as int, index as int, 2, 0);
            assert(before + fw.take(0) =~= before);
            for channel in 0..n_channels
                invariant
                    v0.wf(),
                    n_channels == channels@.len(),
                    chs == channels_view(channels@),
                    batch_size == block_end - block_start,
                    index < batch_size,
                    forall|c: int|
                        0 <= c < channels@.len() ==> block_end <= (#[trigger] channels@[c])@.len(),
                    batch_size * 2 + n_channels <= isize::MAX,
                    v0.in_write + batch_size * 2 + n_channels <= isize::MAX,
                    before == stereo_writes(chs, block_start as int, index as nat),
                    fw == frame_writes(chs, block_start as int, index as int, 2, 0),
                    self.buffers@ == v0.with_input_writes(before + fw.take(channel as int)),
                    self.csound_frame_size == old(self).csound_frame_size,
                    self.frame_size == old(self).frame_size,
                    self.csound_settings == old(self).csound_settings,
            {
                let ghost ws = before + fw.take(channel as int);
                proof {
                    crate::buffer::lemma_input_writes_frame(v0, ws);
                    assert((before + fw.take(channel + 1)).drop_last() =~= ws);
                    assert(channels@[channel as int]@ == chs[channel as int]);
                }
                let sample = channels[channel][block_start + index];
                self.buffers.write_input(sample, index * 2 + channel);
            }
            assert(before + fw.take(n_channels as int) =~= stereo_writes(
                chs,
                block_start as int,
                (index + 1) as nat,
            ));
        }
        proof {
            crate::buffer::lemma_input_writes_frame(
                v0,
                stereo_writes(chs, block_start as int, batch_size as nat),
            );
        }
        self.buffers.advance_input_write_cursor(batch_size * 2);
    }

    /// Interleaves the samples `block_start .. block_end` of the host's main
    /// channels and of its side chain into the input ring, four samples per
    /// frame: main channel `c` of frame `i` at offset `4 i + c`, side-chain
    /// channel `c` at `4 i + 2 + c`, or silence (zero words) at `4 i + 2` and
    /// `4 i + 3` when there is no side chain; then moves the write cursor past
    /// the block.
    pub fn write_daw_input_to_buffer_with_side_chain(
        &mut self,
        channels: &Vec<Vec<u64>>,
        side_chain: Option<&Vec<Vec<u64>>>,
        block_start: usize,
        block_end: usize,
    )
        requires
            old(self)@.wf(),
            block_start <= block_end,
            forall|c: int| 0 <= c < channels@.len() ==> block_end <= (#[trigger] channels@[c])@.len(),
            side_chain matches Some(sc) ==> forall|c: int|
                0 <= c < sc@.len() ==> block_end <= (#[trigger] sc@[c])@.len(),
            (block_end - block_start) * 4 + channels@.len() + side_len(side_chain) + 4
                <= isize::MAX,
            old(self)@.buffers.in_write + (block_end - block_start) * 4 + channels@.len()
                + side_len(side_chain) + 4 <= isize::MAX,
        ensures
            final(self)@.buffers == old(self)@.buffers.with_input_writes(
                side_chain_writes(
                    channels_view(channels@),
                    side_view(side_chain),
                    block_start as int,
                    (block_end - block_start) as nat,
                ),
            ).advance_in_write((block_end - block_start) * 4),
            final(self)@.wf(),
            final(self)@.csound_frame_size == old(self)@.csound_frame_size,
            final(self)@.frame_size == old(self)@.frame_size,
            final(self)@.csound_settings == old(self)@.csound_settings,
    {
        let input_size: usize = 4;
        let batch_size = block_end - block_start;
        let ghost v0 = self.buffers@;
        let ghost chs = channels_view(channels@);
        let ghost side = side_view(side_chain);
        let ghost bound = batch_size * 4 + channels@.len() + side_len(side_chain) + 4;
        let n_channels = channels.len();
        for index in 0..batch_size
            invariant
                v0.wf(),
                input_size == 4,
                n_channels == channels@.len(),
                chs == channels_view(channels@),
                side == side_view(side_chain),
                batch_size == block_end - block_start,
                forall|c: int| 0 <= c < channels@.len() ==> block_end <= (#[trigger] channels@[c])@.len(),
                side_chain matches Some(sc) ==> forall|c: int|
                    0 <= c < sc@.len() ==> block_end <= (#[trigger] sc@[c])@.len(),
                bound == batch_size * 4 + channels@.len() + side_len(side_chain) + 4,
                bound <= isize::MAX,
                v0.in_write + bound <= isize::MAX,
                self.buffers@ == v0.with_input_writes(
                    side_chain_writes(chs, side, block_start as int, index as nat),
                ),
                self.csound_frame_size == old(self).csound_frame_size,
                self.frame_size == old(self).frame_size,
                self.csound_settings == old(self).csound_settings,
        {
            let ghost before = side_chain_writes(chs, side, block_start as int, index as nat);
            let ghost fw = frame_writes(chs, block_start as int, index as int, 4, 0);
            assert(before + fw.take(0) =~= before);
            for channel in 0..n_channels
                invariant
                    v0.wf(),
                    input_size == 4,
                    n_channels == channels@.len(),
                    chs == channels_view(channels@),
                    batch_size == block_end - block_start,
                    index < batch_size,
                    forall|c: int|
                        0 <= c < channels@.len() ==> block_end <= (#[trigger] channels@[c])@.len(),
                    bound == batch_size * 4 + channels@.len() + side_len(side_chain) + 4,
                    bound <= isize::MAX,
                    v0.in_write + bound <= isize::MAX,
                    fw == frame_writes(chs, block_start as int, index as int, 4, 0),
                    self.buffers@ == v0.with_input_writes(before + fw.take(channel as int)),
                    self.csound_frame_size == old(self).csound_frame_size,
                    self.frame_size == old(self).frame_size,
                    self.csound_settings == old(self).csound_settings,
            {
                let ghost ws = before + fw.take(channel as int);
                proof {
                    crate::buffer::lemma_input_writes_frame(v0, ws);
                    assert((before + fw.take(channel + 1)).drop_last() =~= ws);
                    assert(channels@[channel as int]@ == chs[channel as int]);
                }
                let sample = channels[channel][block_start + index];
                self.buffers.write_input(sample, index * input_size + channel);
            }
            assert(before + fw.take(n_channels as int) =~= before + fw);
            let ghost mid = before + fw;
            let ghost sw = side_frame_writes(side, block_start as int, index as int);
            assert(mid + sw.take(0) =~= mid);
            match side_chain {
                Some(sc) => {
                    let n_side = sc.len();
                    for channel in 0..n_side
                        invariant
                            v0.wf(),
                            input_size == 4,
                            side_chain == Some(sc),
                            n_side == sc@.len(),
                            side == side_view(side_chain),
                            batch_size == block_end - block_start,
                            index < batch_size,
                            forall|c: int|
                                0 <= c < sc@.len() ==> block_end <= (#[trigger] sc@[c])@.len(),
                            bound == batch_size * 4 + channels@.len() + side_len(side_chain) + 4,
                            bound <= isize::MAX,
                            v0.in_write + bound <= isize::MAX,
                            sw == side_frame_writes(side, block_start as int, index as int),
                            self.buffers@ == v0.with_input_writes(mid + sw.take(channel as int)),
                            self.csound_frame_size == old(self).csound_frame_size,
                            self.frame_size == old(self).frame_size,
                            self.csound_settings == old(self).csound_settings,
                    {
                        let ghost ws = mid + sw.take(channel as int);
                        proof {
                            crate::buffer::lemma_input_writes_frame(v0, ws);
                            assert((mid + sw.take(channel + 1)).drop_last() =~= ws);
                            assert(sc@[channel as int]@ == side->0[channel as int]);
                        }
                        let sample = sc[channel][block_start + index];
                        self.buffers.write_input(sample, index * input_size + 2 + channel);
                    }
                    assert(mid + sw.take(n_side as int) =~= mid + sw);
                },
                None => {
                    proof {
                        crate::buffer::lemma_input_writes_frame(v0, mid);
                        assert((mid + sw.take(1)).drop_last() =~= mid);
                    }
                    self.buffers.write_input(0, index * input_size + 2);
                    proof {
                        crate::buffer::lemma_input_writes_frame(v0, mid + sw.take(1));
                        assert((mid + sw.take(2)).drop_last() =~= mid + sw.take(1));
                    }
                    self.buffers.write_input(0, index * input_size + 3);
                    assert(mid + sw.take(2) =~= mid + sw);
                },
            }
            assert(mid + sw =~= side_chain_writes(
                chs,
                side,
                block_start as int,
                (index + 1) as nat,
            ));
        }
        proof {
            crate::buffer::lemma_input_writes_frame(
                v0,
                side_chain_writes(chs, side, block_start as int, batch_size as nat),
            );
        }
        self.buffers.advance_input_write_cursor(batch_size * input_size);
    }

    /// Reads the block `block_start .. block_end` for `n_channels` host
    /// channels from the output ring, two samples per frame: sample `i` of
    /// channel `c` is the one at offset `2 i + c` past the read cursor. Then
    /// moves the read cursor past the block.
    pub fn read_daw_output_from_buffer(
        &mut self,
        n_channels: usize,
        block_start: usize,
        block_end: usize,
    ) -> (outs: Vec<Vec<u64>>)
        requires
            old(self)@.wf(),
            block_start <= block_end,
            (block_end - block_start) * 2 + n_channels <= isize::MAX,
            old(self)@.buffers.out_read + (block_end - block_start) * 2 + n_channels <= isize::MAX,
        ensures
            outs@.len() == n_channels,
            forall|c: int|
                0 <= c < n_channels ==> (#[trigger] outs@[c])@.len() == block_end - block_start,
            forall|c: int, i: int|
                0 <= c < n_channels && 0 <= i < block_end - block_start ==> #[trigger] outs@[c]@[i]
                    == old(self)@.buffers.output_at(old(self)@.buffers.out_read + i * 2 + c),
            final(self)@.buffers == old(self)@.buffers.advance_out_read(
                (block_end - block_start) * 2,
            ),
            final(self)@.wf(),
            final(self)@.csound_frame_size == old(self)@.csound_frame_size,
            final(self)@.frame_size == old(self)@.frame_size,
            final(self)@.csound_settings == old(self)@.csound_settings,
    {
        let batch_size = block_end - block_start;
        let ghost v0 = self.buffers@;
        let mut outs: Vec<Vec<u64>> = Vec::new();
        for channel in 0..n_channels
            invariant
                v0.wf(),
                self.buffers@ == v0,
                batch_size == block_end - block_start,
                batch_size * 2 + n_channels <= isize::MAX,
                v0.out_read + batch_size * 2 + n_channels <= isize::MAX,
                outs@.len() == channel,
                forall|c: int| 0 <= c < channel ==> (#[trigger] outs@[c])@.len() == batch_size,
                forall|c: int, i: int|
                    0 <= c < channel && 0 <= i < batch_size ==> #[trigger] outs@[c]@[i]
                        == v0.output_at(v0.out_read + i * 2 + c),
                self.csound_frame_size == old(self).csound_frame_size,
                self.frame_size == old(self).frame_size,
                self.csound_settings == old(self).csound_settings,
        {
            let mut column: Vec<u64> = Vec::new();
            for index in 0..batch_size
                invariant
                    v0.wf(),
                    self.buffers@ == v0,
                    channel < n_channels,
                    batch_size * 2 + n_channels <= isize::MAX,
                    v0.out_read + batch_size * 2 + n_channels <= isize::MAX,
                    column@.len() == index,
                    forall|i: int|
                        0 <= i < index ==> #[trigger] column@[i] == v0.output_at(
                            v0.out_read + i * 2 + channel,
                        ),
                    self.csound_frame_size == old(self).csound_frame_size,
                    self.frame_size == old(self).frame_size,
                    self.csound_settings == old(self).csound_settings,
            {
                let sample = self.buffers.read_output(index * 2 + channel);
                column.push(sample);
            }
            outs.push(column);
        }
        self.buffers.advance_output_read_cursor(batch_size * 2);
        outs
    }
}

/// With two channels, the stereo writes go to offsets `0, 1, 2, ..` in turn,
/// frame by frame: offset `2 i + c` gets sample `at + i` of channel `c`.
pub proof fn lemma_stereo_writes_shape(chs: Seq<Seq<u64>>, at: int, frames: nat)
    requires
        chs.len() == 2,
    ensures
        stereo_writes(chs, at, frames).len() == 2 * frames,
        forall|k: int|
            0 <= k < 2 * frames ==> (#[trigger] stereo_writes(chs, at, frames)[k]).0 == k,
        forall|i: int, c: int|
            0 <= i < frames && 0 <= c < 2 ==> #[trigger] stereo_writes(chs, at, frames)[2 * i + c]
                == (2 * i + c, chs[c][at + i]),
    decreases frames,
{
    if frames > 0 {
        let f = (frames - 1) as nat;
        lemma_stereo_writes_shape(chs, at, f);
        let a = stereo_writes(chs, at, f);
        let fw = frame_writes(chs, at, f as int, 2, 0);
        let ws = stereo_writes(chs, at, frames);
        assert(ws == a + fw);
        assert forall|k: int| 0 <= k < 2 * frames implies (#[trigger] ws[k]).0 == k by {
            if k < 2 * f {
                assert(ws[k] == a[k]);
            } else {
                assert(ws[k] == fw[k - 2 * f]);
            }
        }
        assert forall|i: int, c: int| 0 <= i < frames && 0 <= c < 2 implies #[trigger] ws[2 * i + c]
            == (2 * i + c, chs[c][at + i]) by {
            if i < f {
                assert(ws[2 * i + c] == a[2 * i + c]);
            } else {
                assert(ws[2 * i + c] == fw[c]);
            }
        }
    }
}

/// Stereo input lands where the engine reads it: once the host's two
/// channels are interleaved for a block that fits in the ring, sample `i` of
/// channel `c` stands at offset `2 i + c` past the write cursor of before.
pub proof fn lemma_stereo_layout(v: BuffersView, chs: Seq<Seq<u64>>, at: int, frames: nat)
    requires
        v.wf(),
        chs.len() == 2,
        2 * frames <= v.capacity(),
    ensures
        forall|i: int, c: int|
            0 <= i < frames && 0 <= c < 2 ==> #[trigger] v.with_input_writes(
                stereo_writes(chs, at, frames),
            ).input_at(v.in_write + 2 * i + c) == chs[c][at + i],
{
    lemma_stereo_writes_shape(chs, at, frames);
    let ws = stereo_writes(chs, at, frames);
    crate::buffer::lemma_consecutive_writes(v, ws);
    assert forall|i: int, c: int| 0 <= i < frames && 0 <= c < 2 implies #[trigger] v.with_input_writes(
        ws,
    ).input_at(v.in_write + 2 * i + c) == chs[c][at + i] by {
        let k = 2 * i + c;
        assert(ws[k] == (k, chs[c][at + i]));
        assert(v.with_input_writes(ws).input_at(v.in_write + k) == ws[k].1);
        assert(v.in_write + k == v.in_write + 2 * i + c);
    }
}

/// The side-chain samples of a frame: those of side channel `c`, or silence.
pub open spec fn side_sample(side: Option<Seq<Seq<u64>>>, c: int, k: int) -> u64 {
    match side {
        Some(sc) => sc[c][k],
        None => 0u64,
    }
}

/// With two main and two side channels (or none), the writes go to offsets
/// `0, 1, 2, ..` in turn: offset `4 i + c` gets sample `at + i` of main
/// channel `c`, offset `4 i + 2 + c` that of side channel `c`.
pub proof fn lemma_side_chain_writes_shape(
    chs: Seq<Seq<u64>>,
    side: Option<Seq<Seq<u64>>>,
    at: int,
    frames: nat,
)
    requires
        chs.len() == 2,
        side matches Some(sc) ==> sc.len() == 2,
    ensures
        side_chain_writes(chs, side, at, frames).len() == 4 * frames,
        forall|k: int|
            0 <= k < 4 * frames ==> (#[trigger] side_chain_writes(chs, side, at, frames)[k]).0 == k,
        forall|i: int, c: int|
            0 <= i < frames && 0 <= c < 2 ==> #[trigger] side_chain_writes(chs, side, at, frames)[4
                * i + c] == (4 * i + c, chs[c][at + i]),
        forall|i: int, c: int|
            0 <= i < frames && 0 <= c < 2 ==> #[trigger] side_chain_writes(chs, side, at, frames)[4
                * i + 2 + c] == (4 * i + 2 + c, side_sample(side, c, at + i)),
    decreases frames,
{
    if frames > 0 {
        let f = (frames - 1) as nat;
        lemma_side_chain_writes_shape(chs, side, at, f);
        let a = side_chain_writes(chs, side, at, f);
        let fw = frame_writes(chs, at, f as int, 4, 0);
        let sw = side_frame_writes(side, at, f as int);
        let ws = side_chain_writes(chs, side, at, frames);
        assert(ws == a + fw + sw);
        assert(sw.len() == 2);
        assert forall|c: int| 0 <= c < 2 implies #[trigger] sw[c] == (4 * f + 2 + c, side_sample(
            side,
            c,
            at + f,
        )) by {}
        assert forall|k: int| 0 <= k < 4 * frames implies (#[trigger] ws[k]).0 == k by {
            if k < 4 * f {
                assert(ws[k] == a[k]);
            } else if k < 4 * f + 2 {
                assert(ws[k] == fw[k - 4 * f]);
            } else {
                assert(ws[k] == sw[k - 4 * f - 2]);
            }
        }
        assert forall|i: int, c: int| 0 <= i < frames && 0 <= c < 2 implies #[trigger] ws[4 * i + c]
            == (4 * i + c, chs[c][at + i]) by {
            if i < f {
                assert(ws[4 * i + c] == a[4 * i + c]);
            } else {
                assert(ws[4 * i + c] == fw[c]);
            }
        }
        assert forall|i: int, c: int| 0 <= i < frames && 0 <= c < 2 implies #[trigger] ws[4 * i + 2
            + c] == (4 * i + 2 + c, side_sample(side, c, at + i)) by {
            if i < f {
                assert(ws[4 * i + 2 + c] == a[4 * i + 2 + c]);
            } else {
                assert(ws[4 * i + 2 + c] == sw[c]);
            }
        }
    }
}

/// Input with a side chain lands where the engine reads it: once a block
/// that fits in the ring is interleaved, sample `i` of main channel `c`
/// stands at offset `4 i + c` past the write cursor of before, and that of
/// side channel `c` (silence without a side chain) at `4 i + 2 + c`.
pub proof fn lemma_side_chain_layout(
    v: BuffersView,
    chs: Seq<Seq<u64>>,
    side: Option<Seq<Seq<u64>>>,
    at: int,
    frames: nat,
)
    requires
        v.wf(),
        chs.len() == 2,
        side matches Some(sc) ==> sc.len() == 2,
        4 * frames <= v.capacity(),
    ensures
        forall|i: int, c: int|
            0 <= i < frames && 0 <= c < 2 ==> #[trigger] v.with_input_writes(
                side_chain_writes(chs, side, at, frames),
            ).input_at(v.in_write + 4 * i + c) == chs[c][at + i],
        forall|i: int, c: int|
            0 <= i < frames && 0 <= c < 2 ==> #[trigger] v.with_input_writes(
                side_chain_writes(chs, side, at, frames),
            ).input_at(v.in_write + 4 * i + 2 + c) == side_sample(side, c, at + i),
{
    lemma_side_chain_writes_shape(chs, side, at, frames);
    let ws = side_chain_writes(chs, side, at, frames);
    crate::buffer::lemma_consecutive_writes(v, ws);
    assert forall|i: int, c: int| 0 <= i < frames && 0 <= c < 2 implies #[trigger] v.with_input_writes(
        ws,
    ).input_at(v.in_write + 4 * i + c) == chs[c][at + i] by {
        let k = 4 * i + c;
        assert(ws[k] == (k, chs[c][at + i]));
        assert(v.with_input_writes(ws).input_at(v.in_write + k) == ws[k].1);
        assert(v.in_write + k == v.in_write + 4 * i + c);
    }
    assert forall|i: int, c: int| 0 <= i < frames && 0 <= c < 2 implies #[trigger] v.with_input_writes(
        ws,
    ).input_at(v.in_write + 4 * i + 2 + c) == side_sample(side, c, at + i) by {
        let k = 4 * i + 2 + c;
        assert(ws[k] == (k, side_sample(side, c, at + i)));
        assert(v.with_input_writes(ws).input_at(v.in_write + k) == ws[k].1);
        assert(v.in_write + k == v.in_write + 4 * i + 2 + c);
    }
}

/// A reset leaves the processor silent and one engine cycle ahead: nothing
/// waits in the input, the output holds one cycle of the initial value, and
/// resetting again changes nothing.
pub proof fn lemma_reset_state(v: ProcessorView)
    requires
        v.wf(),
    ensures
        v.after_reset().wf(),
        v.after_reset().after_reset() == v.after_reset(),
        v.after_reset().buffers.input_size() == 0,
        v.after_reset().buffers.output_size() == v.frame_size,
        forall|p: int| #[trigger] v.after_reset().buffers.output_at(p) == 0,
        forall|p: int| #[trigger] v.after_reset().buffers.input_at(p) == 0,
{
    let b = v.after_reset().buffers;
    assert forall|p: int| #[trigger] b.output_at(p) == 0 by {
        vstd::arithmetic::div_mod::lemma_mod_bound(p, b.output.len() as int);
    }
    assert forall|p: int| #[trigger] b.input_at(p) == 0 by {
        vstd::arithmetic::div_mod::lemma_mod_bound(p, b.input.len() as int);
    }
}

/// A reset processor is a new one: resetting any processor gives exactly the
/// state that `new` gave one with the same rings, frame sizes and settings.
pub proof fn lemma_reset_matches_new(made: ProcessorView, v: ProcessorView)
    requires
        made == made.after_reset(),
        v.buffers.capacity() == made.buffers.capacity(),
        v.buffers.init_value == made.buffers.init_value,
        v.csound_frame_size == made.csound_frame_size,
        v.frame_size == made.frame_size,
        v.csound_settings == made.csound_settings,
    ensures
        v.after_reset() == made,
{
}

/// The number of leading events of `ts` due before `n`.
pub open spec fn due_prefix(ts: Seq<usize>, n: usize) -> nat
    decreases ts.len(),
{
    if ts.len() == 0 || ts[0] >= n {
        0
    } else {
        1 + due_prefix(ts.drop_first(), n)
    }
}

/// The walk handles exactly the events due before the end of the buffer: it
/// handles events in order until one is due at or after the end, and that one
/// and all after it are left for later.
pub proof fn lemma_plan_handles_due_events(n: usize, ts: Seq<usize>)
    ensures
        handled_count(plan_run(0, n, ts)) == due_prefix(ts, n),
{
    lemma_plan_handles_from(0, n, ts);
}

proof fn lemma_plan_handles_from(bs: usize, n: usize, ts: Seq<usize>)
    requires
        bs <= n,
        bs == n ==> ts.len() == 0 || ts[0] >= n,
    ensures
        handled_count(plan_run(bs, n, ts)) == due_prefix(ts, n),
    decreases n - bs, ts.len(),
{
    let run = plan_run(bs, n, ts);
    if bs >= n {
        assert(run.drop_first() =~= Seq::<PlanStep>::empty());
        assert(handled_count(run.drop_first()) == 0);
    } else {
        let step = next_step(bs, n, pending(ts));
        if step is HandleEvent {
            lemma_plan_handles_from(bs, n, ts.drop_first());
            assert(run.drop_first() =~= plan_run(bs, n, ts.drop_first()));
            assert(handled_count(run) == 1 + handled_count(run.drop_first()));
        } else {
            let e = start_after(bs, step);
            lemma_plan_handles_from(e, n, ts);
            assert(run.drop_first() =~= plan_run(e, n, ts));
            assert(handled_count(run) == handled_count(run.drop_first()));
        }
    }
}

/// One engine cycle, from rings `a` to rings `b`: the engine takes its input
/// frame of `in_frame` samples from the input ring and writes its output
/// frame `spout` to the output ring.
pub open spec fn engine_cycle(a: BuffersView, b: BuffersView, in_frame: nat, spout: Seq<u64>) -> bool {
    a.advance_in_read(in_frame as int).output_written(b, spout)
}

/// The rings `trace[j]` before each engine cycle `j` of a batch, and after
/// the last one; cycle `j` writes the output frame `spouts[j]`.
pub open spec fn engine_cycles(trace: Seq<BuffersView>, spouts: Seq<Seq<u64>>, in_frame: nat) -> bool {
    &&& trace.len() == spouts.len() + 1
    &&& forall|j: int|
        0 <= j < spouts.len() ==> engine_cycle(trace[j], trace[j + 1], in_frame, #[trigger] spouts[j])
}

proof fn lemma_engine_cycles_cursors(
    trace: Seq<BuffersView>,
    spouts: Seq<Seq<u64>>,
    in_frame: nat,
    out_frame: nat,
    j: int,
)
    requires
        engine_cycles(trace, spouts, in_frame),
        forall|i: int| 0 <= i < spouts.len() ==> (#[trigger] spouts[i]).len() == out_frame,
        0 <= j <= spouts.len(),
    ensures
        trace[j].in_write == trace[0].in_write,
        trace[j].in_read == trace[0].in_read + j * in_frame,
        trace[j].out_write == trace[0].out_write + j * out_frame,
        trace[j].out_read == trace[0].out_read,
    decreases j,
{
    if j > 0 {
        lemma_engine_cycles_cursors(trace, spouts, in_frame, out_frame, j - 1);
        assert(engine_cycle(trace[j - 1], trace[j], in_frame, spouts[j - 1]));
        assert(spouts[j - 1].len() == out_frame);
        assert((j - 1) * in_frame + in_frame == j * in_frame) by (nonlinear_arith);
        assert((j - 1) * out_frame + out_frame == j * out_frame) by (nonlinear_arith);
    }
}

/// A batch keeps the latency: when a block of `frames` frames, a whole
/// number of engine cycles, is routed through the processor (its input
/// written at two or four samples per frame, or none; each engine cycle
/// taking an input frame of `in_size` samples per frame of the cycle and
/// writing an output frame of one cycle of stereo; then the block read from
/// the output at two samples per frame), the input holds as many samples as
/// before and the output is as far ahead as before. So a processor that was
/// empty and one engine cycle ahead, as after `new` or `reset`, stays so.
pub proof fn lemma_batch_keeps_latency(
    v: ProcessorView,
    ws: Seq<(int, u64)>,
    in_size: nat,
    trace: Seq<BuffersView>,
    spouts: Seq<Seq<u64>>,
    frames: nat,
)
    requires
        v.wf(),
        in_size == 0 || in_size == 2 || in_size == 4,
        frames == spouts.len() * v.csound_frame_size,
        trace[0] == v.buffers.with_input_writes(ws).advance_in_write((in_size * frames) as int),
        engine_cycles(trace, spouts, in_size * v.csound_frame_size),
        forall|j: int| 0 <= j < spouts.len() ==> (#[trigger] spouts[j]).len() == v.frame_size,
    ensures
        trace.last().advance_out_read((2 * frames) as int).input_size() == v.buffers.input_size(),
        trace.last().advance_out_read((2 * frames) as int).output_size() == v.buffers.output_size(),
        v.buffers.input_size() == 0 && v.buffers.output_size() == v.frame_size ==> {
            &&& trace.last().advance_out_read((2 * frames) as int).input_size() == 0
            &&& trace.last().advance_out_read((2 * frames) as int).output_size() == v.frame_size
        },
{
    let k = v.csound_frame_size;
    let c = spouts.len();
    crate::buffer::lemma_input_writes_frame(v.buffers, ws);
    lemma_engine_cycles_cursors(trace, spouts, in_size * k, v.frame_size, c as int);
    assert(c * (in_size * k) == in_size * frames) by (nonlinear_arith)
        requires
            frames == c * k,
    ;
    assert(c * v.frame_size == 2 * frames) by (nonlinear_arith)
        requires
            frames == c * k,
            v.frame_size == 2 * k,
    ;
}

/// Routing is decided by the input channel count alone: stereo input exactly
/// for 2 channels, stereo plus side chain exactly for 4, no input exactly for
/// 0, and every other count leaves the block alone.
pub proof fn lemma_routing_by_input_count(n: usize)
    ensures
        batch_plan_for(n) is NoInput <==> n == 0,
        batch_plan_for(n) is Stereo <==> n == 2,
        batch_plan_for(n) is SideChain <==> n == 4,
        batch_plan_for(n) is Skip <==> (n != 0 && n != 2 && n != 4),
{
}

/// A processor takes the settings that its document states, whatever they
/// are; the stereo default (2 out, 2 in) stands only for a document that
/// states none.
pub proof fn lemma_document_settings_kept(csd: Seq<char>)
    ensures
        settings_of_events(csd_events(csd)) matches Some(s) ==> settings_or_default(
            settings_of_events(csd_events(csd)),
        ) == s,
        settings_of_events(csd_events(csd)) is None ==> settings_or_default(
            settings_of_events(csd_events(csd)),
        ) == (CsdSettings { out_size: 2, in_size: 2 }),
{
}

} // verus!
