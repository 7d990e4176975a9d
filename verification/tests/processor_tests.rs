use csound_plugin::processor::{plan_blocks, BatchPlan, BlockPlanner, CsoundAudioProcessor, PlanStep};

const CSD_SIDE_CHAIN: &str = "<CsoundSynthesizer><CsInstruments>
sr = 48000
ksmps = 16
nchnls = 2
nchnls_i = 4
instr 1
endin
</CsInstruments></CsoundSynthesizer>";

fn block(start: usize, end: usize) -> PlanStep {
    PlanStep::ProcessBlock { start, end }
}

#[test]
fn a_buffer_without_events_is_one_block() {
    assert_eq!(plan_blocks(10, &vec![]), vec![block(0, 10), PlanStep::Finished]);
}

#[test]
fn an_empty_buffer_has_no_block() {
    assert_eq!(plan_blocks(0, &vec![0, 3]), vec![PlanStep::Finished]);
}

#[test]
fn an_event_cuts_the_buffer() {
    assert_eq!(
        plan_blocks(10, &vec![3]),
        vec![block(0, 3), PlanStep::HandleEvent, block(3, 10), PlanStep::Finished]
    );
}

#[test]
fn an_event_due_at_the_start_is_handled_first() {
    assert_eq!(
        plan_blocks(10, &vec![0, 0, 7]),
        vec![
            PlanStep::HandleEvent,
            PlanStep::HandleEvent,
            block(0, 7),
            PlanStep::HandleEvent,
            block(7, 10),
            PlanStep::Finished
        ]
    );
}

#[test]
fn late_events_that_come_after_a_later_one_do_not_cut() {
    assert_eq!(
        plan_blocks(10, &vec![5, 3]),
        vec![block(0, 5), PlanStep::HandleEvent, PlanStep::HandleEvent, block(5, 10), PlanStep::Finished]
    );
}

#[test]
fn an_event_past_the_buffer_stops_the_event_handling() {
    assert_eq!(
        plan_blocks(10, &vec![3, 100, 5]),
        vec![block(0, 3), PlanStep::HandleEvent, block(3, 10), PlanStep::Finished]
    );
}

#[test]
fn the_planner_steps_one_at_a_time() {
    let mut p = BlockPlanner::new(8);
    assert_eq!(p.step(Some(2)), block(0, 2));
    assert_eq!(p.block_start, 2);
    assert_eq!(p.step(Some(2)), PlanStep::HandleEvent);
    assert_eq!(p.step(None), block(2, 8));
    assert_eq!(p.step(None), PlanStep::Finished);
}

#[test]
fn new_processor_reads_the_document() {
    let p = CsoundAudioProcessor::new(CSD_SIDE_CHAIN, 16);
    assert_eq!(p.csound_settings().out_size, 2);
    assert_eq!(p.csound_settings().in_size, 4);
    assert_eq!(p.csound_frame_size(), 16);
    assert_eq!(p.frame_size(), 32);
    assert_eq!(p.buffers().output_size(), 32);
    assert_eq!(p.buffers().input_size(), 0);
    assert_eq!(p.batch_plan(), BatchPlan::SideChain);
}

#[test]
fn new_processor_falls_back_to_stereo() {
    let p = CsoundAudioProcessor::new("no document", 32);
    assert_eq!(p.csound_settings().out_size, 2);
    assert_eq!(p.csound_settings().in_size, 2);
    assert_eq!(p.batch_plan(), BatchPlan::Stereo);
}

fn document(nchnls_i: usize) -> String {
    format!("<CsInstruments>\nnchnls=2\nnchnls_i={}\ninstr 1\nendin\n</CsInstruments>", nchnls_i)
}

#[test]
fn routing_by_input_channels() {
    assert_eq!(CsoundAudioProcessor::new(&document(0), 32).batch_plan(), BatchPlan::NoInput);
    assert_eq!(CsoundAudioProcessor::new(&document(2), 32).batch_plan(), BatchPlan::Stereo);
    assert_eq!(CsoundAudioProcessor::new(&document(3), 32).batch_plan(), BatchPlan::Skip);
    assert_eq!(CsoundAudioProcessor::new(&document(4), 32).batch_plan(), BatchPlan::SideChain);
}

#[test]
fn cycles_per_block() {
    let p = CsoundAudioProcessor::new("", 32);
    assert_eq!(p.csound_cycle_size(0, 256), 8);
    assert_eq!(p.csound_cycle_size(10, 110), 3);
    assert_eq!(p.csound_cycle_size(5, 5), 0);
}

#[test]
fn reset_puts_the_output_one_cycle_ahead() {
    let mut p = CsoundAudioProcessor::new("", 4);
    p.write_daw_input_to_buffer_stereo(&vec![vec![1u64, 2, 3], vec![4u64, 5, 6]], 0, 3);
    let _ = p.read_daw_output_from_buffer(2, 0, 2);
    p.write_csound_output(&[9, 9, 9]);
    p.reset();
    assert_eq!(p.buffers().output_size(), 8);
    assert_eq!(p.buffers().input_size(), 0);
    assert_eq!(p.read_daw_output_from_buffer(2, 0, 4), vec![vec![0; 4], vec![0; 4]]);
    p.reset();
    assert_eq!(p.buffers().output_size(), 8);
}

#[test]
fn stereo_input_is_interleaved() {
    let mut p = CsoundAudioProcessor::new("", 4);
    let left = vec![1u64, 2, 3, 4, 5];
    let right = vec![10u64, 20, 30, 40, 50];
    p.write_daw_input_to_buffer_stereo(&vec![left, right], 1, 4);
    assert_eq!(p.buffers().input_size(), 6);
    let mut s = [0u64; 6];
    p.read_csound_input(&mut s);
    assert_eq!(s, [2, 20, 3, 30, 4, 40]);
}

#[test]
fn side_chain_input_is_interleaved() {
    let mut p = CsoundAudioProcessor::new("", 4);
    let main = vec![vec![1u64, 2], vec![10u64, 20]];
    let side = vec![vec![100u64, 200], vec![1000u64, 2000]];
    p.write_daw_input_to_buffer_with_side_chain(&main, Some(&side), 0, 2);
    assert_eq!(p.buffers().input_size(), 8);
    let mut s = [0u64; 8];
    p.read_csound_input(&mut s);
    assert_eq!(s, [1, 10, 100, 1000, 2, 20, 200, 2000]);
}

#[test]
fn a_missing_side_chain_is_silence() {
    let mut p = CsoundAudioProcessor::new("", 4);
    let main = vec![vec![7u64, 8, 9], vec![70u64, 80, 90]];
    p.write_daw_input_to_buffer_with_side_chain(&main, None, 1, 3);
    let mut s = [5u64; 8];
    p.read_csound_input(&mut s);
    assert_eq!(s, [8, 80, 0, 0, 9, 90, 0, 0]);
}

#[test]
fn output_is_deinterleaved() {
    let mut p = CsoundAudioProcessor::new("", 2);
    // the output starts one engine cycle (4 samples of silence) ahead
    p.write_csound_output(&[1, 10, 2, 20]);
    let first = p.read_daw_output_from_buffer(2, 0, 2);
    assert_eq!(first, vec![vec![0, 0], vec![0, 0]]);
    let second = p.read_daw_output_from_buffer(2, 5, 7);
    assert_eq!(second, vec![vec![1, 2], vec![10, 20]]);
    assert_eq!(p.buffers().output_size(), 0);
}

#[test]
fn the_walk_handles_the_events_due_before_the_end() {
    let count = |n: usize, ts: Vec<usize>| {
        plan_blocks(n, &ts).iter().filter(|s| **s == PlanStep::HandleEvent).count()
    };
    assert_eq!(count(10, vec![0, 4, 9]), 3);
    assert_eq!(count(10, vec![0, 4, 10, 2]), 2);
    assert_eq!(count(10, vec![12]), 0);
    assert_eq!(count(0, vec![0]), 0);
}

#[test]
fn whole_cycles_keep_the_output_one_cycle_ahead() {
    let mut p = CsoundAudioProcessor::new("", 4);
    for _ in 0..3 {
        p.write_csound_output(&[1, 2, 3, 4, 5, 6, 7, 8]);
        let _ = p.read_daw_output_from_buffer(2, 0, 4);
        assert_eq!(p.buffers().output_size(), 8);
    }
}

#[test]
fn a_batch_keeps_the_input_empty_and_the_output_one_cycle_ahead() {
    // stereo in and out, 4 frames per engine cycle, blocks of 8 frames
    let mut p = CsoundAudioProcessor::new(&document(2), 4);
    let left: Vec<u64> = (0..16).collect();
    let right: Vec<u64> = (100..116).collect();
    for block in 0..2 {
        let (start, end) = (block * 8, block * 8 + 8);
        p.write_daw_input_to_buffer_stereo(&vec![left.clone(), right.clone()], start, end);
        for _ in 0..p.csound_cycle_size(start, end) {
            let mut spin = [0u64; 8];
            p.read_csound_input(&mut spin);
            p.write_csound_output(&spin);
        }
        let out = p.read_daw_output_from_buffer(2, start, end);
        assert_eq!(p.buffers().input_size(), 0);
        assert_eq!(p.buffers().output_size(), 8);
        if block == 1 {
            // the engine here echoes its input: output lags one cycle behind
            assert_eq!(out[0], vec![4, 5, 6, 7, 8, 9, 10, 11]);
            assert_eq!(out[1], vec![104, 105, 106, 107, 108, 109, 110, 111]);
        }
    }
}
