use csound_plugin::buffer::{next_power_of_two, ProcessorBuffers};

#[test]
fn next_power_of_two_values() {
    assert_eq!(next_power_of_two(0), 1);
    assert_eq!(next_power_of_two(1), 1);
    assert_eq!(next_power_of_two(3), 4);
    assert_eq!(next_power_of_two(8), 8);
    assert_eq!(next_power_of_two(8000), 8192);
}

#[test]
fn new_buffers_are_empty_and_hold_the_initial_value() {
    let mut b = ProcessorBuffers::new(4, 7);
    assert_eq!(b.input_size(), 0);
    assert_eq!(b.output_size(), 0);
    for i in 0..4 {
        assert_eq!(b.read_output(i), 7);
    }
    let mut s = [0u64; 4];
    b.read_input_into(&mut s);
    assert_eq!(s, [7, 7, 7, 7]);
}

#[test]
fn input_is_first_in_first_out() {
    let mut b = ProcessorBuffers::new(8, 0);
    for (k, x) in [10u64, 11, 12, 13, 14].iter().enumerate() {
        b.write_input(*x, k);
    }
    b.advance_input_write_cursor(5);
    assert_eq!(b.input_size(), 5);
    let mut s = [0u64; 3];
    b.read_input_into(&mut s);
    assert_eq!(s, [10, 11, 12]);
    assert_eq!(b.input_size(), 2);
    let mut t = [0u64; 2];
    b.read_input_into(&mut t);
    assert_eq!(t, [13, 14]);
    assert_eq!(b.input_size(), 0);
}

#[test]
fn input_wraps_around_the_ring() {
    // capacity 3 is rounded up to 4
    let mut b = ProcessorBuffers::new(3, 0);
    let mut next = 1u64;
    for _round in 0..5 {
        b.write_input(next, 0);
        b.write_input(next + 1, 1);
        b.write_input(next + 2, 2);
        b.advance_input_write_cursor(3);
        let mut s = [0u64; 3];
        b.read_input_into(&mut s);
        assert_eq!(s, [next, next + 1, next + 2]);
        next += 3;
    }
}

#[test]
fn reading_more_input_than_written_gives_a_wrapped_size() {
    let mut b = ProcessorBuffers::new(4, 0);
    let mut s = [0u64; 2];
    b.read_input_into(&mut s);
    assert_eq!(b.input_size(), (-2isize) as usize);
}

#[test]
fn output_is_read_back_as_written() {
    let mut b = ProcessorBuffers::new(4, 0);
    b.write_output_latest(&[1, 2, 3]);
    assert_eq!(b.output_size(), 3);
    assert_eq!(b.read_output(0), 1);
    assert_eq!(b.read_output(1), 2);
    assert_eq!(b.read_output(2), 3);
    b.advance_output_read_cursor(3);
    assert_eq!(b.output_size(), 0);
    b.write_output_latest(&[4, 5]);
    assert_eq!(b.read_output(0), 4);
    assert_eq!(b.read_output(1), 5);
}

#[test]
fn a_longer_output_block_keeps_its_latest_samples() {
    let mut b = ProcessorBuffers::new(4, 0);
    b.write_output_latest(&[1, 2, 3, 4, 5, 6]);
    // the ring holds the last four, at their logical positions 2..6
    assert_eq!(b.read_output(2), 3);
    assert_eq!(b.read_output(3), 4);
    assert_eq!(b.read_output(4), 5);
    assert_eq!(b.read_output(5), 6);
    assert_eq!(b.output_size(), 6);
}

#[test]
fn cursors_move_by_the_sizes_given() {
    let mut b = ProcessorBuffers::new(16, 0);
    b.advance_output_write_cursor(10);
    assert_eq!(b.output_size(), 10);
    b.advance_output_read_cursor(4);
    assert_eq!(b.output_size(), 6);
    b.advance_input_write_cursor(3);
    assert_eq!(b.input_size(), 3);
}

#[test]
fn reset_restores_the_initial_state() {
    let mut b = ProcessorBuffers::new(4, 9);
    b.write_input(1, 0);
    b.advance_input_write_cursor(1);
    b.write_output_latest(&[5, 6]);
    b.advance_output_read_cursor(1);
    b.reset();
    assert_eq!(b.input_size(), 0);
    assert_eq!(b.output_size(), 0);
    for i in 0..4 {
        assert_eq!(b.read_output(i), 9);
    }
    let mut s = [0u64; 4];
    b.read_input_into(&mut s);
    assert_eq!(s, [9, 9, 9, 9]);
}

#[test]
fn input_written_in_any_order_reads_back_in_order() {
    let mut b = ProcessorBuffers::new(4, 0);
    b.write_input(30, 2);
    b.write_input(10, 0);
    b.write_input(40, 3);
    b.write_input(20, 1);
    b.write_input(10, 0);
    b.advance_input_write_cursor(4);
    let mut s = [0u64; 4];
    b.read_input_into(&mut s);
    assert_eq!(s, [10, 20, 30, 40]);
    assert_eq!(b.input_size(), 0);
}

#[test]
fn a_reset_buffer_behaves_like_a_new_one() {
    let mut b = ProcessorBuffers::new(5, 3);
    b.write_input(1, 0);
    b.advance_input_write_cursor(6);
    b.write_output_latest(&[7, 7, 7, 7, 7, 7, 7, 7, 7, 7]);
    b.advance_output_read_cursor(2);
    b.reset();
    let mut fresh = ProcessorBuffers::new(5, 3);
    assert_eq!(b.input_size(), fresh.input_size());
    assert_eq!(b.output_size(), fresh.output_size());
    for i in 0..16 {
        assert_eq!(b.read_output(i), fresh.read_output(i));
    }
    let mut s = [0u64; 8];
    let mut t = [0u64; 8];
    b.read_input_into(&mut s);
    fresh.read_input_into(&mut t);
    assert_eq!(s, t);
}

#[test]
fn output_waiting_is_read_before_what_follows() {
    let mut b = ProcessorBuffers::new(8, 0);
    b.write_output_latest(&[1, 2, 3]);
    b.advance_output_read_cursor(1);
    b.write_output_latest(&[4, 5, 6, 7]);
    assert_eq!(b.output_size(), 6);
    let got: Vec<u64> = (0..6).map(|i| b.read_output(i)).collect();
    assert_eq!(got, vec![2, 3, 4, 5, 6, 7]);
}
