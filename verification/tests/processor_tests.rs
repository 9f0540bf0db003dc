use pulse_trader_rust::arrange::arrange;
use pulse_trader_rust::processors::{BatchAction, DataProcessor};

#[test]
fn items_are_cut_into_chunks_for_the_workers() {
    assert_eq!(DataProcessor::new(3, 0).chunk_plan(10), vec![(0, 4), (4, 8), (8, 10)]);
    assert_eq!(DataProcessor::new(4, 0).chunk_plan(10), vec![(0, 3), (3, 6), (6, 9), (9, 10)]);
    assert_eq!(DataProcessor::new(8, 0).chunk_plan(2), vec![(0, 1), (1, 2)]);
    assert_eq!(DataProcessor::new(1, 0).chunk_plan(5), vec![(0, 5)]);
    assert_eq!(DataProcessor::new(5, 0).chunk_plan(5), vec![(0, 1), (1, 2), (2, 3), (3, 4), (4, 5)]);
    assert_eq!(DataProcessor::new(4, 0).chunk_plan(9), vec![(0, 3), (3, 6), (6, 9)]);
    assert!(DataProcessor::new(4, 0).chunk_plan(0).is_empty());
}

#[test]
fn the_chunk_size_is_the_least_that_holds_all_items() {
    assert_eq!(DataProcessor::new(3, 0).chunk_size(10), 4);
    assert_eq!(DataProcessor::new(5, 0).chunk_size(10), 2);
    assert_eq!(DataProcessor::new(10, 0).chunk_size(3), 1);
    assert_eq!(DataProcessor::new(7, 0).chunk_size(0), 0);
    assert_eq!(DataProcessor::new(1, 0).chunk_size(usize::MAX), usize::MAX);
    assert_eq!(DataProcessor::new(usize::MAX, 0).chunk_size(usize::MAX), 1);
}

#[test]
fn chunks_cover_all_items_in_order() {
    for limit in 1..12usize {
        for length in 0..60usize {
            let plan = DataProcessor::new(limit, 0).chunk_plan(length);
            assert!(plan.len() <= limit);
            let mut next = 0;
            for (from, to) in plan {
                assert_eq!(from, next);
                assert!(from < to);
                next = to;
            }
            assert_eq!(next, length);
        }
    }
}

#[test]
fn a_processor_by_default_has_a_worker_for_each_processor() {
    let processor = DataProcessor::with_available_parallelism();
    assert!(processor.concurrency_limit >= 1);
    assert_eq!(processor.concurrency_limit, num_cpus::get());
    assert_eq!(processor.memory_limit, 1024 * 1024 * 1024);
    let given = DataProcessor::new(6, 4096);
    assert_eq!(given.concurrency_limit, 6);
    assert_eq!(given.memory_limit, 4096);
}

#[test]
fn a_processor_by_default_is_the_processor_for_this_machine() {
    let processor = DataProcessor::default();
    assert_eq!(processor, DataProcessor::with_available_parallelism());
    assert_eq!(pulse_trader_rust::VERSION, "0.1.0");
}

#[test]
fn positions_are_arranged_by_key_and_equal_keys_in_their_order() {
    assert_eq!(arrange(&vec![]), Vec::<usize>::new());
    assert_eq!(arrange(&vec![7]), vec![0]);
    assert_eq!(arrange(&vec![3, 1, 2]), vec![1, 2, 0]);
    assert_eq!(arrange(&vec![2, 1, 2, 1, 2]), vec![1, 3, 0, 2, 4]);
    assert_eq!(arrange(&vec![i128::MAX, i128::MIN, 0, -1]), vec![1, 3, 2, 0]);
    assert_eq!(arrange(&vec![5; 6]), vec![0, 1, 2, 3, 4, 5]);
}

#[test]
fn many_positions_are_arranged_in_little_time() {
    let mut state: u64 = 12345;
    let keys: Vec<i128> = (0..300_000)
        .map(|_| {
            state = state.wrapping_mul(6364136223846793005).wrapping_add(1442695040888963407);
            ((state >> 40) % 1000) as i128
        })
        .collect();
    let order = arrange(&keys);
    let mut expected: Vec<usize> = (0..keys.len()).collect();
    expected.sort_by_key(|i| keys[*i]);
    assert_eq!(order, expected);
    let backwards: Vec<i128> = (0..300_000).rev().collect();
    let order = arrange(&backwards);
    assert_eq!(order[0], 299_999);
    assert_eq!(order[299_999], 0);
}

#[test]
fn a_batch_is_handed_over_when_it_is_full_or_the_stream_ends() {
    let processor = DataProcessor::new(2, 0);
    assert_eq!(processor.after_item(1, 3), BatchAction::Hold);
    assert_eq!(processor.after_item(3, 3), BatchAction::Flush);
    assert_eq!(processor.after_item(4, 3), BatchAction::Flush);
    assert_eq!(processor.after_item(1, 0), BatchAction::Flush);
    assert_eq!(processor.at_end(0), BatchAction::Hold);
    assert_eq!(processor.at_end(2), BatchAction::Flush);
}
