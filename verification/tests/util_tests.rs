use memsim::FrameRange;
use memsim::PageReplacementAlgorithm;
use memsim::SizeArgument;
use memsim::add_index_to_vec_of_ranges;
use memsim::ceil_div;

#[test]
fn ceil_div_rounds_up() {
    assert_eq!(ceil_div(40, 16), 3);
    assert_eq!(ceil_div(32, 16), 2);
    assert_eq!(ceil_div(1, 16), 1);
    assert_eq!(ceil_div(0, 16), 0);
    assert_eq!(ceil_div(17, 16), 2);
    assert_eq!(ceil_div(7, 1), 7);
}

#[test]
fn adjacent_indices_coalesce_into_one_range() {
    let mut ranges: Vec<FrameRange> = Vec::new();
    add_index_to_vec_of_ranges(3, &mut ranges);
    add_index_to_vec_of_ranges(4, &mut ranges);
    add_index_to_vec_of_ranges(5, &mut ranges);
    assert_eq!(ranges, vec![FrameRange { start: 3, end: 5 }]);
}

#[test]
fn a_gap_starts_a_new_range() {
    let mut ranges: Vec<FrameRange> = Vec::new();
    add_index_to_vec_of_ranges(0, &mut ranges);
    add_index_to_vec_of_ranges(1, &mut ranges);
    add_index_to_vec_of_ranges(5, &mut ranges);
    add_index_to_vec_of_ranges(6, &mut ranges);
    add_index_to_vec_of_ranges(9, &mut ranges);
    assert_eq!(
        ranges,
        vec![
            FrameRange { start: 0, end: 1 },
            FrameRange { start: 5, end: 6 },
            FrameRange { start: 9, end: 9 },
        ]
    );
}

#[test]
fn algorithm_names() {
    assert_eq!(PageReplacementAlgorithm::FIFO.as_str(), "fifo");
    assert_eq!(PageReplacementAlgorithm::LRU.as_str(), "lru");
    assert_eq!(PageReplacementAlgorithm::Random.as_str(), "rand");
}

#[test]
fn size_argument_names_and_defaults() {
    assert_eq!(SizeArgument::Page.as_str(), "page size");
    assert_eq!(SizeArgument::RealMemory.as_str(), "real memory size");
    assert_eq!(SizeArgument::SwapSpace.as_str(), "swap space size");
    assert_eq!(SizeArgument::Page.default(), 16);
    assert_eq!(SizeArgument::RealMemory.default(), 2048);
    assert_eq!(SizeArgument::SwapSpace.default(), 4096);
}
