use square1_solver::square1::Square1;
use square1_solver::state::statecs::StateCS;
use square1_solver::state::statesqsq::StateSqSq;
use square1_solver::state::State;
use square1_solver::table::postable::PosTable;
use square1_solver::table::{format_duration, Action, CompactSearch, Event, Phase, SliceCountTable};

type Table = SliceCountTable<StateCS>;

fn generated() -> Table {
    let mut table = Table::new();
    table.generate();
    table
}

#[test]
fn an_empty_table_holds_the_mark_everywhere() {
    let table = Table::new();
    assert_eq!(table.table, vec![255u8; 57]);
    assert_eq!(table.filled, 0);
    assert!(!table.table_is_full());
    for index in 0..113 {
        assert_eq!(Table::read(&table.table, index), 15);
        assert!(Table::is_unset(&table.table, index));
    }
}

#[test]
fn an_entry_is_written_once() {
    let mut bytes = vec![255u8; 3];
    assert_eq!(Table::write_shared(&mut bytes, 2, 4), Ok(()));
    assert_eq!(bytes, vec![255, 0x4f, 255]);
    assert_eq!(Table::write_shared(&mut bytes, 2, 7), Err(()));
    assert_eq!(bytes, vec![255, 0x4f, 255]);
    assert_eq!(Table::write_shared(&mut bytes, 3, 0), Ok(()));
    assert_eq!(bytes, vec![255, 0x40, 255]);
    assert_eq!(Table::write_shared(&mut bytes, 3, 9), Err(()));
    assert_eq!(Table::write_locked(&mut bytes, 3, 9), Err(()));
    assert_eq!(Table::write_locked(&mut bytes, 5, 12), Ok(()));
    assert_eq!(bytes, vec![255, 0x40, 0xfc]);
    assert_eq!(Table::read(&bytes, 2), 4);
    assert_eq!(Table::read(&bytes, 3), 0);
    assert_eq!(Table::read(&bytes, 4), 15);
    assert_eq!(Table::read(&bytes, 5), 12);
    assert!(!Table::is_unset(&bytes, 5));
    assert!(Table::is_unset(&bytes, 4));
}

#[test]
fn the_coarse_table_is_complete() {
    let table = generated();
    assert_eq!(table.table.len(), 57);
    assert!(table.table_is_full());
    let mut depths = [0usize; 16];
    for index in 0..113 {
        let depth = Table::read(&table.table, index);
        assert!(depth <= 7);
        depths[depth as usize] += 1;
    }
    assert_eq!(depths.iter().sum::<usize>(), 113);
    assert_eq!(depths[0], 1);
    assert!(depths[7] > 0);
    let solved = StateCS::new(Square1::solved()).get_index();
    assert_eq!(Table::read(&table.table, solved), 0);
}

#[test]
fn a_configuration_lies_one_slice_move_further_than_its_best_neighbour() {
    let table = generated();
    let mut level = vec![Square1::solved().get_num()];
    for _ in 0..3 {
        let mut next = vec![];
        for num in &level {
            let here = Table::read(&table.table, StateCS::new(Square1::from_num(*num)).get_index());
            for after in StateCS::gen_next_positions(*num) {
                let index = StateCS::new(Square1::from_num(after)).get_index();
                let there = Table::read(&table.table, index);
                assert!(there <= here + 1);
                if next.len() < 50 {
                    next.push(after);
                }
            }
        }
        level = next;
    }
}

#[test]
fn a_level_read_in_chunks_gives_what_the_level_read_at_once_gives() {
    let mut whole = Table::new();
    let mut in_chunks = Table::new();
    let mut level = whole.start();
    in_chunks.start();
    let mut compared = 0;
    for depth in 1..7 {
        let at_once = whole.expand_chunk(&level, depth, false);
        let mut pieces = vec![];
        for chunk in level.chunks(1) {
            pieces.extend(in_chunks.expand_chunk(&chunk.to_vec(), depth, false));
        }
        assert_eq!(pieces, at_once);
        assert_eq!(in_chunks.table, whole.table);
        assert_eq!(in_chunks.filled, whole.filled);
        if level.len() > 1 {
            compared += 1;
        }
        level = at_once;
    }
    assert!(compared > 0);
}

#[test]
fn nothing_is_kept_at_the_greatest_depth() {
    let mut table = Table::new();
    let first = table.start();
    let kept = table.expand_chunk(&first, 1, true);
    assert!(kept.is_empty());
    assert!(table.filled > 1);
}

#[test]
fn a_chunk_that_the_indexing_does_not_cover_is_not_taken() {
    let mut table = Table::new();
    table.start();
    let before = table.table.clone();
    assert_eq!(table.expand_chunk_checked(&vec![0], 1, false), None);
    assert_eq!(table.expand_chunk_checked(&vec![Square1::solved().get_num()], 7, false), None);
    assert_eq!(table.table, before);
    assert!(table.expand_chunk_checked(&vec![Square1::solved().get_num()], 1, false).is_some());
    assert!(Table::accepts_all(&vec![]));
    assert!(!Table::accepts_all(&vec![Square1::solved().get_num(), 7]));
}

#[test]
fn the_rest_is_filled_with_the_greatest_depth() {
    let mut table = Table::new();
    table.start();
    table.fill_rest();
    assert!(table.table_is_full());
    let solved = StateCS::new(Square1::solved()).get_index();
    for index in 0..114 {
        let expected = if index == solved { 0 } else { 7 };
        assert_eq!(Table::read(&table.table, index), expected);
    }
}

fn run_compact(block: usize) -> Vec<u8> {
    let mut search: CompactSearch<StateCS> = CompactSearch::new();
    let mut stores: Vec<Vec<u8>> = vec![];
    let mut read_at = 0usize;
    let mut action = search.step(Event::Begin);
    let mut steps = 0;
    loop {
        steps += 1;
        assert!(steps < 100_000);
        action = match action {
            Action::Write { depth, bytes } => {
                while stores.len() <= depth as usize {
                    stores.push(vec![]);
                }
                stores[depth as usize].extend(bytes);
                search.step(Event::Written)
            }
            Action::Read { depth } => {
                let store = &stores[depth as usize];
                let end = (read_at + block).min(store.len());
                let bytes = store[read_at..end].to_vec();
                read_at = end;
                search.step(Event::Chunk(bytes))
            }
            Action::Discard { depth } => {
                stores[depth as usize].clear();
                read_at = 0;
                search.step(Event::Discarded)
            }
            Action::Done => break,
            Action::Failed => panic!("the search failed"),
        };
    }
    assert_eq!(search.phase, Phase::Finished);
    search.table.table
}

#[test]
fn the_search_with_a_store_gives_the_table_of_the_search_in_memory() {
    let in_memory = generated().table;
    assert_eq!(run_compact(8), in_memory);
    assert_eq!(run_compact(64), in_memory);
    assert_eq!(run_compact(1 << 20), in_memory);
}

#[test]
fn the_search_run_in_memory_gives_the_table_of_the_search_in_memory() {
    let in_memory = generated();
    for block in [1, 2, 7, 1000] {
        let run = CompactSearch::<StateCS>::run_in_memory(block).unwrap();
        assert_eq!(run.table, in_memory.table);
        assert_eq!(run.filled, in_memory.filled);
    }
}

#[test]
fn the_search_says_what_to_read_and_write() {
    let mut search: CompactSearch<StateCS> = CompactSearch::new();
    let solved: Vec<u8> = Square1::solved().get_num().to_le_bytes().to_vec();
    match search.step(Event::Begin) {
        Action::Write { depth, bytes } => {
            assert_eq!(depth, 0);
            assert_eq!(bytes, solved);
        }
        _ => panic!("the first level is not written"),
    }
    assert!(matches!(search.step(Event::Written), Action::Read { depth: 0 }));
    let first = match search.step(Event::Chunk(solved.clone())) {
        Action::Write { depth, bytes } => {
            assert_eq!(depth, 1);
            bytes
        }
        _ => panic!("the second level is not written"),
    };
    let mut table = Table::new();
    let start = table.start();
    let next = table.expand_chunk(&start, 1, false);
    let expected: Vec<u8> = next.iter().flat_map(|value| value.to_le_bytes()).collect();
    assert_eq!(first, expected);
    assert_eq!(search.table.table, table.table);
    assert!(matches!(search.step(Event::Written), Action::Read { depth: 0 }));
    assert!(matches!(search.step(Event::Chunk(vec![])), Action::Discard { depth: 0 }));
    assert!(matches!(search.step(Event::Discarded), Action::Read { depth: 1 }));
    // A configuration that the indexing does not cover.
    assert!(matches!(search.step(Event::Chunk(vec![0; 8])), Action::Failed));
    assert_eq!(search.table.table, table.table);
}

#[test]
fn the_search_fails_on_a_report_out_of_order() {
    let mut search: CompactSearch<StateCS> = CompactSearch::new();
    assert!(matches!(search.step(Event::Written), Action::Failed));
    assert_eq!(search.phase, Phase::Failed);
    let mut search: CompactSearch<StateCS> = CompactSearch::new();
    assert!(matches!(search.step(Event::Begin), Action::Write { depth: 0, .. }));
    assert!(matches!(search.step(Event::Written), Action::Read { depth: 0 }));
    assert!(matches!(search.step(Event::Chunk(vec![1, 2, 3])), Action::Failed));
    let mut search: CompactSearch<StateCS> = CompactSearch::new();
    search.step(Event::Begin);
    search.step(Event::Written);
    assert!(matches!(search.step(Event::Chunk(vec![0; 8])), Action::Failed));
}

#[test]
fn a_store_counts_what_is_written_and_gives_it_back() {
    let mut store = PosTable::new("closed", 3);
    assert_eq!(store.path, "temp/closed_3.bin");
    assert!(store.is_empty());
    assert_eq!(store.len(), 0);
    let values = vec![0x0123_4567_89ab_cdefu64, 1, u64::MAX, 0];
    let bytes = store.write_chunk(&values);
    assert_eq!(bytes.len(), 32);
    assert_eq!(&bytes[..8], &[0xef, 0xcd, 0xab, 0x89, 0x67, 0x45, 0x23, 0x01]);
    assert_eq!(&bytes[8..16], &[1, 0, 0, 0, 0, 0, 0, 0]);
    let low_first: Vec<u8> = values.iter().flat_map(|value| value.to_le_bytes()).collect();
    assert_eq!(bytes, low_first);
    assert_eq!(
        store.read_chunk(&vec![0, 1, 0, 0, 0, 0, 0, 0, 0xff, 0, 0, 0, 0, 0, 0, 0x80]),
        Some(vec![256, 0x8000_0000_0000_00ff])
    );
    assert!(!store.is_empty());
    assert_eq!(store.len(), 4);
    let more = store.write_chunk(&vec![5, 6]);
    assert_eq!(more.len(), 16);
    assert_eq!(store.len(), 6);
    assert_eq!(store.read_chunk(&bytes), Some(values));
    assert_eq!(store.read_chunk(&more), Some(vec![5, 6]));
    assert_eq!(store.read_chunk(&vec![]), None);
    assert_eq!(PosTable::new("opened", 12).path, "temp/opened_12.bin");
}

#[test]
fn the_table_of_an_indexing_has_its_file() {
    assert_eq!(Table::get_file_name(), "slice_count_tables/table_cs.bin");
    assert_eq!(
        SliceCountTable::<StateSqSq>::get_file_name(),
        "slice_count_tables/table_sqsq.bin"
    );
}

#[test]
fn the_first_levels_of_two_squares_are_found() {
    let mut table: SliceCountTable<StateSqSq> = SliceCountTable::new();
    assert_eq!(table.table.len(), 1_814_400);
    let first = table.start();
    assert_eq!(table.filled, 1);
    let second = table.expand_chunk(&first, 1, false);
    assert!(!second.is_empty());
    assert!(second.len() <= 16);
    let filled = table.filled;
    let third = table.expand_chunk(&second, 2, false);
    assert!(table.filled > filled);
    assert!(third.len() <= 16 * second.len());
    let solved = StateSqSq::new(Square1::solved()).get_index();
    assert_eq!(SliceCountTable::<StateSqSq>::read(&table.table, solved), 0);
    let mut written = 0;
    for index in 0..StateSqSq::SIZE {
        let depth = SliceCountTable::<StateSqSq>::read(&table.table, index);
        assert!(depth == 15 || depth <= 2);
        if depth != 15 {
            written += 1;
        }
    }
    assert_eq!(written, table.filled);
}

#[test]
fn symmetric_indices_hold_the_depth_of_the_index() {
    let mut table: SliceCountTable<StateSqSq> = SliceCountTable::new();
    let first = table.start();
    let second = table.expand_chunk(&first, 1, false);
    let third = table.expand_chunk(&second, 2, false);
    let mut seen = 0;
    for &num in first.iter().chain(second.iter()).chain(third.iter()) {
        let mut state = StateSqSq::new(Square1::from_num(num));
        let index = state.get_index();
        let depth = SliceCountTable::<StateSqSq>::read(&table.table, index);
        assert!(depth <= 2);
        for symmetric in state.get_symmetric_indecies() {
            assert_eq!(SliceCountTable::<StateSqSq>::read(&table.table, symmetric), depth);
            seen += 1;
        }
    }
    assert!(seen > 0);
}

#[test]
fn a_time_span_is_written_in_its_greatest_units() {
    assert_eq!(format_duration(2 * 3600 + 5 * 60, 0), "2h 60min");
    assert_eq!(format_duration(61 * 60, 999_999_999), "1h 60min");
    assert_eq!(format_duration(64 * 60, 0), "1h  0min");
    assert_eq!(format_duration(90, 0), "1min 24s");
    assert_eq!(format_duration(60 * 60 + 59, 0), "60min  8s");
    assert_eq!(format_duration(64, 0), "1min  0s");
    assert_eq!(format_duration(5, 0), "5.00s");
    assert_eq!(format_duration(1, 500_000_000), "1.50s");
    assert_eq!(format_duration(0, 45_600_000), "45.60ms");
    assert_eq!(format_duration(0, 0), "0.00ns");
}
