use endgame::enumeration::next_partition;
use endgame::partition::{bean_total, partition_to_index};
use endgame::tables::CountTables;

#[test]
fn next_partition_steps_in_dictionary_order() {
    let mut pits = [0u8; 12];
    pits[11] = 2;
    assert_eq!(next_partition(&mut pits), false);
    assert_eq!(pits, [0, 0, 0, 0, 0, 0, 0, 0, 0, 0, 1, 1]);
    assert_eq!(next_partition(&mut pits), false);
    assert_eq!(pits, [0, 0, 0, 0, 0, 0, 0, 0, 0, 0, 2, 0]);
    assert_eq!(next_partition(&mut pits), false);
    assert_eq!(pits, [0, 0, 0, 0, 0, 0, 0, 0, 0, 1, 0, 1]);
}

#[test]
fn next_partition_ends_after_the_board_with_all_beans_in_the_first_pit() {
    let mut pits = [0u8; 12];
    pits[0] = 4;
    assert_eq!(next_partition(&mut pits), true);
    assert_eq!(pits, [0, 0, 0, 0, 0, 0, 0, 0, 0, 0, 0, 3]);
}

#[test]
fn next_partition_moves_one_bean_forward_and_the_rest_to_the_end() {
    let mut pits = [0, 1, 0, 5, 0, 0, 0, 0, 0, 0, 0, 0];
    assert_eq!(next_partition(&mut pits), false);
    assert_eq!(pits, [0, 1, 1, 0, 0, 0, 0, 0, 0, 0, 0, 4]);
}

#[test]
fn ranks_of_two_beans_are_dense_and_distinct() {
    let tables = CountTables::new();
    let mut pits = [0u8; 12];
    pits[11] = 2;
    let mut expected = 0u64;
    loop {
        assert_eq!(bean_total(&pits), 2);
        assert_eq!(partition_to_index(&tables, &pits), expected);
        expected += 1;
        if next_partition(&mut pits) {
            break;
        }
    }
    assert_eq!(expected, 78);
    assert_eq!(expected, tables.configuration_count(12, 2));
}

#[test]
fn ranks_of_six_beans_fill_their_tier() {
    let tables = CountTables::new();
    let mut pits = [0u8; 12];
    pits[11] = 6;
    let mut expected = tables.even_partitions(2);
    loop {
        assert_eq!(partition_to_index(&tables, &pits), expected);
        expected += 1;
        if next_partition(&mut pits) {
            break;
        }
    }
    assert_eq!(expected, tables.even_partitions(3));
}

#[test]
fn next_partition_of_a_single_bean() {
    let mut pits = [0u8; 12];
    pits[11] = 1;
    assert_eq!(next_partition(&mut pits), false);
    assert_eq!(pits, [0, 0, 0, 0, 0, 0, 0, 0, 0, 0, 1, 0]);
    let mut pits = [0u8; 12];
    pits[0] = 1;
    assert_eq!(next_partition(&mut pits), true);
    assert_eq!(pits, [0; 12]);
}

#[test]
fn partitions_of_four_beans_are_all_visited_once() {
    let tables = CountTables::new();
    let mut pits = [0u8; 12];
    pits[11] = 4;
    let mut seen = vec![false; 1365];
    loop {
        let rank = partition_to_index(&tables, &pits) - 78;
        assert_eq!(seen[rank as usize], false);
        seen[rank as usize] = true;
        if next_partition(&mut pits) {
            break;
        }
    }
    assert_eq!(seen.iter().all(|&s| s), true);
    assert_eq!(pits, [0, 0, 0, 0, 0, 0, 0, 0, 0, 0, 0, 3]);
}
