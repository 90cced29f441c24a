use endgame::partition::{bean_total, partition_to_index};
use endgame::tables::CountTables;

#[test]
fn count_of_one_pit_is_one() {
    let tables = CountTables::new();
    for beans in 0..=72 {
        assert_eq!(tables.configuration_count(1, beans), 1);
    }
}

#[test]
fn count_of_no_pits_is_zero() {
    let tables = CountTables::new();
    for beans in 0..=72 {
        assert_eq!(tables.configuration_count(0, beans), 0);
    }
}

#[test]
fn count_follows_the_binomials() {
    let tables = CountTables::new();
    assert_eq!(tables.configuration_count(2, 72), 73);
    assert_eq!(tables.configuration_count(3, 72), 2701);
    assert_eq!(tables.configuration_count(12, 0), 1);
    assert_eq!(tables.configuration_count(12, 2), 78);
    assert_eq!(tables.configuration_count(12, 4), 1365);
    assert_eq!(tables.configuration_count(12, 72), 16141841823510);
}

#[test]
fn count_is_the_sum_of_the_row_above() {
    let tables = CountTables::new();
    for pits in 2..=12 {
        for beans in 0..=72 {
            let mut sum = 0u64;
            for k in 0..=beans {
                sum += tables.configuration_count(pits - 1, k);
            }
            assert_eq!(tables.configuration_count(pits, beans), sum);
        }
    }
}

#[test]
fn sums_run_up_to_seventy_two_beans() {
    let tables = CountTables::new();
    assert_eq!(tables.configuration_sum(3, 70), 7885);
    assert_eq!(tables.configuration_sum(12, 73), 0);
    assert_eq!(tables.configuration_sum(12, 72), 16141841823510);
    assert_eq!(tables.configuration_sum(0, 0), 0);
    assert_eq!(tables.configuration_sum(1, 0), 73);
}

#[test]
fn tier_offsets_add_up_the_even_counts() {
    let tables = CountTables::new();
    assert_eq!(tables.even_partitions(0), 0);
    assert_eq!(tables.even_partitions(1), 78);
    assert_eq!(tables.even_partitions(2), 1443);
    assert_eq!(tables.even_partitions(3), 13819);
    assert_eq!(tables.even_partitions(4), 89401);
    let mut sum = 0u64;
    for tier in 1..=36 {
        sum += tables.configuration_count(12, 2 * tier);
        assert_eq!(tables.even_partitions(tier), sum);
    }
}

#[test]
fn bean_total_adds_all_pits() {
    assert_eq!(bean_total(&[0; 12]), 0);
    assert_eq!(bean_total(&[1, 2, 3, 4, 5, 6, 7, 8, 9, 10, 11, 12]), 78);
    assert_eq!(bean_total(&[255; 12]), 3060);
}

#[test]
fn empty_board_has_rank_zero() {
    let tables = CountTables::new();
    assert_eq!(partition_to_index(&tables, &[0; 12]), 0);
}

#[test]
fn ranks_of_chosen_boards() {
    let tables = CountTables::new();
    assert_eq!(partition_to_index(&tables, &[0, 0, 0, 0, 0, 0, 0, 0, 0, 0, 0, 2]), 0);
    assert_eq!(partition_to_index(&tables, &[0, 0, 0, 0, 0, 0, 0, 0, 0, 0, 1, 1]), 1);
    assert_eq!(partition_to_index(&tables, &[0, 0, 0, 0, 0, 0, 1, 1, 0, 0, 0, 0]), 19);
    assert_eq!(partition_to_index(&tables, &[1, 0, 0, 0, 0, 0, 0, 0, 0, 0, 0, 1]), 66);
    assert_eq!(partition_to_index(&tables, &[2, 0, 0, 0, 0, 0, 0, 0, 0, 0, 0, 0]), 77);
    assert_eq!(partition_to_index(&tables, &[0, 0, 0, 0, 0, 0, 0, 0, 0, 0, 0, 4]), 78);
    assert_eq!(partition_to_index(&tables, &[0, 3, 0, 0, 0, 0, 0, 1, 0, 0, 0, 0]), 1072);
    assert_eq!(partition_to_index(&tables, &[1, 1, 0, 0, 0, 0, 0, 0, 0, 0, 1, 1]), 1300);
    assert_eq!(partition_to_index(&tables, &[4, 0, 0, 0, 0, 0, 0, 0, 0, 0, 0, 0]), 1442);
}

#[test]
fn rank_covers_seventy_two_beans() {
    let tables = CountTables::new();
    let mut first = [0u8; 12];
    first[11] = 72;
    let mut last = [0u8; 12];
    last[0] = 72;
    assert_eq!(partition_to_index(&tables, &first), tables.even_partitions(35));
    assert_eq!(partition_to_index(&tables, &last), tables.even_partitions(36) - 1);
    assert_eq!(partition_to_index(&tables, &[6; 12]) < tables.even_partitions(36), true);
}
