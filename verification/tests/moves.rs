use endgame::configuration::Configuration;
use endgame::tables::CountTables;

fn board(pits: [u8; 12]) -> Configuration {
    Configuration {
        pits,
        player_remaining_skips: 0,
        opponent_remaining_skips: 0,
        cannot_be_skipped: false,
    }
}

#[test]
fn switched_swaps_the_sides() {
    let config = Configuration {
        pits: [1, 2, 3, 4, 5, 6, 7, 8, 9, 10, 11, 12],
        player_remaining_skips: 2,
        opponent_remaining_skips: 1,
        cannot_be_skipped: true,
    };
    let other = config.switched();
    assert_eq!(other.pits, [7, 8, 9, 10, 11, 12, 1, 2, 3, 4, 5, 6]);
    assert_eq!(other.player_remaining_skips, 1);
    assert_eq!(other.opponent_remaining_skips, 2);
    assert_eq!(other.cannot_be_skipped, true);
    assert_eq!(other.switched(), config);
}

#[test]
fn sow_without_capture() {
    let (after, seized) = board([0, 0, 0, 3, 0, 0, 0, 0, 0, 0, 0, 1]).sow(3);
    assert_eq!(after.pits, [0, 0, 0, 0, 1, 1, 1, 0, 0, 0, 0, 1]);
    assert_eq!(seized, 0);
}

#[test]
fn sow_clears_the_flag_and_keeps_the_counters() {
    let config = Configuration {
        pits: [1, 0, 0, 0, 0, 0, 0, 0, 0, 0, 0, 1],
        player_remaining_skips: 1,
        opponent_remaining_skips: 2,
        cannot_be_skipped: true,
    };
    let (after, seized) = config.sow(0);
    assert_eq!(after.pits, [0, 1, 0, 0, 0, 0, 0, 0, 0, 0, 0, 1]);
    assert_eq!(seized, 0);
    assert_eq!(after.player_remaining_skips, 1);
    assert_eq!(after.opponent_remaining_skips, 2);
    assert_eq!(after.cannot_be_skipped, false);
}

#[test]
fn sow_captures_where_the_last_bean_makes_two() {
    let (after, seized) = board([1, 1, 0, 0, 0, 0, 0, 0, 0, 0, 0, 0]).sow(0);
    assert_eq!(after.pits, [0; 12]);
    assert_eq!(seized, 2);
}

#[test]
fn sow_captures_a_chain_backward() {
    let (after, seized) = board([2, 3, 1, 0, 0, 0, 0, 0, 0, 0, 0, 0]).sow(0);
    assert_eq!(after.pits, [0; 12]);
    assert_eq!(seized, 6);
}

#[test]
fn sow_capture_chain_stops_at_the_first_other_count() {
    let (after, seized) = board([1, 0, 0, 0, 0, 3, 1, 3, 5, 0, 0, 0]).sow(5);
    assert_eq!(after.pits, [1, 0, 0, 0, 0, 0, 0, 0, 0, 0, 0, 0]);
    assert_eq!(seized, 12);
    let (after, seized) = board([0, 0, 0, 0, 2, 2, 0, 4, 1, 0, 0, 0]).sow(5);
    assert_eq!(after.pits, [0, 0, 0, 0, 2, 0, 1, 5, 1, 0, 0, 0]);
    assert_eq!(seized, 0);
    let (after, seized) = board([0, 0, 0, 0, 2, 3, 2, 3, 1, 0, 0, 0]).sow(5);
    assert_eq!(after.pits, [0, 0, 0, 0, 2, 0, 3, 0, 0, 0, 0, 0]);
    assert_eq!(seized, 6);
}

#[test]
fn sow_goes_round_the_ring() {
    let (after, seized) = board([0, 0, 0, 0, 0, 13, 0, 0, 0, 0, 0, 0]).sow(5);
    assert_eq!(after.pits, [1, 1, 1, 1, 1, 1, 0, 1, 1, 1, 1, 1]);
    assert_eq!(seized, 2);
    let (after, seized) = board([0, 0, 12, 0, 0, 0, 0, 0, 0, 0, 0, 0]).sow(2);
    assert_eq!(after.pits, [1; 12]);
    assert_eq!(seized, 0);
}

#[test]
fn sow_keeps_the_beans() {
    let config = board([3, 1, 4, 1, 5, 9, 2, 6, 5, 3, 5, 8]);
    for pit in 0..6u8 {
        let (after, seized) = config.sow(pit);
        let left: u32 = after.pits.iter().map(|&b| b as u32).sum();
        assert_eq!(left + seized as u32, 52);
    }
}

#[test]
fn skip_spends_one_skip_and_sets_the_flag() {
    let config = Configuration {
        pits: [1, 0, 0, 0, 0, 0, 0, 0, 0, 0, 0, 1],
        player_remaining_skips: 2,
        opponent_remaining_skips: 1,
        cannot_be_skipped: false,
    };
    let after = config.skip();
    assert_eq!(after.pits, config.pits);
    assert_eq!(after.player_remaining_skips, 1);
    assert_eq!(after.opponent_remaining_skips, 1);
    assert_eq!(after.cannot_be_skipped, true);
}

#[test]
fn variation_numbers_are_the_fifteen_below_fifteen() {
    let states = [(0u8, false), (0, true), (1, false), (1, true), (2, false)];
    let mut expected = 0u8;
    for opponent in 0..3u8 {
        for &(player, flag) in states.iter() {
            let config = Configuration {
                pits: [0; 12],
                player_remaining_skips: player,
                opponent_remaining_skips: opponent,
                cannot_be_skipped: flag,
            };
            assert_eq!(config.variation_number(), expected);
            expected += 1;
        }
    }
    assert_eq!(expected, 15);
}

#[test]
fn index_is_rank_times_fifteen_plus_variation() {
    let tables = CountTables::new();
    let config = Configuration {
        pits: [0, 3, 0, 0, 0, 0, 0, 1, 0, 0, 0, 0],
        player_remaining_skips: 1,
        opponent_remaining_skips: 2,
        cannot_be_skipped: true,
    };
    assert_eq!(config.to_index(&tables), 1072 * 15 + 13);
    assert_eq!(board([2, 0, 0, 0, 0, 0, 0, 0, 0, 0, 0, 0]).to_index(&tables), 1155);
    assert_eq!(board([0; 12]).to_index(&tables), 0);
}
