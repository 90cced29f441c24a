use endgame::configuration::Configuration;
use endgame::score::{ConfigurationScore, PackedConfigurationScore, ScoreStore};
use endgame::solver::{compute_score, get_simple_scores, list_moves, solve_step, SolveError};
use endgame::tables::CountTables;

fn board(pits: [u8; 12]) -> Configuration {
    Configuration {
        pits,
        player_remaining_skips: 0,
        opponent_remaining_skips: 0,
        cannot_be_skipped: false,
    }
}

fn changed_slots(store: &ScoreStore) -> Vec<(u64, ConfigurationScore)> {
    let mut changed = Vec::new();
    for rank in 0..store.len() as u64 {
        let tag = store.read(rank);
        if tag != ConfigurationScore::NotVisited {
            changed.push((rank, tag));
        }
    }
    changed
}

#[test]
fn pack_gives_the_score_or_a_reserved_byte() {
    assert_eq!(ConfigurationScore::Score(-5).pack(), PackedConfigurationScore(-5));
    assert_eq!(ConfigurationScore::Score(125).pack(), PackedConfigurationScore(125));
    assert_eq!(ConfigurationScore::NotVisited.pack(), PackedConfigurationScore(127));
    assert_eq!(ConfigurationScore::Postponed.pack(), PackedConfigurationScore(126));
}

#[test]
fn unpack_reads_the_reserved_bytes_as_marks() {
    assert_eq!(PackedConfigurationScore(127).unpack(), ConfigurationScore::NotVisited);
    assert_eq!(PackedConfigurationScore(126).unpack(), ConfigurationScore::Postponed);
    assert_eq!(PackedConfigurationScore(125).unpack(), ConfigurationScore::Score(125));
    assert_eq!(PackedConfigurationScore(-128).unpack(), ConfigurationScore::Score(-128));
}

#[test]
fn unpack_undoes_pack() {
    for value in -128..=125i8 {
        let tag = ConfigurationScore::Score(value);
        assert_eq!(tag.pack().unpack(), tag);
    }
    assert_eq!(
        ConfigurationScore::NotVisited.pack().unpack(),
        ConfigurationScore::NotVisited
    );
    assert_eq!(ConfigurationScore::Postponed.pack().unpack(), ConfigurationScore::Postponed);
    for byte in -128..=127i8 {
        assert_eq!(PackedConfigurationScore(byte).unpack().pack(), PackedConfigurationScore(byte));
    }
}

#[test]
fn new_store_has_fifteen_unvisited_slots_a_board() {
    let tables = CountTables::new();
    let store = ScoreStore::new(&tables, 2);
    assert_eq!(store.len(), 1443 * 15);
    assert_eq!(store.max_tier(), 2);
    for rank in 0..store.len() as u64 {
        assert_eq!(store.read(rank), ConfigurationScore::NotVisited);
    }
}

#[test]
fn store_write_overwrites_one_slot() {
    let tables = CountTables::new();
    let mut store = ScoreStore::new(&tables, 1);
    store.write(7, ConfigurationScore::Score(-2));
    store.write(8, ConfigurationScore::Postponed);
    store.write(7, ConfigurationScore::Score(2));
    assert_eq!(
        changed_slots(&store),
        vec![(7, ConfigurationScore::Score(2)), (8, ConfigurationScore::Postponed)]
    );
}

#[test]
fn empty_board_scores_zero_and_touches_no_slot() {
    let tables = CountTables::new();
    let mut store = ScoreStore::new(&tables, 1);
    let empty = board([0; 12]);
    assert_eq!(get_simple_scores(&mut store, &tables, &empty), ConfigurationScore::Score(0));
    assert_eq!(compute_score(&mut store, &tables, &empty), Ok(0));
    assert_eq!(changed_slots(&store), vec![]);
}

#[test]
fn board_with_empty_other_side_scores_all_its_beans() {
    let tables = CountTables::new();
    let mut store = ScoreStore::new(&tables, 2);
    let config = board([1, 0, 0, 3, 0, 0, 0, 0, 0, 0, 0, 0]);
    let slot = config.to_index(&tables);
    assert_eq!(get_simple_scores(&mut store, &tables, &config), ConfigurationScore::Score(4));
    assert_eq!(changed_slots(&store), vec![(slot, ConfigurationScore::Score(4))]);
    assert_eq!(compute_score(&mut store, &tables, &config), Ok(4));
    assert_eq!(changed_slots(&store), vec![(slot, ConfigurationScore::Score(4))]);
}

#[test]
fn simple_score_of_any_other_board_is_its_slot() {
    let tables = CountTables::new();
    let mut store = ScoreStore::new(&tables, 1);
    let config = board([1, 0, 0, 0, 0, 0, 0, 0, 0, 0, 0, 1]);
    let slot = config.to_index(&tables);
    assert_eq!(get_simple_scores(&mut store, &tables, &config), ConfigurationScore::NotVisited);
    store.write(slot, ConfigurationScore::Postponed);
    assert_eq!(get_simple_scores(&mut store, &tables, &config), ConfigurationScore::Postponed);
    store.write(slot, ConfigurationScore::Score(-1));
    assert_eq!(get_simple_scores(&mut store, &tables, &config), ConfigurationScore::Score(-1));
    let terminal = board([2, 0, 0, 0, 0, 0, 0, 0, 0, 0, 0, 0]);
    store.write(terminal.to_index(&tables), ConfigurationScore::Postponed);
    assert_eq!(get_simple_scores(&mut store, &tables, &terminal), ConfigurationScore::Postponed);
}

#[test]
fn moves_are_the_skip_and_the_pits_with_beans() {
    let config = Configuration {
        pits: [1, 0, 0, 0, 1, 0, 0, 0, 0, 0, 0, 2],
        player_remaining_skips: 1,
        opponent_remaining_skips: 0,
        cannot_be_skipped: false,
    };
    let moves = list_moves(&config);
    assert_eq!(moves.len(), 3);
    assert_eq!(moves[0], (config.skip(), 0));
    assert_eq!(moves[1], config.sow(0));
    assert_eq!(moves[2], config.sow(4));
    let flagged = Configuration { cannot_be_skipped: true, ..config };
    assert_eq!(list_moves(&flagged), vec![flagged.sow(0), flagged.sow(4)]);
    let spent = Configuration { player_remaining_skips: 0, ..config };
    assert_eq!(list_moves(&spent), vec![spent.sow(0), spent.sow(4)]);
}

#[test]
fn two_beans_in_the_last_pit_are_won_by_the_side_that_waits() {
    let tables = CountTables::new();
    let mut store = ScoreStore::new(&tables, 1);
    let config = board([0, 0, 0, 0, 0, 0, 0, 0, 0, 0, 0, 2]);
    assert_eq!(compute_score(&mut store, &tables, &config), Ok(2));
    assert_eq!(
        changed_slots(&store),
        vec![
            (0, ConfigurationScore::Score(2)),
            (285, ConfigurationScore::Score(-2)),
            (1125, ConfigurationScore::Score(2)),
        ]
    );
}

#[test]
fn a_skip_turns_the_two_beans_over() {
    let tables = CountTables::new();
    let mut store = ScoreStore::new(&tables, 1);
    let config = Configuration {
        pits: [0, 0, 0, 0, 0, 0, 0, 0, 0, 0, 0, 2],
        player_remaining_skips: 2,
        opponent_remaining_skips: 2,
        cannot_be_skipped: false,
    };
    assert_eq!(compute_score(&mut store, &tables, &config), Ok(-2));
    assert_eq!(
        changed_slots(&store),
        vec![
            (14, ConfigurationScore::Score(-2)),
            (299, ConfigurationScore::Score(-2)),
            (418, ConfigurationScore::Score(2)),
            (1139, ConfigurationScore::Score(2)),
            (1153, ConfigurationScore::Score(2)),
        ]
    );
}

#[test]
fn immediate_capture_of_both_beans() {
    let tables = CountTables::new();
    let mut store = ScoreStore::new(&tables, 1);
    let config = board([0, 0, 0, 0, 0, 0, 1, 1, 0, 0, 0, 0]);
    assert_eq!(compute_score(&mut store, &tables, &config), Ok(-2));
    assert_eq!(store.read(config.to_index(&tables)), ConfigurationScore::Score(-2));
}

#[test]
fn solving_again_changes_nothing() {
    let tables = CountTables::new();
    let mut store = ScoreStore::new(&tables, 2);
    let config = Configuration {
        pits: [1, 1, 0, 0, 0, 0, 0, 0, 0, 0, 1, 1],
        player_remaining_skips: 1,
        opponent_remaining_skips: 2,
        cannot_be_skipped: false,
    };
    let first = compute_score(&mut store, &tables, &config);
    let after_first = changed_slots(&store);
    let second = compute_score(&mut store, &tables, &config);
    assert_eq!(first.is_ok(), true);
    assert_eq!(second, first);
    assert_eq!(changed_slots(&store), after_first);
}

#[test]
fn stored_score_is_the_negated_best_of_the_children() {
    let tables = CountTables::new();
    let mut store = ScoreStore::new(&tables, 2);
    let config = board([1, 1, 0, 0, 0, 0, 0, 0, 0, 0, 1, 1]);
    let value = compute_score(&mut store, &tables, &config).unwrap();
    let mut best: Option<i8> = None;
    for (child, seized) in list_moves(&config.switched()) {
        let score = match get_simple_scores(&mut store, &tables, &child) {
            ConfigurationScore::Score(s) => s + seized as i8,
            other => panic!("child without a score: {:?}", other),
        };
        best = Some(best.map_or(score, |b| b.max(score)));
    }
    assert_eq!(Some(-value), best);
    assert_eq!(value, 0);
}

#[test]
fn postponed_board_with_only_postponed_children_fails() {
    let tables = CountTables::new();
    let mut store = ScoreStore::new(&tables, 1);
    let config = board([0, 0, 0, 0, 0, 0, 0, 0, 0, 0, 0, 2]);
    store.write(0, ConfigurationScore::Postponed);
    store.write(285, ConfigurationScore::Postponed);
    assert_eq!(compute_score(&mut store, &tables, &config), Err(SolveError::PostponedCycle));
}

#[test]
fn postponed_board_without_scored_children_stays_unresolved() {
    let tables = CountTables::new();
    let mut store = ScoreStore::new(&tables, 1);
    let config = board([0, 0, 0, 0, 0, 0, 0, 0, 0, 0, 0, 2]);
    store.write(0, ConfigurationScore::Postponed);
    assert_eq!(compute_score(&mut store, &tables, &config), Err(SolveError::Unresolved));
    assert_eq!(changed_slots(&store), vec![]);
}

#[test]
fn postponed_board_takes_the_score_of_a_skip() {
    let tables = CountTables::new();
    let mut store = ScoreStore::new(&tables, 1);
    let config = Configuration {
        pits: [0, 0, 0, 0, 0, 0, 0, 0, 0, 0, 0, 2],
        player_remaining_skips: 0,
        opponent_remaining_skips: 1,
        cannot_be_skipped: false,
    };
    let sown = config.switched().sow(5).0;
    assert_eq!(config.to_index(&tables), 5);
    assert_eq!(sown.to_index(&tables), 287);
    store.write(5, ConfigurationScore::Postponed);
    store.write(287, ConfigurationScore::Postponed);
    assert_eq!(compute_score(&mut store, &tables, &config), Ok(-2));
    assert_eq!(
        changed_slots(&store),
        vec![
            (5, ConfigurationScore::Score(-2)),
            (287, ConfigurationScore::Postponed),
            (406, ConfigurationScore::Score(2)),
        ]
    );
}

#[test]
fn step_postpones_a_board_with_unvisited_children() {
    let tables = CountTables::new();
    let mut store = ScoreStore::new(&tables, 1);
    let config = board([0, 0, 0, 0, 0, 0, 0, 0, 0, 0, 0, 2]);
    let child = board([0, 0, 0, 0, 0, 0, 1, 1, 0, 0, 0, 0]);
    let mut stack = vec![config];
    assert_eq!(solve_step(&mut store, &tables, &mut stack), false);
    assert_eq!(stack, vec![config, child]);
    assert_eq!(changed_slots(&store), vec![(0, ConfigurationScore::Postponed)]);
    assert_eq!(solve_step(&mut store, &tables, &mut stack), false);
    assert_eq!(stack, vec![config]);
    assert_eq!(store.read(285), ConfigurationScore::Score(-2));
    assert_eq!(solve_step(&mut store, &tables, &mut stack), false);
    assert_eq!(stack, vec![]);
    assert_eq!(store.read(0), ConfigurationScore::Score(2));
}

#[test]
fn step_drops_a_board_that_has_a_score() {
    let tables = CountTables::new();
    let mut store = ScoreStore::new(&tables, 1);
    let config = board([0, 0, 0, 0, 0, 0, 0, 0, 0, 0, 0, 2]);
    store.write(0, ConfigurationScore::Score(1));
    let mut stack = vec![config, config];
    assert_eq!(solve_step(&mut store, &tables, &mut stack), false);
    assert_eq!(stack, vec![config]);
    assert_eq!(changed_slots(&store), vec![(0, ConfigurationScore::Score(1))]);
}
