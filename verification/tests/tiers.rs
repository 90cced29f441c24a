use endgame::configuration::Configuration;
use endgame::score::{ConfigurationScore, ScoreStore};
use endgame::solver::SolveError;
use endgame::tablebase::{solve_tier, tier_bytes, tier_is_finished, UnfinishedScore};
use endgame::tables::CountTables;

#[test]
fn first_tier_is_solved_and_written() {
    let tables = CountTables::new();
    let mut store = ScoreStore::new(&tables, 1);
    assert_eq!(tier_is_finished(&store, &tables, 1), false);
    assert_eq!(solve_tier(&mut store, &tables, 1), Ok(()));
    assert_eq!(tier_is_finished(&store, &tables, 1), true);
    let bytes = tier_bytes(&store, &tables, 1).unwrap();
    assert_eq!(bytes.len(), 1170);
    assert_eq!(
        bytes[..15].to_vec(),
        vec![2, 2, 2, 2, 2, 254, 2, 254, 2, 254, 254, 2, 254, 2, 254]
    );
    assert_eq!(bytes[15..30].to_vec(), vec![254u8; 15]);
    assert_eq!(bytes[1155..].to_vec(), vec![2u8; 15]);
    assert_eq!(bytes.iter().map(|&b| b as u64).sum::<u64>(), 143208);
    for rank in 0..1170u64 {
        assert_eq!(
            store.read(rank),
            ConfigurationScore::Score(bytes[rank as usize] as i8)
        );
    }
}

#[test]
fn second_tier_follows_the_first_in_the_file() {
    let tables = CountTables::new();
    let mut store = ScoreStore::new(&tables, 2);
    assert_eq!(solve_tier(&mut store, &tables, 1), Ok(()));
    let first = tier_bytes(&store, &tables, 1).unwrap();
    assert_eq!(solve_tier(&mut store, &tables, 2), Ok(()));
    assert_eq!(tier_bytes(&store, &tables, 1).unwrap(), first);
    let second = tier_bytes(&store, &tables, 2).unwrap();
    assert_eq!(second.len(), 20475);
    assert_eq!(
        second[..15].to_vec(),
        vec![4, 4, 4, 4, 4, 252, 4, 252, 4, 252, 252, 4, 252, 4, 252]
    );
    assert_eq!(second[20460..].to_vec(), vec![4u8; 15]);
    assert_eq!(second.iter().map(|&b| b as u64).sum::<u64>(), 1817880);
    let config = Configuration {
        pits: [0, 3, 0, 0, 0, 0, 0, 1, 0, 0, 0, 0],
        player_remaining_skips: 2,
        opponent_remaining_skips: 2,
        cannot_be_skipped: false,
    };
    assert_eq!(config.to_index(&tables), 16094);
    assert_eq!(second[16094 - 1170], 4);
    assert_eq!(second[19500 - 1170], 0);
}

#[test]
fn second_tier_alone_resolves_the_first_where_it_needs_it() {
    let tables = CountTables::new();
    let mut whole = ScoreStore::new(&tables, 2);
    assert_eq!(solve_tier(&mut whole, &tables, 1), Ok(()));
    assert_eq!(solve_tier(&mut whole, &tables, 2), Ok(()));
    let mut alone = ScoreStore::new(&tables, 2);
    assert_eq!(solve_tier(&mut alone, &tables, 2), Ok(()));
    assert_eq!(tier_bytes(&alone, &tables, 2), tier_bytes(&whole, &tables, 2));
}

#[test]
fn unfinished_tier_is_not_written() {
    let tables = CountTables::new();
    let mut store = ScoreStore::new(&tables, 1);
    assert_eq!(tier_bytes(&store, &tables, 1), Err(UnfinishedScore { rank: 0 }));
    assert_eq!(solve_tier(&mut store, &tables, 1), Ok(()));
    store.write(700, ConfigurationScore::Postponed);
    store.write(900, ConfigurationScore::NotVisited);
    assert_eq!(tier_is_finished(&store, &tables, 1), false);
    assert_eq!(tier_bytes(&store, &tables, 1), Err(UnfinishedScore { rank: 700 }));
    store.write(700, ConfigurationScore::Score(0));
    assert_eq!(tier_bytes(&store, &tables, 1), Err(UnfinishedScore { rank: 900 }));
}

#[test]
fn reserved_values_are_not_written_as_scores() {
    let tables = CountTables::new();
    let mut store = ScoreStore::new(&tables, 1);
    assert_eq!(solve_tier(&mut store, &tables, 1), Ok(()));
    store.write(3, ConfigurationScore::Score(126));
    assert_eq!(tier_bytes(&store, &tables, 1), Err(UnfinishedScore { rank: 3 }));
    store.write(3, ConfigurationScore::Score(127));
    assert_eq!(tier_bytes(&store, &tables, 1), Err(UnfinishedScore { rank: 3 }));
    store.write(3, ConfigurationScore::Score(125));
    assert_eq!(tier_bytes(&store, &tables, 1).unwrap()[3], 125);
    store.write(3, ConfigurationScore::Score(-127));
    assert_eq!(tier_bytes(&store, &tables, 1).unwrap()[3], 129);
}

#[test]
fn tier_with_a_search_that_fails_is_given_up() {
    let tables = CountTables::new();
    let mut store = ScoreStore::new(&tables, 1);
    store.write(0, ConfigurationScore::Postponed);
    store.write(285, ConfigurationScore::Postponed);
    assert_eq!(solve_tier(&mut store, &tables, 1), Err(SolveError::PostponedCycle));
    assert_eq!(store.read(1169), ConfigurationScore::NotVisited);
}

fn digest(bytes: &[u8]) -> u64 {
    let mut hash = 0u64;
    for &byte in bytes {
        hash = (hash * 31 + byte as u64) % 1_000_000_007;
    }
    hash
}

#[test]
fn three_tiers_give_the_known_tablebase() {
    let tables = CountTables::new();
    let mut store = ScoreStore::new(&tables, 3);
    let expected = [
        (1170usize, 143208u64, 249653411u64),
        (20475, 1817880, 107870354),
        (185640, 25281964, 81284639),
    ];
    for tier in 1..=3usize {
        assert_eq!(solve_tier(&mut store, &tables, tier), Ok(()));
        let bytes = tier_bytes(&store, &tables, tier).unwrap();
        let (len, sum, hash) = expected[tier - 1];
        assert_eq!(bytes.len(), len);
        assert_eq!(bytes.iter().map(|&b| b as u64).sum::<u64>(), sum);
        assert_eq!(digest(&bytes), hash);
    }
}

#[test]
fn tier_with_a_slot_left_open_is_unresolved() {
    let tables = CountTables::new();
    let mut store = ScoreStore::new(&tables, 1);
    store.write(0, ConfigurationScore::Postponed);
    assert_eq!(solve_tier(&mut store, &tables, 1), Err(SolveError::Unresolved));
    assert_eq!(store.read(0), ConfigurationScore::NotVisited);
    assert_eq!(store.read(1), ConfigurationScore::Score(2));
    assert_eq!(tier_is_finished(&store, &tables, 1), false);
    assert_eq!(tier_bytes(&store, &tables, 1), Err(UnfinishedScore { rank: 0 }));
}

#[test]
fn two_bean_boards_have_their_bytes_at_their_ranks() {
    let tables = CountTables::new();
    let mut store = ScoreStore::new(&tables, 1);
    assert_eq!(solve_tier(&mut store, &tables, 1), Ok(()));
    let bytes = tier_bytes(&store, &tables, 1).unwrap();
    let waiting = Configuration {
        pits: [0, 0, 0, 0, 0, 0, 0, 0, 0, 0, 0, 2],
        player_remaining_skips: 0,
        opponent_remaining_skips: 0,
        cannot_be_skipped: false,
    };
    let captured = Configuration {
        pits: [0, 0, 0, 0, 0, 0, 1, 1, 0, 0, 0, 0],
        player_remaining_skips: 0,
        opponent_remaining_skips: 0,
        cannot_be_skipped: false,
    };
    assert_eq!(waiting.to_index(&tables), 0);
    assert_eq!(bytes[0], 2);
    assert_eq!(captured.to_index(&tables), 285);
    assert_eq!(bytes[285], 254);
}
