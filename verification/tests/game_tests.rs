use punter::board::State;
use punter::connect::{connecting_river, mines_to_connect, Connection};
use punter::framing::{frame, length_step, merge_move_and_state, LengthStep};
use punter::measure::{
    all_mines_on_board, count_rivers, mine_rivers, num_touch, random_unclaimed_river, rivers_available,
    unclaimed_at_draw, unreached_mines, we_touch,
};
use punter::plans::plans_of_length;
use punter::random::{index_of_draw, random_index};
use punter::score::{all_mines_reach_enough, enemy_score_total, score, score_for};
use punter::search::{distances, my_distances, punter_reaches, reaches_enough_sites, EdgeMode};
use punter::types::{GameMap, Move, Moves, River, Setup, Site, SiteRater};
use std::collections::HashSet;

/// A square board: sites 0..4, rivers 0-1, 1-2, 2-3, 3-0, one mine at 0.
fn square_setup(punter: usize, punters: usize) -> Setup {
    Setup {
        punter,
        punters,
        map: GameMap {
            sites: vec![Site { id: 0 }, Site { id: 1 }, Site { id: 2 }, Site { id: 3 }],
            rivers: vec![
                River { source: 0, target: 1 },
                River { source: 1, target: 2 },
                River { source: 2, target: 3 },
                River { source: 3, target: 0 },
            ],
            mines: vec![0],
        },
    }
}

fn claim(punter: usize, source: usize, target: usize) -> Move {
    Move::Claim { punter, source, target }
}

#[test]
fn new_state_orders_rivers_from_the_mines_outwards() {
    let st = State::new(square_setup(0, 2));
    let sites: Vec<(usize, usize)> = st.riverdata.iter().map(|r| r.sites).collect();
    assert_eq!(sites, vec![(1, 0), (0, 3), (2, 1), (3, 2)]);
    for (i, r) in st.riverdata.iter().enumerate() {
        assert_eq!(r.id, i);
        assert_eq!(r.claimed, None);
        assert_eq!(r.option_claimed, None);
    }
    assert_eq!(st.rivermap[&0][&1], 0);
    assert_eq!(st.rivermap[&1][&0], 0);
    assert_eq!(st.rivermap[&0][&3], 1);
    assert_eq!(st.rivermap[&3][&0], 1);
    assert_eq!(st.rivermap[&1][&2], 2);
    assert_eq!(st.rivermap[&2][&3], 3);
    assert_eq!(st.rivermap.len(), 4);
    assert!(st.is_well_formed());
}

#[test]
fn new_state_reaches_rivers_cut_off_from_the_mines() {
    let setup = Setup {
        punter: 0,
        punters: 2,
        map: GameMap {
            sites: vec![Site { id: 0 }, Site { id: 1 }, Site { id: 5 }, Site { id: 6 }],
            rivers: vec![River { source: 5, target: 6 }, River { source: 0, target: 1 }],
            mines: vec![0],
        },
    };
    let st = State::new(setup);
    let sites: Vec<(usize, usize)> = st.riverdata.iter().map(|r| r.sites).collect();
    assert_eq!(sites, vec![(1, 0), (6, 5)]);
    assert_eq!(st.rivermap[&5][&6], 1);
}

#[test]
fn new_state_without_mines_records_no_river() {
    let mut setup = square_setup(0, 2);
    setup.map.mines = vec![];
    let st = State::new(setup);
    assert!(st.riverdata.is_empty());
    assert_eq!(st.rivermap.len(), 4);
    assert!(st.rivermap.values().all(|t| t.is_empty()));
}

#[test]
fn duplicate_rivers_are_recorded_once_per_round() {
    let setup = Setup {
        punter: 0,
        punters: 2,
        map: GameMap {
            sites: vec![Site { id: 0 }, Site { id: 1 }],
            rivers: vec![River { source: 0, target: 1 }, River { source: 0, target: 1 }],
            mines: vec![0],
        },
    };
    let st = State::new(setup);
    assert_eq!(st.riverdata.len(), 2);
    assert_eq!(st.rivermap[&0][&1], 1);
}

#[test]
fn apply_moves_first_claim_wins_and_passes_change_nothing() {
    let mut st = State::new(square_setup(0, 2));
    let moves = Moves { moves: vec![claim(0, 0, 1), claim(1, 1, 0), Move::Pass { punter: 1 }, claim(1, 2, 1)] };
    assert!(st.moves_on_board(&moves));
    st.apply_moves(moves);
    assert_eq!(st.riverdata[0].claimed, Some(0));
    assert_eq!(st.riverdata[1].claimed, None);
    assert_eq!(st.riverdata[2].claimed, Some(1));
    assert_eq!(st.riverdata[3].claimed, None);
    assert!(st.is_well_formed());
}

#[test]
fn moves_off_the_board_are_detected() {
    let st = State::new(square_setup(0, 2));
    assert!(!st.moves_on_board(&Moves { moves: vec![claim(0, 0, 2)] }));
    assert!(!st.moves_on_board(&Moves { moves: vec![claim(0, 9, 1)] }));
    assert!(st.moves_on_board(&Moves { moves: vec![Move::Pass { punter: 0 }] }));
}

#[test]
fn claim_move_uses_the_recorded_sites() {
    let st = State::new(square_setup(1, 2));
    assert_eq!(st.claim_move(1), Move::Claim { punter: 1, source: 0, target: 3 });
    assert_eq!(st.claim_move(0), Move::Claim { punter: 1, source: 1, target: 0 });
}

#[test]
fn set_claim_changes_one_river() {
    let mut st = State::new(square_setup(0, 2));
    st.set_claim(2, Some(1));
    assert_eq!(st.riverdata[2].claimed, Some(1));
    st.set_claim(2, None);
    assert!(st.riverdata.iter().all(|r| r.claimed.is_none()));
}

#[test]
fn distances_count_rounds_plus_one() {
    let st = State::new(square_setup(0, 2));
    let d = distances(&st, 0);
    assert_eq!(d.len(), 4);
    assert_eq!(d[&0], 0);
    assert_eq!(d[&1], 2);
    assert_eq!(d[&3], 2);
    assert_eq!(d[&2], 3);
}

#[test]
fn boards_with_sites_out_of_reach_are_told_apart() {
    let setup = Setup {
        punter: 0,
        punters: 2,
        map: GameMap {
            sites: vec![Site { id: 0 }, Site { id: 1 }, Site { id: 7 }],
            rivers: vec![River { source: 0, target: 1 }],
            mines: vec![0],
        },
    };
    let st = State::new(setup);
    assert!(!reaches_enough_sites(&st, 0));
    assert!(!all_mines_reach_enough(&st));
    let fit = State::new(square_setup(0, 2));
    assert!(reaches_enough_sites(&fit, 0));
    assert!(reaches_enough_sites(&fit, 2));
    assert!(all_mines_reach_enough(&fit));
}

#[test]
fn a_site_listed_twice_is_out_of_reach() {
    let setup = Setup {
        punter: 0,
        punters: 2,
        map: GameMap {
            sites: vec![Site { id: 0 }, Site { id: 1 }, Site { id: 1 }],
            rivers: vec![River { source: 0, target: 1 }],
            mines: vec![0],
        },
    };
    let st = State::new(setup);
    assert!(!reaches_enough_sites(&st, 0));
}

#[test]
fn distances_on_a_path() {
    let setup = Setup {
        punter: 0,
        punters: 2,
        map: GameMap {
            sites: vec![Site { id: 0 }, Site { id: 1 }, Site { id: 2 }],
            rivers: vec![River { source: 0, target: 1 }, River { source: 1, target: 2 }],
            mines: vec![0],
        },
    };
    let st = State::new(setup);
    assert!(reaches_enough_sites(&st, 0));
    let d = distances(&st, 0);
    assert_eq!(d.len(), 3);
    assert_eq!(d[&0], 0);
    assert_eq!(d[&1], 2);
    assert_eq!(d[&2], 3);
}

#[test]
fn punter_reaches_follows_own_rivers_only() {
    let mut st = State::new(square_setup(0, 2));
    st.apply_moves(Moves { moves: vec![claim(0, 0, 1), claim(0, 1, 2), claim(1, 2, 3)] });
    let r = punter_reaches(&st, 0);
    let expected: HashSet<usize> = [0, 1, 2].iter().cloned().collect();
    assert_eq!(r, expected);
    let none = punter_reaches(&st, 3);
    assert!(none.is_empty());
}

#[test]
fn punter_reaches_includes_the_mine_on_a_cycle() {
    let mut st = State::new(square_setup(0, 2));
    st.apply_moves(Moves { moves: vec![claim(0, 0, 1), claim(0, 1, 2), claim(0, 2, 3), claim(0, 3, 0)] });
    let r = punter_reaches(&st, 0);
    let expected: HashSet<usize> = [0, 1, 2, 3].iter().cloned().collect();
    assert_eq!(r, expected);
}

#[test]
fn my_distances_count_only_rivers_still_to_claim() {
    let mut st = State::new(square_setup(0, 2));
    st.apply_moves(Moves { moves: vec![claim(0, 0, 1), claim(0, 1, 2)] });
    let d = my_distances(&st, 0);
    assert_eq!(d.len(), 4);
    assert_eq!(d[&0], 0);
    assert_eq!(d[&1], 0);
    assert_eq!(d[&2], 0);
    assert_eq!(d[&3], 1);
}

#[test]
fn my_distances_never_cross_rivers_of_others() {
    let mut st = State::new(square_setup(0, 2));
    st.apply_moves(Moves { moves: vec![claim(1, 0, 1), claim(1, 0, 3)] });
    let d = my_distances(&st, 0);
    assert_eq!(d.len(), 1);
    assert_eq!(d[&0], 0);
}

#[test]
fn score_sums_squared_distances_of_reached_sites() {
    let mut st = State::new(square_setup(0, 2));
    st.apply_moves(Moves { moves: vec![claim(0, 0, 1), claim(0, 1, 2), claim(1, 2, 3)] });
    assert_eq!(score(&st), Some(13));
    assert_eq!(score_for(&st, 1), Some(0));
    assert_eq!(enemy_score_total(&st), Some(0));
}

#[test]
fn enemy_score_adds_up_the_other_punters() {
    let mut st = State::new(square_setup(1, 3));
    st.apply_moves(Moves { moves: vec![claim(0, 0, 1), claim(2, 0, 3), claim(1, 1, 2)] });
    assert_eq!(score_for(&st, 0), Some(4));
    assert_eq!(score_for(&st, 2), Some(4));
    assert_eq!(enemy_score_total(&st), Some(8));
    assert_eq!(score(&st), Some(0));
}

#[test]
fn no_rivers_no_score() {
    let st = State::new(square_setup(0, 2));
    assert_eq!(score(&st), Some(0));
}

#[test]
fn score_is_none_for_a_mine_off_the_board() {
    let mut setup = square_setup(0, 2);
    setup.map.mines = vec![42];
    let st = State::new(setup);
    assert!(!all_mines_on_board(&st));
    assert_eq!(score(&st), None);
}

#[test]
fn touching_counts() {
    let mut st = State::new(square_setup(0, 2));
    st.apply_moves(Moves { moves: vec![claim(0, 0, 1), claim(1, 0, 3)] });
    assert!(we_touch(&st, 0));
    assert!(we_touch(&st, 1));
    assert!(!we_touch(&st, 2));
    assert_eq!(num_touch(&st, 0), 1);
    assert_eq!(count_rivers(&st, 0, EdgeMode::All), 2);
    assert_eq!(count_rivers(&st, 0, EdgeMode::Unclaimed), 0);
    assert_eq!(count_rivers(&st, 2, EdgeMode::Unclaimed), 2);
    assert_eq!(count_rivers(&st, 3, EdgeMode::OwnedBy(1)), 1);
}

#[test]
fn rivers_available_are_the_unclaimed_ones() {
    let mut st = State::new(square_setup(0, 2));
    st.apply_moves(Moves { moves: vec![claim(0, 0, 1), claim(1, 2, 3)] });
    assert_eq!(st.unclaimed_rivers(), vec![1, 2]);
    let mut avail = rivers_available(&st);
    avail.sort();
    assert_eq!(avail, vec![1, 2]);
    for _ in 0..20 {
        let r = random_unclaimed_river(&st).unwrap();
        assert!(r == 1 || r == 2);
    }
}

#[test]
fn no_river_left_to_pick() {
    let mut st = State::new(square_setup(0, 2));
    st.apply_moves(Moves { moves: vec![claim(0, 0, 1), claim(0, 1, 2), claim(0, 2, 3), claim(0, 3, 0)] });
    assert!(rivers_available(&st).is_empty());
    assert_eq!(random_unclaimed_river(&st), None);
}

#[test]
fn unreached_mines_and_mine_rivers() {
    let mut setup = square_setup(0, 2);
    setup.map.mines = vec![0, 2];
    let mut st = State::new(setup);
    st.apply_moves(Moves { moves: vec![claim(0, 0, 1)] });
    assert_eq!(unreached_mines(&st), vec![2]);
    let mut rivers = mine_rivers(&st, &vec![0]);
    rivers.sort();
    assert_eq!(rivers, vec![3]);
    let mut rivers = mine_rivers(&st, &vec![0, 2]);
    rivers.sort();
    assert_eq!(rivers, vec![1, 2, 3]);
}

#[test]
fn random_index_is_in_range() {
    for len in 1..50 {
        assert!(random_index(len) < len);
    }
}

#[test]
fn plans_of_one_river_each() {
    assert_eq!(plans_of_length(&[3, 1, 2], 1), vec![vec![3], vec![1], vec![2]]);
}

#[test]
fn plans_are_strictly_increasing() {
    assert_eq!(plans_of_length(&[3, 1, 2], 2), vec![vec![1, 3], vec![1, 2], vec![2, 3]]);
    assert_eq!(plans_of_length(&[3, 1, 2], 3), vec![vec![1, 2, 3]]);
    assert!(plans_of_length(&[3, 1, 2], 4).is_empty());
}

#[test]
fn plans_give_up_past_the_size_limit() {
    let rivers: Vec<usize> = (0..300).collect();
    assert_eq!(plans_of_length(&rivers, 2).len(), 300 * 299 / 2);
    assert!(plans_of_length(&rivers, 3).is_empty());
    let many: Vec<usize> = (0..400).collect();
    assert!(plans_of_length(&many, 2).is_empty());
}

#[test]
fn frame_prefixes_the_length() {
    assert_eq!(frame(b"hello"), b"5:hello".to_vec());
    assert_eq!(frame(b""), b"0:".to_vec());
    let long = vec![b'x'; 123];
    let framed = frame(&long);
    assert_eq!(&framed[..4], b"123:");
    assert_eq!(framed.len(), 127);
}

#[test]
fn length_prefix_reads_back() {
    let framed = frame(&vec![b'y'; 4096]);
    let mut length = 0;
    let mut result = None;
    for &b in framed.iter() {
        match length_step(length, b) {
            LengthStep::More(n) => length = n,
            other => {
                result = Some(other);
                break;
            },
        }
    }
    assert_eq!(result, Some(LengthStep::Done(4096)));
}

#[test]
fn length_step_cases() {
    assert_eq!(length_step(0, b'1'), LengthStep::More(1));
    assert_eq!(length_step(1, b'2'), LengthStep::More(12));
    assert_eq!(length_step(12, b':'), LengthStep::Done(12));
    assert_eq!(length_step(12, b'x'), LengthStep::BadByte);
    assert_eq!(length_step(usize::MAX / 10 + 1, b':'), LengthStep::Overflow);
    assert_eq!(length_step(usize::MAX / 10, b'9'), LengthStep::Overflow);
    assert_eq!(length_step(0, b'0'), LengthStep::More(0));
}

#[test]
fn move_and_state_share_one_object() {
    let merged = merge_move_and_state(br#"{"claim":{"punter":0}}"#, br#"{"punter":0}"#);
    assert_eq!(merged, br#"{"claim":{"punter":0}, "state": {"punter":0}}"#.to_vec());
}

#[test]
fn corrupt_states_are_not_well_formed() {
    let mut st = State::new(square_setup(0, 2));
    st.riverdata[1].id = 7;
    assert!(!st.is_well_formed());
    let mut st = State::new(square_setup(0, 2));
    st.rivermap.get_mut(&0).unwrap().insert(9, 0);
    assert!(!st.is_well_formed());
    let mut st = State::new(square_setup(0, 2));
    st.rivermap.get_mut(&0).unwrap().insert(2, 17);
    assert!(!st.is_well_formed());
}

#[test]
fn site_raters_compare() {
    assert_ne!(SiteRater::Farthest, SiteRater::NotOurs);
    assert_eq!(SiteRater::Farthest, SiteRater::Farthest);
}

#[test]
fn mines_apart_and_the_rivers_that_connect_them() {
    let mut setup = square_setup(0, 2);
    setup.map.mines = vec![0, 2];
    let st = State::new(setup);
    let left = mines_to_connect(&st);
    let expected: HashSet<usize> = [0, 2].iter().cloned().collect();
    assert_eq!(left, expected);
    let c = connecting_river(&st, 0, 2);
    assert!(c == Connection::River(0) || c == Connection::River(3), "{:?}", c);
    assert_eq!(connecting_river(&st, 2, 0), Connection::NotApart);
}

#[test]
fn connected_mines_need_no_river() {
    let mut setup = square_setup(0, 2);
    setup.map.mines = vec![0, 2];
    let mut st = State::new(setup);
    st.apply_moves(Moves { moves: vec![claim(0, 0, 1), claim(0, 1, 2)] });
    assert!(mines_to_connect(&st).is_empty());
    assert_eq!(connecting_river(&st, 0, 2), Connection::NotApart);
}

#[test]
fn rivers_available_come_in_random_order() {
    let setup = Setup {
        punter: 0,
        punters: 2,
        map: GameMap {
            sites: (0..11).map(|id| Site { id }).collect(),
            rivers: (0..10).map(|i| River { source: i, target: i + 1 }).collect(),
            mines: vec![0],
        },
    };
    let st = State::new(setup);
    let in_order: Vec<usize> = (0..10).collect();
    let mut shuffled = false;
    for _ in 0..50 {
        let mut avail = rivers_available(&st);
        if avail != in_order {
            shuffled = true;
        }
        avail.sort();
        assert_eq!(avail, in_order);
    }
    assert!(shuffled);
}

#[test]
fn every_river_of_the_map_can_be_claimed_after_setup() {
    let setup = square_setup(0, 2);
    let rivers = setup.map.rivers.clone();
    let st = State::new(setup);
    for r in rivers.iter() {
        assert!(st.moves_on_board(&Moves { moves: vec![claim(0, r.source, r.target)] }));
        assert!(st.moves_on_board(&Moves { moves: vec![claim(0, r.target, r.source)] }));
    }
}

#[test]
fn a_draw_is_reduced_modulo_the_length() {
    assert_eq!(index_of_draw(7, 3), 1);
    assert_eq!(index_of_draw(0, 5), 0);
    assert_eq!(index_of_draw(4, 5), 4);
    assert_eq!(index_of_draw(usize::MAX, 2), 1);
}

#[test]
fn a_draw_picks_an_unclaimed_river_by_its_remainder() {
    let mut st = State::new(square_setup(0, 2));
    st.apply_moves(Moves { moves: vec![claim(0, 0, 1), claim(1, 2, 3)] });
    assert_eq!(unclaimed_at_draw(&st, 0), Some(1));
    assert_eq!(unclaimed_at_draw(&st, 1), Some(2));
    assert_eq!(unclaimed_at_draw(&st, 5), Some(2));
    assert_eq!(unclaimed_at_draw(&st, 8), Some(1));
    st.apply_moves(Moves { moves: vec![claim(0, 1, 2), claim(1, 3, 0)] });
    assert_eq!(unclaimed_at_draw(&st, 3), None);
}

#[test]
fn our_own_claim_takes_exactly_that_river() {
    for r in 0..4 {
        let mut st = State::new(square_setup(1, 2));
        let mv = st.claim_move(r);
        let moves = Moves { moves: vec![mv] };
        assert!(st.moves_on_board(&moves));
        st.apply_moves(moves);
        for i in 0..4 {
            let expected = if i == r { Some(1) } else { None };
            assert_eq!(st.riverdata[i].claimed, expected);
        }
    }
}

#[test]
fn rivers_listed_far_first_are_recorded_near_first() {
    let setup = Setup {
        punter: 0,
        punters: 2,
        map: GameMap {
            sites: vec![Site { id: 0 }, Site { id: 1 }, Site { id: 2 }, Site { id: 3 }, Site { id: 4 }],
            rivers: vec![
                River { source: 3, target: 4 },
                River { source: 2, target: 3 },
                River { source: 1, target: 2 },
                River { source: 0, target: 1 },
            ],
            mines: vec![0],
        },
    };
    let st = State::new(setup);
    let sites: Vec<(usize, usize)> = st.riverdata.iter().map(|r| r.sites).collect();
    assert_eq!(sites, vec![(1, 0), (2, 1), (3, 2), (4, 3)]);
}

#[test]
fn a_river_between_two_mines_is_listed_for_each() {
    let mut setup = square_setup(0, 2);
    setup.map.mines = vec![0, 1];
    let st = State::new(setup);
    let mut rivers = mine_rivers(&st, &vec![0, 1]);
    rivers.sort();
    assert_eq!(rivers, vec![0, 0, 1, 2]);
}
