use pipe_slide::board::BoardError;
use pipe_slide::config::search_config;
use pipe_slide::grid::{compute_tree_size_by_bfs, detect_loop, new_grid, reached_cells};
use pipe_slide::moves::{get_legal_actions, Move};
use pipe_slide::queue::StateQueue;
use pipe_slide::search::{beam_search, chokudai_search, climb_step, complete, expand, hill_climbing, BestRecord};
use pipe_slide::state::{best_center, normalized_score, Evaluation, GameState};
use pipe_slide::tile::{convert_single_tile_to_3x3, tile_code};
use rand::rngs::StdRng;
use rand::SeedableRng;

fn chars(rows: &[&str]) -> Vec<Vec<char>> {
    rows.iter().map(|r| r.chars().collect()).collect()
}

fn state(rows: &[&str]) -> GameState {
    match GameState::from_tiles(&chars(rows)) {
        Ok(s) => s,
        Err(e) => panic!("bad board: {:?}", e),
    }
}

fn delta(m: Move) -> (i64, i64) {
    match m {
        Move::Down => (1, 0),
        Move::Right => (0, 1),
        Move::Up => (-1, 0),
        Move::Left => (0, -1),
    }
}

/// Replays the moves from the hole of `root`; panics on a move off the board
/// or one that undoes the previous move.
fn assert_legal_replay(root: &GameState, ops: &[Move]) {
    let n = root.n as i64;
    let (mut r, mut c) = (root.empty.0 as i64, root.empty.1 as i64);
    let mut prev: Option<Move> = None;
    for &m in ops {
        if let Some(p) = prev {
            assert_ne!(m, p.reverse(), "immediate reversal");
        }
        let (dr, dc) = delta(m);
        r += dr;
        c += dc;
        assert!(0 <= r && r < n && 0 <= c && c < n, "blank left the board");
        prev = Some(m);
    }
}

fn letters(rec: &BestRecord) -> String {
    rec.operations.iter().map(|m| m.letter()).collect()
}

#[test]
fn tile_pattern_follows_direction_bits() {
    for code in 0u8..16 {
        let c = std::char::from_digit(code as u32, 16).unwrap();
        let p = convert_single_tile_to_3x3(&c);
        assert_eq!(p.len(), 3);
        assert_eq!(p[0][1], code & 2 != 0, "up of {}", c);
        assert_eq!(p[1][0], code & 1 != 0, "left of {}", c);
        assert_eq!(p[1][2], code & 4 != 0, "right of {}", c);
        assert_eq!(p[2][1], code & 8 != 0, "down of {}", c);
        assert_eq!(p[1][1], code != 0, "centre of {}", c);
        for &(k, l) in &[(0, 0), (0, 2), (2, 0), (2, 2)] {
            assert!(!p[k][l]);
        }
    }
}

#[test]
fn tile_d_is_closed_only_upwards() {
    let p = convert_single_tile_to_3x3(&'d');
    assert_eq!(
        p,
        vec![vec![false, false, false], vec![true, true, true], vec![false, true, false]]
    );
}

#[test]
fn blank_tile_is_all_wall() {
    let p = convert_single_tile_to_3x3(&'0');
    assert!(p.iter().all(|row| row.iter().all(|&x| !x)));
}

#[test]
fn tile_codes() {
    assert_eq!(tile_code('0'), Some(0));
    assert_eq!(tile_code('9'), Some(9));
    assert_eq!(tile_code('a'), Some(10));
    assert_eq!(tile_code('f'), Some(15));
    assert_eq!(tile_code('g'), None);
    assert_eq!(tile_code('A'), None);
}

#[test]
fn isolated_center_has_tree_size_one() {
    let mut b = new_grid(6);
    b[1][1] = true;
    assert_eq!(compute_tree_size_by_bfs(1, 1, 2, &b), 1);
}

#[test]
fn tree_size_is_deterministic() {
    let s = state(&["4c0", "2a8", "619"]);
    let first = compute_tree_size_by_bfs(1, 1, 3, &s.big_board);
    let second = compute_tree_size_by_bfs(1, 1, 3, &s.big_board);
    assert_eq!(first, second);
}

#[test]
fn tree_size_counts_connected_tiles() {
    // right-open tile next to a left-open tile, then an unconnected down tile
    let s = state(&["41", "08"]);
    assert_eq!(compute_tree_size_by_bfs(1, 1, 2, &s.big_board), 2);
    assert_eq!(compute_tree_size_by_bfs(1, 4, 2, &s.big_board), 2);
    assert_eq!(compute_tree_size_by_bfs(4, 4, 2, &s.big_board), 1);
    // the blank centre is a wall: only itself counts
    assert_eq!(compute_tree_size_by_bfs(4, 1, 2, &s.big_board), 1);
}

#[test]
fn reached_cells_marks_the_component() {
    let s = state(&["41", "08"]);
    let v = reached_cells(&s.big_board, 1, 1);
    assert!(!v[1][0] && v[1][1] && v[1][2] && v[1][3] && v[1][4]);
    assert!(!v[1][5]);
    assert!(!v[4][4]);
}

#[test]
fn straight_path_has_no_loop() {
    let s = state(&["451", "880", "231"]);
    assert!(!detect_loop(1, 1, 3, &s.big_board));
    assert!(!detect_loop(1, 4, 3, &s.big_board));
    assert_eq!(compute_tree_size_by_bfs(1, 4, 3, &s.big_board), 3);
}

#[test]
fn tree_shape_has_no_loop() {
    // a T: a left-right bar with a branch down from its middle
    let s = state(&["4d1", "028", "412"]);
    assert!(!detect_loop(1, 4, 3, &s.big_board));
    assert_eq!(compute_tree_size_by_bfs(4, 4, 3, &s.big_board), 4);
}

#[test]
fn four_cycle_is_a_loop() {
    // a 2x2 block of tiles joined on all four sides
    let s = state(&["c90", "638", "124"]);
    assert!(detect_loop(1, 1, 3, &s.big_board));
    assert!(detect_loop(4, 4, 3, &s.big_board));
    assert_eq!(compute_tree_size_by_bfs(1, 1, 3, &s.big_board), 4);
    // a cell outside the cycle's component sees no loop
    assert!(!detect_loop(7, 7, 3, &s.big_board));
}

#[test]
fn board_errors() {
    assert_eq!(GameState::from_tiles(&chars(&["12", "3"])).err(), Some(BoardError::NotSquare));
    assert_eq!(GameState::from_tiles(&chars(&["1g", "30"])).err(), Some(BoardError::BadTile));
    assert_eq!(GameState::from_tiles(&chars(&["12", "34"])).err(), Some(BoardError::BlankCount));
    assert_eq!(GameState::from_tiles(&chars(&["10", "30"])).err(), Some(BoardError::BlankCount));
    assert_eq!(GameState::from_tiles(&Vec::new()).err(), Some(BoardError::BlankCount));
}

#[test]
fn root_state_from_tiles() {
    let s = state(&["41", "08"]);
    assert_eq!(s.n, 2);
    assert_eq!(s.empty, (1, 0));
    assert_eq!(s.big_board.len(), 6);
    assert_eq!(s.tree_size, 2);
    assert!(!s.has_loop);
    assert_eq!(s.turn, 0);
    assert!(s.operation_list.is_empty());
    // the blank block is all wall, the right-open tile shows its pattern
    for k in 3..6 {
        for l in 0..3 {
            assert!(!s.big_board[k][l]);
        }
    }
    assert_eq!(s.big_board[1], vec![false, true, true, true, true, false]);
}

#[test]
fn legal_actions_in_a_corner() {
    let acts = get_legal_actions(&Vec::new(), (0, 0), 3);
    assert_eq!(acts.len(), 2);
    assert!(acts.contains(&Move::Down) && acts.contains(&Move::Right));
}

#[test]
fn legal_actions_never_reverse() {
    let acts = get_legal_actions(&vec![Move::Down], (1, 1), 3);
    assert_eq!(acts.len(), 3);
    assert!(!acts.contains(&Move::Up));
    let acts = get_legal_actions(&vec![Move::Right, Move::Left], (2, 2), 3);
    assert_eq!(acts, vec![Move::Up, Move::Left]);
    let s = state(&["41", "08"]);
    let acts = s.get_legal_actions();
    assert_eq!(acts.len(), 2);
    assert!(acts.contains(&Move::Up) && acts.contains(&Move::Right));
}

#[test]
fn legal_actions_stay_on_board_everywhere() {
    for n in 1..5usize {
        for r in 0..n {
            for c in 0..n {
                for last in [None, Some(Move::Down), Some(Move::Right), Some(Move::Up), Some(Move::Left)] {
                    let ops: Vec<Move> = last.into_iter().collect();
                    for m in get_legal_actions(&ops, (r, c), n) {
                        if let Some(l) = last {
                            assert_ne!(m, l.reverse());
                        }
                        let (dr, dc) = delta(m);
                        let (tr, tc) = (r as i64 + dr, c as i64 + dc);
                        assert!(0 <= tr && tr < n as i64 && 0 <= tc && tc < n as i64);
                    }
                }
            }
        }
    }
}

#[test]
fn advance_slides_the_tile_and_measures() {
    let mut s = state(&["41", "08"]);
    // the blank moves right: the down tile slides left into the hole
    s.advance(Move::Right, Evaluation::AllCenters);
    assert_eq!(s.empty, (1, 1));
    assert_eq!(s.turn, 1);
    assert_eq!(s.operation_list, vec![Move::Right]);
    assert_eq!(s.big_board[5], vec![false, true, false, false, false, false]);
    assert_eq!(s.big_board[4], vec![false, true, false, false, false, false]);
    assert_eq!(s.tree_size, 2);
    assert!(!s.has_loop);
    assert_eq!(s.evaluated_score, 200);
}

#[test]
fn advance_then_reverse_restores_board() {
    let root = state(&["4d1", "028", "412"]);
    for m in root.get_legal_actions() {
        let mut s = root.duplicate();
        s.advance(m, Evaluation::FromMovedTile);
        s.advance(m.reverse(), Evaluation::FromMovedTile);
        assert_eq!(s.big_board, root.big_board);
        assert_eq!(s.empty, root.empty);
        assert_eq!(s.turn, 2);
    }
}

#[test]
fn normalized_score_values() {
    assert_eq!(normalized_score(10, 5, false), 200);
    assert_eq!(normalized_score(10, 5, true), 200);
    assert_eq!(normalized_score(10, 50, true), 20);
    assert_eq!(normalized_score(10, 3, false), 333);
    assert_eq!(normalized_score(1, 1000, true), -10);
    assert_eq!(normalized_score(1, 1000, false), 0);
}

#[test]
fn search_config_table() {
    let c = search_config(7, 100).unwrap();
    assert_eq!((c.beam_number, c.beam_depth, c.epoch, c.beam_width), (150, 90, 400, 1));
    let c = search_config(6, 216).unwrap();
    assert_eq!((c.beam_number, c.beam_depth, c.epoch), (200, 216, 500));
    let c = search_config(10, 2000).unwrap();
    assert_eq!((c.beam_number, c.beam_depth, c.epoch), (30, 1400, 100));
    assert!(search_config(5, 100).is_none());
    assert!(search_config(11, 100).is_none());
}

#[test]
fn move_letters() {
    assert_eq!(Move::Down.letter(), 'D');
    assert_eq!(Move::Right.letter(), 'R');
    assert_eq!(Move::Up.letter(), 'U');
    assert_eq!(Move::Left.letter(), 'L');
    assert_eq!(Move::Left.reverse(), Move::Right);
}

#[test]
fn searches_respect_turn_budget() {
    let root = state(&["4c0", "2a8", "619"]);
    let b = beam_search(&root, 7, 5, 1);
    assert!(b.operations.len() <= 7);
    assert_legal_replay(&root, &b.operations);
    let mut rng = StdRng::seed_from_u64(3);
    let c = chokudai_search(&root, 4, 6, 1, &mut rng);
    assert!(c.operations.len() <= 6);
    assert_legal_replay(&root, &c.operations);
    let mut rng = StdRng::seed_from_u64(3);
    let h = hill_climbing(&root, 9, 3, &mut rng);
    assert!(h.operations.len() <= 9);
    assert_legal_replay(&root, &h.operations);
}

#[test]
fn two_by_two_end_to_end() {
    let root = state(&["12", "40"]);
    let mut rng = StdRng::seed_from_u64(7);
    let c = chokudai_search(&root, 5, 10, 1, &mut rng);
    let out = letters(&c);
    assert!(out.len() <= 10);
    assert!(out.chars().all(|ch| "DRUL".contains(ch)));
    assert_legal_replay(&root, &c.operations);
    let b = beam_search(&root, 10, 4, 1);
    assert!(b.operations.len() <= 10);
    assert_legal_replay(&root, &b.operations);
    let mut rng = StdRng::seed_from_u64(7);
    let h = hill_climbing(&root, 10, 2, &mut rng);
    assert!(h.operations.len() <= 10);
    assert_legal_replay(&root, &h.operations);
}

#[test]
fn complete_board_stops_at_once() {
    // right tile, left-and-down tile, blank, up tile: all three joined
    let root = state(&["49", "02"]);
    assert_eq!(root.tree_size, 3);
    assert!(!root.has_loop);
    let b = beam_search(&root, 10, 4, 1);
    assert_eq!((b.tree_size, b.operations.len()), (3, 0));
    let mut rng = StdRng::seed_from_u64(1);
    let c = chokudai_search(&root, 5, 10, 1, &mut rng);
    assert_eq!((c.tree_size, c.operations.len()), (3, 0));
    let h = hill_climbing(&root, 10, 2, &mut rng);
    assert_eq!((h.tree_size, h.operations.len()), (3, 0));
}

#[test]
fn search_improves_a_scattered_board() {
    // the left-open tile sits apart from the right-open one; one slide joins them
    let root = state(&["40", "21"]);
    assert_eq!(root.tree_size, 1);
    let b = beam_search(&root, 4, 4, 1);
    assert!(b.tree_size >= 2);
    assert_legal_replay(&root, &b.operations);
}

#[test]
fn same_seed_same_answer() {
    let root = state(&["4c0", "2a8", "619"]);
    let mut r1 = StdRng::seed_from_u64(42);
    let mut r2 = StdRng::seed_from_u64(42);
    let a = letters(&chokudai_search(&root, 6, 8, 1, &mut r1));
    let b = letters(&chokudai_search(&root, 6, 8, 1, &mut r2));
    assert_eq!(a, b);
    let mut r1 = StdRng::seed_from_u64(9);
    let mut r2 = StdRng::seed_from_u64(9);
    let a = letters(&hill_climbing(&root, 12, 3, &mut r1));
    let b = letters(&hill_climbing(&root, 12, 3, &mut r2));
    assert_eq!(a, b);
    assert_eq!(letters(&beam_search(&root, 6, 3, 1)), letters(&beam_search(&root, 6, 3, 1)));
}

#[test]
fn shuffled_move_order_varies_with_seed() {
    // with an unshuffled move order every seed would give the same answer
    let root = state(&["4c0", "2a8", "619"]);
    let mut seen = std::collections::HashSet::new();
    for seed in 0..40u64 {
        let mut rng = StdRng::seed_from_u64(seed);
        seen.insert(letters(&hill_climbing(&root, 8, 1, &mut rng)));
    }
    assert!(seen.len() > 1);
}

#[test]
fn queue_pops_largest_key_first_entered() {
    let root = state(&["41", "08"]);
    let mut q = StateQueue::new();
    let mut a = root.duplicate();
    a.tree_size = 11;
    let mut b = root.duplicate();
    b.tree_size = 22;
    let mut c = root.duplicate();
    c.tree_size = 33;
    q.push(5, a);
    q.push(9, b);
    q.push(9, c);
    assert_eq!(q.len(), 3);
    let (k, s) = q.pop_best();
    assert_eq!((k, s.tree_size), (9, 22));
    let (k, s) = q.pop_best();
    assert_eq!((k, s.tree_size), (9, 33));
    let (k, s) = q.pop_best();
    assert_eq!((k, s.tree_size), (5, 11));
    assert!(q.is_empty());
}

#[test]
fn record_takes_only_strictly_better_cycle_free_states() {
    let root = state(&["41", "08"]);
    let mut rec = BestRecord::new();
    assert_eq!(rec.tree_size, 0);
    rec.offer(&root);
    assert_eq!(rec.tree_size, 2);
    let mut looped = root.duplicate();
    looped.tree_size = 3;
    looped.has_loop = true;
    looped.operation_list = vec![Move::Up];
    rec.offer(&looped);
    assert_eq!(rec.tree_size, 2);
    let mut same = root.duplicate();
    same.operation_list = vec![Move::Right];
    rec.offer(&same);
    assert!(rec.operations.is_empty());
    let mut better = root.duplicate();
    better.tree_size = 3;
    better.operation_list = vec![Move::Right];
    rec.offer(&better);
    assert_eq!((rec.tree_size, rec.operations.clone()), (3, vec![Move::Right]));
}

#[test]
fn best_center_finds_first_largest_tree() {
    let s = state(&["4c0", "2a8", "619"]);
    let (i, j, size) = best_center(3, &s.big_board);
    assert_eq!(size, compute_tree_size_by_bfs(3 * i + 1, 3 * j + 1, 3, &s.big_board));
    for r in 0..3 {
        for c in 0..3 {
            assert!(compute_tree_size_by_bfs(3 * r + 1, 3 * c + 1, 3, &s.big_board) <= size);
        }
    }
    assert_eq!(size, s.tree_size);
}

#[test]
fn expand_leaves_the_parent_untouched() {
    let root = state(&["41", "08"]);
    let child = expand(&root, Move::Up, Evaluation::FromMovedTile);
    assert_eq!(child.empty, (0, 0));
    assert_eq!(root.empty, (1, 0));
    assert!(root.operation_list.is_empty());
    assert_eq!(child.operation_list, vec![Move::Up]);
    assert!(!complete(&root));
    assert!(complete(&state(&["49", "02"])));
}

#[test]
fn legal_actions_come_in_fixed_order() {
    assert_eq!(get_legal_actions(&Vec::new(), (0, 0), 2), vec![Move::Down, Move::Right]);
    assert_eq!(
        get_legal_actions(&vec![Move::Right], (1, 1), 3),
        vec![Move::Down, Move::Right, Move::Up]
    );
    assert_eq!(
        get_legal_actions(&Vec::new(), (1, 1), 3),
        vec![Move::Down, Move::Right, Move::Up, Move::Left]
    );
}

#[test]
fn method_lists_same_moves_as_free_function() {
    let mut s = state(&["4d1", "028", "412"]);
    s.advance(Move::Right, Evaluation::FromMovedTile);
    assert_eq!(s.get_legal_actions(), get_legal_actions(&s.operation_list, s.empty, s.n));
    assert_eq!(s.get_legal_actions(), vec![Move::Down, Move::Right, Move::Up]);
}

#[test]
fn beam_search_stops_at_first_complete_state() {
    // sliding the up tile right joins it under the left-and-down tile
    let root = state(&["49", "20"]);
    assert!(!complete(&root));
    let b = beam_search(&root, 10, 4, 3);
    assert_eq!((b.tree_size, b.operations.clone()), (3, vec![Move::Left]));
}

#[test]
fn every_search_improves_on_a_scattered_root() {
    // the right-open and left-open tiles sit apart; one slide joins them
    let root = state(&["40", "21"]);
    assert_eq!(root.tree_size, 1);
    let b = beam_search(&root, 4, 4, 1);
    assert!(b.tree_size > root.tree_size);
    assert!(!b.operations.is_empty());
    let mut rng = StdRng::seed_from_u64(5);
    let c = chokudai_search(&root, 3, 4, 1, &mut rng);
    assert!(c.tree_size > root.tree_size);
    assert!(!c.operations.is_empty());
    let mut rng = StdRng::seed_from_u64(5);
    let h = hill_climbing(&root, 4, 2, &mut rng);
    assert!(h.tree_size > root.tree_size);
    assert!(!h.operations.is_empty());
}

#[test]
fn fixed_seed_gives_fixed_output() {
    let root = state(&["c10", "6a9", "432"]);
    let run = |seed: u64| {
        let mut rng = StdRng::seed_from_u64(seed);
        let c = letters(&chokudai_search(&root, 5, 9, 1, &mut rng));
        let h = letters(&hill_climbing(&root, 9, 4, &mut rng));
        (c, h)
    };
    assert_eq!(run(11), run(11));
    assert_eq!(run(12), run(12));
}

#[test]
fn climb_step_takes_first_improving_move() {
    // Left leaves every tile alone; Down slides the left-open tile up next
    // to the right-open one, a tree of two
    let root = state(&["40", "21"]);
    let next = climb_step(&root, &vec![Move::Left, Move::Down], Evaluation::FromMovedTile);
    assert_eq!(next.operation_list, vec![Move::Down]);
    assert_eq!(next.tree_size, 2);
    // with no improving move the last one tried is taken
    let only = climb_step(&root, &vec![Move::Left], Evaluation::FromMovedTile);
    assert_eq!(only.operation_list, vec![Move::Left]);
    assert_eq!(only.tree_size, 1);
}
