use minesweeper::board::Board;
use minesweeper::board::GameError;
use minesweeper::session::new_session;
use minesweeper::session::GameOutcome;
use minesweeper::session::GameSession;

fn mines_at(side: usize, mined: &[(usize, usize)]) -> Vec<bool> {
    let mut v = vec![false; side * side];
    for &(x, y) in mined {
        v[x + y * side] = true;
    }
    v
}

fn snapshot(s: &GameSession) -> Vec<(bool, bool, bool, u8)> {
    let side = s.side();
    let mut out = Vec::new();
    for y in 0..side {
        for x in 0..side {
            let c = s.cell_at(x, y);
            out.push((c.is_mine, c.is_flagged, c.is_revealed, c.adjacent_mine_count));
        }
    }
    out
}

fn moore_count(mines: &[bool], side: usize, x: usize, y: usize) -> u8 {
    let mut n = 0u8;
    for dy in -1i64..=1 {
        for dx in -1i64..=1 {
            if dx == 0 && dy == 0 {
                continue;
            }
            let nx = x as i64 + dx;
            let ny = y as i64 + dy;
            if nx >= 0 && nx < side as i64 && ny >= 0 && ny < side as i64 {
                if mines[nx as usize + ny as usize * side] {
                    n += 1;
                }
            }
        }
    }
    n
}

#[test]
fn generate_has_all_cells_and_exact_counts() {
    let s = new_session(9, 15, 100);
    assert_eq!(s.side(), 9);
    let mut mines = Vec::new();
    for y in 0..9 {
        for x in 0..9 {
            mines.push(s.cell_at(x, y).is_mine);
        }
    }
    assert_eq!(mines.len(), 81);
    for y in 0..9 {
        for x in 0..9 {
            let c = s.cell_at(x, y);
            assert!(!c.is_flagged);
            assert!(!c.is_revealed);
            if !c.is_mine {
                assert_eq!(c.adjacent_mine_count, moore_count(&mines, 9, x, y));
            }
        }
    }
}

#[test]
fn generate_probability_zero_has_no_mines() {
    let s = new_session(9, 0, 100);
    for y in 0..9 {
        for x in 0..9 {
            assert!(!s.cell_at(x, y).is_mine);
        }
    }
}

#[test]
fn generate_probability_one_has_all_mines() {
    let s = new_session(4, 7, 7);
    for y in 0..4 {
        for x in 0..4 {
            assert!(s.cell_at(x, y).is_mine);
        }
    }
}

#[test]
fn three_by_three_counts_around_center_mine() {
    let b = Board::from_mines(3, mines_at(3, &[(1, 1)]));
    let s = GameSession::from_board(b, 15, 100);
    for y in 0..3 {
        for x in 0..3 {
            let c = s.cell_at(x, y);
            if x == 1 && y == 1 {
                assert!(c.is_mine);
            } else {
                assert!(!c.is_mine);
                assert_eq!(c.adjacent_mine_count, 1);
            }
        }
    }
}

#[test]
fn reveal_numbered_cell_reveals_only_itself() {
    let b = Board::from_mines(3, mines_at(3, &[(1, 1)]));
    let mut s = GameSession::from_board(b, 15, 100);
    assert!(s.reveal_at(0, 0).is_ok());
    assert_eq!(s.outcome(), GameOutcome::Playing);
    for y in 0..3 {
        for x in 0..3 {
            assert_eq!(s.cell_at(x, y).is_revealed, x == 0 && y == 0);
        }
    }
}

#[test]
fn reveal_on_all_safe_board_reveals_everything() {
    let b = Board::from_mines(9, mines_at(9, &[]));
    let mut s = GameSession::from_board(b, 0, 100);
    assert!(s.reveal_at(4, 4).is_ok());
    assert_eq!(s.outcome(), GameOutcome::Playing);
    for y in 0..9 {
        for x in 0..9 {
            let c = s.cell_at(x, y);
            assert!(c.is_revealed);
            assert_eq!(c.adjacent_mine_count, 0);
        }
    }
}

#[test]
fn flagging_the_single_mine_wins() {
    let b = Board::from_mines(3, mines_at(3, &[(1, 1)]));
    let mut s = GameSession::from_board(b, 15, 100);
    assert!(s.toggle_flag_at(1, 1).is_ok());
    assert_eq!(s.outcome(), GameOutcome::Won);
}

#[test]
fn reveal_twice_on_revealed_safe_cell_changes_nothing() {
    let b = Board::from_mines(5, mines_at(5, &[(4, 4)]));
    let mut s = GameSession::from_board(b, 15, 100);
    assert!(s.reveal_at(0, 0).is_ok());
    let first = snapshot(&s);
    assert!(s.reveal_at(0, 0).is_ok());
    assert_eq!(snapshot(&s), first);
    assert_eq!(s.outcome(), GameOutcome::Playing);
}

#[test]
fn flood_fill_stops_at_numbered_boundary_and_spares_the_mine() {
    let b = Board::from_mines(5, mines_at(5, &[(4, 4)]));
    let mut s = GameSession::from_board(b, 15, 100);
    assert!(s.reveal_at(0, 0).is_ok());
    for y in 0..5 {
        for x in 0..5 {
            let c = s.cell_at(x, y);
            if x == 4 && y == 4 {
                assert!(c.is_mine);
                assert!(!c.is_revealed);
            } else {
                assert!(c.is_revealed);
            }
        }
    }
}

#[test]
fn no_revealed_zero_cell_borders_an_unrevealed_cell() {
    let b = Board::from_mines(6, mines_at(6, &[(5, 5), (0, 5)]));
    let mut s = GameSession::from_board(b, 15, 100);
    assert!(s.reveal_at(1, 0).is_ok());
    let side = 6i64;
    for y in 0..6usize {
        for x in 0..6usize {
            let c = s.cell_at(x, y);
            if c.is_revealed && !c.is_mine && c.adjacent_mine_count == 0 {
                for dy in -1i64..=1 {
                    for dx in -1i64..=1 {
                        let nx = x as i64 + dx;
                        let ny = y as i64 + dy;
                        if nx >= 0 && nx < side && ny >= 0 && ny < side {
                            assert!(s.cell_at(nx as usize, ny as usize).is_revealed);
                        }
                    }
                }
            }
        }
    }
}

#[test]
fn revealing_a_mine_loses_and_replaces_the_board() {
    let b = Board::from_mines(3, mines_at(3, &[(0, 0)]));
    let mut s = GameSession::from_board(b, 0, 100);
    assert!(s.reveal_at(0, 0).is_ok());
    assert_eq!(s.outcome(), GameOutcome::Lost);
    for y in 0..3 {
        for x in 0..3 {
            let c = s.cell_at(x, y);
            assert!(!c.is_revealed);
            assert!(!c.is_flagged);
            assert!(!c.is_mine);
        }
    }
}

#[test]
fn a_flagged_mine_cannot_be_revealed() {
    let b = Board::from_mines(3, mines_at(3, &[(0, 0), (2, 2)]));
    let mut s = GameSession::from_board(b, 15, 100);
    assert!(s.toggle_flag_at(0, 0).is_ok());
    assert_eq!(s.outcome(), GameOutcome::Playing);
    let before = snapshot(&s);
    assert!(s.reveal_at(0, 0).is_ok());
    assert_eq!(s.outcome(), GameOutcome::Playing);
    assert_eq!(snapshot(&s), before);
    assert!(!s.cell_at(0, 0).is_revealed);
}

#[test]
fn a_flagged_safe_cell_cannot_be_revealed() {
    let b = Board::from_mines(3, mines_at(3, &[(1, 1)]));
    let mut s = GameSession::from_board(b, 15, 100);
    assert!(s.toggle_flag_at(0, 0).is_ok());
    assert_eq!(s.outcome(), GameOutcome::Playing);
    let before = snapshot(&s);
    assert!(s.reveal_at(0, 0).is_ok());
    assert_eq!(s.outcome(), GameOutcome::Playing);
    assert_eq!(snapshot(&s), before);
    assert!(!s.cell_at(0, 0).is_revealed);
}

#[test]
fn count_match_without_membership_does_not_win() {
    let b = Board::from_mines(4, mines_at(4, &[(0, 0), (3, 3)]));
    let mut s = GameSession::from_board(b, 15, 100);
    assert!(s.toggle_flag_at(0, 0).is_ok());
    assert!(s.toggle_flag_at(1, 1).is_ok());
    assert_eq!(s.flagged_count(), 2);
    assert_eq!(s.mine_count(), 2);
    assert_eq!(s.outcome(), GameOutcome::Playing);
}

#[test]
fn a_stray_flag_blocks_the_win_until_removed() {
    let b = Board::from_mines(4, mines_at(4, &[(0, 0), (3, 3)]));
    let mut s = GameSession::from_board(b, 15, 100);
    assert!(s.toggle_flag_at(1, 1).is_ok());
    assert!(s.toggle_flag_at(0, 0).is_ok());
    assert_eq!(s.outcome(), GameOutcome::Playing);
    assert!(s.toggle_flag_at(3, 3).is_ok());
    assert_eq!(s.outcome(), GameOutcome::Playing);
    assert!(s.cell_at(1, 1).is_flagged);
    assert!(s.toggle_flag_at(1, 1).is_ok());
    assert_eq!(s.outcome(), GameOutcome::Won);
}

#[test]
fn flagging_exactly_the_mines_wins() {
    let b = Board::from_mines(4, mines_at(4, &[(0, 0), (2, 1), (3, 3)]));
    let mut s = GameSession::from_board(b, 15, 100);
    assert!(s.toggle_flag_at(0, 0).is_ok());
    assert!(s.toggle_flag_at(2, 1).is_ok());
    assert_eq!(s.outcome(), GameOutcome::Playing);
    assert!(s.toggle_flag_at(3, 3).is_ok());
    assert_eq!(s.outcome(), GameOutcome::Won);
}

#[test]
fn unflagging_is_a_plain_flip() {
    let b = Board::from_mines(3, mines_at(3, &[(1, 1)]));
    let mut s = GameSession::from_board(b, 15, 100);
    assert!(s.toggle_flag_at(0, 0).is_ok());
    assert!(s.cell_at(0, 0).is_flagged);
    assert_eq!(s.flagged_count(), 1);
    assert!(s.toggle_flag_at(0, 0).is_ok());
    assert!(!s.cell_at(0, 0).is_flagged);
    assert_eq!(s.flagged_count(), 0);
}

#[test]
fn toggling_a_revealed_cell_is_ignored() {
    let b = Board::from_mines(3, mines_at(3, &[(1, 1)]));
    let mut s = GameSession::from_board(b, 15, 100);
    assert!(s.reveal_at(0, 0).is_ok());
    let before = snapshot(&s);
    assert!(s.toggle_flag_at(0, 0).is_ok());
    assert_eq!(snapshot(&s), before);
    assert!(!s.cell_at(0, 0).is_flagged);
}

#[test]
fn out_of_bounds_coordinates_are_rejected() {
    let mut s = new_session(9, 15, 100);
    assert_eq!(s.reveal_at(9, 0), Err(GameError::InvalidCoordinate));
    assert_eq!(s.reveal_at(0, 9), Err(GameError::InvalidCoordinate));
    assert_eq!(s.toggle_flag_at(10, 10), Err(GameError::InvalidCoordinate));
    assert_eq!(s.outcome(), GameOutcome::Playing);
}

#[test]
fn actions_after_a_loss_are_ignored_until_restart() {
    let b = Board::from_mines(3, mines_at(3, &[(0, 0)]));
    let mut s = GameSession::from_board(b, 7, 7);
    assert!(s.reveal_at(0, 0).is_ok());
    assert_eq!(s.outcome(), GameOutcome::Lost);
    let before = snapshot(&s);
    assert!(s.reveal_at(1, 1).is_ok());
    assert!(s.toggle_flag_at(1, 1).is_ok());
    assert_eq!(s.outcome(), GameOutcome::Lost);
    assert_eq!(snapshot(&s), before);
}

#[test]
fn restart_returns_to_playing_on_a_fresh_board() {
    let b = Board::from_mines(3, mines_at(3, &[(0, 0)]));
    let mut s = GameSession::from_board(b, 0, 100);
    assert!(s.toggle_flag_at(2, 2).is_ok());
    assert!(s.reveal_at(0, 0).is_ok());
    assert_eq!(s.outcome(), GameOutcome::Lost);
    s.restart();
    assert_eq!(s.outcome(), GameOutcome::Playing);
    assert_eq!(s.side(), 3);
    for y in 0..3 {
        for x in 0..3 {
            let c = s.cell_at(x, y);
            assert!(!c.is_revealed);
            assert!(!c.is_flagged);
            assert!(!c.is_mine);
        }
    }
}

#[test]
fn flood_fill_reveals_flagged_cells_inside_the_region() {
    let b = Board::from_mines(5, mines_at(5, &[(4, 4)]));
    let mut s = GameSession::from_board(b, 15, 100);
    assert!(s.toggle_flag_at(2, 2).is_ok());
    assert!(s.reveal_at(0, 0).is_ok());
    let c = s.cell_at(2, 2);
    assert!(c.is_revealed);
    assert!(c.is_flagged);
}

#[test]
fn counters_track_flags_and_mines() {
    let b = Board::from_mines(4, mines_at(4, &[(0, 0), (2, 1), (3, 3)]));
    let mut s = GameSession::from_board(b, 15, 100);
    assert_eq!(s.mine_count(), 3);
    assert_eq!(s.flagged_count(), 0);
    assert!(s.toggle_flag_at(1, 1).is_ok());
    assert!(s.toggle_flag_at(0, 0).is_ok());
    assert_eq!(s.flagged_count(), 2);
    assert_eq!(s.mine_count(), 3);
}
