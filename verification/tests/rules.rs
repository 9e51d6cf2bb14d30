use theseus::{Board, Direction, Player};

fn pawn_moves(board: &Board) -> Vec<String> {
    board.moves_detailed(true, false, false).iter().map(|child| board.move_string_to(child)).collect()
}

#[test]
fn players_and_directions() {
    assert_eq!(Player::White.other(), Player::Black);
    assert_eq!(Player::Black.other(), Player::White);
    assert_eq!(Player::default(), Player::White);
    assert_eq!(Player::White.index(), 0);
    assert_eq!(Player::Black.index(), 1);
    assert_eq!(Direction::North.left(), Direction::West);
    assert_eq!(Direction::West.left(), Direction::South);
    assert_eq!(Direction::South.left(), Direction::East);
    assert_eq!(Direction::East.left(), Direction::North);
    assert_eq!(Direction::North.right(), Direction::East);
    assert_eq!(Direction::East.right(), Direction::South);
    assert_eq!(Direction::South.right(), Direction::West);
    assert_eq!(Direction::West.right(), Direction::North);
    assert_eq!(Direction::North.move_sqnum(40), 31);
    assert_eq!(Direction::South.move_sqnum(40), 49);
    assert_eq!(Direction::East.move_sqnum(40), 41);
    assert_eq!(Direction::West.move_sqnum(40), 39);
}

#[test]
fn the_opening() {
    let board = Board::new();
    assert_eq!(board.pawns(), [76, 4]);
    assert_eq!(board.remaining_walls(), [10, 10]);
    assert_eq!(board.turn(), Player::White);
    assert_eq!(board.turn_pawn(), 76);
    assert_eq!(board.other_pawn(), 4);
    assert_eq!(board.winner(), None);
    assert!(!board.can_win());
    assert!(board.paths_exist());
    assert!(board.is_legal());
    assert_eq!(pawn_moves(&board), ["e8", "f9", "d9"]);
}

#[test]
fn parts_off_the_board() {
    assert!(Board::from_parts([81, 4], [10, 10], 0, 0, Player::White).is_none());
    assert!(Board::from_parts([76, 200], [10, 10], 0, 0, Player::White).is_none());
    assert!(Board::from_parts([80, 0], [10, 10], 0, 0, Player::White).is_some());
}

#[test]
fn edges_of_the_board_are_closed() {
    let board = Board::new();
    assert!(!board.is_open(4, &Direction::North));
    assert!(!board.is_open(76, &Direction::South));
    assert!(!board.is_open(8, &Direction::East));
    assert!(!board.is_open(72, &Direction::West));
    assert!(board.is_open(40, &Direction::North));
    assert!(board.is_open(40, &Direction::South));
    assert!(board.is_open(40, &Direction::East));
    assert!(board.is_open(40, &Direction::West));
    assert!(!board.is_open(81, &Direction::North));
    assert!(!board.is_open(255, &Direction::West));
}

#[test]
fn walls_close_two_edges() {
    // a horizontal wall on slot 10, south-east of c2, lies below c2 and d2
    let board = Board::from_parts([76, 4], [9, 10], 1 << 10, 0, Player::White).unwrap();
    assert!(!board.is_open(11, &Direction::South));
    assert!(!board.is_open(12, &Direction::South));
    assert!(!board.is_open(20, &Direction::North));
    assert!(!board.is_open(21, &Direction::North));
    assert!(board.is_open(10, &Direction::South));
    assert!(board.is_open(13, &Direction::South));
    assert!(board.is_open(11, &Direction::North));
    assert!(board.is_open(11, &Direction::East));
    // a vertical wall on the same slot lies east of c2 and c3
    let board = Board::from_parts([76, 4], [9, 10], 0, 1 << 10, Player::White).unwrap();
    assert!(!board.is_open(11, &Direction::East));
    assert!(!board.is_open(20, &Direction::East));
    assert!(!board.is_open(12, &Direction::West));
    assert!(!board.is_open(21, &Direction::West));
    assert!(board.is_open(2, &Direction::East));
    assert!(board.is_open(29, &Direction::East));
    assert!(board.is_open(11, &Direction::West));
    assert!(board.is_open(11, &Direction::South));
}

#[test]
fn winner_looks_at_white_first() {
    let board = Board::from_parts([3, 40], [10, 10], 0, 0, Player::Black).unwrap();
    assert_eq!(board.winner(), Some(Player::White));
    let board = Board::from_parts([40, 75], [10, 10], 0, 0, Player::White).unwrap();
    assert_eq!(board.winner(), Some(Player::Black));
    let board = Board::from_parts([3, 75], [10, 10], 0, 0, Player::White).unwrap();
    assert_eq!(board.winner(), Some(Player::White));
    let board = Board::from_parts([9, 71], [10, 10], 0, 0, Player::White).unwrap();
    assert_eq!(board.winner(), None);
}

#[test]
fn a_pawn_next_to_its_goal_row_can_win() {
    let board = Board::from_parts([13, 40], [10, 10], 0, 0, Player::White).unwrap();
    assert!(board.can_win());
    let board = Board::from_parts([40, 67], [10, 10], 0, 0, Player::Black).unwrap();
    assert!(board.can_win());
    let board = Board::from_parts([13, 40], [10, 10], 0, 0, Player::Black).unwrap();
    assert!(!board.can_win());
    let board = Board::from_parts([22, 40], [10, 10], 0, 0, Player::White).unwrap();
    assert!(!board.can_win());
    // behind a wall the goal row is out of reach
    let board = Board::from_parts([13, 40], [10, 9], 1 << 3, 0, Player::White).unwrap();
    assert!(!board.can_win());
}

#[test]
fn a_game_that_is_over_cannot_be_won() {
    // Black stands on its goal row already: no step of White wins
    let board = Board::from_parts([40, 75], [10, 10], 0, 0, Player::White).unwrap();
    assert_eq!(board.winner(), Some(Player::Black));
    assert!(!board.can_win());
    assert!(board.winning_move().is_none());
    // White stands on its goal row: a step of Black onto its own leaves
    // White the winner
    let board = Board::from_parts([4, 67], [10, 10], 0, 0, Player::Black).unwrap();
    assert!(!board.can_win());
    // White next to its goal row wins whatever Black has done
    let board = Board::from_parts([13, 75], [10, 10], 0, 0, Player::White).unwrap();
    assert!(board.can_win());
    let child = board.winning_move().unwrap();
    assert_eq!(child.winner(), Some(Player::White));
    assert_eq!(child.pawns(), [4, 75]);
}

#[test]
fn a_jump_can_win() {
    let board = Board::from_parts([22, 13], [10, 10], 0, 0, Player::White).unwrap();
    assert!(board.can_win());
    let board = Board::from_parts([26, 17], [10, 10], 0, 0, Player::White).unwrap();
    assert!(board.can_win());
    let board = Board::from_parts([67, 58], [10, 10], 0, 0, Player::Black).unwrap();
    assert!(board.can_win());
    let board = Board::from_parts([62, 54], [10, 10], 0, 0, Player::Black).unwrap();
    assert!(!board.can_win());
    let board = Board::from_parts([71, 62], [10, 10], 0, 0, Player::Black).unwrap();
    assert!(board.can_win());
    let wins = board.moves_detailed(false, true, true);
    assert_eq!(wins.len(), 1);
    assert_eq!(wins[0].winner(), Some(Player::Black));
    assert_eq!(board.move_string_to(&wins[0]), "i9");
}

#[test]
fn the_first_win_is_returned_alone() {
    // White stands on b1 and wins by a step to the east or to the west
    let board = Board::from_parts([1, 40], [10, 10], 0, 0, Player::White).unwrap();
    let wins = board.moves_detailed(false, true, true);
    assert_eq!(wins.len(), 1);
    assert_eq!(board.move_string_to(&wins[0]), "c1");
    let all = board.moves_detailed(false, true, false);
    assert_eq!(all.len(), 3 + 128);
}

#[test]
fn a_straight_jump() {
    // Black on e4 faces White on e5
    let board = Board::from_tqbn(
        "nnnnnnnnnnnnnnnnnnnnnnnnnnnnnnnnnnnnnnnnnnnnnnnnnnnnnnnnnnnnnnnn2e510e410",
    );
    assert_eq!(pawn_moves(&board), ["e3", "e6", "f4", "d4"]);
}

#[test]
fn a_jump_to_both_sides() {
    // a wall behind White on e5 closes the straight jump
    let wall = 1u64 << (4 * 8 + 4);
    let board = Board::from_parts([40, 31], [9, 10], wall, 0, Player::Black).unwrap();
    assert_eq!(pawn_moves(&board), ["e3", "f5", "d5", "f4", "d4"]);
}

#[test]
fn a_jump_to_one_side() {
    // and a wall east of White closes the side-step to the east
    let behind = 1u64 << (4 * 8 + 4);
    let beside = 1u64 << (3 * 8 + 4);
    let board = Board::from_parts([40, 31], [8, 10], behind, beside, Player::Black).unwrap();
    assert_eq!(pawn_moves(&board), ["e3", "d5", "d4"]);
}

#[test]
fn a_jump_at_the_edge() {
    // White on e9 cannot be jumped straight, the board ends behind it
    let board = Board::from_parts([76, 67], [10, 10], 0, 0, Player::Black).unwrap();
    assert_eq!(pawn_moves(&board), ["e7", "f9", "d9", "f8", "d8"]);
}

#[test]
fn walls_next_to_walls() {
    let board = Board::from_parts([76, 4], [9, 10], 1 << 10, 0, Player::Black).unwrap();
    let names: Vec<String> = board.moves().iter().map(|child| board.move_string_to(child)).collect();
    assert_eq!(names.len(), 3 + 128 - 4);
    assert!(!names.contains(&String::from("b2h")));
    assert!(!names.contains(&String::from("c2h")));
    assert!(!names.contains(&String::from("d2h")));
    assert!(!names.contains(&String::from("c2v")));
    assert!(names.contains(&String::from("b2v")));
    assert!(names.contains(&String::from("d2v")));
    assert!(names.contains(&String::from("c1v")));
    assert!(names.contains(&String::from("c3v")));
    let board = Board::from_parts([76, 4], [9, 10], 0, 1 << 10, Player::Black).unwrap();
    let names: Vec<String> = board.moves().iter().map(|child| board.move_string_to(child)).collect();
    assert_eq!(names.len(), 3 + 128 - 4);
    assert!(!names.contains(&String::from("c1v")));
    assert!(!names.contains(&String::from("c2v")));
    assert!(!names.contains(&String::from("c3v")));
    assert!(!names.contains(&String::from("c2h")));
    assert!(names.contains(&String::from("b2h")));
    assert!(names.contains(&String::from("d2h")));
}

#[test]
fn no_walls_without_stock() {
    let board = Board::from_parts([76, 4], [0, 10], 0, 0, Player::White).unwrap();
    assert_eq!(board.moves().len(), 3);
    let board = Board::from_parts([76, 4], [0, 10], 0, 0, Player::Black).unwrap();
    assert_eq!(board.moves().len(), 3 + 128);
    assert_eq!(board.moves_detailed(true, true, false).len(), 3);
}

#[test]
fn a_move_passes_the_turn() {
    let board = Board::new();
    for child in board.moves() {
        assert_eq!(child.turn(), Player::Black);
        assert_eq!(child.pawns()[1], 4);
        if child.pawns()[0] == 76 {
            assert_eq!(child.remaining_walls(), [9, 10]);
            assert_eq!(child.hwalls().count_ones() + child.vwalls().count_ones(), 1);
        } else {
            assert_eq!(child.remaining_walls(), [10, 10]);
            assert_eq!(child.hwalls() | child.vwalls(), 0);
        }
    }
}

#[test]
fn successors_of_legal_positions_are_legal() {
    let texts = [
        "nnnnnnnnnnnnnnnnnnnnnnnnnnnnnnnnnnnnnnnnnnnnnnnnnnnnnnnnnnnnnnnn1e910e110",
        "nnnnnnnnhnhnhnhnnnnnnnnhnnnnnnnnnnnnnnnnnnnnnnnnnnnnnnnnnnnnnnnn2e905e110",
        "nnnnnnnnnnnnvhnnnnnnnnnnnnnnnnnnnnnnnnnnnnnnnnnnnnnnnnnnnnnnnnnn2f308f410",
    ];
    for text in texts {
        let board = Board::from_tqbn(text);
        assert!(board.is_legal());
        let moves = board.moves();
        assert!(moves.len() >= 1);
        for child in moves {
            assert!(child.is_legal());
        }
    }
}

#[test]
fn positions_that_break_the_rules() {
    let same = Board::from_parts([40, 40], [10, 10], 0, 0, Player::White).unwrap();
    assert!(!same.is_legal());
    let too_many = Board::from_parts([76, 4], [10, 10], 1, 0, Player::White).unwrap();
    assert!(!too_many.is_legal());
    let twice = Board::from_parts([76, 4], [9, 9], 1, 1, Player::White).unwrap();
    assert!(!twice.is_legal());
    let overlap = Board::from_parts([76, 4], [9, 9], 3, 0, Player::White).unwrap();
    assert!(!overlap.is_legal());
    let upright = Board::from_parts([76, 4], [9, 9], 0, 0x101, Player::White).unwrap();
    assert!(!upright.is_legal());
    let shut = Board::from_parts([76, 4], [8, 7], 0xd5, 0, Player::White).unwrap();
    assert!(!shut.is_legal());
    assert!(!shut.paths_exist());
    let fine = Board::from_parts([76, 4], [9, 9], 1, 0x100, Player::White).unwrap();
    assert!(fine.is_legal());
}

#[test]
fn wall_moves_forget_the_routes() {
    let mut board = Board::from_tqbn(
        "nnnnnnnnnnnnvhnnnnnnnnnnnnnnnnnnnnnnnnnnnnnnnnnnnnnnnnnnnnnnnnnn2f308f410",
    );
    board.shortest_path(Player::White);
    board.shortest_path(Player::Black);
    let mover = board.turn().index();
    let mut walls = 0;
    for child in board.moves() {
        if child.pawns()[mover] == board.pawns()[mover] {
            assert_eq!(child.cached_path(Player::White), None);
            assert_eq!(child.cached_path(Player::Black), None);
            walls += 1;
        } else {
            assert_ne!(child.cached_path(Player::White), None);
        }
    }
    assert!(walls > 100);
}
