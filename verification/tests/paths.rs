use theseus::{Board, Player};

#[test]
fn shortest_paths_of_the_opening() {
    let mut board = Board::new();
    assert_eq!(board.shortest_path(Player::White), [67, 58, 49, 40, 31, 22, 13, 4]);
    assert_eq!(board.shortest_path(Player::Black), [13, 22, 31, 40, 49, 58, 67, 76]);
    assert_eq!(board.distance(Player::White), 8);
    assert_eq!(board.distance(Player::Black), 8);
    assert_eq!(board.find_route(Player::White), board.shortest_path(Player::White));
}

#[test]
fn the_first_of_the_shortest_paths() {
    // a wall below e1 and f1: White, coming up the e column, has to go round
    // it, and of the two ways round it takes the one to the east
    let board = Board::from_parts([13, 80], [10, 9], 1 << 4, 0, Player::White).unwrap();
    assert_eq!(board.find_route(Player::White), [12, 3]);
    let board = Board::from_parts([13, 80], [10, 9], 1 << 3, 0, Player::White).unwrap();
    assert_eq!(board.find_route(Player::White), [14, 5]);
    // with no wall in the way a pawn on the goal row steps aside and back
    let board = Board::from_parts([4, 80], [10, 10], 0, 0, Player::White).unwrap();
    assert_eq!(board.find_route(Player::White), [5]);
}

#[test]
fn a_remembered_path_is_followed() {
    let mut board = Board::new();
    let route = board.shortest_path(Player::White);
    let child = board.moves()[0].clone();
    assert_eq!(child.cached_path(Player::White), Some(route[1..].to_vec()));
    assert_eq!(child.cached_path(Player::Black), None);
    let mut again = child.clone();
    assert_eq!(again.shortest_path(Player::White), route[1..].to_vec());
    assert_eq!(child.find_route(Player::White), route[1..].to_vec());
}

#[test]
fn a_path_that_runs_out_is_dropped() {
    let mut board = Board::from_parts([13, 80], [10, 10], 0, 0, Player::White).unwrap();
    assert_eq!(board.shortest_path(Player::White), [4]);
    let child = board.moves()[0].clone();
    assert_eq!(child.pawns()[0], 4);
    assert_eq!(child.cached_path(Player::White), None);
}

#[test]
fn no_path_behind_a_fence() {
    let mut board = Board::from_parts([76, 4], [8, 7], 0xd5, 0, Player::White).unwrap();
    assert!(!board.paths_exist());
    assert_eq!(board.shortest_path(Player::White), []);
    assert_eq!(board.cached_path(Player::White), None);
    assert_eq!(board.distance(Player::White), 0);
    assert_eq!(board.distance(Player::Black), 0);
}

#[test]
fn one_player_fenced_in() {
    // Black in the corner a1 behind two walls, White free
    let board = Board::from_parts([76, 0], [9, 9], 1, 1, Player::White).unwrap();
    assert!(!board.paths_exist());
    assert_eq!(board.distance(Player::White), 8);
    assert_eq!(board.find_route(Player::Black), []);
}

#[test]
fn steps_to_every_square() {
    let board = Board::new();
    let white = board.walk_paths(Player::White);
    assert_eq!(white[76], 0);
    assert_eq!(white[67], 1);
    assert_eq!(white[75], 1);
    assert_eq!(white[77], 1);
    assert_eq!(white[66], 2);
    assert_eq!(white[72], 4);
    assert_eq!(white[80], 4);
    assert_eq!(white[13], 7);
    // the square of the other pawn is not entered
    assert_eq!(white[4], 0);
    assert_eq!(white[3], 9);
    assert_eq!(white[5], 9);
    assert_eq!(white[0], 12);
    assert_eq!(white[8], 12);
    let black = board.walk_paths(Player::Black);
    assert_eq!(black[4], 0);
    assert_eq!(black[13], 1);
    assert_eq!(black[76], 0);
    assert_eq!(black[75], 9);
    assert_eq!(black[72], 12);
}

#[test]
fn steps_stop_on_the_goal_row() {
    // walls below a1 to h1 leave one gap, under i1: the squares of the goal
    // row are reached through it one after the other only if the walk went
    // on along the row, which it does not
    let board = Board::from_parts([76, 40], [8, 8], 0x55, 0, Player::White).unwrap();
    let white = board.walk_paths(Player::White);
    assert_eq!(white[17], 11);
    assert_eq!(white[8], 12);
    assert_eq!(white[7], 0);
    assert_eq!(white[0], 0);
}
