use theseus::{Board, Player};

fn only_pawn_moves(parent: &Board, moves: Vec<Board>) -> Vec<Board> {
    let mover = parent.turn().index();
    let mut pawn_moves = vec![];
    for child in moves {
        if parent.pawns()[mover] != child.pawns()[mover] {
            pawn_moves.push(child);
        }
    }
    pawn_moves
}

fn setup(white: u8, hwalls: u64, vwalls: u64) -> Board {
    Board::from_parts([white, 4], [10, 10], hwalls, vwalls, Player::White).unwrap()
}

#[test]
fn opening_branching_factor() {
    let board = Board::new();
    assert_eq!(board.moves().len(), 131);
}

#[test]
fn simple_wall_blocking() {
    let board = setup(12, 0, 0);
    assert_eq!(only_pawn_moves(&board, board.moves()).len(), 4);
    let board = setup(12, 1 << 2, 0);
    assert_eq!(only_pawn_moves(&board, board.moves()).len(), 3);
    let board = setup(12, 1 << 3, 0);
    assert_eq!(only_pawn_moves(&board, board.moves()).len(), 3);
    let board = setup(12, (1 << 3) | (1 << 10), 0);
    assert_eq!(only_pawn_moves(&board, board.moves()).len(), 2);
    let board = setup(12, 1 << 11, 0);
    assert_eq!(only_pawn_moves(&board, board.moves()).len(), 3);
    let board = setup(12, 1 << 11, 1 << 2);
    assert_eq!(only_pawn_moves(&board, board.moves()).len(), 2);
    let board = setup(12, 1 << 11, 1 << 10);
    assert_eq!(only_pawn_moves(&board, board.moves()).len(), 2);
    let board = setup(12, 1 << 11, 1 << 3);
    assert_eq!(only_pawn_moves(&board, board.moves()).len(), 2);
    let board = setup(12, 0, 1 << 11);
    assert_eq!(only_pawn_moves(&board, board.moves()).len(), 3);
}

#[test]
fn corner_moves() {
    let board = setup(0, 0, 0);
    assert_eq!(only_pawn_moves(&board, board.moves()).len(), 2);
    let board = setup(8, 0, 0);
    assert_eq!(only_pawn_moves(&board, board.moves()).len(), 2);
    let board = setup(72, 0, 0);
    assert_eq!(only_pawn_moves(&board, board.moves()).len(), 2);
    let board = setup(80, 0, 0);
    assert_eq!(only_pawn_moves(&board, board.moves()).len(), 2);
}

#[test]
fn load_tqbn() {
    let board = Board::from_tqbn(&String::from(
        "nnnnnnnnnnnnnnnnnnnnnnnnnnnnnnnnnnnnnnnnnnnnnnnnnnnnnnnnnnnnnnnn1e910e110",
    ));
    assert_eq!(board.pawns()[0], 76);
    assert_eq!(board.pawns()[1], 4);
    assert_eq!(board.remaining_walls()[0], 10);
    assert_eq!(board.remaining_walls()[1], 10);
    assert_eq!(board.hwalls(), 0);
    assert_eq!(board.vwalls(), 0);
    assert_eq!(board.turn(), Player::White);
}

#[test]
fn vertical_wall_place_bug() {
    let board = Board::from_tqbn(
        "nnnnnnnnnnvnnnnnnnhnnnnnnnnnnhnnnnvnvnnvnnnnhnnnhnnnnnnnnnnnhnnn2e905e106",
    );
    for child in board.moves() {
        assert_ne!(board.move_string_to(&child), "c1v");
    }
    let board = Board::from_tqbn(
        "nnnhvnnnnnnnnnnnnnnnnnnnnnvnvnnnnnnnnnvnnnvnnnnnnnnnvnnnnnnvnnnn1e906e106",
    );
    for child in board.moves() {
        assert_ne!(board.move_string_to(&child), "e3v");
    }
}

#[test]
fn simple_pawn_jumping() {
    // jump to the north
    let board = Board::from_tqbn(&String::from(
        "nnnnnnnnnnnnnnnnnnnnnnnnnnnnnnnnnnnnnnnnnnnnnnnnnnnnnnnnnnnnnnnn2e410e510",
    ));
    let mut jumped = false;
    for child in only_pawn_moves(&board, board.moves()) {
        if board.move_string_to(&child) == "e3" {
            jumped = true;
            break;
        }
    }
    assert!(jumped);
    assert_eq!(only_pawn_moves(&board, board.moves()).len(), 4);

    // jump to the south
    let board = Board::from_tqbn(&String::from(
        "nnnnnnnnnnnnnnnnnnnnnnnnnnnnnnnnnnnnnnnnnnnnnnnnnnnnnnnnnnnnnnnn2e510e410",
    ));
    let mut jumped = false;
    for child in only_pawn_moves(&board, board.moves()) {
        if board.move_string_to(&child) == "e6" {
            jumped = true;
            break;
        }
    }
    assert!(jumped);
    assert_eq!(only_pawn_moves(&board, board.moves()).len(), 4);

    // jump to the east
    let board = Board::from_tqbn(&String::from(
        "nnnnnnnnnnnnnnnnnnnnnnnnnnnnnnnnnnnnnnnnnnnnnnnnnnnnnnnnnnnnnnnn2e410d410",
    ));
    let mut jumped = false;
    for child in only_pawn_moves(&board, board.moves()) {
        if board.move_string_to(&child) == "f4" {
            jumped = true;
            break;
        }
    }
    assert!(jumped);
    assert_eq!(only_pawn_moves(&board, board.moves()).len(), 4);

    // jump to the west
    let board = Board::from_tqbn(&String::from(
        "nnnnnnnnnnnnnnnnnnnnnnnnnnnnnnnnnnnnnnnnnnnnnnnnnnnnnnnnnnnnnnnn2d410e410",
    ));
    let mut jumped = false;
    for child in only_pawn_moves(&board, board.moves()) {
        if board.move_string_to(&child) == "c4" {
            jumped = true;
            break;
        }
    }
    assert!(jumped);
    assert_eq!(only_pawn_moves(&board, board.moves()).len(), 4);
}

#[test]
fn blocked_pawn_jumping() {
    let board = Board::from_tqbn(&String::from(
        "nnnnnnnnnnnnnhnnnnnnnnnnnnnnnnnnnnnnnnnnnnnnnnnnnnnnnnnnnnnnnnnn2f309f410",
    ));
    for child in only_pawn_moves(&board, board.moves()) {
        assert_ne!(board.move_string_to(&child), "f2");
    }
    assert_eq!(only_pawn_moves(&board, board.moves()).len(), 5);

    let board = Board::from_tqbn(&String::from(
        "nnnnnnnnnnnnvhnnnnnnnnnnnnnnnnnnnnnnnnnnnnnnnnnnnnnnnnnnnnnnnnnn2f309f410",
    ));
    for child in only_pawn_moves(&board, board.moves()) {
        assert_ne!(board.move_string_to(&child), "e3");
    }
    assert_eq!(only_pawn_moves(&board, board.moves()).len(), 4);
}

#[test]
fn keep_paths_open() {
    let board = Board::from_tqbn(&String::from(
        "nnnnnnnnhnhnhnhnnnnnnnnhnnnnnnnnnnnnnnnnnnnnnnnnnnnnnnnnnnnnnnnn2e909e110",
    ));
    for child in board.moves() {
        assert_ne!(board.move_string_to(&child), "h2v");
    }
}

#[test]
fn basic_shortest_path_cache_usage() {
    let mut board = Board::new();
    assert_eq!(board.cached_path(Player::White), None);
    assert_eq!(board.cached_path(Player::Black), None);
    board.shortest_path(Player::White);
    assert_ne!(board.cached_path(Player::White), None);
    assert_eq!(board.cached_path(Player::Black), None);
    board.shortest_path(Player::Black);
    assert_ne!(board.cached_path(Player::White), None);
    assert_ne!(board.cached_path(Player::Black), None);
    board = board.moves()[0].clone();
    assert_ne!(board.cached_path(Player::White), None);
    assert_ne!(board.cached_path(Player::Black), None);
    board = board.moves()[0].clone();
    assert_ne!(board.cached_path(Player::White), None);
    assert_ne!(board.cached_path(Player::Black), None);
    board = board.moves()[2].clone();
    assert_eq!(board.cached_path(Player::White), None);
    assert_ne!(board.cached_path(Player::Black), None);
    board = board.moves()[50].clone();
    assert_eq!(board.cached_path(Player::White), None);
    assert_eq!(board.cached_path(Player::Black), None);
}
