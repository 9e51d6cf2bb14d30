use theseus::{sqnum_for_coord, sqnum_for_string, string_for_sqnum, Board, Player, TqbnError};

const OPENING: &str = "nnnnnnnnnnnnnnnnnnnnnnnnnnnnnnnnnnnnnnnnnnnnnnnnnnnnnnnnnnnnnnnn1e910e110";

#[test]
fn squares_are_numbered_row_by_row() {
    assert_eq!(sqnum_for_coord('a', 1), 0);
    assert_eq!(sqnum_for_coord('i', 1), 8);
    assert_eq!(sqnum_for_coord('a', 2), 9);
    assert_eq!(sqnum_for_coord('e', 9), 76);
    assert_eq!(sqnum_for_coord('I', 9), 80);
    assert_eq!(sqnum_for_string("e1"), 4);
    assert_eq!(sqnum_for_string("D2"), 12);
    assert_eq!(string_for_sqnum(0), "a1");
    assert_eq!(string_for_sqnum(12), "d2");
    assert_eq!(string_for_sqnum(80), "i9");
}

#[test]
fn every_square_reads_back() {
    for sqnum in 0..81 {
        assert_eq!(sqnum_for_string(&string_for_sqnum(sqnum)), sqnum);
    }
}

#[test]
fn tqbn_of_the_opening() {
    assert_eq!(Board::new().to_tqbn(), OPENING);
    assert_eq!(Board::check_tqbn(OPENING), None);
}

#[test]
fn tqbn_reads_back() {
    let texts = [
        OPENING,
        "nnnnnnnnnnvnnnnnnnhnnnnnnnnnnhnnnnvnvnnvnnnnhnnnhnnnnnnnnnnnhnnn2e905e106",
        "nnnhvnnnnnnnnnnnnnnnnnnnnnvnvnnnnnnnnnvnnnvnnnnnnnnnvnnnnnnvnnnn1e906e106",
        "nnnnnnnnnnnnvhnnnnnnnnnnnnnnnnnnnnnnnnnnnnnnnnnnnnnnnnnnnnnnnnnn2f309f410",
    ];
    for text in texts {
        let board = Board::from_tqbn(text);
        assert_eq!(board.to_tqbn(), text);
        let again = Board::parse_tqbn(&board.to_tqbn()).unwrap();
        assert_eq!(again.pawns(), board.pawns());
        assert_eq!(again.remaining_walls(), board.remaining_walls());
        assert_eq!(again.hwalls(), board.hwalls());
        assert_eq!(again.vwalls(), board.vwalls());
        assert_eq!(again.turn(), board.turn());
    }
}

#[test]
fn tqbn_in_capitals() {
    let board = Board::from_tqbn(
        "HNNNNNNNNVNNNNNNNNNNNNNNNNNNNNNNNNNNNNNNNNNNNNNNNNNNNNNNNNNNNNNN2E909A109",
    );
    assert_eq!(board.hwalls(), 1);
    assert_eq!(board.vwalls(), 1 << 9);
    assert_eq!(board.turn(), Player::Black);
    assert_eq!(board.pawns(), [76, 0]);
    assert_eq!(board.remaining_walls(), [9, 9]);
}

#[test]
fn tqbn_of_the_wrong_length() {
    assert_eq!(Board::parse_tqbn("").err(), Some(TqbnError::WrongLength));
    assert_eq!(Board::parse_tqbn(&OPENING[1..]).err(), Some(TqbnError::WrongLength));
    let longer = format!("{}0", OPENING);
    assert_eq!(Board::parse_tqbn(&longer).err(), Some(TqbnError::WrongLength));
    let wide = OPENING.replacen('n', "\u{e9}", 1);
    assert_eq!(wide.chars().count(), 73);
    assert_eq!(Board::parse_tqbn(&wide).err(), Some(TqbnError::UnknownCharacter));
}

#[test]
fn tqbn_with_an_unknown_character() {
    let slot = OPENING.replacen('n', "x", 1);
    assert_eq!(Board::parse_tqbn(&slot).err(), Some(TqbnError::UnknownCharacter));
    let turn = OPENING.replacen('1', "3", 1);
    assert_eq!(Board::parse_tqbn(&turn).err(), Some(TqbnError::UnknownCharacter));
}

#[test]
fn tqbn_with_a_pawn_off_the_board() {
    let column = OPENING.replacen("e9", "j9", 1);
    assert_eq!(Board::parse_tqbn(&column).err(), Some(TqbnError::PawnOutOfRange));
    let row = OPENING.replacen("e110", "e010", 1);
    assert_eq!(Board::parse_tqbn(&row).err(), Some(TqbnError::PawnOutOfRange));
}

#[test]
fn tqbn_with_a_stock_that_is_no_number() {
    let first = OPENING.replacen("e910", "e9+1", 1);
    assert_eq!(Board::parse_tqbn(&first).err(), Some(TqbnError::NonNumericWallCount));
    let second = OPENING.replacen("e110", "e11x", 1);
    assert_eq!(Board::parse_tqbn(&second).err(), Some(TqbnError::NonNumericWallCount));
}

#[test]
fn tqbn_names_the_first_fault() {
    let both = OPENING.replacen('n', "x", 1).replacen("e9", "j9", 1);
    assert_eq!(Board::check_tqbn(&both), Some(TqbnError::UnknownCharacter));
    let later = OPENING.replacen("e9", "j9", 1).replacen("e110", "e11x", 1);
    assert_eq!(Board::check_tqbn(&later), Some(TqbnError::PawnOutOfRange));
}

fn grid(turn: &str, marks: &[(usize, char)], east: &[usize], south: &[usize]) -> String {
    let mut text = format!("{} to move\n  a   b   c   d   e   f   g   h   i\n", turn);
    for row in 0..9 {
        text.push_str(&format!("{} ", row + 1));
        for col in 0..9 {
            let sqnum = row * 9 + col;
            let mut mark = '.';
            for (at, with) in marks {
                if *at == sqnum {
                    mark = *with;
                }
            }
            text.push(mark);
            if col != 8 {
                text.push_str(if east.contains(&sqnum) { " # " } else { "   " });
            }
        }
        text.push('\n');
        if row < 8 {
            for col in 0..9 {
                let sqnum = row * 9 + col;
                text.push_str(if south.contains(&sqnum) { "  # " } else { "    " });
            }
            text.push('\n');
        }
    }
    text
}

#[test]
fn grid_of_the_opening() {
    let text = Board::new().to_string();
    assert_eq!(text, grid("white", &[(76, 'W'), (4, 'B')], &[], &[]));
    let lines: Vec<&str> = text.lines().collect();
    assert_eq!(lines.len(), 19);
    assert_eq!(lines[0], "white to move");
    assert_eq!(lines[1], "  a   b   c   d   e   f   g   h   i");
    assert_eq!(lines[2], "1 .   .   .   .   B   .   .   .   .");
    assert_eq!(lines[3], "                                    ");
    assert_eq!(lines[18], "9 .   .   .   .   W   .   .   .   .");
}

#[test]
fn grid_with_walls() {
    let board = Board::from_parts([76, 4], [9, 9], 1, 1 << 9, Player::Black).unwrap();
    let text = board.to_string();
    assert_eq!(text, grid("black", &[(76, 'W'), (4, 'B')], &[10, 19], &[0, 1]));
    let lines: Vec<&str> = text.lines().collect();
    assert_eq!(lines[3], "  #   #                             ");
    assert_eq!(lines[4], "2 .   . # .   .   .   .   .   .   .");
    assert_eq!(lines[6], "3 .   . # .   .   .   .   .   .   .");
}

#[test]
fn moves_have_names() {
    let board = Board::new();
    let moves = board.moves();
    assert_eq!(board.move_string_to(&moves[0]), "e8");
    assert_eq!(board.move_string_to(&moves[1]), "f9");
    assert_eq!(board.move_string_to(&moves[2]), "d9");
    assert_eq!(board.move_string_to(&moves[3]), "a1h");
    assert_eq!(board.move_string_to(&moves[4]), "a1v");
    assert_eq!(board.move_string_to(&moves[5]), "b1h");
    assert_eq!(board.move_string_to(&moves[129]), "h8h");
    assert_eq!(board.move_string_to(&moves[130]), "h8v");
    for child in &moves {
        assert!(board.is_move_to(child));
    }
    assert!(!board.is_move_to(&board));
    assert!(!moves[0].is_move_to(&board));
}
