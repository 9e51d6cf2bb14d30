use rand::rngs::StdRng;
use rand::SeedableRng;
use theseus::minimax::{count_win_steps, evaluate, search, Score, DEPTH};
use theseus::montecarlo::{most_wins, play_at_random};
use theseus::{mc, minimax, random, Board, Player};

#[test]
fn scores_turn_round() {
    assert_eq!(Score::PosInf.negate(), Score::NegInf);
    assert_eq!(Score::NegInf.negate(), Score::PosInf);
    assert_eq!(Score::Finite(7).negate(), Score::Finite(-7));
    assert!(Score::PosInf.is_above(Score::Finite(5000)));
    assert!(Score::Finite(-5000).is_above(Score::NegInf));
    assert!(Score::Finite(2).is_above(Score::Finite(1)));
    assert!(!Score::Finite(1).is_above(Score::Finite(1)));
    assert!(!Score::PosInf.is_above(Score::PosInf));
    assert!(!Score::NegInf.is_above(Score::NegInf));
    assert!(!Score::NegInf.is_above(Score::Finite(0)));
}

#[test]
fn scores_as_written() {
    let mut log = String::from("score:\t");
    Score::Finite(102).write(&mut log);
    log.push(' ');
    Score::Finite(-7).write(&mut log);
    log.push(' ');
    Score::Finite(0).write(&mut log);
    log.push(' ');
    Score::PosInf.write(&mut log);
    log.push(' ');
    Score::NegInf.write(&mut log);
    assert_eq!(log, "score:\t102 -7 0 inf -inf");
}

#[test]
fn steps_to_the_goal_row() {
    let board = Board::new();
    assert_eq!(count_win_steps(&board, Player::White), 84);
    assert_eq!(count_win_steps(&board, Player::Black), 84);
    let board = Board::from_parts([40, 4], [10, 8], 0, 0, Player::White).unwrap();
    assert_eq!(count_win_steps(&board, Player::White), 52);
    assert_eq!(count_win_steps(&board, Player::Black), 94);
}

#[test]
fn the_value_of_a_position() {
    assert_eq!(evaluate(&Board::new()), Score::Finite(0));
    let board = Board::from_parts([40, 4], [10, 8], 0, 0, Player::White).unwrap();
    assert_eq!(evaluate(&board), Score::Finite(102));
    let board = Board::from_parts([40, 4], [10, 8], 0, 0, Player::Black).unwrap();
    assert_eq!(evaluate(&board), Score::Finite(-102));
    let won = Board::from_parts([4, 40], [10, 10], 0, 0, Player::White).unwrap();
    assert_eq!(evaluate(&won), Score::PosInf);
    let lost = Board::from_parts([4, 40], [10, 10], 0, 0, Player::Black).unwrap();
    assert_eq!(evaluate(&lost), Score::NegInf);
    let race = Board::from_parts([40, 31], [0, 0], 0, 0, Player::White).unwrap();
    assert_eq!(evaluate(&race), Score::PosInf);
    let race = Board::from_parts([49, 40], [0, 0], 0, 0, Player::White).unwrap();
    assert_eq!(evaluate(&race), Score::NegInf);
}

#[test]
fn a_search_of_no_depth_is_the_value() {
    let board = Board::from_parts([40, 4], [10, 8], 0, 0, Player::White).unwrap();
    assert_eq!(search(&board, DEPTH), evaluate(&board));
    let stuck = Board::from_parts([76, 4], [0, 7], 0xd5, 0, Player::White).unwrap();
    assert_eq!(search(&stuck, DEPTH), evaluate(&stuck));
}

#[test]
fn minimax_takes_the_win() {
    let board = Board::from_parts([13, 40], [10, 10], 0, 0, Player::White).unwrap();
    let mut log = String::new();
    let child = minimax(&board, &mut log);
    assert_eq!(board.move_string_to(&child), "e1");
    assert_eq!(log, "minimax search\ndepth:\t2\n");
}

#[test]
fn minimax_chooses_the_best_reply() {
    let board = Board::from_parts([40, 4], [1, 0], 0, 0, Player::White).unwrap();
    let mut log = String::new();
    let child = minimax(&board, &mut log);
    let moves = board.moves();
    let mut best = Score::NegInf;
    let mut chosen = 0;
    for (i, candidate) in moves.iter().enumerate() {
        let brought = search(candidate, 1).negate();
        if brought.is_above(best) {
            best = brought;
            chosen = i;
        }
    }
    assert_eq!(child.to_tqbn(), moves[chosen].to_tqbn());
    let mut expected = String::from("minimax search\ndepth:\t2\nscore:\t");
    best.write(&mut expected);
    expected.push('\n');
    assert_eq!(log, expected);
    assert_ne!(best, Score::NegInf);
}

#[test]
fn random_picks_a_legal_successor() {
    let board = Board::new();
    let names: Vec<String> = board.moves().iter().map(|child| child.to_tqbn()).collect();
    let mut rng = StdRng::seed_from_u64(2);
    let mut seen = Vec::new();
    for _ in 0..50 {
        let child = random(&board, &mut rng);
        let name = child.to_tqbn();
        assert!(names.contains(&name));
        if !seen.contains(&name) {
            seen.push(name);
        }
    }
    assert!(seen.len() > 1);
}

#[test]
fn the_most_wins() {
    assert_eq!(most_wins(&vec![]), 0);
    assert_eq!(most_wins(&vec![0, 0, 0]), 0);
    assert_eq!(most_wins(&vec![1, 3, 2, 3]), 1);
    assert_eq!(most_wins(&vec![0, 0, 5]), 2);
    assert_eq!(most_wins(&vec![7]), 0);
}

#[test]
fn a_game_at_random_names_a_winner() {
    let board = Board::from_parts([40, 31], [1, 1], 0, 0, Player::White).unwrap();
    let mut rng = StdRng::seed_from_u64(4);
    let mut white = 0;
    for _ in 0..20 {
        if play_at_random(&board, &mut rng, 10000) == Player::White {
            white += 1;
        }
    }
    assert!(white <= 20);
    let race = Board::from_parts([40, 31], [0, 0], 0, 0, Player::White).unwrap();
    assert_eq!(play_at_random(&race, &mut rng, 10000), Player::White);
    let race = Board::from_parts([49, 40], [0, 0], 0, 0, Player::White).unwrap();
    assert_eq!(play_at_random(&race, &mut rng, 10000), Player::Black);
    assert_eq!(play_at_random(&board, &mut rng, 0), Player::White);
}

#[test]
fn mc_chooses_among_the_moves() {
    let board = Board::from_parts([13, 40], [10, 10], 0, 0, Player::White).unwrap();
    let mut rng = StdRng::seed_from_u64(6);
    let child = mc(&board, &mut rng);
    assert_eq!(board.move_string_to(&child), "e1");
    let board = Board::from_parts([40, 31], [0, 1], 0, 0, Player::White).unwrap();
    let names: Vec<String> =
        board.moves_detailed(false, true, true).iter().map(|child| child.to_tqbn()).collect();
    let child = mc(&board, &mut rng);
    assert!(names.contains(&child.to_tqbn()));
}
