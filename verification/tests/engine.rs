use rand::rngs::StdRng;
use rand::SeedableRng;
use theseus::engine::{conclude, decide, presearch};
use theseus::mcts::{grow, solver, Node, Outcome, Reward};
use theseus::playout::{draw_move, extending_wall, race_winner, route_step, simulate, verdict};
use theseus::{Board, Player};

fn least_visited(node: &Node) -> usize {
    let mut best = 0;
    for (i, child) in node.children().iter().enumerate() {
        if child.tally().visits < node.children()[best].tally().visits {
            best = i;
        }
    }
    best
}

#[test]
fn search_counts_every_iteration() {
    let board = Board::new();
    let mut rng = StdRng::seed_from_u64(7);
    let root = grow(&board, 40, &mut rng, &least_visited);
    assert_eq!(root.tally().visits, 40);
    assert_eq!(root.children().len(), 131);
    let sum: u32 = root.children().iter().map(|child| child.tally().visits).sum();
    assert_eq!(sum, 40);
}

#[test]
fn solver_proves_the_race_without_walls() {
    let board =
        Board::from_tqbn("nnnnnnnnnnnnnnnnnnnnnnnnnnnnnnnnnnnnnnnnnnnnnnnnnnnnnnnnnnnnnnnn1e900e100");
    let mut rng = StdRng::seed_from_u64(1);
    let mut node = Node::new(board);
    let reward = solver(&mut node, &mut rng, &least_visited);
    assert_eq!(reward, Reward::Win);
    assert_eq!(node.tally().proven, Some(Outcome::Win));
    assert_eq!(node.tally().visits, 1);
}

#[test]
fn walking_the_shortest_path_without_walls() {
    let board =
        Board::from_tqbn("nnnnnnnnnnnnnnnnnnnnnnnnnnnnnnnnnnnnnnnnnnnnnnnnnnnnnnnnnnnnnnnn1e900e100");
    assert_eq!(verdict(&board), Some(Player::White));
    let mut log = String::new();
    let mut rng = StdRng::seed_from_u64(1);
    let child = theseus::engine::default(&board, &mut log, &mut rng, &least_visited);
    assert_eq!(board.move_string_to(&child), "e8");
    assert_eq!(log, "presearch: walking shortest path\n");
    let mut white = board.clone();
    assert_eq!(white.shortest_path(Player::White)[0], child.pawns()[0]);
}

#[test]
fn presearch_takes_the_win() {
    let board =
        Board::from_tqbn("nnnnnnnnnnnnnnnnnnnnnnnnnnnnnnnnnnnnnnnnnnnnnnnnnnnnnnnnnnnnnnnn1e210e810");
    assert!(board.can_win());
    let mut log = String::new();
    let child = presearch(&board, &mut log).unwrap();
    assert_eq!(board.move_string_to(&child), "e1");
    assert_eq!(child.winner(), Some(Player::White));
    assert_eq!(log, "presearch: taking win\n");
}

#[test]
fn presearch_leaves_the_opening_to_the_search() {
    let board = Board::new();
    let mut log = String::new();
    assert!(presearch(&board, &mut log).is_none());
    assert_eq!(log, "");
}

#[test]
fn decide_chooses_a_legal_successor() {
    let board = Board::new();
    let mut rng = StdRng::seed_from_u64(3);
    let choice = decide(&board, 2, 30, &mut rng, &least_visited).unwrap();
    let moves = board.moves();
    assert_eq!(choice.moves, 131);
    assert!(choice.index < moves.len());
    assert_eq!(choice.board.to_tqbn(), moves[choice.index].to_tqbn());
}

#[test]
fn conclude_prefers_the_least_value() {
    let board = Board::new();
    let mut rng = StdRng::seed_from_u64(11);
    let first = grow(&board, 20, &mut rng, &least_visited);
    let second = grow(&board, 20, &mut rng, &least_visited);
    let roots = vec![first, second];
    let choice = conclude(&board, &roots).unwrap();
    let value = |i: usize| -> f64 {
        roots
            .iter()
            .map(|root| {
                let tally = root.children()[i].tally();
                match tally.proven {
                    Some(Outcome::Win) => f64::INFINITY,
                    Some(Outcome::Loss) => f64::NEG_INFINITY,
                    None => {
                        if tally.visits == 0 {
                            0.0
                        } else {
                            tally.total as f64 / tally.visits as f64
                        }
                    }
                }
            })
            .sum()
    };
    let chosen = value(choice.index);
    for i in 0..131 {
        assert!(chosen <= value(i) + 1e-9);
    }
    let visits: u64 = roots.iter().map(|root| root.children()[choice.index].tally().visits as u64).sum();
    assert_eq!(choice.visits, visits);
}

#[test]
fn conclude_without_workers_walks_the_route() {
    let board = Board::new();
    let roots: Vec<Node> = Vec::new();
    let choice = conclude(&board, &roots).unwrap();
    assert_eq!(choice.index, 0);
    assert_eq!(board.move_string_to(&choice.board), "e8");
}

#[test]
fn simulate_names_a_winner() {
    let board = Board::new();
    let mut rng = StdRng::seed_from_u64(5);
    let mut white = 0;
    let mut black = 0;
    for _ in 0..20 {
        match simulate(&board, &mut rng, 10000) {
            Player::White => white += 1,
            Player::Black => black += 1,
        }
    }
    assert_eq!(white + black, 20);
}

#[test]
fn simulate_with_no_move_left_calls_the_race() {
    let board = Board::new();
    let mut rng = StdRng::seed_from_u64(5);
    assert_eq!(simulate(&board, &mut rng, 0), Player::White);
    assert_eq!(race_winner(&board), Player::White);
}

#[test]
fn draw_move_finds_the_move_that_keeps_the_paths() {
    let open = Board::new();
    let shut = Board::from_parts([76, 4], [10, 10], 0xd5, 0, Player::White).unwrap();
    assert!(open.paths_exist());
    assert!(!shut.paths_exist());
    let mut rng = StdRng::seed_from_u64(9);
    for place in 0..4 {
        let mut moves = vec![shut.clone(), shut.clone(), shut.clone(), shut.clone()];
        moves[place] = open.clone();
        assert_eq!(draw_move(&moves, &mut rng), place);
    }
    let moves = vec![shut.clone(), shut.clone()];
    assert!(draw_move(&moves, &mut rng) < 2);
}

#[test]
fn extending_wall_makes_the_route_longer() {
    let board = Board::new();
    match extending_wall(&board) {
        Some(child) => {
            assert!(child.distance(Player::Black) > board.distance(Player::Black) + 1);
        }
        None => {
            for child in board.moves() {
                assert!(child.distance(Player::Black) <= board.distance(Player::Black) + 1);
            }
        }
    }
}

#[test]
fn route_step_follows_the_route() {
    let board = Board::new();
    let child = route_step(&board).unwrap();
    assert_eq!(child.pawns()[0], 67);
    let boxed = Board::from_parts([76, 4], [10, 10], 0xd5, 0, Player::Black).unwrap();
    assert!(route_step(&boxed).is_none());
}

#[test]
fn a_player_who_cannot_move_gets_the_board_back() {
    // White in the corner a9 behind two walls, and without a wall to place
    let board = Board::from_parts([72, 4], [0, 5], 1 << 56, 1 << 56, Player::White).unwrap();
    assert_eq!(board.moves().len(), 0);
    assert_eq!(verdict(&board), None);
    let mut rng = StdRng::seed_from_u64(8);
    assert!(decide(&board, 2, 10, &mut rng, &least_visited).is_none());
    let mut node = Node::new(board.clone());
    assert_eq!(solver(&mut node, &mut rng, &least_visited), Reward::Loss);
    assert_eq!(node.children().len(), 0);
    let mut log = String::new();
    let child = theseus::mcts(&board, &mut log, &mut rng, &least_visited);
    assert_eq!(child.to_tqbn(), board.to_tqbn());
    assert_eq!(log, "no legal move\n");
    let mut log = String::new();
    let child = theseus::engine::default(&board, &mut log, &mut rng, &least_visited);
    assert_eq!(child.to_tqbn(), board.to_tqbn());
    assert_eq!(log, "no legal move\n");
}

#[test]
fn a_proven_loss_is_chosen_for_the_opponent() {
    let board = Board::from_parts([13, 67], [1, 1], 0, 0, Player::White).unwrap();
    let mut rng = StdRng::seed_from_u64(12);
    let root = grow(&board, 1, &mut rng, &least_visited);
    assert_eq!(root.tally().proven, Some(Outcome::Win));
    // White has no wall to hold Black up, and Black wins at once wherever
    // White goes
    let mut node = Node::new(Board::from_parts([22, 67], [0, 1], 0, 0, Player::White).unwrap());
    let mut losses = 0;
    for _ in 0..40 {
        let reward = solver(&mut node, &mut rng, &least_visited);
        let all_won =
            node.children().iter().all(|child| child.tally().proven == Some(Outcome::Win));
        // a loss is proven exactly when every child is a proven win
        assert_ne!(reward, Reward::Win);
        assert_ne!(reward, Reward::Plus);
        assert_eq!(reward == Reward::Loss, all_won);
        if reward == Reward::Loss {
            losses += 1;
        }
    }
    assert!(losses > 0 && losses < 40);
    assert_eq!(node.tally().visits, 40);
    assert_eq!(node.children().len(), 4);
    assert_eq!(node.tally().proven, Some(Outcome::Loss));
    for child in node.children() {
        assert_eq!(child.tally().proven, Some(Outcome::Win));
    }
}

#[test]
fn default_takes_the_win_and_says_so() {
    let board =
        Board::from_tqbn("nnnnnnnnnnnnnnnnnnnnnnnnnnnnnnnnnnnnnnnnnnnnnnnnnnnnnnnnnnnnnnnn1e210e810");
    let mut log = String::from("input\n");
    let mut rng = StdRng::seed_from_u64(1);
    let child = theseus::engine::default(&board, &mut log, &mut rng, &least_visited);
    assert_eq!(child.winner(), Some(Player::White));
    assert_eq!(board.move_string_to(&child), "e1");
    assert_eq!(log, "input\npresearch: taking win\n");
}

#[test]
fn default_walks_between_twenty_walls() {
    let text = format!("{}1e900e100", "vvvnnvvnnnnnnnnn".repeat(4));
    let board = Board::from_tqbn(&text);
    assert!(board.is_legal());
    assert_eq!(board.distance(Player::White), 8);
    assert_eq!(board.distance(Player::Black), 8);
    let mut log = String::new();
    let mut rng = StdRng::seed_from_u64(1);
    let child = theseus::engine::default(&board, &mut log, &mut rng, &least_visited);
    assert_eq!(child.pawns(), [67, 4]);
    assert_eq!(child.turn(), Player::Black);
    assert_eq!(child.remaining_walls(), [0, 0]);
    assert_eq!(child.hwalls(), board.hwalls());
    assert_eq!(child.vwalls(), board.vwalls());
    assert_eq!(log, "presearch: walking shortest path\n");
}

#[test]
fn the_search_walks_where_no_walls_are_left() {
    let text = format!("{}1e900e100", "vvvnnvvnnnnnnnnn".repeat(4));
    let board = Board::from_tqbn(&text);
    assert!(!board.can_win());
    assert_eq!(verdict(&board), Some(Player::White));
    let mut rng = StdRng::seed_from_u64(5);
    let root = grow(&board, 25, &mut rng, &least_visited);
    assert_eq!(root.children().len(), 0);
    assert_eq!(root.tally().visits, 25);
    assert_eq!(root.tally().proven, Some(Outcome::Win));
    let choice = decide(&board, 2, 25, &mut rng, &least_visited).unwrap();
    assert_eq!(choice.board.pawns(), [67, 4]);
    assert_eq!(choice.index, 0);
    let mut log = String::new();
    let child = theseus::mcts(&board, &mut log, &mut rng, &least_visited);
    assert_eq!(child.pawns(), [67, 4]);
    assert_eq!(child.turn(), Player::Black);
    assert_eq!(child.remaining_walls(), [0, 0]);
    assert_eq!(child.hwalls(), board.hwalls());
    assert_eq!(child.vwalls(), board.vwalls());
}

#[test]
fn the_race_is_lost_with_the_longer_route() {
    // neither player has a wall; Black, to move, is one step further away
    let board = Board::from_parts([31, 40], [0, 0], 0, 0, Player::Black).unwrap();
    assert_eq!(board.distance(Player::White), 3);
    assert_eq!(board.distance(Player::Black), 4);
    assert_eq!(verdict(&board), Some(Player::White));
    let mut rng = StdRng::seed_from_u64(2);
    let mut node = Node::new(board);
    assert_eq!(solver(&mut node, &mut rng, &least_visited), Reward::Loss);
    assert_eq!(node.tally().proven, Some(Outcome::Loss));
    assert_eq!(solver(&mut node, &mut rng, &least_visited), Reward::Loss);
    assert_eq!(node.tally().visits, 2);
    assert_eq!(node.children().len(), 0);
}

#[test]
fn every_call_of_the_solver_is_one_visit() {
    let mut rng = StdRng::seed_from_u64(21);
    let mut node = Node::new(Board::new());
    for done in 0..30 {
        assert_eq!(node.tally().visits, done);
        let before: Vec<u32> = node.children().iter().map(|child| child.tally().visits).collect();
        solver(&mut node, &mut rng, &least_visited);
        let after: Vec<u32> = node.children().iter().map(|child| child.tally().visits).collect();
        assert_eq!(after.len(), 131);
        let mut visited = 0;
        for (i, visits) in after.iter().enumerate() {
            let was = if before.is_empty() { 0 } else { before[i] };
            assert!(*visits == was || *visits == was + 1);
            visited += visits - was;
        }
        assert_eq!(visited, 1);
    }
    assert_eq!(node.tally().visits, 30);
}
