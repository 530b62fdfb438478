use noughts::ai::monte_carlo::{playout_value, MonteCarloManager};
use noughts::ai::monte_carlo_policy::MonteCarloPolicy;
use noughts::ai::node::{add_held_exec, MonteCarloNode};
use noughts::game::game::{Game, Turn};
use noughts::game::value::Value;
use noughts::ui::ui_state::UIState;
use noughts::ai::search_control::{
    computer_move_request,
    exit_reason, round_action, start_settings, ExitReason, SearchAction, SearchMessage,
    SearchSettings, Thoughts,
};

fn ucb1(stats: &Vec<(i64, u64)>, parent: u64) -> usize {
    let mut best = 0;
    let mut best_val = f64::MIN;
    for (i, (score, playouts)) in stats.iter().enumerate() {
        let p = *playouts as f64;
        let val = if *playouts == 0 {
            f64::MAX
        } else {
            (*score as f64 / p) + ((parent as f64).ln() * 2.0 / p).sqrt()
        };
        if val > best_val {
            best_val = val;
            best = i;
        }
    }
    best
}

fn first(_stats: &Vec<(i64, u64)>, _parent: u64) -> usize {
    0
}

fn small_game(moves: &[usize]) -> Game {
    let mut g = Game::new_depth(1, 0);
    for m in moves {
        g.play(&[*m]).unwrap();
    }
    g
}

#[test]
fn playout_values() {
    assert_eq!(playout_value(Value::Player1, Turn::Player1), 1);
    assert_eq!(playout_value(Value::Player2, Turn::Player2), 1);
    assert_eq!(playout_value(Value::Draw, Turn::Player1), 0);
    assert_eq!(playout_value(Value::Player2, Turn::Player1), -1);
    assert_eq!(playout_value(Value::Undecided, Turn::Player2), -1);
}

#[test]
fn node_scores_are_seen_from_a_side() {
    let mut n = MonteCarloNode::new(vec![4], 8, Turn::Player1);
    assert_eq!(n.playouts, 0);
    assert_eq!(n.score, 0);
    assert_eq!(n.child_count, 8);
    n.score = 5;
    assert_eq!(n.score(Turn::Player1), 5);
    assert_eq!(n.score(Turn::Player2), -5);
    n.score = i64::MIN;
    assert_eq!(n.score(Turn::Player2), i64::MAX);
    let c = n.copy();
    assert_eq!(c.play, vec![4]);
    assert_eq!(c.score, i64::MIN);
    assert_eq!(c.turn, Turn::Player1);
}

#[test]
fn held_addition() {
    assert_eq!(add_held_exec(2, 3), 5);
    assert_eq!(add_held_exec(-2, -3), -5);
    assert_eq!(add_held_exec(i64::MAX, 1), i64::MAX);
    assert_eq!(add_held_exec(i64::MIN, -1), i64::MIN);
    assert_eq!(add_held_exec(i64::MAX, -1), i64::MAX - 1);
}

#[test]
fn a_new_search_has_only_its_root() {
    let m = MonteCarloManager::new(Game::new_depth(1, 0), Turn::Player1);
    assert_eq!(m.sims, 0);
    let root = m.tree.root();
    assert_eq!(root.children().count(), 0);
    assert_eq!(root.value().child_count, 9);
    assert_eq!(root.value().turn, Turn::Player2);
    assert_eq!(root.value().playouts, 0);
    assert!(root.value().play.is_empty());

    let m2 = MonteCarloManager::new(Game::new_depth(2, 0), Turn::Player2);
    assert_eq!(m2.tree.root().value().child_count, 81);
    assert_eq!(m2.tree.root().value().turn, Turn::Player1);
}

#[test]
fn expand_adds_one_unexplored_move() {
    let g = Game::new_depth(1, 0);
    let mut m = MonteCarloManager::new(g.clone(), Turn::Player1);
    let root = m.tree.root().id();
    let a = m.expand(root);
    let b = m.expand(root);
    assert_ne!(a, root);
    assert_ne!(b, root);
    assert_ne!(a, b);
    assert_eq!(m.tree.root().children().count(), 2);
    let pa = m.tree.get(a).unwrap().value().play.clone();
    let pb = m.tree.get(b).unwrap().value().play.clone();
    assert_ne!(pa, pb);
    assert_eq!(pa.len(), 1);
    assert_eq!(m.tree.get(a).unwrap().value().child_count, 8);
    assert_eq!(m.tree.get(a).unwrap().value().turn, Turn::Player1);
    assert_eq!(m.g, g);

    let c = m.expand(a);
    assert_ne!(c, a);
    assert_eq!(m.tree.get(c).unwrap().value().turn, Turn::Player2);
    assert_eq!(m.tree.get(c).unwrap().value().child_count, 7);
    assert_eq!(m.g, g);
}

#[test]
fn expand_stops_at_a_fully_explored_node() {
    // Only one empty cell is left.
    let g = small_game(&[0, 1, 2, 4, 3, 5, 7, 6]);
    assert_eq!(g.board.check(), Value::Undecided);
    let mut m = MonteCarloManager::new(g, Turn::Player1);
    let root = m.tree.root().id();
    let a = m.expand(root);
    assert_ne!(a, root);
    assert_eq!(m.tree.get(a).unwrap().value().play, vec![8]);
    assert_eq!(m.expand(root), root);
    assert_eq!(m.tree.root().children().count(), 1);
}

#[test]
fn simulate_and_backpropogate_count_a_playout() {
    let g = Game::new_depth(1, 0);
    let mut m = MonteCarloManager::new(g.clone(), Turn::Player1);
    let root = m.tree.root().id();
    let a = m.expand(root);
    let (x, val) = m.simulate(a, Turn::Player1);
    assert_eq!(x, a);
    assert!(val == 1 || val == 0 || val == -1);
    assert_eq!(m.tree.get(a).unwrap().value().playouts, 1);
    assert_eq!(m.tree.get(a).unwrap().value().score, val);
    assert_eq!(m.tree.root().value().playouts, 0);
    assert_eq!(m.g, g);

    m.backpropogate(a, val);
    assert_eq!(m.tree.root().value().playouts, 1);
    assert_eq!(m.tree.root().value().score, val);
    assert_eq!(m.tree.get(a).unwrap().value().playouts, 1);
    assert_eq!(m.g, g);
}

#[test]
fn a_finished_playout_has_a_known_result() {
    // Crosses win by playing the last open cell of the top row.
    let g = small_game(&[0, 3, 1, 4]);
    let mut m = MonteCarloManager::new(g, Turn::Player1);
    let root = m.tree.root().id();
    let mut winning = None;
    for _ in 0..5 {
        let id = m.expand(root);
        if m.tree.get(id).unwrap().value().play == vec![2] {
            winning = Some(id);
        }
    }
    let w = winning.unwrap();
    let (_, val) = m.simulate(w, Turn::Player1);
    assert_eq!(val, 1);
    let (_, val2) = m.simulate(w, Turn::Player2);
    assert_eq!(val2, -1);
}

#[test]
fn select_descends_into_fully_explored_nodes() {
    let g = small_game(&[0, 1, 2, 4, 3, 5, 7]);
    let mut m = MonteCarloManager::new(g.clone(), Turn::Player2);
    let root = m.tree.root().id();
    assert_eq!(m.select(&first, Turn::Player2), Some(root));
    let a = m.expand(root);
    let b = m.expand(root);
    assert_eq!(m.expand(root), root);
    let s = m.select(&first, Turn::Player2).unwrap();
    assert!(s == a || s == b);
    assert_ne!(s, root);
    assert_eq!(m.g, g);
}

#[test]
fn search_steps_count_simulations() {
    let g = Game::new_depth(1, 0);
    let mut m = MonteCarloManager::new(g.clone(), Turn::Player1);
    for _ in 0..50 {
        assert!(m.search_step(&ucb1, Turn::Player1));
    }
    assert_eq!(m.sims, 50);
    assert_eq!(m.tree.root().value().playouts, 50);
    assert_eq!(m.g, g);
    let best = m.best(MonteCarloPolicy::Robust, Turn::Player1).unwrap();
    assert_eq!(best.len(), 1);
    assert!(best[0] < 9);
}

#[test]
fn search_finds_the_winning_move() {
    let g = small_game(&[0, 3, 1, 4]);
    let mut m = MonteCarloManager::new(g, Turn::Player1);
    for _ in 0..400 {
        m.search_step(&ucb1, Turn::Player1);
    }
    assert_eq!(m.best(MonteCarloPolicy::Robust, Turn::Player1), Some(vec![2]));
    assert_eq!(m.best(MonteCarloPolicy::Maximum, Turn::Player1), Some(vec![2]));
}

#[test]
fn best_of_an_unexplored_position_is_a_legal_move() {
    let g = small_game(&[4]);
    let m = MonteCarloManager::new(g.clone(), Turn::Player2);
    let best = m.best(MonteCarloPolicy::Robust, Turn::Player2).unwrap();
    assert!(g.legal_moves().contains(&best));
}

#[test]
fn a_finished_game_has_no_move_to_offer() {
    let g = small_game(&[0, 3, 1, 4, 2]);
    assert_eq!(g.board.check(), Value::Player1);
    let mut m = MonteCarloManager::new(g, Turn::Player2);
    assert_eq!(m.best(MonteCarloPolicy::Maximum, Turn::Player2), None);
    assert!(!m.search_step(&first, Turn::Player2));
    assert_eq!(m.sims, 0);
}

#[test]
fn thoughts_report_the_root() {
    let g = Game::new_depth(1, 0);
    let mut m = MonteCarloManager::new(g, Turn::Player1);
    let t0 = m.thoughts(Turn::Player1);
    assert_eq!(t0, Thoughts { sims: 0, score: 0 });
    for _ in 0..20 {
        m.search_step(&ucb1, Turn::Player1);
    }
    let root_score = m.tree.root().value().score;
    let t1 = m.thoughts(Turn::Player2);
    assert_eq!(t1.sims, 20);
    // The root stands for the opponent's last move, so its score is seen as it is by
    // the opponent and negated for the player optimised for.
    assert_eq!(t1.score, root_score);
    assert_eq!(m.thoughts(Turn::Player1).score, -root_score);
}

fn settings(game: Game) -> SearchSettings {
    SearchSettings {
        game,
        timeout_ms: 10_000,
        max_sims: 180,
        threads: 1,
        opt_for: Turn::Player1,
        carry_forward: false,
        policy: MonteCarloPolicy::Robust,
    }
}

#[test]
fn only_start_begins_a_search() {
    let s = start_settings(SearchMessage::Start(settings(Game::new_depth(2, 1)))).unwrap();
    assert_eq!(s.max_sims, 180);
    assert_eq!(s.game, Game::new_depth(2, 1));
    assert!(start_settings(SearchMessage::Interrupt).is_none());
    assert!(start_settings(SearchMessage::GetThoughts(Turn::Player2)).is_none());
    assert!(start_settings(SearchMessage::Move(Some(vec![4]))).is_none());
    assert!(start_settings(SearchMessage::Return).is_none());
    assert!(start_settings(SearchMessage::Thoughts(Thoughts { sims: 1, score: 1 })).is_none());
}

#[test]
fn rounds_follow_limits_then_messages() {
    assert_eq!(round_action(true, 3, 10, None), SearchAction::Step);
    assert_eq!(round_action(false, 3, 10, None), SearchAction::Finish);
    assert_eq!(round_action(true, 10, 10, None), SearchAction::Finish);
    assert_eq!(round_action(true, 3, 10, Some(SearchMessage::Interrupt)), SearchAction::Abandon);
    assert_eq!(round_action(false, 3, 10, Some(SearchMessage::Interrupt)), SearchAction::Finish);
    assert_eq!(
        round_action(true, 3, 10, Some(SearchMessage::GetThoughts(Turn::Player2))),
        SearchAction::ReplyThoughts(Turn::Player2)
    );
    assert_eq!(round_action(true, 3, 10, Some(SearchMessage::Return)), SearchAction::Finish);
    assert_eq!(round_action(true, 3, 10, Some(SearchMessage::Move(None))), SearchAction::Step);
}

#[test]
fn exit_reasons() {
    assert_eq!(exit_reason(true, true, 5, 10, false), ExitReason::Interrupt);
    assert_eq!(exit_reason(false, true, 10, 10, true), ExitReason::Return);
    assert_eq!(exit_reason(false, false, 10, 10, true), ExitReason::SimulationCap);
    assert_eq!(exit_reason(false, false, 5, 10, true), ExitReason::Timeout);
    assert_eq!(exit_reason(false, false, 5, 10, false), ExitReason::CompleteTree);
}

fn last(stats: &Vec<(i64, u64)>, _parent: u64) -> usize {
    stats.len() - 1
}

#[test]
fn select_follows_the_pick() {
    let g = small_game(&[0, 1, 2, 4, 3, 5, 7]);
    let mut m = MonteCarloManager::new(g, Turn::Player2);
    let root = m.tree.root().id();
    let a = m.expand(root);
    let b = m.expand(root);
    assert_eq!(m.select(&first, Turn::Player2), Some(a));
    assert_eq!(m.select(&last, Turn::Player2), Some(b));
}

#[test]
fn maximum_picks_a_child_even_when_all_scores_are_negative() {
    let g = small_game(&[0, 3, 1, 4]);
    let mut m = MonteCarloManager::new(g, Turn::Player1);
    let root = m.tree.root().id();
    let a = m.expand(root);
    let b = m.expand(root);
    m.tree.get_mut(a).unwrap().value().score = -3;
    m.tree.get_mut(b).unwrap().value().score = -1;
    let pb = m.tree.get(b).unwrap().value().play.clone();
    assert_eq!(m.best(MonteCarloPolicy::Maximum, Turn::Player1), Some(pb));
}

#[test]
fn a_search_step_counts_a_playout_along_the_path() {
    let g = Game::new_depth(1, 0);
    let mut m = MonteCarloManager::new(g, Turn::Player1);
    assert!(m.search_step(&first, Turn::Player1));
    let root = m.tree.root();
    assert_eq!(root.children().count(), 1);
    let child = root.first_child().unwrap();
    assert_eq!(child.value().playouts, 1);
    assert_eq!(root.value().playouts, 1);
    assert_eq!(child.value().score, root.value().score);
}

#[test]
fn computer_move_requests() {
    let ui = UIState::new();
    let g = Game::new_depth(2, 2);
    assert!(computer_move_request(&g, &ui, false, false).is_none());
    let s = computer_move_request(&g, &ui, false, true).unwrap();
    assert_eq!(s.game, g);
    assert_eq!(s.timeout_ms, 10_000);
    assert_eq!(s.max_sims, 180);
    assert_eq!(s.opt_for, Turn::Player1);
    assert_eq!(s.policy, MonteCarloPolicy::Robust);
    assert!(computer_move_request(&g, &ui, true, true).is_none());
    let mut one = Game::new_depth(2, 1);
    assert!(computer_move_request(&one, &ui, false, false).is_none());
    one.play(&[0, 0]).unwrap();
    assert!(computer_move_request(&one, &ui, false, false).is_some());
    assert!(computer_move_request(&Game::new_depth(1, 0), &ui, false, false).is_some());
    let done = small_game(&[0, 3, 1, 4, 2]);
    assert!(computer_move_request(&done, &ui, false, true).is_none());
    let mut big = UIState::new();
    big.max_time = usize::MAX;
    assert_eq!(computer_move_request(&g, &big, false, true).unwrap().timeout_ms, u64::MAX);
}
