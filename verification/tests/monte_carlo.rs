use mcts::Game;
use mcts::MctsError;
use mcts::MonteCarloTreeNode;
use mcts::MonteCarloTreeSearch;
use mcts::VanillaMcts;

#[derive(Clone)]
pub struct ThreeBranchThreeDepthAlwaysWin {
    turn_number: usize,
}

impl ThreeBranchThreeDepthAlwaysWin {
    pub fn new() -> Self {
        ThreeBranchThreeDepthAlwaysWin { turn_number: 0 }
    }
}

impl Game for ThreeBranchThreeDepthAlwaysWin {
    fn get_all_choices(&self) -> Vec<u64> {
        vec![1, 2, 3]
    }

    fn apply_choice(&mut self, _choice: u64) {
        self.turn_number += 1;
    }

    fn get_active_player_id(&self) -> u64 {
        1
    }

    fn is_terminal(&self) -> bool {
        self.turn_number >= 3
    }

    fn reward_for(&self, _player_id: u64) -> i64 {
        1
    }

    fn choice_is_available(&self, _choice: u64) -> bool {
        true
    }

    fn heuristic_early_terminate(&self) -> bool {
        false
    }
}

#[test]
fn test_explores_each_option_once() {
    let game = ThreeBranchThreeDepthAlwaysWin::new();
    let mut mcts: VanillaMcts<ThreeBranchThreeDepthAlwaysWin> = VanillaMcts::new();
    let tree = mcts.build_tree(game.clone(), 3).unwrap();
    assert_eq!(tree.children.len(), 3);
    assert!(tree.children.iter().all(|child| child.games == 1));
    assert!(tree.children.iter().all(|child| child.cumulative_reward == 1));
}

#[test]
fn test_even_exploration() {
    let game = ThreeBranchThreeDepthAlwaysWin::new();
    let mut mcts: VanillaMcts<ThreeBranchThreeDepthAlwaysWin> = VanillaMcts::new();
    let tree = mcts.build_tree(game.clone(), 3 * 3 * 3 * 3).unwrap();
    assert_eq!(tree.children.len(), 3);
    assert!(tree.children.iter().all(|child| child.games == 3 * 3 * 3));
    assert!(tree.children.iter().all(|child| child.cumulative_reward == 3 * 3 * 3));
}

#[derive(Clone)]
pub struct BinaryTreeDepthThreeZeroWins {
    turn_number: usize,
    points: usize,
}

impl BinaryTreeDepthThreeZeroWins {
    pub fn new() -> Self {
        BinaryTreeDepthThreeZeroWins { turn_number: 0, points: 0 }
    }
}

impl Game for BinaryTreeDepthThreeZeroWins {
    fn get_all_choices(&self) -> Vec<u64> {
        vec![0, 1]
    }

    fn apply_choice(&mut self, choice: u64) {
        println!("{}", choice);
        self.turn_number += 1;
        if choice == 1 {
            self.points += 1;
        }
    }

    fn get_active_player_id(&self) -> u64 {
        1
    }

    fn is_terminal(&self) -> bool {
        self.turn_number >= 3
    }

    fn reward_for(&self, _player_id: u64) -> i64 {
        if self.points == 3 {
            1
        } else {
            0
        }
    }

    fn choice_is_available(&self, _choice: u64) -> bool {
        true
    }

    fn heuristic_early_terminate(&self) -> bool {
        false
    }

    fn shuffle_on_expand(&self) -> bool {
        false
    }
}

#[test]
fn finds_best() {
    let game = BinaryTreeDepthThreeZeroWins::new();
    let mut mcts: VanillaMcts<BinaryTreeDepthThreeZeroWins> = VanillaMcts::new();
    let (choice, _) = mcts.monte_carlo_tree_search(game.clone(), 8).unwrap();
    assert_eq!(choice, 1);
}

#[derive(Clone)]
pub struct GameNode {
    children: Vec<GameNode>,
    winner: Option<u64>,
}

impl GameNode {
    pub fn new(children: Vec<GameNode>, winner: Option<u64>) -> Self {
        GameNode { children, winner }
    }

    pub fn you_choose(children: Vec<GameNode>) -> Self {
        GameNode { children, winner: None }
    }

    pub fn they_choose(children: Vec<GameNode>) -> Self {
        GameNode { children, winner: None }
    }

    pub fn winner(player_id: u64) -> Self {
        GameNode { children: vec![], winner: Some(player_id) }
    }
}

#[derive(Clone)]
pub struct CustomGameTree {
    state: GameNode,
    active_player: u64,
    player_count: u64,
}

impl CustomGameTree {
    pub fn minimal_trap() -> Self {
        let you = 0;
        let them = 1;
        CustomGameTree {
            state: GameNode::you_choose(vec![
                // If you chose this node it seems like you have 2/3 win chance, but you always lose
                GameNode::they_choose(vec![
                    GameNode::winner(you),
                    GameNode::winner(you),
                    GameNode::winner(them),
                ]),
                // If you chose this node it seems like you have 1/3 win chance, but you always win
                GameNode::they_choose(vec![
                    GameNode::you_choose(vec![
                        GameNode::winner(you),
                        GameNode::winner(them),
                        GameNode::winner(them),
                    ]),
                    GameNode::you_choose(vec![
                        GameNode::winner(you),
                        GameNode::winner(them),
                        GameNode::winner(them),
                    ]),
                    GameNode::you_choose(vec![
                        GameNode::winner(you),
                        GameNode::winner(them),
                        GameNode::winner(them),
                    ]),
                ]),
            ]),
            active_player: you,
            player_count: 2,
        }
    }
}

impl Game for CustomGameTree {
    fn get_all_choices(&self) -> Vec<u64> {
        (0..self.state.children.len() as u64).collect()
    }

    fn apply_choice(&mut self, choice: u64) {
        self.state = self.state.children.remove(choice as usize);
        self.active_player = (self.active_player + 1) % self.player_count;
    }

    fn get_active_player_id(&self) -> u64 {
        self.active_player
    }

    fn is_terminal(&self) -> bool {
        self.state.winner.is_some()
    }

    fn reward_for(&self, player_id: u64) -> i64 {
        if self.state.winner.unwrap() == player_id {
            1
        } else {
            0
        }
    }

    fn choice_is_available(&self, _choice: u64) -> bool {
        true
    }

    fn heuristic_early_terminate(&self) -> bool {
        false
    }

    fn shuffle_on_expand(&self) -> bool {
        false
    }
}

#[test]
fn defeats_trap() {
    let game = CustomGameTree::minimal_trap();
    let mut mcts: VanillaMcts<CustomGameTree> = VanillaMcts::new();
    let (choice, _) = mcts.monte_carlo_tree_search(game.clone(), 40).unwrap();
    assert_eq!(choice, 1);
}

#[derive(Clone)]
struct StuckGame;

impl Game for StuckGame {
    fn get_all_choices(&self) -> Vec<u64> {
        vec![]
    }

    fn apply_choice(&mut self, _choice: u64) {}

    fn get_active_player_id(&self) -> u64 {
        0
    }

    fn is_terminal(&self) -> bool {
        false
    }

    fn reward_for(&self, _player_id: u64) -> i64 {
        0
    }

    fn choice_is_available(&self, _choice: u64) -> bool {
        true
    }

    fn heuristic_early_terminate(&self) -> bool {
        false
    }
}

#[test]
fn no_legal_actions_is_reported() {
    let mut mcts: VanillaMcts<StuckGame> = VanillaMcts::new();
    let r = mcts.monte_carlo_tree_search(StuckGame, 5);
    assert_eq!(r.unwrap_err(), MctsError::NoLegalActions);
}

#[test]
fn root_totals_are_invariant_to_call_order() {
    // A deterministic process: repeated searches from the same state must
    // produce the same root totals whatever the call order.
    let game = ThreeBranchThreeDepthAlwaysWin::new();
    let mut mcts: VanillaMcts<ThreeBranchThreeDepthAlwaysWin> = VanillaMcts::new();
    let (_, first) = mcts.monte_carlo_tree_search(game.clone(), 10).unwrap();
    let (_, second) = mcts.monte_carlo_tree_search(game.clone(), 10).unwrap();
    assert_eq!(first.tree_games, 10);
    assert_eq!(second.tree_games, 10);
    assert_eq!(first.tree_cumulative_reward, 10);
    assert_eq!(second.tree_cumulative_reward, second.tree_games as i64);
}

#[test]
fn root_children_cover_every_action_with_shuffle() {
    // Expansion shuffles the action order by default; the set of materialized
    // root actions must still be exactly the legal-action set.
    let game = ThreeBranchThreeDepthAlwaysWin::new();
    let mut mcts: VanillaMcts<ThreeBranchThreeDepthAlwaysWin> = VanillaMcts::new();
    let tree = mcts.build_tree(game, 6).unwrap();
    let mut found: Vec<u64> = tree.children.iter().map(|c| c.choice.unwrap()).collect();
    found.sort();
    assert_eq!(found, vec![1, 2, 3]);
}

#[test]
fn availability_counts_stay_below_visits() {
    let game = ThreeBranchThreeDepthAlwaysWin::new();
    let mut mcts: VanillaMcts<ThreeBranchThreeDepthAlwaysWin> = VanillaMcts::new();
    let tree = mcts.build_tree(game, 30).unwrap();
    assert_eq!(tree.games, 30);
    // The root is expanded exactly once, so it keeps one child per action and
    // its own availability counts stay at their initial value.
    assert_eq!(tree.children.len(), 3);
    for (_, count) in &tree.choice_availability_count {
        assert_eq!(*count, 0);
    }
    for child in &tree.children {
        for (_, count) in &child.choice_availability_count {
            assert!(*count <= child.games);
        }
    }
}

#[test]
fn fresh_node_is_root_only_without_incoming_action() {
    let root = MonteCarloTreeNode::new(7, None);
    assert!(root.is_root());
    assert_eq!(root.games, 0);
    assert_eq!(root.cumulative_reward, 0);
    assert_eq!(root.player_id, 7);
    let child = MonteCarloTreeNode::new(7, Some(3));
    assert!(!child.is_root());
    assert_eq!(child.choice, Some(3));
}

#[test]
fn best_root_choice_picks_most_visited() {
    let mut root = MonteCarloTreeNode::new(0, None);
    assert_eq!(root.best_root_choice(), None);
    let mut a = MonteCarloTreeNode::new(1, Some(10));
    a.games = 3;
    a.cumulative_reward = 3;
    let mut b = MonteCarloTreeNode::new(1, Some(11));
    b.games = 5;
    b.cumulative_reward = 1;
    root.children.push(a);
    root.children.push(b);
    // The most-visited child wins, not the one with the better win rate.
    assert_eq!(root.best_root_choice(), Some(11));
}

#[test]
fn upper_confidence_bound_exact_values() {
    // win rate 1.0 after one visit of two total: 65536 + 0.4 * sqrt(ln 2).
    assert_eq!(mcts::upper_confidence_bound(1, 1, 2, 26214), 87360);
    // a negative running reward gives a negative win-rate share.
    assert_eq!(mcts::upper_confidence_bound(-1, 2, 2, 26214), -17336);
    assert_eq!(mcts::upper_confidence_bound(3, 4, 10, 26214), 68824);
    // an unrecorded availability total contributes no exploration term.
    assert_eq!(mcts::upper_confidence_bound(0, 5, 0, 26214), 0);
}
