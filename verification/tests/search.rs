use guessgrid::bot::{MCTSBot, MIN_PLAYOUTS};
use guessgrid::game::{Action, Cell, Game};
use guessgrid::search::reward_for;
use guessgrid::select::choose_child;
use guessgrid::tally::ActionScores;

#[test]
fn reward_follows_the_sign_convention() {
    assert_eq!(reward_for([3, 1], 0), 1);
    assert_eq!(reward_for([3, 1], 1), -1);
    assert_eq!(reward_for([2, 2], 0), 0);
    assert_eq!(reward_for([2, 2], 1), 0);
    assert_eq!(reward_for([0, 5], 0), -1);
    assert_eq!(reward_for([0, 5], 1), 1);
}

#[test]
fn tally_starts_empty_and_accumulates_visits() {
    let g = Game::new(2, 2);
    let mut t = ActionScores::new(&g);
    let a = Action { row: 0, col: 0, cell: Cell::CrossedOut };
    let b = Action { row: 0, col: 1, cell: Cell::CrossedOut };
    assert_eq!(t.get_visit(&a), (0, 0));
    t.mark_visit(a, 1);
    t.mark_visit(a, -1);
    t.mark_visit(a, 1);
    t.mark_visit(b, -1);
    assert_eq!(t.get_visit(&a), (3, 1));
    assert_eq!(t.get_visit(&b), (1, -1));
}

#[test]
fn tally_freezes_the_legal_actions_of_its_board() {
    let g = Game::new(1, 1);
    let t = ActionScores::new(&g);
    assert_eq!(t.available_actions.len(), 2);
    assert_eq!(t.available_actions[0].cell, Cell::CrossedOut);
    assert_eq!(t.available_actions[1].cell, Cell::Guess(0, 1));
}

#[test]
fn selection_prefers_a_never_visited_action() {
    let g = Game::new(2, 2);
    let mut t = ActionScores::new(&g);
    let actions = g.get_legal_actions();
    // visit every action except one
    let skipped = actions[3];
    for (i, a) in actions.iter().enumerate() {
        if i != 3 {
            t.mark_visit(*a, 1);
            t.mark_visit(*a, 1);
        }
    }
    let chosen = choose_child(&t, &actions);
    assert_eq!(chosen, skipped);
}

#[test]
fn selection_on_a_fresh_node_starts_at_the_first_action() {
    let g = Game::new(2, 2);
    let t = ActionScores::new(&g);
    let actions = g.get_legal_actions();
    let chosen = choose_child(&t, &actions);
    assert_eq!(chosen, actions[0]);
}

#[test]
fn selection_returns_some_candidate() {
    let g = Game::new(2, 2);
    let mut t = ActionScores::new(&g);
    let actions = g.get_legal_actions();
    for a in actions.iter() {
        t.mark_visit(*a, 0);
    }
    let chosen = choose_child(&t, &actions);
    assert!(actions.contains(&chosen));
}

#[test]
fn playout_populates_the_tree_with_the_root() {
    let mut bot = MCTSBot::new(Game::new(2, 2), 0);
    assert_eq!(bot.tree.entries.len(), 0);
    bot.playout();
    assert!(bot.tree.find(&bot.root).is_some());
    for _ in 0..20 {
        bot.playout();
    }
    // each playout records exactly one visit at the root's entry
    let root = bot.root.clone();
    let i = bot.tree.find(&root).unwrap();
    let total: u64 = bot.tree.entries[i].1.visits.iter().map(|e| e.1 .0).sum();
    assert_eq!(total, 21);
}

#[test]
fn playout_on_a_finished_root_changes_nothing() {
    let mut g = Game::new(2, 2);
    g.place(0, 0, Cell::Guess(0, 1)).unwrap();
    g.place(1, 1, Cell::Guess(1, 2)).unwrap();
    assert!(g.is_finished());
    let mut bot = MCTSBot::new(g, 0);
    for _ in 0..16 {
        bot.playout();
    }
    assert_eq!(bot.tree.entries.len(), 0);
}

#[test]
fn update_keeps_the_statistics_of_retained_entries() {
    let mut bot = MCTSBot::new(Game::new(2, 2), 0);
    for _ in 0..32 {
        bot.playout();
    }
    let root = bot.root.clone();
    let i = bot.tree.find(&root).unwrap();
    let before = bot.tree.entries[i].1.visits.clone();
    // the root itself survives the pruning pass, records untouched
    bot.update(root.clone());
    let j = bot.tree.find(&bot.root).unwrap();
    let after = &bot.tree.entries[j].1.visits;
    assert_eq!(before.len(), after.len());
    for k in 0..before.len() {
        assert_eq!(before[k], after[k]);
    }
}

#[test]
fn update_prunes_entries_farther_from_completion() {
    let mut bot = MCTSBot::new(Game::new(2, 2), 0);
    for _ in 0..64 {
        bot.playout();
    }
    let mut next = bot.root.clone();
    next.place(0, 0, Cell::Guess(0, 1)).unwrap();
    let bound = next.empty_cells();
    bot.update(next);
    for e in bot.tree.entries.iter() {
        assert!(e.0.empty_cells() <= bound);
    }
}

#[test]
fn finished_board_yields_no_recommendation() {
    let mut g = Game::new(2, 2);
    g.place(0, 0, Cell::Guess(0, 1)).unwrap();
    g.place(1, 1, Cell::Guess(1, 2)).unwrap();
    assert!(g.is_finished());
    let mut bot = MCTSBot::new(g, 0);
    assert!(bot.recommend(MIN_PLAYOUTS).is_none());
}

#[test]
fn searching_an_open_board_recommends_a_legal_action() {
    let mut bot = MCTSBot::new(Game::new(2, 2), 0);
    let (action, (visits, _reward)) = bot.recommend(256).unwrap();
    assert!(visits >= 1);
    let mut copy = bot.root.clone();
    assert!(copy.place(action.row, action.col, action.cell).is_ok());
}

#[test]
fn bot_survives_a_whole_game_against_itself() {
    let mut game = Game::new(2, 2);
    let mut bot = MCTSBot::new(game.clone(), 0);
    while !game.is_finished() {
        let (action, _) = bot.recommend(64).unwrap();
        game.place(action.row, action.col, action.cell).unwrap();
        bot.update(game.clone());
    }
    let scores = game.get_scores();
    assert!(scores[0] + scores[1] <= 16);
    assert!(bot.recommend(8).is_none());
}
