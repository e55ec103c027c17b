use clackers::dice::Dice;
use clackers::game::{
    new_game, place_in_stack, AllOrOne, Clacker, DiceMode, GameMode, InvalidConfiguration,
    TurnPlan,
};

fn marked_in_snapshot(g: &Clacker) -> usize {
    g.board_snapshot().iter().filter(|&&(_, m)| m).count()
}

#[test]
fn counter_matches_marked_cells_remove() {
    let mut g = new_game(&vec![3, 3], GameMode::REMOVE, DiceMode::ALLORONE).unwrap();
    g.handle(vec![2, 2, 5, 1, 5]);
    assert_eq!(g.toggled_cells, 3);
    assert_eq!(marked_in_snapshot(&g), g.toggled_cells);
    g.handle(vec![6, 1, 3]);
    assert_eq!(g.toggled_cells, 5);
    assert_eq!(marked_in_snapshot(&g), g.toggled_cells);
}

#[test]
fn counter_matches_marked_cells_toggle() {
    let mut g = new_game(&vec![3, 3], GameMode::TOGGLE, DiceMode::ALLORONE).unwrap();
    g.handle(vec![2, 2, 5, 1, 5]);
    assert_eq!(g.toggled_cells, 1);
    assert_eq!(marked_in_snapshot(&g), g.toggled_cells);
    g.handle(vec![1, 4, 4, 6]);
    assert_eq!(g.toggled_cells, 1);
    assert_eq!(marked_in_snapshot(&g), g.toggled_cells);
}

#[test]
fn remove_idempotent_one_call() {
    let mut a = new_game(&vec![6], GameMode::REMOVE, DiceMode::ALLORONE).unwrap();
    let mut b = new_game(&vec![6], GameMode::REMOVE, DiceMode::ALLORONE).unwrap();
    a.handle(vec![4, 4]);
    b.handle(vec![4]);
    assert_eq!(a.cells, b.cells);
    assert_eq!(a.toggled_cells, b.toggled_cells);
}

#[test]
fn remove_idempotent_successive_calls() {
    let mut a = new_game(&vec![6], GameMode::REMOVE, DiceMode::ALLORONE).unwrap();
    let mut b = new_game(&vec![6], GameMode::REMOVE, DiceMode::ALLORONE).unwrap();
    a.handle(vec![4]);
    a.handle(vec![4]);
    b.handle(vec![4]);
    assert_eq!(a.cells, b.cells);
    assert_eq!(a.toggled_cells, b.toggled_cells);
}

#[test]
fn toggle_involution_restores_cell_and_counter() {
    let mut g = new_game(&vec![6], GameMode::TOGGLE, DiceMode::ALLORONE).unwrap();
    g.handle(vec![2]);
    let cells_before = g.cells.clone();
    let count_before = g.toggled_cells;
    g.handle(vec![4, 4]);
    assert_eq!(g.cells, cells_before);
    assert_eq!(g.toggled_cells, count_before);
}

#[test]
fn won_iff_every_cell_marked() {
    let mut g = new_game(&vec![3], GameMode::REMOVE, DiceMode::ALLORONE).unwrap();
    g.handle(vec![1, 2]);
    assert!(!g.won());
    g.handle(vec![3]);
    assert!(g.won());

    let mut t = new_game(&vec![3], GameMode::TOGGLE, DiceMode::ALLORONE).unwrap();
    t.handle(vec![1, 3]);
    assert!(!t.won());
    t.handle(vec![2]);
    assert!(t.won());
}

#[test]
fn only_individual_offered_when_total_cell_marked() {
    let mut g = new_game(&vec![6, 6], GameMode::REMOVE, DiceMode::ALLORONE).unwrap();
    g.handle(vec![7]);
    let throws = vec![(3, 6), (4, 6)];
    assert!(!AllOrOne::TOTAL.is_worth(&g, &throws));
    assert!(AllOrOne::INDIVIDUAL.is_worth(&g, &throws));
    let offered = g.all_or_one_choices(&throws);
    assert_eq!(offered, vec![AllOrOne::INDIVIDUAL]);
}

#[test]
fn overlap_false_with_window_full_true_with_any_clear() {
    let throws = vec![(3, 6), (5, 6)];
    let mut full = new_game(&vec![6, 6], GameMode::REMOVE, DiceMode::SELECTION).unwrap();
    full.handle(vec![3, 4, 5, 6, 7, 8]);
    assert!(!full.check_overlap(&throws));
    for clear in 3..=8 {
        let mut g = new_game(&vec![6, 6], GameMode::REMOVE, DiceMode::SELECTION).unwrap();
        let marks: Vec<usize> = (3..=8).filter(|&n| n != clear).collect();
        g.handle(marks);
        assert!(g.check_overlap(&throws));
    }
}

#[test]
fn single_die_game_end_to_end() {
    let mut g = new_game(&vec![6], GameMode::REMOVE, DiceMode::ALLORONE).unwrap();
    assert_eq!(g.goal_cells, 6);
    assert!(g.is_clear(4));
    let won = g.handle(vec![4]);
    assert!(!won);
    assert!(!g.is_clear(4));
    for n in [1, 2, 3, 5] {
        assert!(!g.handle(vec![n]));
    }
    assert!(g.handle(vec![6]));
    assert!(g.won());
    assert_eq!(g.throws, 6);
}

#[test]
fn skipped_turn_still_counts_as_throw() {
    let mut g = new_game(&vec![6], GameMode::REMOVE, DiceMode::ALLORONE).unwrap();
    g.handle(vec![4]);
    g.handle(vec![]);
    assert_eq!(g.throws, 2);
    assert_eq!(g.toggled_cells, 1);
}

#[test]
fn two_dice_total_auto_applied() {
    let mut g = new_game(&vec![6, 6], GameMode::REMOVE, DiceMode::ALLORONE).unwrap();
    g.handle(vec![3, 4]);
    let throws = vec![(3, 6), (4, 6)];
    let plan = g.derive_turn(&throws);
    match plan {
        TurnPlan::Auto(v) => assert_eq!(v, vec![7]),
        _ => panic!("expected an automatic move"),
    }
    g.handle(vec![7]);
    assert!(!g.is_clear(7));
}

#[test]
fn no_dice_is_rejected() {
    let r = new_game(&vec![], GameMode::REMOVE, DiceMode::ALLORONE);
    assert!(matches!(r, Err(InvalidConfiguration::NoDice)));
}

#[test]
fn sideless_die_is_rejected() {
    let r = new_game(&vec![6, 1], GameMode::REMOVE, DiceMode::ALLORONE);
    assert!(matches!(r, Err(InvalidConfiguration::TooFewSides)));
}

#[test]
fn new_game_sets_up_board_from_side_counts() {
    let g = new_game(&vec![6, 4], GameMode::TOGGLE, DiceMode::SELECTION).unwrap();
    assert_eq!(g.goal_cells, 10);
    assert_eq!(g.toggled_cells, 0);
    assert_eq!(g.throws, 0);
    assert_eq!(g.dices.len(), 2);
    assert_eq!(g.dices[0].sides(), 6);
    assert_eq!(g.dices[1].sides(), 4);
    for i in 1..=10 {
        assert!(g.is_clear(i));
    }
}

#[test]
fn die_throws_stay_in_range() {
    let d = Dice::new(6);
    assert_eq!(d.sides(), 6);
    for _ in 0..200 {
        let f = d.throw();
        assert!((1..=6).contains(&f));
    }
    let two = Dice::new(2);
    let mut seen = [false; 3];
    for _ in 0..200 {
        let f = two.throw();
        assert!((1..=2).contains(&f));
        seen[f] = true;
    }
    assert!(seen[1] && seen[2]);
}

#[test]
fn game_throw_rolls_every_die() {
    let g = new_game(&vec![6, 4, 2], GameMode::REMOVE, DiceMode::SELECTION).unwrap();
    for _ in 0..50 {
        let throws = g.throw();
        assert_eq!(throws.len(), 3);
        for (i, &(face, sides)) in throws.iter().enumerate() {
            assert_eq!(sides, g.dices[i].sides());
            assert!(1 <= face && face <= sides);
        }
    }
}

#[test]
fn stack_placement_appends_or_sums() {
    let mut stack: Vec<usize> = Vec::new();
    place_in_stack(&mut stack, 0, 3);
    assert_eq!(stack, vec![3]);
    place_in_stack(&mut stack, 1, 5);
    assert_eq!(stack, vec![3, 5]);
    place_in_stack(&mut stack, 0, 2);
    assert_eq!(stack, vec![5, 5]);
}

#[test]
fn resolve_total_and_individual() {
    let throws = vec![(3, 6), (4, 6), (2, 6)];
    assert_eq!(AllOrOne::TOTAL.resolve(&throws), vec![9]);
    assert_eq!(AllOrOne::INDIVIDUAL.resolve(&throws), vec![3, 4, 2]);
}

#[test]
fn snapshot_pairs_indices_with_marks() {
    let mut g = new_game(&vec![2], GameMode::REMOVE, DiceMode::ALLORONE).unwrap();
    assert_eq!(g.board_snapshot(), vec![(1, false), (2, false)]);
    g.handle(vec![2]);
    assert_eq!(g.board_snapshot(), vec![(1, false), (2, true)]);
}

#[test]
fn selection_skips_only_when_window_is_full() {
    let mut g = new_game(&vec![2, 2], GameMode::REMOVE, DiceMode::SELECTION).unwrap();
    let throws = vec![(1, 2), (1, 2)];
    assert!(matches!(g.derive_turn(&throws), TurnPlan::BuildStack));
    g.handle(vec![1, 2]);
    assert!(matches!(g.derive_turn(&throws), TurnPlan::Skip));

    let mut t = new_game(&vec![2, 2], GameMode::TOGGLE, DiceMode::SELECTION).unwrap();
    t.handle(vec![1, 2]);
    assert!(matches!(t.derive_turn(&throws), TurnPlan::BuildStack));
}

#[test]
fn toggle_offers_both_strategies_even_on_marked_cells() {
    let mut g = new_game(&vec![2, 2], GameMode::TOGGLE, DiceMode::ALLORONE).unwrap();
    g.handle(vec![1, 2, 3, 4]);
    let throws = vec![(1, 2), (1, 2)];
    let offered = g.all_or_one_choices(&throws);
    assert_eq!(offered, vec![AllOrOne::TOTAL, AllOrOne::INDIVIDUAL]);
    assert!(matches!(g.derive_turn(&throws), TurnPlan::Choose));
}

#[test]
fn remove_skips_when_nothing_is_worthwhile() {
    let mut g = new_game(&vec![2, 2], GameMode::REMOVE, DiceMode::ALLORONE).unwrap();
    let throws = vec![(1, 2), (1, 2)];
    g.handle(vec![1, 2]);
    assert!(matches!(g.derive_turn(&throws), TurnPlan::Skip));
}

#[test]
fn single_die_roll_is_auto_applied() {
    let g = new_game(&vec![6], GameMode::REMOVE, DiceMode::ALLORONE).unwrap();
    match g.derive_turn(&vec![(4, 6)]) {
        TurnPlan::Auto(v) => assert_eq!(v, vec![4]),
        _ => panic!("expected an automatic move"),
    }
}
