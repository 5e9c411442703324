use decision_model::clean_input;
use decision_model::pairs::index_pairs;
use decision_model::DecisionModel;
use decision_model::Side;

fn strings(names: &[&str]) -> Vec<String> {
    names.iter().map(|&s| s.to_string()).collect()
}

#[test]
fn round_trip_from_raw_text() {
    let raw = "a \nmiao\n\nx\n";
    let cleaned = clean_input(raw);
    let mut model = DecisionModel::new();
    model.prepare_model(&cleaned, false);
    assert_eq!("a\nmiao\nx", model.get_parameters());
}

#[test]
fn canonical_schedule_for_three() {
    let mut model = DecisionModel::new();
    model.prepare_model(&strings(&["a", "b", "c"]), false);
    assert_eq!(vec![(0, 1), (0, 2), (1, 2)], model.indices);

    let first = model.get_current_pair().unwrap();
    assert_eq!(("a", 0), first.0.get_name_and_score());
    assert_eq!(("b", 0), first.1.get_name_and_score());

    model.move_to_next_pair();
    let second = model.get_current_pair().unwrap();
    assert_eq!("a", second.0.name);
    assert_eq!("c", second.1.name);
}

#[test]
fn index_pairs_small_sizes() {
    assert_eq!(Vec::<(usize, usize)>::new(), index_pairs(0));
    assert_eq!(Vec::<(usize, usize)>::new(), index_pairs(1));
    assert_eq!(vec![(0, 1)], index_pairs(2));
    assert_eq!(
        vec![(0, 1), (0, 2), (1, 2), (0, 3), (1, 3), (2, 3)],
        index_pairs(4)
    );
}

#[test]
fn schedule_length_formula() {
    for n in 0..8usize {
        let pairs = index_pairs(n);
        assert_eq!(n * n.saturating_sub(1) / 2, pairs.len());
    }
}

#[test]
fn advance_walks_to_exhaustion() {
    let mut model = DecisionModel::new();
    model.prepare_model(&strings(&["a", "b", "c"]), false);
    let len = model.indices.len();
    assert_eq!(3, len);

    for _ in 0..len - 1 {
        model.move_to_next_pair();
    }
    let last = model.get_current_pair().unwrap();
    assert_eq!("b", last.0.name);
    assert_eq!("c", last.1.name);

    model.move_to_next_pair();
    assert_eq!(None, model.get_current_pair());

    model.move_to_next_pair();
    assert_eq!(None, model.get_current_pair());
}

#[test]
fn record_left_adds_exactly_the_points() {
    let mut model = DecisionModel::new();
    model.prepare_model(&strings(&["a", "b", "c"]), false);
    model.record_score_of_current_pair(Side::Lhs, 7);

    let pair = model.get_current_pair().unwrap();
    assert_eq!(7, pair.0.score);
    assert_eq!(0, pair.1.score);
}

#[test]
fn record_neither_changes_no_score() {
    let mut model = DecisionModel::new();
    model.prepare_model(&strings(&["a", "b"]), false);
    model.record_score_of_current_pair(Side::Other, 5);

    let pair = model.get_current_pair().unwrap();
    assert_eq!(0, pair.0.score);
    assert_eq!(0, pair.1.score);
}

#[test]
fn record_after_exhaustion_is_a_no_op() {
    let mut model = DecisionModel::new();
    model.prepare_model(&strings(&["a", "b"]), false);
    model.move_to_next_pair();
    assert_eq!(None, model.get_current_pair());

    model.record_score_of_current_pair(Side::Lhs, 9);
    for p in model.sorted_by_score() {
        assert_eq!(0, p.score);
    }
}

#[test]
fn ranked_results_sorted_after_records() {
    let mut model = DecisionModel::new();
    model.prepare_model(&strings(&["a", "b", "c", "d"]), false);
    let outcomes = [Side::Lhs, Side::Rhs, Side::Other, Side::Rhs, Side::Lhs, Side::Rhs];
    for side in outcomes {
        model.record_score_of_current_pair(side, 1);
        model.move_to_next_pair();
    }

    let ranked = model.sorted_by_score();
    assert_eq!(4, ranked.len());
    for w in ranked.windows(2) {
        assert!(w[0].score >= w[1].score);
    }
}

#[test]
fn ranked_results_idempotent() {
    let mut model = DecisionModel::new();
    model.prepare_model(&strings(&["a", "b", "c"]), false);
    model.record_score_of_current_pair(Side::Rhs, 2);

    let first = model.sorted_by_score();
    let second = model.sorted_by_score();
    assert_eq!(first, second);
}

#[test]
fn ranked_results_ties_keep_list_order() {
    let mut model = DecisionModel::new();
    model.prepare_model(&strings(&["b", "a", "c"]), false);

    let ranked = model.sorted_by_score();
    let names: Vec<&str> = ranked.iter().map(|p| p.name.as_str()).collect();
    assert_eq!(vec!["a", "b", "c"], names);
}

#[test]
fn ranked_results_case_mixed_names() {
    let mut model = DecisionModel::new();
    model.prepare_model(&strings(&["a", "B", "c"]), false);
    assert_eq!("B\na\nc", model.get_parameters());

    model.parameters[0].score = 2;
    model.parameters[1].score = 1;
    model.parameters[2].score = 3;

    let ranked = model.sorted_by_score();
    assert_eq!("c", ranked[0].name);
}

#[test]
fn load_drops_case_insensitive_duplicates() {
    let mut model = DecisionModel::new();
    model.prepare_model(&strings(&["a", "A", "b"]), false);
    assert_eq!("A\nb", model.get_parameters());
    assert_eq!(2, model.parameters.len());
}

#[test]
fn load_counts_never_exceed_lines() {
    let raw = "x\ny\nx\nY \n\n z\n";
    let cleaned = clean_input(raw);
    assert_eq!(5, cleaned.len());

    let mut model = DecisionModel::new();
    model.prepare_model(&cleaned, false);
    assert!(model.parameters.len() < cleaned.len());
    assert_eq!("Y\nx\ny\nz", model.get_parameters());
}

#[test]
fn degenerate_loads_are_not_ready() {
    let mut model = DecisionModel::new();
    model.prepare_model(&strings(&[]), false);
    assert_eq!(0, model.indices.len());
    assert!(!model.is_model_ready_to_play());
    assert_eq!(None, model.get_current_pair());

    model.prepare_model(&strings(&["a"]), false);
    assert_eq!(0, model.indices.len());
    assert!(!model.is_model_ready_to_play());
    assert_eq!(None, model.get_current_pair());
}

#[test]
fn ready_needs_all_scores_zero() {
    let mut model = DecisionModel::new();
    model.prepare_model(&strings(&["a", "b"]), false);
    assert!(model.is_model_ready_to_play());

    model.record_score_of_current_pair(Side::Lhs, 1);
    assert!(!model.is_model_ready_to_play());
}

#[test]
fn start_round_zeroes_scores_and_rewinds() {
    let mut model = DecisionModel::new();
    model.prepare_model(&strings(&["a", "b", "c"]), false);
    model.record_score_of_current_pair(Side::Lhs, 4);
    model.move_to_next_pair();
    model.move_to_next_pair();
    model.move_to_next_pair();
    assert_eq!(None, model.get_current_pair());

    model.reset_score_and_indices();
    assert!(model.is_model_ready_to_play());
    let pair = model.get_current_pair().unwrap();
    assert_eq!("a", pair.0.name);
    assert_eq!("b", pair.1.name);
}

#[test]
fn start_round_with_one_candidate_keeps_cursor() {
    let mut model = DecisionModel::new();
    model.prepare_model(&strings(&["a"]), false);
    model.reset_score_and_indices();
    assert_eq!(None, model.get_current_pair());
}

#[test]
fn reset_clears_everything() {
    let mut model = DecisionModel::new();
    model.prepare_model(&strings(&["a", "b"]), false);
    model.reset();
    assert_eq!(0, model.parameters.len());
    assert_eq!(0, model.indices.len());
    assert_eq!(None, model.get_current_pair());
    assert_eq!("", model.get_parameters());
}

#[test]
fn shuffle_keeps_the_pairing_set() {
    let mut model = DecisionModel::new();
    model.prepare_model(&strings(&["a", "b", "c", "d", "e"]), true);
    assert_eq!(10, model.indices.len());

    let mut shuffled = model.indices.clone();
    shuffled.sort();
    let mut canonical = index_pairs(5);
    canonical.sort();
    assert_eq!(canonical, shuffled);

    let pair = model.get_current_pair().unwrap();
    assert!(pair.0.name < pair.1.name);
}

#[test]
fn clean_input_edge_cases() {
    assert_eq!(Vec::<String>::new(), clean_input(""));
    assert_eq!(Vec::<String>::new(), clean_input("\n\n \n\t\n"));
    assert_eq!(vec!["a b".to_string()], clean_input("  a b  \n"));
    assert_eq!(
        vec!["one".to_string(), "two".to_string()],
        clean_input("\tone\t\ntwo")
    );
}

#[test]
fn export_round_trips() {
    let raw = "  pear\nApple \n\napple\nBanana\n";
    let cleaned = clean_input(raw);
    let mut model = DecisionModel::new();
    model.prepare_model(&cleaned, false);
    let exported = model.get_parameters();

    let mut again = DecisionModel::new();
    again.prepare_model(&clean_input(&exported), false);
    // "Banana" sorts between "Apple" and "apple", so the adjacent-only
    // dedup keeps both casings.
    assert_eq!("Apple\nBanana\napple\npear", exported);
    assert_eq!(exported, again.get_parameters());
}
