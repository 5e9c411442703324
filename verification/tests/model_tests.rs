use decision_model::clean_input;
use decision_model::DecisionModel;
use decision_model::Parameters;
use decision_model::Side;

#[test]
fn return_sorted() {
    let input = ["a", "b", "c"].iter().map(|&s| s.to_string()).collect();
    let mut model = DecisionModel::new();
    model.prepare_model(&input, false);
    model.parameters[0].score = 1;
    model.parameters[1].score = 2;
    model.parameters[2].score = 3;

    let result = model.sorted_by_score();
    assert_eq!(3, result[0].score);
    assert_eq!("c", result[0].name);
}

#[test]
fn model_go_to_next_pair() {
    let input: Vec<String> = ["a", "b", "c"].iter().map(|&s| s.to_string()).collect();
    let mut model = DecisionModel::new();
    model.prepare_model(&input, false);
    model.move_to_next_pair();

    let current_model = model.get_current_pair().unwrap();
    assert_eq!("c", current_model.1.name);
}

#[test]
fn model_increment_score() {
    let input: Vec<String> = ["a", "b", "c"].iter().map(|&s| s.to_string()).collect();
    let mut model = DecisionModel::new();
    model.prepare_model(&input, false);

    model.record_score_of_current_pair(Side::Rhs, 15);

    let current_model = model.get_current_pair().unwrap();
    assert_eq!(15, current_model.1.score);
}

#[test]
fn model_current_pair_good_model() {
    let input: Vec<String> = ["a", "b", "c"].iter().map(|&s| s.to_string()).collect();

    let mut model = DecisionModel::new();
    model.prepare_model(&input, false);

    assert_eq!(
        (
            Parameters {
                name: "a".to_string(),
                score: 0
            },
            Parameters {
                name: "b".to_string(),
                score: 0
            }
        ),
        model.get_current_pair().unwrap()
    );
}

#[test]
fn model_current_pair_bad_model() {
    let input: Vec<String> = ["a"].iter().map(|&s| s.to_string()).collect();

    let mut model = DecisionModel::new();
    model.prepare_model(&input, false);

    assert_eq!(None, model.get_current_pair());
}

#[test]
fn model_parameter_list() {
    let input: Vec<String> = ["a", "miao", "x"].iter().map(|&s| s.to_string()).collect();

    let mut model = DecisionModel::new();
    model.prepare_model(&input, false);

    assert_eq!("a\nmiao\nx", model.get_parameters());
}

#[test]
fn model_prepare() {
    let input: Vec<String> = ["a", "miao", "x"].iter().map(|&s| s.to_string()).collect();

    let mut model = DecisionModel::new();
    model.prepare_model(&input, false);

    assert!(model.is_model_ready_to_play());
}

#[test]
fn model_dedupe() {
    let expected: Vec<String> = ["a", "miao", "x"].iter().map(|&s| s.to_string()).collect();

    let input = String::from("a \nmiao\n\nx\n");
    let result = clean_input(&input);
    assert_eq!(expected, result);
}
