use yawa::day::Day;
use yawa::lifting::{round_up_to_nearest5, Lift, LiftAttempt, LiftAttemptResult};
use yawa::programs::{start_gzcl_4day, Program, Weights};
use yawa::set::RepSet;
use yawa::weight_scheme::WeightScheme;

#[test]
fn day_notation_round_trips() {
    let text = "Day Name | Bench press -> 3x5,1x5-6,1x6+ @ 2r | Pullup -> 3x5,1x5-6,1x6+";
    let day = Day::parse(text).unwrap();
    assert_eq!(day.name, "Day Name");
    assert_eq!(day.lifts.len(), 2);
    assert_eq!(day.format(), text);
}

#[test]
fn day_without_lifts_parses() {
    let day = Day::parse("Something else").unwrap();
    assert_eq!(day.name, "Something else");
    assert_eq!(day.lifts.len(), 0);
}

#[test]
fn malformed_notations_are_rejected() {
    assert!(RepSet::parse("").is_err());
    assert!(RepSet::parse("x-2").is_err());
    assert!(RepSet::parse("2-").is_err());
    assert!(WeightScheme::parse("addx").is_err());
    assert!(WeightScheme::parse("1.2.3r").is_err());
    assert!(WeightScheme::parse("").is_err());
    assert!(Lift::parse("no arrow here").is_err());
    assert!(Lift::parse("name -> 2y5").is_err());
    assert!(Day::parse("Day | not a lift").is_err());
    assert!(LiftAttemptResult::parse("Done").is_err());
    assert!(Program::parse_json("{}").is_err());
    assert!(Program::parse_json("").is_err());
}

#[test]
fn rounds_up_to_multiples_of_five() {
    assert_eq!(round_up_to_nearest5(0), 0);
    assert_eq!(round_up_to_nearest5(1), 5);
    assert_eq!(round_up_to_nearest5(5), 5);
    assert_eq!(round_up_to_nearest5(22), 25);
    assert_eq!(round_up_to_nearest5(44), 45);
}

#[test]
fn attempt_knows_about_rep_ranges() {
    let with_range = LiftAttempt {
        lift: Lift::parse("a -> 2x5,1x5-8").unwrap(),
        weight: None,
    };
    assert!(with_range.has_rep_range());
    let without_range = LiftAttempt {
        lift: Lift::parse("a -> 3x5").unwrap(),
        weight: None,
    };
    assert!(!without_range.has_rep_range());
}

#[test]
fn multiplier_keeps_its_fraction_digits() {
    assert_eq!(WeightScheme::parse("0.50r").unwrap().format(), "0.50r");
    assert_eq!(WeightScheme::parse("3.05r").unwrap().format(), "3.05r");
    assert_eq!(WeightScheme::parse("0.675r").unwrap().format(), "0.675r");
}

#[test]
fn reference_weight_resolves_exactly() {
    // round_up_to_nearest5(ceil(0.5 * 100 - 30)) == 20
    assert_eq!(
        LiftAttempt {
            lift: Lift::parse("Weighted Pullup -> 4x3,1x3+ @ 0.5r-30").unwrap(),
            weight: Some(100),
        }
        .format(),
        "Weighted Pullup -> 4x3,1x3+ @ 20"
    );
}

#[test]
fn reference_weight_never_goes_below_zero() {
    assert_eq!(
        LiftAttempt {
            lift: Lift::parse("a -> 1x5 @ 0.5r-30").unwrap(),
            weight: Some(20),
        }
        .format(),
        "a -> 1x5 @ 0"
    );
}

#[test]
fn full_perfect_cycle_from_one_hundred() {
    let all_lifts_completed = [LiftAttemptResult::Completed {
        completed_maximum_reps: true,
    }; 5];
    let after = start_gzcl_4day(100)
        .complete_workout(&all_lifts_completed)
        .complete_workout(&all_lifts_completed)
        .complete_workout(&all_lifts_completed)
        .complete_workout(&all_lifts_completed);
    assert_eq!(after.reference_weight, 105);
    assert_eq!(after.starting_reference_weight, 100);
    assert_eq!(after.workouts_completed, 4);
    assert_eq!(after.current_day, 0);
}

#[test]
fn next_workout_prescribes_one_attempt_per_lift() {
    let program = start_gzcl_4day(100);
    let attempts = program.next_workout();
    assert_eq!(attempts.len(), 5);
    assert_eq!(attempts[0].weight, Some(100));
    assert_eq!(attempts[1].weight, None);
    assert_eq!(attempts[3].weight, Some(30));
}

#[test]
fn weights_ledger_ratchets_by_key() {
    let mut w = Weights::new();
    assert_eq!(w.get(&"k".to_string()), None);
    w.add("k".to_string(), 5);
    assert_eq!(w.get(&"k".to_string()), Some(5));
    w.add("k".to_string(), 20);
    assert_eq!(w.get(&"k".to_string()), Some(25));
    assert_eq!(w.get(&"other".to_string()), None);
}

#[test]
fn json_survives_a_quoted_day_name() {
    let program = Program {
        days: vec![Day::parse("A\"B\\C").unwrap()],
        name: "odd \"name\"".to_string(),
        reference_weight: 10,
        starting_reference_weight: 10,
        workouts_completed: 0,
        weights: Weights::new(),
        current_day: 0,
        current_cycle_attempt_results: vec![],
    };
    let text = program.to_json();
    let back = Program::parse_json(text.as_str()).unwrap();
    assert_eq!(back, program);
}

#[test]
fn json_rejects_day_index_outside_cycle() {
    let text = "{\"name\":\"x\",\"workouts_completed\":0,\"reference_weight\":1,\
        \"starting_reference_weight\":1,\"days_in_notation\":[],\"weights\":{},\
        \"current_day\":0,\"past_attempt_results_in_notation\":[]}";
    assert!(Program::parse_json(text).is_err());
}

#[test]
fn json_keeps_past_results_and_weights() {
    let all_lifts_completed = [LiftAttemptResult::Completed {
        completed_maximum_reps: true,
    }; 5];
    let program = start_gzcl_4day(100).complete_workout(&all_lifts_completed);
    let back = Program::parse_json(program.to_json().as_str()).unwrap();
    assert_eq!(back, program);
    assert_eq!(back.current_day, 1);
    assert_eq!(back.current_cycle_attempt_results.len(), 1);
}
