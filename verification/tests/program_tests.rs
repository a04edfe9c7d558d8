use yawa::lifting::LiftAttemptResult::{Completed, NotCompleted};
use yawa::programs::{start_gzcl_4day, Program};

#[test]
fn stores_weights() {
    assert_eq!(
        start_gzcl_4day(100).next_workout()[0].format(),
        "Weighted Pullup -> 4x3,1x3+ @ 20"
    );
    assert_eq!(start_gzcl_4day(100).next_workout()[1].format(), "Pullup -> 3x7+");
}

#[test]
fn all_non_reference_weights_initialized() {
    assert_eq!(
        start_gzcl_4day(100).next_workout()[3].format(),
        "Face Pull -> 2x15,1x15-25 @ 30"
    );
    assert_eq!(
        start_gzcl_4day(100).next_workout()[4].format(),
        "Cable Curl -> 2x15,1x15-25 @ 20"
    );
}

#[test]
fn increments_weights() {
    let before = start_gzcl_4day(100);
    let lift_incremented = before.days[0].lifts[3].clone();
    assert_eq!(lift_incremented.format(), "Face Pull -> 2x15,1x15-25 @ add20");
    let lift_not_incremented = before.days[0].lifts[4].clone();
    assert_eq!(lift_not_incremented.format(), "Cable Curl -> 2x15,1x15-25 @ add20");
    assert_eq!(before.weights.get(&lift_incremented.format()), Some(30));
    assert_eq!(before.weights.get(&lift_not_incremented.format()), Some(20));
    let after = before.complete_workout(&[
        Completed {
            completed_maximum_reps: true,
        },
        Completed {
            completed_maximum_reps: true,
        },
        Completed {
            completed_maximum_reps: true,
        },
        Completed {
            completed_maximum_reps: true,
        },
        Completed {
            completed_maximum_reps: false,
        },
    ]);
    assert_eq!(after.weights.get(&lift_incremented.format()), Some(50));
    assert_eq!(after.weights.get(&lift_not_incremented.format()), Some(20));
}

#[test]
fn doesnt_increment_reference_weight_if_any_not_completed() {
    let completed_all = [Completed {
        completed_maximum_reps: true,
    }; 5];
    let one_incomplete = [
        NotCompleted,
        Completed {
            completed_maximum_reps: true,
        },
        Completed {
            completed_maximum_reps: true,
        },
        Completed {
            completed_maximum_reps: true,
        },
        Completed {
            completed_maximum_reps: true,
        },
    ];
    assert_eq!(start_gzcl_4day(100).reference_weight, 100);
    assert_eq!(
        start_gzcl_4day(100)
            .complete_workout(&one_incomplete)
            .complete_workout(&completed_all)
            .complete_workout(&completed_all)
            .complete_workout(&completed_all)
            .complete_workout(&completed_all)
            .reference_weight,
        100
    );
}

#[test]
fn increments_reference_weight_if_all_completed() {
    assert_eq!(start_gzcl_4day(100).reference_weight, 100);
    assert_eq!(start_gzcl_4day(100).starting_reference_weight, 100);
    let all_lifts_completed = [Completed {
        completed_maximum_reps: true,
    }; 5];

    let before_cycle_completed = start_gzcl_4day(100)
        .complete_workout(&all_lifts_completed)
        .complete_workout(&all_lifts_completed)
        .complete_workout(&all_lifts_completed);
    assert_eq!(before_cycle_completed.reference_weight, 100);

    let after_cycle_completed = before_cycle_completed.complete_workout(&all_lifts_completed);
    assert_eq!(after_cycle_completed.reference_weight, 105);
    assert_eq!(after_cycle_completed.starting_reference_weight, 100);
}

#[test]
fn is_not_affected_by_failures_in_previous_cycles() {
    let incremented_weight = 105;
    let not_incremented_weight = 100;
    let all_lifts_completed = [Completed {
        completed_maximum_reps: true,
    }; 5];
    let all_lifts_not_completed = [NotCompleted; 5];

    assert_eq!(
        start_gzcl_4day(not_incremented_weight).reference_weight,
        not_incremented_weight
    );
    assert_eq!(
        start_gzcl_4day(not_incremented_weight).starting_reference_weight,
        not_incremented_weight
    );

    let after_failed_cycle_completed = start_gzcl_4day(not_incremented_weight)
        .complete_workout(&all_lifts_completed)
        .complete_workout(&all_lifts_not_completed)
        .complete_workout(&all_lifts_completed)
        .complete_workout(&all_lifts_completed);
    assert_eq!(
        after_failed_cycle_completed.reference_weight,
        not_incremented_weight
    );

    let after_successful_cycle_completed = after_failed_cycle_completed
        .complete_workout(&all_lifts_completed)
        .complete_workout(&all_lifts_completed)
        .complete_workout(&all_lifts_completed)
        .complete_workout(&all_lifts_completed);
    assert_eq!(
        after_successful_cycle_completed.starting_reference_weight,
        not_incremented_weight
    );

    assert_eq!(
        after_successful_cycle_completed.reference_weight,
        incremented_weight
    );
}

#[test]
fn increments_each_day_and_rolls_over() {
    assert_eq!(start_gzcl_4day(100).current_day, 0);

    let before_completing_cycle = start_gzcl_4day(100)
        .complete_workout(&[NotCompleted; 5])
        .complete_workout(&[NotCompleted; 5]);
    assert_eq!(before_completing_cycle.current_day, 2);
    assert_eq!(before_completing_cycle.workouts_completed, 2);

    let after_completing_cycle = start_gzcl_4day(100)
        .complete_workout(&[NotCompleted; 5])
        .complete_workout(&[NotCompleted; 5])
        .complete_workout(&[NotCompleted; 5])
        .complete_workout(&[NotCompleted; 5]);
    assert_eq!(after_completing_cycle.current_day, 0);
    assert_eq!(after_completing_cycle.workouts_completed, 4);
}

#[test]
fn can_create_and_save_program() {
    let program = start_gzcl_4day(100);
    let string: String = program.to_json();
    let after_round_trip = Program::parse_json(string.as_str()).unwrap();
    assert_eq!(after_round_trip, program);
}
