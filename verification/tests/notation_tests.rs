use yawa::lifting::{Lift, LiftAttempt, LiftAttemptResult};
use yawa::set::RepSet;
use yawa::weight_scheme::{Multiplier, WeightScheme};

fn set(notation: &str) -> RepSet {
    RepSet::parse(notation).unwrap()
}

#[test]
fn can_create_rep_schemes() {
    assert!(RepSet::parse(":(").is_err());
    assert_eq!(
        RepSet::parse("2-3").unwrap(),
        RepSet::Range {
            maximum_reps: 3,
            minimum_reps: 2
        }
    );
    assert_eq!(RepSet::parse("3+").unwrap(), RepSet::Amrap { minimum_reps: 3 });
    assert_eq!(RepSet::parse("3").unwrap(), RepSet::Defined { reps: 3 });
    assert_eq!(RepSet::parse("Any").unwrap(), RepSet::Any);
    assert_eq!(RepSet::parse("2s").unwrap(), RepSet::Time { seconds: 2 });
}

#[test]
fn can_display_rep_schemes() {
    assert_eq!(RepSet::parse("2-3").unwrap().format(), "2-3");
    assert_eq!(RepSet::parse("3+").unwrap().format(), "3+");
    assert_eq!(RepSet::parse("3").unwrap().format(), "3");
    assert_eq!(RepSet::parse("Any").unwrap().format(), "Any");
    assert_eq!(RepSet::parse("2s").unwrap().format(), "2s");
}

#[test]
fn lifting_can_create_rep_schemes() {
    assert!(RepSet::parse(":(").is_err());
    assert_eq!(
        RepSet::parse("2-3").unwrap(),
        RepSet::Range {
            maximum_reps: 3,
            minimum_reps: 2
        }
    );
    assert_eq!(RepSet::parse("3+").unwrap(), RepSet::Amrap { minimum_reps: 3 });
    assert_eq!(RepSet::parse("3").unwrap(), RepSet::Defined { reps: 3 });
    assert_eq!(RepSet::parse("Any").unwrap(), RepSet::Any);
    assert_eq!(RepSet::parse("2s").unwrap(), RepSet::Time { seconds: 2 });
}

#[test]
fn lifting_can_display_rep_schemes() {
    assert_eq!(RepSet::parse("2-3").unwrap().format(), "2-3");
    assert_eq!(RepSet::parse("3+").unwrap().format(), "3+");
    assert_eq!(RepSet::parse("3").unwrap().format(), "3");
    assert_eq!(RepSet::parse("Any").unwrap().format(), "Any");
    assert_eq!(RepSet::parse("2s").unwrap().format(), "2s");
}

#[test]
fn program_can_create_rep_schemes() {
    assert!(RepSet::parse(":(").is_err());
    assert_eq!(
        RepSet::parse("2-3").unwrap(),
        RepSet::Range {
            maximum_reps: 3,
            minimum_reps: 2
        }
    );
    assert_eq!(RepSet::parse("3+").unwrap(), RepSet::Amrap { minimum_reps: 3 });
    assert_eq!(RepSet::parse("3").unwrap(), RepSet::Defined { reps: 3 });
    assert_eq!(RepSet::parse("Any").unwrap(), RepSet::Any);
    assert_eq!(RepSet::parse("2s").unwrap(), RepSet::Time { seconds: 2 });
}

#[test]
fn program_can_display_rep_schemes() {
    assert_eq!(RepSet::parse("2-3").unwrap().format(), "2-3");
    assert_eq!(RepSet::parse("3+").unwrap().format(), "3+");
    assert_eq!(RepSet::parse("3").unwrap().format(), "3");
    assert_eq!(RepSet::parse("Any").unwrap().format(), "Any");
    assert_eq!(RepSet::parse("2s").unwrap().format(), "2s");
}

#[test]
fn can_parse_lift_attempt_result() {
    assert_eq!(
        LiftAttemptResult::parse("NotCompleted").unwrap(),
        LiftAttemptResult::NotCompleted
    );
    assert_eq!(
        LiftAttemptResult::parse("Completed").unwrap(),
        LiftAttemptResult::Completed {
            completed_maximum_reps: false
        }
    );
    assert_eq!(
        LiftAttemptResult::parse("Completed+MaxReps").unwrap(),
        LiftAttemptResult::Completed {
            completed_maximum_reps: true
        }
    );
}

#[test]
fn lifting_can_parse_lift_attempt_result() {
    assert_eq!(
        LiftAttemptResult::parse("NotCompleted").unwrap(),
        LiftAttemptResult::NotCompleted
    );
    assert_eq!(
        LiftAttemptResult::parse("Completed").unwrap(),
        LiftAttemptResult::Completed {
            completed_maximum_reps: false
        }
    );
    assert_eq!(
        LiftAttemptResult::parse("Completed+MaxReps").unwrap(),
        LiftAttemptResult::Completed {
            completed_maximum_reps: true
        }
    );
}

#[test]
fn can_serialize_lift_attempt_result() {
    assert_eq!("NotCompleted", LiftAttemptResult::NotCompleted.format());
    assert_eq!(
        "Completed",
        LiftAttemptResult::Completed {
            completed_maximum_reps: false
        }
        .format()
    );
    assert_eq!(
        "Completed+MaxReps",
        LiftAttemptResult::Completed {
            completed_maximum_reps: true
        }
        .format()
    );
}

#[test]
fn can_create_weight_schemes() {
    assert!(WeightScheme::parse(":(").is_err());
    assert_eq!(
        WeightScheme::parse("3.14r-12").unwrap(),
        WeightScheme::BasedOnReference {
            multiplier: Multiplier::new(314, 2),
            offset: -12
        }
    );
    assert_eq!(
        WeightScheme::parse("3.14r+12").unwrap(),
        WeightScheme::BasedOnReference {
            multiplier: Multiplier::new(314, 2),
            offset: 12
        }
    );
    assert_eq!(
        WeightScheme::parse("3.14r").unwrap(),
        WeightScheme::BasedOnReference {
            multiplier: Multiplier::new(314, 2),
            offset: 0
        }
    );
    assert_eq!(WeightScheme::parse("any").unwrap(), WeightScheme::Any);
    assert_eq!(
        WeightScheme::parse("add20").unwrap(),
        WeightScheme::LinearBasedOnPrevious {
            amount_to_increase: 20
        }
    );
}

#[test]
fn can_display_weight_schemes() {
    assert_eq!(WeightScheme::parse("3.14r-12").unwrap().format(), "3.14r-12");
    assert_eq!(WeightScheme::parse("3.14r+12").unwrap().format(), "3.14r+12");
    assert_eq!(WeightScheme::parse("3.14r").unwrap().format(), "3.14r");
    assert_eq!(WeightScheme::parse("any").unwrap().format(), "any");
    assert_eq!(WeightScheme::parse("add20").unwrap().format(), "add20");
}

#[test]
fn can_create_lift_schemes() {
    assert!(Lift::parse(":(").is_err());
    assert_eq!(
        Lift::parse("Pullups -> 2x5,1x5-7,1x5+ @ 0.2r").unwrap(),
        Lift {
            name: "Pullups".to_string(),
            sets: vec![set("5"), set("5"), set("5-7"), set("5+")],
            weight: WeightScheme::parse("0.2r").unwrap()
        }
    );
}

#[test]
fn can_display_lift_schemes() {
    assert_eq!(
        Lift::parse("Pullups -> 2x5,1x5-7,1x5+").unwrap().format(),
        "Pullups -> 2x5,1x5-7,1x5+"
    );
    assert_eq!(
        Lift::parse("Some really long name -> 3xAny,2x5,1x5-7,1x5+ @ any")
            .unwrap()
            .format(),
        "Some really long name -> 3xAny,2x5,1x5-7,1x5+ @ any"
    );
    assert_eq!(
        Lift::parse("Pullups -> 2x5,1x5-7,1x5+ @ 0.2r").unwrap().format(),
        "Pullups -> 2x5,1x5-7,1x5+ @ 0.2r"
    );
}

#[test]
fn can_make_lift_attempt() {
    assert_eq!(
        LiftAttempt {
            lift: Lift::parse("Pullups -> 3x5").unwrap(),
            weight: None
        }
        .format(),
        "Pullups -> 3x5"
    );
    assert_eq!(
        LiftAttempt {
            lift: Lift::parse("Pullups -> 3x5 @ 0.5r+10").unwrap(),
            weight: Some(100),
        }
        .format(),
        "Pullups -> 3x5 @ 60"
    );
    assert_eq!(
        LiftAttempt {
            lift: Lift::parse("Pullups -> 3x5 @ any").unwrap(),
            weight: None,
        }
        .format(),
        "Pullups -> 3x5 @ any"
    );
    assert_eq!(
        LiftAttempt {
            lift: Lift::parse("Pullups -> 3x5 @ add10").unwrap(),
            weight: None,
        }
        .format(),
        "Pullups -> 3x5 @ any"
    );
    assert_eq!(
        LiftAttempt {
            lift: Lift::parse("Pullups -> 3x5 @ add10").unwrap(),
            weight: Some(25),
        }
        .format(),
        "Pullups -> 3x5 @ 25"
    );
}

#[test]
fn lift_attempts_round() {
    assert_eq!(
        LiftAttempt {
            lift: Lift::parse("Doobee doos -> 3x5 @ add20").unwrap(),
            weight: Some(22)
        }
        .format(),
        "Doobee doos -> 3x5 @ 25"
    );
    assert_eq!(
        LiftAttempt {
            lift: Lift::parse("Doobee doos -> 3x5 @ 0.222r").unwrap(),
            weight: Some(100)
        }
        .format(),
        "Doobee doos -> 3x5 @ 25"
    );
}

#[test]
fn lifting_can_serialize_lift_attempt_result() {
    assert_eq!("NotCompleted", LiftAttemptResult::NotCompleted.format());
    assert_eq!(
        "Completed",
        LiftAttemptResult::Completed {
            completed_maximum_reps: false
        }
        .format()
    );
    assert_eq!(
        "Completed+MaxReps",
        LiftAttemptResult::Completed {
            completed_maximum_reps: true
        }
        .format()
    );
}

#[test]
fn lifting_can_create_weight_schemes() {
    assert!(WeightScheme::parse(":(").is_err());
    assert_eq!(
        WeightScheme::parse("3.14r-12").unwrap(),
        WeightScheme::BasedOnReference {
            multiplier: Multiplier::new(314, 2),
            offset: -12
        }
    );
    assert_eq!(
        WeightScheme::parse("3.14r+12").unwrap(),
        WeightScheme::BasedOnReference {
            multiplier: Multiplier::new(314, 2),
            offset: 12
        }
    );
    assert_eq!(
        WeightScheme::parse("3.14r").unwrap(),
        WeightScheme::BasedOnReference {
            multiplier: Multiplier::new(314, 2),
            offset: 0
        }
    );
    assert_eq!(WeightScheme::parse("any").unwrap(), WeightScheme::Any);
    assert_eq!(
        WeightScheme::parse("add20").unwrap(),
        WeightScheme::LinearBasedOnPrevious {
            amount_to_increase: 20
        }
    );
}

#[test]
fn program_can_create_weight_schemes() {
    assert!(WeightScheme::parse(":(").is_err());
    assert_eq!(
        WeightScheme::parse("3.14r-12").unwrap(),
        WeightScheme::BasedOnReference {
            multiplier: Multiplier::new(314, 2),
            offset: -12
        }
    );
    assert_eq!(
        WeightScheme::parse("3.14r+12").unwrap(),
        WeightScheme::BasedOnReference {
            multiplier: Multiplier::new(314, 2),
            offset: 12
        }
    );
    assert_eq!(
        WeightScheme::parse("3.14r").unwrap(),
        WeightScheme::BasedOnReference {
            multiplier: Multiplier::new(314, 2),
            offset: 0
        }
    );
    assert_eq!(WeightScheme::parse("any").unwrap(), WeightScheme::Any);
    assert_eq!(
        WeightScheme::parse("add20").unwrap(),
        WeightScheme::LinearBasedOnPrevious {
            amount_to_increase: 20
        }
    );
}

#[test]
fn lifting_can_display_weight_schemes() {
    assert_eq!(WeightScheme::parse("3.14r-12").unwrap().format(), "3.14r-12");
    assert_eq!(WeightScheme::parse("3.14r+12").unwrap().format(), "3.14r+12");
    assert_eq!(WeightScheme::parse("3.14r").unwrap().format(), "3.14r");
    assert_eq!(WeightScheme::parse("any").unwrap().format(), "any");
    assert_eq!(WeightScheme::parse("add20").unwrap().format(), "add20");
}

#[test]
fn program_can_display_weight_schemes() {
    assert_eq!(WeightScheme::parse("3.14r-12").unwrap().format(), "3.14r-12");
    assert_eq!(WeightScheme::parse("3.14r+12").unwrap().format(), "3.14r+12");
    assert_eq!(WeightScheme::parse("3.14r").unwrap().format(), "3.14r");
    assert_eq!(WeightScheme::parse("any").unwrap().format(), "any");
    assert_eq!(WeightScheme::parse("add20").unwrap().format(), "add20");
}

#[test]
fn lifting_can_create_lift_schemes() {
    assert!(Lift::parse(":(").is_err());
    assert_eq!(
        Lift::parse("Pullups -> 2x5,1x5-7,1x5+ @ 0.2r").unwrap(),
        Lift {
            name: "Pullups".to_string(),
            sets: vec![set("5"), set("5"), set("5-7"), set("5+")],
            weight: WeightScheme::parse("0.2r").unwrap()
        }
    );
}

#[test]
fn program_can_create_lift_schemes() {
    assert!(Lift::parse(":(").is_err());
    assert_eq!(
        Lift::parse("Pullups -> 2x5,1x5-7,1x5+ @ 0.2r").unwrap(),
        Lift {
            name: "Pullups".to_string(),
            sets: vec![set("5"), set("5"), set("5-7"), set("5+")],
            weight: WeightScheme::parse("0.2r").unwrap()
        }
    );
}

#[test]
fn lifting_can_display_lift_schemes() {
    assert_eq!(
        Lift::parse("Pullups -> 2x5,1x5-7,1x5+").unwrap().format(),
        "Pullups -> 2x5,1x5-7,1x5+"
    );
    assert_eq!(
        Lift::parse("Some really long name -> 3xAny,2x5,1x5-7,1x5+ @ any")
            .unwrap()
            .format(),
        "Some really long name -> 3xAny,2x5,1x5-7,1x5+ @ any"
    );
    assert_eq!(
        Lift::parse("Pullups -> 2x5,1x5-7,1x5+ @ 0.2r").unwrap().format(),
        "Pullups -> 2x5,1x5-7,1x5+ @ 0.2r"
    );
}

#[test]
fn program_can_display_lift_schemes() {
    assert_eq!(
        Lift::parse("Pullups -> 2x5,1x5-7,1x5+ @ 0.2r").unwrap().format(),
        "Pullups -> 2x5,1x5-7,1x5+ @ 0.2r"
    );
}

#[test]
fn lifting_can_make_lift_attempt() {
    assert_eq!(
        LiftAttempt {
            lift: Lift::parse("Pullups -> 3x5").unwrap(),
            weight: None
        }
        .format(),
        "Pullups -> 3x5"
    );
    assert_eq!(
        LiftAttempt {
            lift: Lift::parse("Pullups -> 3x5 @ 0.5r+10").unwrap(),
            weight: Some(100),
        }
        .format(),
        "Pullups -> 3x5 @ 60"
    );
    assert_eq!(
        LiftAttempt {
            lift: Lift::parse("Pullups -> 3x5 @ any").unwrap(),
            weight: None,
        }
        .format(),
        "Pullups -> 3x5 @ any"
    );
    assert_eq!(
        LiftAttempt {
            lift: Lift::parse("Pullups -> 3x5 @ add10").unwrap(),
            weight: None,
        }
        .format(),
        "Pullups -> 3x5 @ any"
    );
    assert_eq!(
        LiftAttempt {
            lift: Lift::parse("Pullups -> 3x5 @ add10").unwrap(),
            weight: Some(25),
        }
        .format(),
        "Pullups -> 3x5 @ 25"
    );
}
