use ects_calc::calculator::{
    counted_credits, graded_credits,
    ects_average, overall_average, potential_average, potential_valid_credits, valid_credits,
    Average, WeightedGrade,
};
use ects_calc::model::Grade::{A, B, C, D, E};
use ects_calc::model::{Grade, Outcome, Semester, Subject};

/// Weights are thousandths of an ECTS credit.
fn ects(credits: f64) -> u32 {
    (credits * 1000.0).round() as u32
}

fn value(average: impl Into<Option<Average>>) -> f64 {
    let average = average.into().expect("every credit is a whole number of thousandths");
    average.numerator as f64 / average.denominator as f64
}

fn credits_value(milli: Option<u128>) -> f64 {
    milli.expect("every credit is a whole number of thousandths") as f64 / 1000.0
}

fn assert_close(actual: f64, expected: f64) {
    assert!((actual - expected).abs() < 1e-9, "{actual} != {expected}");
}

fn subject(
    code: &str,
    name: &str,
    credit: f64,
    result: Outcome,
    included: bool,
    potential: Option<Grade>,
) -> Subject {
    Subject {
        code: code.into(),
        name: name.into(),
        credit: credit.to_string(),
        result,
        included,
        potential,
    }
}

#[test]
fn test_ects_average() {
    let grades = &[WeightedGrade { grade: A, weight: ects(10.0) }];
    assert_close(value(ects_average(grades)), 5.0);

    let grades: &[WeightedGrade; 0] = &[];
    assert_close(value(ects_average(grades)), 0.0);
}

#[test]
fn valid_credits_excludes_failed_subjects() {
    let semesters = &[Semester {
        number: 1,
        subjects: vec![
            subject("MA1", "Math", 10.0, Outcome::Passed(Some(A)), true, None),
            subject("ET1", "Ethics", 5.0, Outcome::Passed(None), true, None),
            subject("DB1", "Databases", 10.0, Outcome::Failed, true, None),
        ],
    }];
    assert_close(credits_value(valid_credits(semesters)), 15.0);
}

#[test]
fn excluded_subjects_are_ignored_by_average_and_valid_credits() {
    let semesters = &[Semester {
        number: 1,
        subjects: vec![
            subject("MA1", "Math", 10.0, Outcome::Passed(Some(A)), true, None),
            subject("RETAKE", "Old attempt", 10.0, Outcome::Passed(Some(E)), false, None),
        ],
    }];
    assert_close(value(overall_average(semesters)), 5.0);
    assert_close(credits_value(valid_credits(semesters)), 10.0);
}

#[test]
fn valid_credits_of_empty_is_positive_zero() {
    let credits = credits_value(valid_credits(&[]));
    assert_close(credits, 0.0);
    assert!(!credits.is_sign_negative());
}

#[test]
fn potential_average_uses_potential_grade_when_set() {
    let semesters = &[Semester {
        number: 1,
        subjects: vec![
            subject("MA1", "Math", 10.0, Outcome::Passed(Some(C)), true, Some(A)),
            subject("ET1", "Ethics", 10.0, Outcome::Passed(Some(C)), true, None),
        ],
    }];
    assert_close(value(overall_average(semesters)), 3.0);
    assert_close(value(potential_average(semesters)), 4.0);
}

#[test]
fn potential_average_can_turn_a_failed_subject_into_a_pass() {
    let semesters = &[Semester {
        number: 1,
        subjects: vec![subject("DB1", "Databases", 10.0, Outcome::Failed, true, Some(D))],
    }];
    assert_close(value(overall_average(semesters)), 0.0);
    assert_close(value(potential_average(semesters)), 2.0);
}

#[test]
fn potential_average_matches_actual_when_nothing_is_set() {
    let semesters = &[Semester {
        number: 1,
        subjects: vec![subject("MA1", "Math", 10.0, Outcome::Passed(Some(B)), true, None)],
    }];
    assert_close(value(potential_average(semesters)), value(overall_average(semesters)));
}

#[test]
fn potential_valid_credits_counts_a_failed_subject_with_a_potential_grade() {
    let semesters = &[Semester {
        number: 1,
        subjects: vec![
            subject("MA1", "Math", 10.0, Outcome::Passed(Some(A)), true, None),
            subject("DB1", "Databases", 5.0, Outcome::Failed, true, Some(D)),
            subject("ET1", "Ethics", 7.0, Outcome::Failed, true, None),
        ],
    }];
    assert_close(credits_value(valid_credits(semesters)), 10.0);
    assert_close(credits_value(potential_valid_credits(semesters)), 15.0);
}

#[test]
fn potential_valid_credits_matches_actual_when_nothing_is_set() {
    let semesters = &[Semester {
        number: 1,
        subjects: vec![subject("MA1", "Math", 10.0, Outcome::Passed(Some(B)), true, None)],
    }];
    assert_eq!(potential_valid_credits(semesters), valid_credits(semesters));
}

#[test]
fn average_is_exact_weighted_fraction() {
    // 7.5 ECTS of B and 2.5 ECTS of E: (4 * 7500 + 1 * 2500) / 10000 = 3.25.
    let semesters = &[
        Semester {
            number: 1,
            subjects: vec![subject("PH1", "Physics", 7.5, Outcome::Passed(Some(B)), true, None)],
        },
        Semester {
            number: 2,
            subjects: vec![subject("LAB", "Lab", 2.5, Outcome::Passed(Some(E)), true, None)],
        },
    ];
    let average = overall_average(semesters);
    assert_eq!(average, Some(Average { numerator: 32500, denominator: 10000 }));
    assert_close(value(average), 3.25);
}

#[test]
fn average_of_nothing_is_zero_over_one() {
    assert_eq!(overall_average(&[]), Some(Average { numerator: 0, denominator: 1 }));
    assert_eq!(potential_average(&[]), Some(Average { numerator: 0, denominator: 1 }));
}

#[test]
fn average_lies_between_e_and_a() {
    let semesters = &[Semester {
        number: 3,
        subjects: vec![
            subject("X", "X", 3.0, Outcome::Passed(Some(A)), true, None),
            subject("Y", "Y", 4.0, Outcome::Passed(Some(E)), true, None),
            subject("Z", "Z", 1.5, Outcome::Passed(Some(C)), true, None),
        ],
    }];
    let v = value(overall_average(semesters));
    assert!((1.0..=5.0).contains(&v));
}

#[test]
fn grade_points_from_grade() {
    assert_eq!(usize::from(A), 5);
    assert_eq!(usize::from(B), 4);
    assert_eq!(usize::from(C), 3);
    assert_eq!(usize::from(D), 2);
    assert_eq!(usize::from(E), 1);
}

#[test]
fn weighted_grade_from_subject() {
    let s = subject("MA1", "Math", 10.0, Outcome::Passed(Some(B)), true, None);
    assert_eq!(
        Option::<WeightedGrade>::from(&s),
        Some(WeightedGrade { grade: B, weight: 10000 })
    );
    let excluded = subject("MA1", "Math", 10.0, Outcome::Passed(Some(B)), false, None);
    assert_eq!(Option::<WeightedGrade>::from(&excluded), None);
    let ungraded = subject("ET1", "Ethics", 5.0, Outcome::Passed(None), true, None);
    assert_eq!(Option::<WeightedGrade>::from(&ungraded), None);
}

#[test]
fn credits_that_are_not_whole_thousandths_are_declined() {
    let semesters = &[Semester {
        number: 1,
        subjects: vec![
            subject("MA1", "Math", 10.0, Outcome::Passed(Some(A)), true, None),
            subject("TINY", "Tiny", 0.0005, Outcome::Passed(Some(B)), true, None),
        ],
    }];
    assert_eq!(overall_average(semesters), None);
    assert_eq!(potential_average(semesters), None);
    assert_eq!(valid_credits(semesters), None);
    assert_eq!(potential_valid_credits(semesters), None);
}

#[test]
fn declined_credits_of_subjects_that_do_not_count_are_ignored() {
    let mut odd = subject("NEG", "Negative", -5.0, Outcome::Failed, true, None);
    let semesters = &[Semester {
        number: 1,
        subjects: vec![
            subject("MA1", "Math", 10.0, Outcome::Passed(Some(A)), true, None),
            subject("INF", "Infinite", f64::INFINITY, Outcome::Passed(Some(B)), false, None),
        ],
    }];
    assert_close(value(overall_average(semesters)), 5.0);
    assert_close(credits_value(valid_credits(semesters)), 10.0);
    odd.potential = Some(C);
    let with_failed = &[Semester { number: 1, subjects: vec![odd] }];
    assert_close(credits_value(valid_credits(with_failed)), 0.0);
    assert_eq!(potential_valid_credits(with_failed), None);
    assert_eq!(overall_average(with_failed), Some(Average { numerator: 0, denominator: 1 }));
}

#[test]
fn graded_and_counted_credits_follow_the_counting_rules() {
    let semesters = &[Semester {
        number: 1,
        subjects: vec![
            subject("MA1", "Math", 0.0005, Outcome::Passed(Some(B)), true, None),
            subject("DB1", "Databases", -5.0, Outcome::Failed, true, Some(A)),
            subject("OLD", "Old", 10.0, Outcome::Passed(Some(E)), false, Some(A)),
            subject("ET1", "Ethics", 5.0, Outcome::Passed(None), true, None),
        ],
    }];
    assert_eq!(graded_credits(semesters, false), vec![(B, "0.0005".to_string())]);
    assert_eq!(
        graded_credits(semesters, true),
        vec![(B, "0.0005".to_string()), (A, "-5".to_string())]
    );
    assert_eq!(counted_credits(semesters, false), vec!["0.0005".to_string(), "5".to_string()]);
    assert_eq!(
        counted_credits(semesters, true),
        vec!["0.0005".to_string(), "-5".to_string(), "5".to_string()]
    );
}
