use ects_calc::model::Grade::{A, B, C, D, E};
use ects_calc::model::{Outcome, Semester, Subject};
use ects_calc::persistence::{
    default_true, format_grade, grade_letter, is_true, parse_document, parse_grade,
    parse_grade_letter, parse_semester_key, semester_key, to_document, Error, Section,
    TomlSubject,
};

fn subject(
    code: &str,
    name: &str,
    credit: &str,
    result: Outcome,
    included: bool,
    potential: Option<ects_calc::model::Grade>,
) -> Subject {
    Subject { code: code.into(), name: name.into(), credit: credit.into(), result, included, potential }
}

#[test]
fn round_trip_document() {
    let semesters = vec![Semester {
        number: 1,
        subjects: vec![
            subject("MA1", "Math", "10", Outcome::Passed(Some(A)), true, None),
            subject("ET1", "Ethics", "5", Outcome::Passed(None), true, None),
            subject("DB1", "Databases", "10", Outcome::Failed, false, Some(C)),
        ],
    }];

    let doc = to_document(&semesters);
    let parsed = parse_document(doc).unwrap();

    assert_eq!(parsed.len(), 1);
    assert_eq!(parsed[0].number, 1);
    assert_eq!(parsed[0].subjects.len(), 3);
    assert!(parsed[0].subjects[0].included);
    assert!(!parsed[0].subjects[2].included);
    assert!(parsed[0].subjects[0].potential.is_none());
    assert!(matches!(parsed[0].subjects[2].potential, Some(C)));
}

#[test]
fn rejects_invalid_potential_grade() {
    assert!(parse_grade_letter("X").is_err());
    assert!(parse_grade_letter("Pass").is_err());
}

#[test]
fn rejects_invalid_grade() {
    assert!(parse_grade("X").is_err());
}

#[test]
fn parses_grade_case_insensitively() {
    assert!(matches!(parse_grade("a").unwrap(), Outcome::Passed(Some(A))));
    assert!(matches!(parse_grade("pass").unwrap(), Outcome::Passed(None)));
    assert!(matches!(parse_grade("Passed").unwrap(), Outcome::Passed(None)));
    assert!(matches!(parse_grade("fail").unwrap(), Outcome::Failed));
    assert!(matches!(parse_grade("FAILED").unwrap(), Outcome::Failed));
}

#[test]
fn rejects_invalid_semester_key() {
    assert!(parse_semester_key("sem1").is_err());
}

#[test]
fn parses_every_grade_word() {
    assert_eq!(parse_grade("B").unwrap(), Outcome::Passed(Some(B)));
    assert_eq!(parse_grade("c").unwrap(), Outcome::Passed(Some(C)));
    assert_eq!(parse_grade("D").unwrap(), Outcome::Passed(Some(D)));
    assert_eq!(parse_grade("e").unwrap(), Outcome::Passed(Some(E)));
    assert_eq!(parse_grade("F").unwrap(), Outcome::Failed);
    assert_eq!(parse_grade("PASS").unwrap(), Outcome::Passed(None));
    match parse_grade(" a") {
        Err(Error::InvalidGrade(s)) => assert_eq!(s, " a"),
        _ => panic!("expected an invalid grade"),
    }
    match parse_grade_letter("pass") {
        Err(Error::InvalidGrade(s)) => assert_eq!(s, "pass"),
        _ => panic!("expected an invalid grade"),
    }
}

#[test]
fn grade_letters_round_trip() {
    for g in [A, B, C, D, E] {
        assert_eq!(parse_grade_letter(grade_letter(g)).unwrap(), g);
        assert_eq!(parse_grade(&format_grade(&Outcome::Passed(Some(g)))).unwrap(), Outcome::Passed(Some(g)));
    }
    assert_eq!(grade_letter(C), "C");
    assert_eq!(format_grade(&Outcome::Passed(None)), "Pass");
    assert_eq!(format_grade(&Outcome::Failed), "F");
    assert_eq!(parse_grade(&format_grade(&Outcome::Failed)).unwrap(), Outcome::Failed);
}

#[test]
fn semester_keys() {
    assert_eq!(semester_key(12), "semester12");
    assert_eq!(parse_semester_key("semester12").unwrap(), 12);
    assert_eq!(parse_semester_key("semester+3").unwrap(), 3);
    assert_eq!(parse_semester_key("semester007").unwrap(), 7);
    match parse_semester_key("semester") {
        Err(Error::InvalidSemesterKey(k)) => assert_eq!(k, "semester"),
        _ => panic!("expected an invalid key"),
    }
    assert!(parse_semester_key("semester-1").is_err());
    assert!(parse_semester_key("semester99999999999999999999999").is_err());
    assert_eq!(parse_semester_key(&semester_key(usize::MAX)).unwrap(), usize::MAX);
}

#[test]
fn document_is_sorted_by_key_and_later_semesters_win() {
    let semesters = vec![
        Semester { number: 2, subjects: vec![subject("B", "Bee", "1", Outcome::Failed, true, None)] },
        Semester { number: 10, subjects: vec![subject("X", "Ex", "2", Outcome::Passed(None), true, None)] },
        Semester { number: 2, subjects: vec![subject("C", "Sea", "3", Outcome::Passed(Some(A)), true, Some(B))] },
    ];
    let doc = to_document(&semesters);
    assert_eq!(doc.len(), 2);
    assert_eq!(doc[0].key, "semester10");
    assert_eq!(doc[1].key, "semester2");
    assert_eq!(doc[1].subjects.len(), 1);
    assert_eq!(doc[1].subjects[0].code, "C");
    assert_eq!(doc[1].subjects[0].grade, "A");
    assert_eq!(doc[1].subjects[0].potential.as_deref(), Some("B"));
    assert_eq!(doc[0].subjects[0].grade, "Pass");
}

#[test]
fn parse_document_reports_the_first_error() {
    let doc = vec![
        Section { key: "semester1".into(), subjects: vec![TomlSubject {
            code: String::new(),
            name: "Math".into(),
            credit: "10".into(),
            grade: "Q".into(),
            included: true,
            potential: Some("Z".into()),
        }] },
        Section { key: "bad".into(), subjects: vec![] },
    ];
    match parse_document(doc) {
        Err(Error::InvalidGrade(g)) => assert_eq!(g, "Q"),
        _ => panic!("expected the grade error first"),
    }
    let doc = vec![Section { key: "bad".into(), subjects: vec![] }];
    match parse_document(doc) {
        Err(Error::InvalidSemesterKey(k)) => assert_eq!(k, "bad"),
        _ => panic!("expected a key error"),
    }
    let doc = vec![Section { key: "semester4".into(), subjects: vec![TomlSubject {
        code: String::new(),
        name: "Math".into(),
        credit: "10".into(),
        grade: "b".into(),
        included: false,
        potential: Some("x".into()),
    }] }];
    match parse_document(doc) {
        Err(Error::InvalidGrade(g)) => assert_eq!(g, "x"),
        _ => panic!("expected the potential grade error"),
    }
}

#[test]
fn serde_defaults() {
    assert!(default_true());
    assert!(is_true(&true));
    assert!(!is_true(&false));
}

/// The section that `[[semester1]]` with only `name = "Math"`,
/// `credit = 10.0` and `grade = "A"` deserializes to: a missing `code` is
/// empty, a missing `included` is `default_true()`, a missing `potential` is none.
fn section_without_optional_fields() -> Vec<Section> {
    vec![Section {
        key: "semester1".into(),
        subjects: vec![TomlSubject {
            code: String::new(),
            name: "Math".into(),
            credit: 10.0f64.to_string(),
            grade: "A".into(),
            included: default_true(),
            potential: None,
        }],
    }]
}

#[test]
fn missing_potential_field_defaults_to_none() {
    let semesters = parse_document(section_without_optional_fields()).unwrap();
    assert!(semesters[0].subjects[0].potential.is_none());
}

#[test]
fn missing_included_field_defaults_to_true() {
    let semesters = parse_document(section_without_optional_fields()).unwrap();
    assert!(semesters[0].subjects[0].included);
}

#[test]
fn credits_are_kept_as_written() {
    let semesters = vec![Semester {
        number: 1,
        subjects: vec![
            subject("A", "Odd", "7.5555", Outcome::Passed(None), true, None),
            subject("B", "Neg", "-5", Outcome::Failed, true, None),
            subject("C", "Inf", "inf", Outcome::Passed(Some(A)), false, None),
        ],
    }];
    let parsed = parse_document(to_document(&semesters)).unwrap();
    let credits: Vec<&str> = parsed[0].subjects.iter().map(|s| s.credit.as_str()).collect();
    assert_eq!(credits, vec!["7.5555", "-5", "inf"]);
}
