use ects_calc::app::{
    column_widths, grade_label, handle_key, row_label, truncate, App, Field, Form, KeyCode, KeyModifiers,
    Mode, Response,
};
use ects_calc::model::Grade::{A, B, C};
use ects_calc::model::{Outcome, Semester, Subject};

const PLAIN: KeyModifiers = KeyModifiers { shift: false };
const SHIFT: KeyModifiers = KeyModifiers { shift: true };

fn subject(code: &str, credit: &str, result: Outcome) -> Subject {
    Subject {
        code: code.into(),
        name: format!("{code} name"),
        credit: credit.into(),
        result,
        included: true,
        potential: None,
    }
}

fn sample() -> App {
    App::new(vec![
        Semester {
            number: 2,
            subjects: vec![subject("PH1", "7.5", Outcome::Passed(Some(B)))],
        },
        Semester {
            number: 1,
            subjects: vec![
                subject("MA1", "10", Outcome::Passed(Some(A))),
                subject("ET1", "5", Outcome::Passed(None)),
            ],
        },
    ])
}

fn codes(app: &App) -> Vec<(usize, String)> {
    app.semesters
        .iter()
        .flat_map(|s| s.subjects.iter().map(move |u| (s.number, u.code.clone())))
        .collect()
}

/// The form's credit read as a floating-point number and written out again,
/// as the program hands it to `handle_key`.
fn credit_reading(app: &App) -> Option<String> {
    match &app.mode {
        Mode::Editing(f) => f.credit.trim().parse::<f64>().ok().map(|c| c.to_string()),
        Mode::Browsing => None,
    }
}

fn press(app: &mut App, code: KeyCode) -> Response {
    let credit = credit_reading(app);
    handle_key(app, code, PLAIN, credit)
}

fn type_text(app: &mut App, text: &str) {
    for c in text.chars() {
        press(app, KeyCode::Char(c));
    }
}

fn form(app: &App) -> &Form {
    match &app.mode {
        Mode::Editing(f) => f,
        Mode::Browsing => panic!("not editing"),
    }
}

#[test]
fn new_sorts_semesters_by_number() {
    let app = sample();
    assert_eq!(app.selected, 0);
    assert!(matches!(app.mode, Mode::Browsing));
    assert_eq!(
        codes(&app),
        vec![(1, "MA1".to_string()), (1, "ET1".to_string()), (2, "PH1".to_string())]
    );
}

#[test]
fn selection_moves_and_stays_in_range() {
    let mut app = sample();
    assert_eq!(press(&mut app, KeyCode::Up), Response::Nothing);
    assert_eq!(app.selected, 0);
    press(&mut app, KeyCode::Char('j'));
    press(&mut app, KeyCode::Down);
    press(&mut app, KeyCode::Down);
    assert_eq!(app.selected, 2);
    press(&mut app, KeyCode::Char('k'));
    assert_eq!(app.selected, 1);
}

#[test]
fn quit_keys() {
    let mut app = sample();
    assert_eq!(press(&mut app, KeyCode::Char('q')), Response::Quit);
    assert_eq!(press(&mut app, KeyCode::Esc), Response::Quit);
    assert_eq!(codes(&app).len(), 3);
}

#[test]
fn delete_removes_subject_and_empty_semester() {
    let mut app = sample();
    app.selected = 2;
    assert_eq!(press(&mut app, KeyCode::Char('d')), Response::Changed);
    assert_eq!(app.semesters.len(), 1);
    assert_eq!(app.selected, 1);
    assert_eq!(press(&mut app, KeyCode::Char('x')), Response::Changed);
    assert_eq!(app.selected, 0);
    assert_eq!(press(&mut app, KeyCode::Char('x')), Response::Changed);
    assert!(app.semesters.is_empty());
    assert_eq!(press(&mut app, KeyCode::Char('x')), Response::Nothing);
}

#[test]
fn toggle_flips_included() {
    let mut app = sample();
    app.selected = 1;
    assert_eq!(press(&mut app, KeyCode::Char('t')), Response::Changed);
    assert!(!app.semesters[0].subjects[1].included);
    press(&mut app, KeyCode::Char('t'));
    assert!(app.semesters[0].subjects[1].included);
}

#[test]
fn shift_moves_within_semester_and_back() {
    let mut app = sample();
    assert_eq!(handle_key(&mut app, KeyCode::Down, SHIFT, None), Response::Changed);
    assert_eq!(app.selected, 1);
    assert_eq!(codes(&app)[0].1, "ET1");
    assert_eq!(codes(&app)[1].1, "MA1");
    // At the bottom of semester 1: no move into semester 2.
    assert_eq!(handle_key(&mut app, KeyCode::Down, SHIFT, None), Response::Nothing);
    assert_eq!(handle_key(&mut app, KeyCode::Up, SHIFT, None), Response::Changed);
    assert_eq!(app.selected, 0);
    assert_eq!(codes(&sample()), codes(&app));
}

#[test]
fn add_form_adds_subject_to_highest_semester() {
    let mut app = sample();
    press(&mut app, KeyCode::Char('a'));
    let f = form(&app);
    assert_eq!(f.semester, "2");
    assert_eq!(f.credit, "7.5");
    assert!(f.editing.is_none());
    type_text(&mut app, "db1");
    assert_eq!(form(&app).code, "DB1");
    press(&mut app, KeyCode::Tab);
    assert_eq!(form(&app).field, Field::Name);
    type_text(&mut app, "Databases ");
    press(&mut app, KeyCode::Tab);
    type_text(&mut app, "c");
    assert_eq!(press(&mut app, KeyCode::Enter), Response::Changed);
    assert!(matches!(app.mode, Mode::Browsing));
    let added = &app.semesters[1].subjects[1];
    assert_eq!(added.code, "DB1");
    assert_eq!(added.name, "Databases");
    assert_eq!(added.credit, "7.5");
    assert_eq!(added.result, Outcome::Passed(Some(C)));
    assert!(added.included);
    assert_eq!(added.potential, None);
}

#[test]
fn add_to_new_semester_keeps_order() {
    let mut app = sample();
    press(&mut app, KeyCode::Char('a'));
    type_text(&mut app, "x");
    for _ in 0..4 {
        press(&mut app, KeyCode::Tab);
    }
    assert_eq!(form(&app).field, Field::Semester);
    press(&mut app, KeyCode::Backspace);
    type_text(&mut app, "0");
    press(&mut app, KeyCode::BackTab);
    press(&mut app, KeyCode::BackTab);
    assert_eq!(form(&app).field, Field::Grade);
    type_text(&mut app, "pass");
    assert_eq!(press(&mut app, KeyCode::Enter), Response::Changed);
    assert_eq!(app.semesters[0].number, 0);
    assert_eq!(app.semesters[0].subjects[0].code, "X");
}

#[test]
fn form_errors_are_reported_in_order() {
    let mut app = sample();
    press(&mut app, KeyCode::Char('a'));
    for _ in 0..5 {
        press(&mut app, KeyCode::Tab);
    }
    assert_eq!(form(&app).field, Field::Credit);
    type_text(&mut app, "x");
    assert_eq!(press(&mut app, KeyCode::Enter), Response::Nothing);
    assert_eq!(form(&app).error.as_deref(), Some("credit must be a number"));
    press(&mut app, KeyCode::Backspace);
    press(&mut app, KeyCode::BackTab);
    type_text(&mut app, "b");
    press(&mut app, KeyCode::Enter);
    assert_eq!(form(&app).error.as_deref(), Some("semester must be a whole number"));
    press(&mut app, KeyCode::Backspace);
    press(&mut app, KeyCode::Enter);
    assert_eq!(form(&app).error.as_deref(), Some("grade must be A-E, Pass, or Fail"));
    press(&mut app, KeyCode::BackTab);
    press(&mut app, KeyCode::BackTab);
    type_text(&mut app, "a");
    press(&mut app, KeyCode::Tab);
    type_text(&mut app, "p");
    press(&mut app, KeyCode::Enter);
    assert_eq!(form(&app).error.as_deref(), Some("potential grade must be A-E"));
    assert_eq!(codes(&app).len(), 3);
    assert_eq!(press(&mut app, KeyCode::Esc), Response::Nothing);
    assert!(matches!(app.mode, Mode::Browsing));
    assert_eq!(codes(&app).len(), 3);
}

#[test]
fn edit_in_place_keeps_position_and_included() {
    let mut app = sample();
    app.selected = 1;
    press(&mut app, KeyCode::Char('t'));
    press(&mut app, KeyCode::Char('e'));
    let f = form(&app);
    assert_eq!(f.code, "ET1");
    assert_eq!(f.grade, "PASS");
    assert_eq!(f.credit, "5");
    assert_eq!(f.semester, "1");
    assert_eq!(f.editing, Some(1));
    press(&mut app, KeyCode::Tab);
    type_text(&mut app, "!");
    assert_eq!(press(&mut app, KeyCode::Enter), Response::Changed);
    let edited = &app.semesters[0].subjects[1];
    assert_eq!(edited.name, "ET1 name!");
    assert!(!edited.included);
    assert_eq!(app.selected, 1);
}

#[test]
fn edit_to_other_semester_moves_and_selection_follows() {
    let mut app = sample();
    press(&mut app, KeyCode::Char('e'));
    for _ in 0..4 {
        press(&mut app, KeyCode::Tab);
    }
    press(&mut app, KeyCode::Backspace);
    type_text(&mut app, "2");
    assert_eq!(press(&mut app, KeyCode::Enter), Response::Changed);
    assert_eq!(
        codes(&app),
        vec![(1, "ET1".to_string()), (2, "PH1".to_string()), (2, "MA1".to_string())]
    );
    assert_eq!(app.selected, 2);
}

#[test]
fn edit_form_shows_credit_and_potential() {
    let s = Subject {
        code: "ph1".into(),
        name: "Physics".into(),
        credit: "7.25".into(),
        result: Outcome::Failed,
        included: true,
        potential: Some(B),
    };
    let f = Form::new_edit(4, 3, &s);
    assert_eq!(f.code, "PH1");
    assert_eq!(f.credit, "7.25");
    assert_eq!(f.grade, "F");
    assert_eq!(f.potential, "B");
    assert_eq!(f.semester, "3");
    assert_eq!(f.editing, Some(4));
}

#[test]
fn field_order_cycles() {
    let mut f = Field::Code;
    let mut seen = vec![];
    for _ in 0..6 {
        seen.push(f);
        f = f.next();
    }
    assert_eq!(f, Field::Code);
    assert_eq!(
        seen,
        vec![Field::Code, Field::Name, Field::Grade, Field::Potential, Field::Semester, Field::Credit]
    );
    assert_eq!(Field::Code.prev(), Field::Credit);
    assert_eq!(Field::Potential.next().prev(), Field::Potential);
}

#[test]
fn columns_and_labels() {
    let app = sample();
    assert_eq!(column_widths(&app.semesters), (4, 8));
    assert_eq!(column_widths(&[]), (4, 4));
    assert_eq!(truncate("Databases", 4), "Data");
    assert_eq!(truncate("Dä", 5), "Dä");
    let mut s = subject("X", "1", Outcome::Passed(None));
    assert_eq!(grade_label(&s), "Pass");
    s.potential = Some(A);
    assert_eq!(grade_label(&s), "Pass → A");
}

#[test]
fn credit_accepts_every_floating_point_number() {
    for (typed, kept) in [("1e1", "10"), ("-5", "-5"), ("0.0005", "0.0005"), ("inf", "inf"), (" 7.50 ", "7.5")] {
        let mut app = sample();
        press(&mut app, KeyCode::Char('a'));
        type_text(&mut app, "n1");
        press(&mut app, KeyCode::Tab);
        press(&mut app, KeyCode::Tab);
        type_text(&mut app, "a");
        match &mut app.mode {
            Mode::Editing(f) => f.credit = typed.to_string(),
            Mode::Browsing => panic!("not editing"),
        }
        assert_eq!(press(&mut app, KeyCode::Enter), Response::Changed, "{typed}");
        assert_eq!(app.semesters[1].subjects[1].credit, kept);
    }
}

#[test]
fn credit_that_is_no_number_is_refused() {
    let mut app = sample();
    press(&mut app, KeyCode::Char('a'));
    match &mut app.mode {
        Mode::Editing(f) => f.credit = "ten".to_string(),
        Mode::Browsing => panic!("not editing"),
    }
    assert_eq!(handle_key(&mut app, KeyCode::Enter, PLAIN, None), Response::Nothing);
    assert_eq!(form(&app).error.as_deref(), Some("credit must be a number"));
}

#[test]
fn row_labels_are_marked_cut_and_padded() {
    let s = subject("MA1", "10", Outcome::Passed(Some(A)));
    assert_eq!(row_label(true, &s, 4, 6), "> MA1  MA1 na ");
    assert_eq!(row_label(false, &s, 4, 10), "  MA1  MA1 name   ");
    let expected = format!("{}{:<5} {:<8} ", "  ", "MA1", "MA1 name");
    assert_eq!(row_label(false, &s, 5, 8), expected);
}

#[test]
fn toggling_twice_restores_the_list() {
    let mut app = sample();
    app.selected = 2;
    assert_eq!(press(&mut app, KeyCode::Char('t')), Response::Changed);
    assert!(!app.semesters[1].subjects[0].included);
    assert_eq!(press(&mut app, KeyCode::Char('t')), Response::Changed);
    assert!(app.semesters[1].subjects[0].included);
    assert_eq!(app.selected, 2);
}

#[test]
fn saving_an_untouched_edit_form_changes_nothing() {
    let mut app = sample();
    app.selected = 2;
    app.semesters[1].subjects[0].potential = Some(C);
    app.semesters[1].subjects[0].included = false;
    let before: Vec<(usize, String, String, String, Outcome, bool, Option<ects_calc::model::Grade>)> = app
        .semesters
        .iter()
        .flat_map(|s| {
            s.subjects.iter().map(move |u| {
                (s.number, u.code.clone(), u.name.clone(), u.credit.clone(), u.result, u.included, u.potential)
            })
        })
        .collect();
    press(&mut app, KeyCode::Char('e'));
    assert_eq!(press(&mut app, KeyCode::Enter), Response::Changed);
    assert!(matches!(app.mode, Mode::Browsing));
    let after: Vec<_> = app
        .semesters
        .iter()
        .flat_map(|s| {
            s.subjects.iter().map(move |u| {
                (s.number, u.code.clone(), u.name.clone(), u.credit.clone(), u.result, u.included, u.potential)
            })
        })
        .collect();
    assert_eq!(before, after);
    assert_eq!(app.selected, 2);
}
