//! Subjects, semesters and grades.

use vstd::prelude::*;

verus! {

/// A letter grade on the ECTS scale.
#[derive(Clone, Copy, Debug, PartialEq, Eq, Structural)]
pub enum Grade {
    A,
    B,
    C,
    D,
    E,
}

/// The result of a subject: passed (with or without a letter grade) or failed.
#[derive(Clone, Copy, Debug, PartialEq, Eq, Structural)]
pub enum Outcome {
    Passed(Option<Grade>),
    Failed,
}

/// Grade points of a letter grade: A is 5, down to E is 1.
pub open spec fn grade_points(grade: Grade) -> nat {
    match grade {
        Grade::A => 5,
        Grade::B => 4,
        Grade::C => 3,
        Grade::D => 2,
        Grade::E => 1,
    }
}

impl From<Grade> for usize {
    fn from(grade: Grade) -> (points: usize) {
        match grade {
            Grade::A => 5,
            Grade::B => 4,
            Grade::C => 3,
            Grade::D => 2,
            Grade::E => 1,
        }
    }
}

impl vstd::std_specs::convert::FromSpecImpl<Grade> for usize {
    open spec fn obeys_from_spec() -> bool {
        true
    }

    open spec fn from_spec(grade: Grade) -> usize {
        grade_points(grade) as usize
    }
}


/// A subject taken in some semester.
pub struct Subject {
    pub code: String,
    pub name: String,
    /// The subject's credit in ECTS, as the text a floating-point number is
    /// written as (`7.5`, `10`, `0.0005`, `-5`, `inf`, `NaN`). The library
    /// computes with credits that are a whole number of thousandths (see
    /// `crate::text::parsed_credit`) and keeps every other one as it is.
    pub credit: String,
    pub result: Outcome,
    /// Whether this subject counts toward the average / valid credits.
    /// Lets a subject be kept in the list (e.g. a retake) without affecting
    /// the calculation.
    pub included: bool,
    /// A hypothetical grade (e.g. from a planned retake) shown alongside the
    /// actual one and factored into the potential average.
    pub potential: Option<Grade>,
}

/// A subject as plain values.
pub struct SubjectView {
    pub code: Seq<char>,
    pub name: Seq<char>,
    pub credit: Seq<char>,
    pub result: Outcome,
    pub included: bool,
    pub potential: Option<Grade>,
}

impl DeepView for Subject {
    type V = SubjectView;

    open spec fn deep_view(&self) -> SubjectView {
        SubjectView {
            code: self.code@,
            name: self.name@,
            credit: self.credit@,
            result: self.result,
            included: self.included,
            potential: self.potential,
        }
    }
}

/// A numbered semester and its subjects, in display order.
pub struct Semester {
    pub number: usize,
    pub subjects: Vec<Subject>,
}

/// A semester as plain values.
pub struct SemesterView {
    pub number: usize,
    pub subjects: Seq<SubjectView>,
}

impl DeepView for Semester {
    type V = SemesterView;

    open spec fn deep_view(&self) -> SemesterView {
        SemesterView { number: self.number, subjects: self.subjects.deep_view() }
    }
}

/// Every subject of every semester, semester by semester, each in order.
pub open spec fn all_subjects(semesters: Seq<SemesterView>) -> Seq<SubjectView>
    decreases semesters.len(),
{
    if semesters.len() == 0 {
        Seq::empty()
    } else {
        all_subjects(semesters.drop_last()) + semesters.last().subjects
    }
}

} // verus!
