//! The editor: a list of semesters with a selection, an add/edit form, and
//! the key presses that change them.

use vstd::prelude::*;
use vstd::string::*;
use crate::model::{all_subjects, Grade, Outcome, Semester, SemesterView, Subject, SubjectView};
use crate::persistence::{format_grade, grade_letter, letter_text, outcome_text};
use crate::text::{
    decimal, format_usize, pop_char, push_char, to_ascii_uppercase,
    to_ascii_uppercase_string, to_uppercase, unicode_uppercase, upper, upper_char,
};

verus! {

/// The (semester index, subject index) of every subject, in display order.
pub open spec fn flat(sems: Seq<SemesterView>) -> Seq<(int, int)>
    decreases sems.len(),
{
    if sems.len() == 0 {
        Seq::empty()
    } else {
        flat(sems.drop_last()) + Seq::new(
            sems.last().subjects.len(),
            |u: int| ((sems.len() - 1) as int, u),
        )
    }
}

/// How many subjects all semesters hold.
pub open spec fn total(sems: Seq<SemesterView>) -> nat {
    all_subjects(sems).len()
}

/// How many subjects the semesters before `si` hold: the display position
/// of the first subject of semester `si`.
pub open spec fn offset(sems: Seq<SemesterView>, si: int) -> nat {
    all_subjects(sems.take(si)).len()
}

/// Display positions and (semester, subject) indices correspond one to one.
pub proof fn lemma_flat(sems: Seq<SemesterView>)
    ensures
        flat(sems).len() == total(sems),
        forall|k: int|
            0 <= k < flat(sems).len() ==> {
                let (si, ui) = #[trigger] flat(sems)[k];
                &&& 0 <= si < sems.len()
                &&& 0 <= ui < sems[si].subjects.len()
                &&& k == offset(sems, si) + ui
            },
        forall|si: int|
            0 <= si < sems.len() ==> #[trigger] offset(sems, si) + sems[si].subjects.len() <= total(
                sems,
            ),
        forall|si: int, ui: int|
            0 <= si < sems.len() && 0 <= ui < sems[si].subjects.len() ==> #[trigger] flat(
                sems,
            )[offset(sems, si) + ui] == (si, ui),
    decreases sems.len(),
{
    if sems.len() > 0 {
        let p = sems.drop_last();
        let n = sems.len() - 1;
        lemma_flat(p);
        assert(sems.take(n) =~= p);
        assert forall|si: int| 0 <= si < n implies offset(sems, si) == offset(p, si) by {
            assert(sems.take(si) =~= p.take(si));
        }
        assert forall|si: int| 0 <= si <= n implies offset(sems, si) <= total(p) by {
            assert(sems.take(si) =~= p.take(si));
            lemma_offset_monotone(p, si, n);
            assert(p.take(n) =~= p);
        }
        assert forall|k: int| 0 <= k < flat(sems).len() implies {
            let (si, ui) = #[trigger] flat(sems)[k];
            &&& 0 <= si < sems.len()
            &&& 0 <= ui < sems[si].subjects.len()
            &&& k == offset(sems, si) + ui
        } by {
            if k < flat(p).len() {
                assert(flat(sems)[k] == flat(p)[k]);
                let (si, ui) = flat(p)[k];
                assert(p[si] == sems[si]);
            }
        }
        assert(total(sems) == total(p) + sems.last().subjects.len());
        assert forall|si: int|
            0 <= si < sems.len() implies #[trigger] offset(sems, si) + sems[si].subjects.len()
            <= total(sems) by {
            if si < n {
                assert(p[si] == sems[si]);
                assert(offset(p, si) + p[si].subjects.len() <= total(p));
            }
        }
        assert forall|si: int, ui: int|
            0 <= si < sems.len() && 0 <= ui < sems[si].subjects.len() implies #[trigger] flat(
            sems,
        )[offset(sems, si) + ui] == (si, ui) by {
            if si < n {
                assert(p[si] == sems[si]);
                assert(offset(p, si) + p[si].subjects.len() <= total(p));
                assert(flat(p)[offset(p, si) + ui] == (si, ui));
                assert(flat(sems)[offset(p, si) + ui] == flat(p)[offset(p, si) + ui]);
            } else {
                assert(offset(sems, n) == total(p));
            }
        }
    }
}

pub proof fn lemma_offset_monotone(sems: Seq<SemesterView>, a: int, b: int)
    requires
        0 <= a <= b <= sems.len(),
    ensures
        offset(sems, a) <= offset(sems, b),
    decreases b - a,
{
    if a < b {
        lemma_offset_monotone(sems, a, b - 1);
        assert(sems.take(b).drop_last() =~= sems.take(b - 1));
    }
}

/// The (semester, subject) index of every subject, in display order.
fn flatten(semesters: &Vec<Semester>) -> (r: Vec<(usize, usize)>)
    ensures
        r@.len() == flat(semesters.deep_view()).len(),
        forall|k: int|
            0 <= k < r@.len() ==> (#[trigger] r@[k].0 as int, r@[k].1 as int) == flat(
                semesters.deep_view(),
            )[k],
{
    let ghost sv = semesters.deep_view();
    let mut r: Vec<(usize, usize)> = Vec::new();
    let mut si: usize = 0;
    assert(sv.take(0) =~= Seq::<SemesterView>::empty());
    while si < semesters.len()
        invariant
            si <= semesters@.len(),
            sv == semesters.deep_view(),
            r@.len() == flat(sv.take(si as int)).len(),
            forall|k: int|
                0 <= k < r@.len() ==> (#[trigger] r@[k].0 as int, r@[k].1 as int) == flat(
                    sv.take(si as int),
                )[k],
        decreases semesters@.len() - si,
    {
        let n = semesters[si].subjects.len();
        let ghost base = flat(sv.take(si as int));
        let ghost full = flat(sv.take(si + 1));
        assert(sv.take(si + 1).drop_last() =~= sv.take(si as int));
        assert(full =~= base + Seq::new(n as nat, |u: int| (si as int, u)));
        let mut ui: usize = 0;
        while ui < n
            invariant
                ui <= n,
                r@.len() == base.len() + ui,
                forall|k: int|
                    0 <= k < r@.len() ==> (#[trigger] r@[k].0 as int, r@[k].1 as int) == full[k],
                full =~= base + Seq::new(n as nat, |u: int| (si as int, u)),
            decreases n - ui,
        {
            r.push((si, ui));
            ui = ui + 1;
        }
        si = si + 1;
    }
    assert(sv.take(si as int) =~= sv);
    r
}

/// The highest semester number, or 1 when there are no semesters.
pub open spec fn default_semester_of(sems: Seq<SemesterView>) -> usize
    decreases sems.len(),
{
    if sems.len() == 0 {
        1
    } else if sems.len() == 1 {
        sems[0].number
    } else {
        let m = default_semester_of(sems.drop_last());
        if sems.last().number > m {
            sems.last().number
        } else {
            m
        }
    }
}

/// The semester to offer for a new subject: the highest number, or 1.
fn default_semester(semesters: &Vec<Semester>) -> (r: usize)
    ensures
        r == default_semester_of(semesters.deep_view()),
{
    let ghost sv = semesters.deep_view();
    if semesters.len() == 0 {
        return 1;
    }
    let mut m = semesters[0].number;
    let mut i: usize = 1;
    assert(sv.take(1).drop_last() =~= Seq::<SemesterView>::empty());
    while i < semesters.len()
        invariant
            1 <= i <= semesters@.len(),
            sv == semesters.deep_view(),
            m == default_semester_of(sv.take(i as int)),
        decreases semesters@.len() - i,
    {
        assert(sv.take(i + 1).drop_last() =~= sv.take(i as int));
        if semesters[i].number > m {
            m = semesters[i].number;
        }
        i = i + 1;
    }
    assert(sv.take(i as int) =~= sv);
    m
}


/// The semesters after removing subject `ui` of semester `si`; a semester
/// left without subjects goes too.
pub open spec fn removed(sems: Seq<SemesterView>, si: int, ui: int) -> Seq<SemesterView> {
    let subjects = sems[si].subjects.remove(ui);
    if subjects.len() == 0 {
        sems.remove(si)
    } else {
        sems.update(si, SemesterView { number: sems[si].number, subjects })
    }
}

/// The index of the first semester numbered `number`, or -1 when there is none.
pub open spec fn index_of_number(sems: Seq<SemesterView>, number: usize) -> int
    decreases sems.len(),
{
    if sems.len() == 0 {
        -1
    } else if sems[0].number == number {
        0
    } else {
        let i = index_of_number(sems.drop_first(), number);
        if i < 0 {
            -1
        } else {
            i + 1
        }
    }
}

pub proof fn lemma_index_of_number(sems: Seq<SemesterView>, number: usize, i: int)
    requires
        0 <= i <= sems.len(),
        forall|j: int| 0 <= j < i ==> sems[j].number != number,
        i == sems.len() || sems[i].number == number,
    ensures
        index_of_number(sems, number) == if i == sems.len() {
            -1
        } else {
            i
        },
    decreases i,
{
    if i > 0 {
        lemma_index_of_number(sems.drop_first(), number, i - 1);
    }
}

/// The semesters after adding `subject` at the end of the first semester
/// numbered `number`, or in a new semester at the end when there is none.
pub open spec fn inserted(sems: Seq<SemesterView>, number: usize, subject: SubjectView) -> Seq<
    SemesterView,
> {
    let i = index_of_number(sems, number);
    if i >= 0 {
        sems.update(i, SemesterView { number, subjects: sems[i].subjects.push(subject) })
    } else {
        sems.push(SemesterView { number, subjects: seq![subject] })
    }
}

/// The index of the first semester numbered `number`, if any.
fn position_of_number(semesters: &Vec<Semester>, number: usize) -> (r: Option<usize>)
    ensures
        match r {
            Some(i) => index_of_number(semesters.deep_view(), number) == i as int && i
                < semesters@.len() && semesters@[i as int].number == number,
            None => index_of_number(semesters.deep_view(), number) == -1,
        },
{
    let ghost sv = semesters.deep_view();
    let mut i: usize = 0;
    while i < semesters.len()
        invariant
            i <= semesters@.len(),
            sv == semesters.deep_view(),
            forall|j: int| 0 <= j < i ==> sv[j].number != number,
        decreases semesters@.len() - i,
    {
        if semesters[i].number == number {
            proof {
                lemma_index_of_number(sv, number, i as int);
            }
            return Some(i);
        }
        i = i + 1;
    }
    proof {
        lemma_index_of_number(sv, number, i as int);
    }
    None
}

/// Removes subject `subject_index` of semester `semester_index`, and the
/// semester too when that leaves it empty.
fn remove_subject(semesters: &mut Vec<Semester>, semester_index: usize, subject_index: usize)
    requires
        semester_index < old(semesters)@.len(),
        subject_index < old(semesters)@[semester_index as int].subjects@.len(),
    ensures
        final(semesters).deep_view() == removed(
            old(semesters).deep_view(),
            semester_index as int,
            subject_index as int,
        ),
{
    let ghost sv = semesters.deep_view();
    semesters[semester_index].subjects.remove(subject_index);
    assert(semesters.deep_view()[semester_index as int].subjects =~= sv[semester_index as int].subjects.remove(
        subject_index as int,
    ));
    if semesters[semester_index].subjects.is_empty() {
        let ghost mid = semesters.deep_view();
        semesters.remove(semester_index);
        assert(semesters.deep_view() =~= mid.remove(semester_index as int));
    }
    assert(semesters.deep_view() =~= removed(sv, semester_index as int, subject_index as int));
}

/// Adds `subject` at the end of the first semester numbered `number`, or in a
/// new semester at the end when there is none.
fn insert_subject(semesters: &mut Vec<Semester>, number: usize, subject: Subject)
    ensures
        final(semesters).deep_view() == inserted(
            old(semesters).deep_view(),
            number,
            subject.deep_view(),
        ),
{
    let ghost sv = semesters.deep_view();
    match position_of_number(semesters, number) {
        Some(i) => {
            semesters[i].subjects.push(subject);
            assert(semesters.deep_view()[i as int].subjects =~= sv[i as int].subjects.push(
                subject.deep_view(),
            ));
            assert(semesters.deep_view() =~= inserted(sv, number, subject.deep_view()));
        },
        None => {
            let mut subjects: Vec<Subject> = Vec::new();
            subjects.push(subject);
            assert(subjects.deep_view() =~= seq![subject.deep_view()]);
            let semester = Semester { number, subjects };
            semesters.push(semester);
            assert(semesters.deep_view() =~= sv.push(semester.deep_view()));
        },
    }
}

/// `x` placed into `sorted` after every semester whose number is at most its own.
pub open spec fn insert_by_number(sorted: Seq<SemesterView>, x: SemesterView) -> Seq<
    SemesterView,
>
    decreases sorted.len(),
{
    if sorted.len() == 0 {
        seq![x]
    } else if sorted.last().number <= x.number {
        sorted.push(x)
    } else {
        insert_by_number(sorted.drop_last(), x).push(sorted.last())
    }
}

/// The semesters in increasing order of number, those with equal numbers in
/// their relative order (a stable sort by number).
pub open spec fn sort_by_number(s: Seq<SemesterView>) -> Seq<SemesterView>
    decreases s.len(),
{
    if s.len() == 0 {
        Seq::empty()
    } else {
        insert_by_number(sort_by_number(s.drop_last()), s.last())
    }
}

proof fn lemma_insert_by_number(p: Seq<SemesterView>, x: SemesterView, j: int)
    requires
        0 <= j <= p.len(),
        forall|k: int| j <= k < p.len() ==> #[trigger] p[k].number > x.number,
        j == 0 || p[j - 1].number <= x.number,
    ensures
        insert_by_number(p, x) == p.insert(j, x),
    decreases p.len(),
{
    if p.len() == 0 {
        assert(p.insert(j, x) =~= seq![x]);
    } else if j == p.len() {
        assert(p.insert(j, x) =~= p.push(x));
    } else {
        assert(p.last().number > x.number);
        lemma_insert_by_number(p.drop_last(), x, j);
        assert(p.drop_last().insert(j, x).push(p.last()) =~= p.insert(j, x));
    }
}

/// Sorts the semesters by number, keeping the order of equal numbers.
fn sort_semesters(semesters: &mut Vec<Semester>)
    ensures
        final(semesters).deep_view() == sort_by_number(old(semesters).deep_view()),
{
    let ghost orig = semesters.deep_view();
    let n = semesters.len();
    let mut i: usize = 0;
    assert(orig.take(0) =~= Seq::<SemesterView>::empty());
    while i < n
        invariant
            i <= n == semesters@.len() == orig.len(),
            semesters.deep_view().take(i as int) == sort_by_number(orig.take(i as int)),
            semesters.deep_view().skip(i as int) == orig.skip(i as int),
        decreases n - i,
    {
        let ghost v = semesters.deep_view();
        let ghost p = v.take(i as int);
        assert(orig[i as int] == v.skip(i as int)[0]);
        let x = semesters.remove(i);
        let ghost xv = x.deep_view();
        assert(semesters.deep_view() =~= p + v.skip(i + 1));
        let mut j: usize = i;
        while j > 0 && semesters[j - 1].number > x.number
            invariant
                j <= i,
                i < n,
                semesters.deep_view() == p + v.skip(i + 1),
                semesters@.len() + 1 == n,
                p.len() == i,
                xv == x.deep_view(),
                forall|k: int| j <= k < i ==> #[trigger] p[k].number > xv.number,
            decreases j,
        {
            assert(p[j - 1] == semesters.deep_view()[j - 1]);
            j = j - 1;
        }
        proof {
            if j > 0 {
                assert(p[j - 1] == semesters.deep_view()[j - 1]);
            }
            lemma_insert_by_number(p, xv, j as int);
            assert(orig.take(i + 1).drop_last() =~= orig.take(i as int));
        }
        semesters.insert(j, x);
        assert(semesters.deep_view().take(i + 1) =~= p.insert(j as int, xv));
        assert(semesters.deep_view().skip(i + 1) =~= v.skip(i + 1));
        assert(v.skip(i + 1) =~= v.skip(i as int).drop_first());
        assert(orig.skip(i + 1) =~= orig.skip(i as int).drop_first());
        i = i + 1;
    }
    assert(semesters.deep_view() =~= semesters.deep_view().take(n as int));
    assert(orig.take(n as int) =~= orig);
}


/// The form field that typing goes to.
#[derive(Clone, Copy, Debug, PartialEq, Eq, Structural)]
pub enum Field {
    Code,
    Name,
    Credit,
    Semester,
    Grade,
    Potential,
}

impl Field {
    /// The field after this one: code, name, grade, potential, semester,
    /// credit, and round again.
    pub open spec fn spec_next(self) -> Field {
        match self {
            Field::Code => Field::Name,
            Field::Name => Field::Grade,
            Field::Grade => Field::Potential,
            Field::Potential => Field::Semester,
            Field::Semester => Field::Credit,
            Field::Credit => Field::Code,
        }
    }

    /// The field before this one.
    pub open spec fn spec_prev(self) -> Field {
        match self {
            Field::Code => Field::Credit,
            Field::Name => Field::Code,
            Field::Grade => Field::Name,
            Field::Potential => Field::Grade,
            Field::Semester => Field::Potential,
            Field::Credit => Field::Semester,
        }
    }

    pub fn next(self) -> (r: Field)
        ensures
            r == self.spec_next(),
    {
        match self {
            Field::Code => Field::Name,
            Field::Name => Field::Grade,
            Field::Grade => Field::Potential,
            Field::Potential => Field::Semester,
            Field::Semester => Field::Credit,
            Field::Credit => Field::Code,
        }
    }

    pub fn prev(self) -> (r: Field)
        ensures
            r == self.spec_prev(),
    {
        match self {
            Field::Code => Field::Credit,
            Field::Name => Field::Code,
            Field::Grade => Field::Name,
            Field::Potential => Field::Grade,
            Field::Semester => Field::Potential,
            Field::Credit => Field::Semester,
        }
    }
}

/// The add/edit form: the text of each field, the focused field, the
/// display position of the subject being edited (none when adding), and the
/// last error.
pub struct Form {
    pub field: Field,
    pub code: String,
    pub name: String,
    pub credit: String,
    pub semester: String,
    pub grade: String,
    pub potential: String,
    pub editing: Option<usize>,
    pub error: Option<String>,
}

/// A form as plain values.
pub struct FormView {
    pub field: Field,
    pub code: Seq<char>,
    pub name: Seq<char>,
    pub credit: Seq<char>,
    pub semester: Seq<char>,
    pub grade: Seq<char>,
    pub potential: Seq<char>,
    pub editing: Option<usize>,
    pub error: Option<Seq<char>>,
}

impl DeepView for Form {
    type V = FormView;

    open spec fn deep_view(&self) -> FormView {
        FormView {
            field: self.field,
            code: self.code@,
            name: self.name@,
            credit: self.credit@,
            semester: self.semester@,
            grade: self.grade@,
            potential: self.potential@,
            editing: self.editing,
            error: match self.error {
                Some(e) => Some(e@),
                None => None,
            },
        }
    }
}

impl FormView {
    /// The text of the focused field.
    pub open spec fn text(self) -> Seq<char> {
        match self.field {
            Field::Code => self.code,
            Field::Name => self.name,
            Field::Credit => self.credit,
            Field::Semester => self.semester,
            Field::Grade => self.grade,
            Field::Potential => self.potential,
        }
    }

    /// The form with the focused field's text replaced.
    pub open spec fn with_text(self, t: Seq<char>) -> FormView {
        match self.field {
            Field::Code => FormView { code: t, ..self },
            Field::Name => FormView { name: t, ..self },
            Field::Credit => FormView { credit: t, ..self },
            Field::Semester => FormView { semester: t, ..self },
            Field::Grade => FormView { grade: t, ..self },
            Field::Potential => FormView { potential: t, ..self },
        }
    }
}

/// Whether typing into `field` is turned to upper case: code, grade and
/// potential grade are always shown in capitals.
pub open spec fn uppercased_field(field: Field) -> bool {
    field == Field::Code || field == Field::Grade || field == Field::Potential
}

/// The empty form for adding a subject, offering semester `default_semester`
/// and a credit of 7.5.
pub open spec fn add_form(default_semester: usize) -> FormView {
    FormView {
        field: Field::Code,
        code: Seq::empty(),
        name: Seq::empty(),
        credit: "7.5"@,
        semester: decimal(default_semester as nat),
        grade: Seq::empty(),
        potential: Seq::empty(),
        editing: None,
        error: None,
    }
}

/// The form for editing the subject at display position `flat_index` of
/// semester `semester`, filled from the subject.
pub open spec fn edit_form(flat_index: usize, semester: usize, subject: SubjectView) -> FormView {
    FormView {
        field: Field::Code,
        code: unicode_uppercase(subject.code),
        name: subject.name,
        credit: subject.credit,
        semester: decimal(semester as nat),
        grade: upper(outcome_text(subject.result)),
        potential: match subject.potential {
            Some(g) => letter_text(g),
            None => Seq::empty(),
        },
        editing: Some(flat_index),
        error: None,
    }
}

impl Form {
    pub fn new_add(default_semester: usize) -> (r: Form)
        ensures
            r.deep_view() == add_form(default_semester),
    {
        Form {
            field: Field::Code,
            code: String::new(),
            name: String::new(),
            credit: String::from_str("7.5"),
            semester: format_usize(default_semester),
            grade: String::new(),
            potential: String::new(),
            editing: None,
            error: None,
        }
    }

    /// The form for editing `subject`, the subject at display position
    /// `flat_index` in semester `semester`; its code is shown in upper case.
    pub fn new_edit(flat_index: usize, semester: usize, subject: &Subject) -> (r: Form)
        ensures
            r.deep_view() == edit_form(flat_index, semester, subject.deep_view()),
    {
        let code = to_uppercase(subject.code.as_str());
        Form::edit_with_code(flat_index, semester, subject, code)
    }

    /// The form for editing `subject` with `code` shown as its code: the
    /// fields after the code are filled from the subject.
    pub fn edit_with_code(flat_index: usize, semester: usize, subject: &Subject, code: String) -> (r:
        Form)
        ensures
            r.deep_view() == (FormView { code: code@, ..edit_form(flat_index, semester, subject.deep_view()) }),
    {
        let grade = format_grade(&subject.result);
        Form {
            field: Field::Code,
            code,
            name: subject.name.clone(),
            credit: subject.credit.clone(),
            semester: format_usize(semester),
            grade: to_ascii_uppercase_string(grade.as_str()),
            potential: match subject.potential {
                Some(g) => String::from_str(grade_letter(g)),
                None => String::new(),
            },
            editing: Some(flat_index),
            error: None,
        }
    }

    /// The text of the focused field, to be edited in place.
    fn field_mut(&mut self) -> (r: &mut String)
        ensures
            r@ == old(self).deep_view().text(),
            final(self).deep_view() == old(self).deep_view().with_text(final(r)@),
    {
        match self.field {
            Field::Code => &mut self.code,
            Field::Name => &mut self.name,
            Field::Credit => &mut self.credit,
            Field::Semester => &mut self.semester,
            Field::Grade => &mut self.grade,
            Field::Potential => &mut self.potential,
        }
    }

    /// Appends a typed character, uppercasing it first for fields that are
    /// always displayed in caps (subject code, grade, potential grade).
    pub fn push_char(&mut self, c: char)
        ensures
            final(self).deep_view() == old(self).deep_view().with_text(
                old(self).deep_view().text().push(
                    if uppercased_field(old(self).field) {
                        upper_char(c)
                    } else {
                        c
                    },
                ),
            ),
    {
        let c = if matches!(self.field, Field::Code | Field::Grade | Field::Potential) {
            to_ascii_uppercase(c)
        } else {
            c
        };
        push_char(self.field_mut(), c);
    }

    /// Deletes the last character of the focused field, if any.
    pub fn pop_char(&mut self)
        ensures
            final(self).deep_view() == old(self).deep_view().with_text(
                if old(self).deep_view().text().len() == 0 {
                    old(self).deep_view().text()
                } else {
                    old(self).deep_view().text().drop_last()
                },
            ),
    {
        pop_char(self.field_mut());
    }
}


/// What the app is doing: browsing the list, or filling in the form.
pub enum Mode {
    Browsing,
    Editing(Form),
}

/// A mode as plain values.
pub enum ModeView {
    Browsing,
    Editing(FormView),
}

impl DeepView for Mode {
    type V = ModeView;

    open spec fn deep_view(&self) -> ModeView {
        match self {
            Mode::Browsing => ModeView::Browsing,
            Mode::Editing(f) => ModeView::Editing(f.deep_view()),
        }
    }
}

/// The semesters, the display position of the selected subject, and the mode.
pub struct App {
    pub semesters: Vec<Semester>,
    pub selected: usize,
    pub mode: Mode,
}

/// An app as plain values.
pub struct AppView {
    pub semesters: Seq<SemesterView>,
    pub selected: usize,
    pub mode: ModeView,
}

impl DeepView for App {
    type V = AppView;

    open spec fn deep_view(&self) -> AppView {
        AppView {
            semesters: self.semesters.deep_view(),
            selected: self.selected,
            mode: self.mode.deep_view(),
        }
    }
}

impl App {
    /// Starts browsing the given semesters, sorted by number (equal numbers
    /// keep their order), with the first subject selected.
    pub fn new(semesters: Vec<Semester>) -> (r: App)
        ensures
            r.deep_view() == (AppView {
                semesters: sort_by_number(semesters.deep_view()),
                selected: 0,
                mode: ModeView::Browsing,
            }),
    {
        let mut semesters = semesters;
        sort_semesters(&mut semesters);
        App { semesters, selected: 0, mode: Mode::Browsing }
    }
}

/// What a key press did to the app, so the caller can decide whether/how to persist.
/// The app has no opinion on storage (file, ssh session, browser localStorage, ...) —
/// that's entirely up to whoever calls `handle_key`.
#[derive(Clone, Copy, Debug, PartialEq, Eq, Structural)]
pub enum Response {
    /// Nothing to persist.
    Nothing,
    Changed,
    Quit,
}

/// A key, as far as the app tells keys apart.
#[derive(Clone, Copy, Debug, PartialEq, Eq, Structural)]
pub enum KeyCode {
    Char(char),
    Up,
    Down,
    Esc,
    Enter,
    Tab,
    BackTab,
    Backspace,
    /// Any other key.
    Other,
}

/// The modifier keys held, as far as the app looks at them.
#[derive(Clone, Copy, Debug, PartialEq, Eq, Structural)]
pub struct KeyModifiers {
    pub shift: bool,
}

/// The app after swapping the selected subject with its neighbour in the same
/// semester (`down`: the next one, else the previous one), the selection
/// following it; unchanged at either end of the semester.
pub open spec fn move_step(app: AppView, down: bool) -> (AppView, Response) {
    let sems = app.semesters;
    let sel = app.selected as int;
    if sel < total(sems) {
        let (si, ui) = flat(sems)[sel];
        let subjects = sems[si].subjects;
        if (!down && ui > 0) || (down && ui + 1 < subjects.len()) {
            let other = if down {
                ui + 1
            } else {
                ui - 1
            };
            let swapped = subjects.update(ui, subjects[other]).update(other, subjects[ui]);
            (
                AppView {
                    semesters: sems.update(
                        si,
                        SemesterView { number: sems[si].number, subjects: swapped },
                    ),
                    selected: (offset(sems, si) + other) as usize,
                    mode: app.mode,
                },
                Response::Changed,
            )
        } else {
            (app, Response::Nothing)
        }
    } else {
        (app, Response::Nothing)
    }
}

/// The semesters with the `included` flag of subject `ui` of semester `si` flipped.
pub open spec fn toggled(sems: Seq<SemesterView>, si: int, ui: int) -> Seq<SemesterView> {
    let s = sems[si].subjects[ui];
    sems.update(
        si,
        SemesterView {
            number: sems[si].number,
            subjects: sems[si].subjects.update(ui, SubjectView { included: !s.included, ..s }),
        },
    )
}

/// What a key press does while browsing: `q`/Esc quit; Shift+Up/Down move the
/// selected subject; Down/`j` and Up/`k` move the selection; `a` opens the
/// add form; `e` the edit form for the selected subject; `d`/`x` delete it;
/// `t` toggles whether it counts. Other keys do nothing.
pub open spec fn browse_step(app: AppView, code: KeyCode, modifiers: KeyModifiers) -> (
    AppView,
    Response,
) {
    let sems = app.semesters;
    let n = total(sems);
    let sel = app.selected;
    if code == KeyCode::Char('q') || code == KeyCode::Esc {
        (app, Response::Quit)
    } else if code == KeyCode::Up && modifiers.shift {
        move_step(app, false)
    } else if code == KeyCode::Down && modifiers.shift {
        move_step(app, true)
    } else if code == KeyCode::Down || code == KeyCode::Char('j') {
        let selected = if n > 0 {
            if sel + 1 < n - 1 {
                (sel + 1) as usize
            } else {
                (n - 1) as usize
            }
        } else {
            sel
        };
        (AppView { selected, ..app }, Response::Nothing)
    } else if code == KeyCode::Up || code == KeyCode::Char('k') {
        (AppView { selected: if sel > 0 {
            (sel - 1) as usize
        } else {
            0
        }, ..app }, Response::Nothing)
    } else if code == KeyCode::Char('a') {
        (AppView { mode: ModeView::Editing(add_form(default_semester_of(sems))), ..app }, Response::Nothing)
    } else if code == KeyCode::Char('e') {
        if sel < n {
            let (si, ui) = flat(sems)[sel as int];
            (
                AppView {
                    mode: ModeView::Editing(edit_form(sel, sems[si].number, sems[si].subjects[ui])),
                    ..app
                },
                Response::Nothing,
            )
        } else {
            (app, Response::Nothing)
        }
    } else if code == KeyCode::Char('d') || code == KeyCode::Char('x') {
        if sel < n {
            let (si, ui) = flat(sems)[sel as int];
            let after = removed(sems, si, ui);
            let selected = if sel > 0 && sel >= total(after) {
                (sel - 1) as usize
            } else {
                sel
            };
            (AppView { semesters: after, selected, mode: app.mode }, Response::Changed)
        } else {
            (app, Response::Nothing)
        }
    } else if code == KeyCode::Char('t') {
        if sel < n {
            let (si, ui) = flat(sems)[sel as int];
            (AppView { semesters: toggled(sems, si, ui), ..app }, Response::Changed)
        } else {
            (app, Response::Nothing)
        }
    } else {
        (app, Response::Nothing)
    }
}

/// Whether a browsing key press would step the selection past `usize::MAX`
/// (where the arithmetic overflows).
pub open spec fn selection_overflows(app: AppView, code: KeyCode, modifiers: KeyModifiers) -> bool {
    &&& app.mode is Browsing
    &&& (code == KeyCode::Down && !modifiers.shift) || code == KeyCode::Char('j')
    &&& total(app.semesters) > 0
    &&& app.selected == usize::MAX
}


/// Flips whether subject `ui` of semester `si` counts.
fn toggle_included(semesters: &mut Vec<Semester>, si: usize, ui: usize)
    requires
        si < old(semesters)@.len(),
        ui < old(semesters)@[si as int].subjects@.len(),
    ensures
        final(semesters).deep_view() == toggled(old(semesters).deep_view(), si as int, ui as int),
{
    let ghost sv = semesters.deep_view();
    let included = semesters[si].subjects[ui].included;
    semesters[si].subjects[ui].included = !included;
    assert(semesters.deep_view() =~= toggled(sv, si as int, ui as int)) by {
        assert(semesters.deep_view()[si as int].subjects =~= toggled(sv, si as int, ui as int)[si as int].subjects);
    }
}


/// The first display position holding `(si, ui)`.
fn find_position(flat_list: &Vec<(usize, usize)>, si: usize, ui: usize) -> (r: Option<usize>)
    ensures
        match r {
            Some(k) => k < flat_list@.len() && flat_list@[k as int] == (si, ui),
            None => forall|k: int| 0 <= k < flat_list@.len() ==> flat_list@[k] != (si, ui),
        },
{
    let mut k: usize = 0;
    while k < flat_list.len()
        invariant
            k <= flat_list@.len(),
            forall|j: int| 0 <= j < k ==> flat_list@[j] != (si, ui),
        decreases flat_list@.len() - k,
    {
        let (a, b) = flat_list[k];
        if a == si && b == ui {
            return Some(k);
        }
        k = k + 1;
    }
    None
}

pub proof fn lemma_offset_update(sems: Seq<SemesterView>, si: int, x: SemesterView, sj: int)
    requires
        0 <= sj <= si < sems.len(),
    ensures
        offset(sems.update(si, x), sj) == offset(sems, sj),
{
    assert(sems.update(si, x).take(sj) =~= sems.take(sj));
}

/// Swaps the selected subject with its neighbor within the same semester
/// (`direction` -1 = up, +1 = down), moving the selection along with it.
/// Does nothing at the top/bottom of a semester's list — reordering across
/// semesters happens through the edit form's semester field instead.
fn move_subject(app: &mut App, direction: isize) -> (r: Response)
    ensures
        (final(app).deep_view(), r) == move_step(old(app).deep_view(), direction >= 0),
{
    let ghost sv = app.semesters.deep_view();
    proof {
        lemma_flat(sv);
    }
    let flat_list = flatten(&app.semesters);
    if app.selected >= flat_list.len() {
        return Response::Nothing;
    }
    let (si, ui) = flat_list[app.selected];
    let len = app.semesters[si].subjects.len();
    let new_ui = if direction < 0 {
        if ui == 0 {
            return Response::Nothing;
        }
        ui - 1
    } else {
        if !(ui + 1 < len) {
            return Response::Nothing;
        }
        ui + 1
    };
    let ghost subs = sv[si as int].subjects;
    let (lo, hi) = if ui < new_ui {
        (ui, new_ui)
    } else {
        (new_ui, ui)
    };
    let moved = app.semesters[si].subjects.remove(hi);
    app.semesters[si].subjects.insert(lo, moved);
    let ghost swapped = subs.update(ui as int, subs[new_ui as int]).update(new_ui as int, subs[ui as int]);
    let ghost after = sv.update(si as int, SemesterView { number: sv[si as int].number, subjects: swapped });
    assert(app.semesters.deep_view()[si as int].subjects =~= swapped);
    assert(app.semesters.deep_view() =~= after);
    proof {
        lemma_flat(after);
        lemma_offset_update(sv, si as int, after[si as int], si as int);
    }
    let new_flat = flatten(&app.semesters);
    match find_position(&new_flat, si, new_ui) {
        Some(k) => {
            assert(new_flat@[k as int].0 == si && new_flat@[k as int].1 == new_ui);
            assert(flat(after)[k as int] == (si as int, new_ui as int));
            assert(k == offset(after, si as int) + new_ui);
            app.selected = k;
        },
        None => {
            let ghost kk = offset(after, si as int) + new_ui;
            assert(flat(after)[kk] == (si as int, new_ui as int));
            assert(offset(after, si as int) + after[si as int].subjects.len() <= total(after));
            assert((new_flat@[kk].0 as int, new_flat@[kk].1 as int) == flat(after)[kk]);
            assert(new_flat@[kk] == (si, new_ui));
        },
    }
    assert(flat(sv)[old(app).selected as int] == (si as int, ui as int));
    Response::Changed
}

/// What a key press does while browsing: see `browse_step`.
fn handle_browsing_key(app: &mut App, code: KeyCode, modifiers: KeyModifiers) -> (r: Response)
    requires
        old(app).mode is Browsing,
        !selection_overflows(old(app).deep_view(), code, modifiers),
    ensures
        (final(app).deep_view(), r) == browse_step(old(app).deep_view(), code, modifiers),
{
    let ghost sv = app.semesters.deep_view();
    proof {
        lemma_flat(sv);
    }
    let flat_list = flatten(&app.semesters);
    match code {
        KeyCode::Char('q') | KeyCode::Esc => {
            return Response::Quit;
        },
        KeyCode::Up if modifiers.shift => {
            return move_subject(app, -1);
        },
        KeyCode::Down if modifiers.shift => {
            return move_subject(app, 1);
        },
        KeyCode::Down | KeyCode::Char('j') => {
            if flat_list.len() > 0 {
                let next = app.selected + 1;
                app.selected = if next < flat_list.len() - 1 {
                    next
                } else {
                    flat_list.len() - 1
                };
            }
        },
        KeyCode::Up | KeyCode::Char('k') => {
            app.selected = if app.selected > 0 {
                app.selected - 1
            } else {
                0
            };
        },
        KeyCode::Char('a') => {
            app.mode = Mode::Editing(Form::new_add(default_semester(&app.semesters)));
        },
        KeyCode::Char('e') => {
            if app.selected < flat_list.len() {
                let (si, ui) = flat_list[app.selected];
                let form = Form::new_edit(
                    app.selected,
                    app.semesters[si].number,
                    &app.semesters[si].subjects[ui],
                );
                app.mode = Mode::Editing(form);
            }
        },
        KeyCode::Char('d') | KeyCode::Char('x') => {
            if app.selected < flat_list.len() {
                let (si, ui) = flat_list[app.selected];
                remove_subject(&mut app.semesters, si, ui);
                proof {
                    lemma_flat(app.semesters.deep_view());
                }
                let remaining = flatten(&app.semesters).len();
                if app.selected > 0 && app.selected >= remaining {
                    app.selected = app.selected - 1;
                }
                return Response::Changed;
            }
        },
        KeyCode::Char('t') => {
            if app.selected < flat_list.len() {
                let (si, ui) = flat_list[app.selected];
                toggle_included(&mut app.semesters, si, ui);
                return Response::Changed;
            }
        },
        _ => {},
    }
    Response::Nothing
}


/// The index of the first semester with a number is in range and has that number.
pub proof fn lemma_index_bounds(s: Seq<SemesterView>, n: usize)
    ensures
        -1 <= index_of_number(s, n) < s.len(),
        index_of_number(s, n) >= 0 ==> s[index_of_number(s, n)].number == n,
{
    if s.len() > 0 {
        lemma_index_of_push(s, s[0], n);
    } else {
        assert(index_of_number(s, n) == -1);
    }
}

pub proof fn lemma_index_of_push(s: Seq<SemesterView>, y: SemesterView, n: usize)
    ensures
        index_of_number(s.push(y), n) == if index_of_number(s, n) >= 0 {
            index_of_number(s, n)
        } else if y.number == n {
            s.len() as int
        } else {
            -1
        },
        -1 <= index_of_number(s, n) < s.len(),
        index_of_number(s, n) >= 0 ==> s[index_of_number(s, n)].number == n,
    decreases s.len(),
{
    if s.len() > 0 {
        lemma_index_of_push(s.drop_first(), y, n);
        assert(s.push(y).drop_first() =~= s.drop_first().push(y));
    } else {
        assert(s.push(y).drop_first() =~= Seq::<SemesterView>::empty());
        assert(index_of_number(Seq::<SemesterView>::empty(), n) == -1);
    }
}

proof fn lemma_insert_first(q: Seq<SemesterView>, x: SemesterView, n: usize)
    ensures
        ({
            let ins = insert_by_number(q, x);
            let iq = index_of_number(q, n);
            let ii = index_of_number(ins, n);
            &&& (ii >= 0) == (iq >= 0 || x.number == n)
            &&& iq >= 0 ==> ins[ii] == q[iq]
            &&& iq < 0 && x.number == n ==> ins[ii] == x
        }),
    decreases q.len(),
{
    let e = Seq::<SemesterView>::empty();
    if q.len() == 0 {
        lemma_index_of_push(e, x, n);
        assert(e.push(x) =~= seq![x]);
    } else if q.last().number <= x.number {
        lemma_index_of_push(q, x, n);
    } else {
        let q1 = q.drop_last();
        let l = q.last();
        lemma_insert_first(q1, x, n);
        lemma_index_of_push(insert_by_number(q1, x), l, n);
        lemma_index_of_push(q1, l, n);
        assert(q1.push(l) =~= q);
    }
}

/// Sorting keeps which semester comes first among those with a given number.
pub proof fn lemma_sort_first(s: Seq<SemesterView>, n: usize)
    ensures
        ({
            let sorted = sort_by_number(s);
            let i = index_of_number(s, n);
            let j = index_of_number(sorted, n);
            &&& (j >= 0) == (i >= 0)
            &&& i >= 0 ==> sorted[j] == s[i]
        }),
    decreases s.len(),
{
    if s.len() > 0 {
        let p = s.drop_last();
        lemma_sort_first(p, n);
        lemma_insert_first(sort_by_number(p), s.last(), n);
        lemma_index_of_push(p, s.last(), n);
        assert(p.push(s.last()) =~= s);
    }
}

/// The form with its error message set.
pub open spec fn with_error(app: AppView, form: FormView, message: Seq<char>) -> (AppView, Response) {
    (
        AppView { mode: ModeView::Editing(FormView { error: Some(message), ..form }), ..app },
        Response::Nothing,
    )
}

/// The potential grade a trimmed form entry stands for: none when empty, a
/// letter grade, or `Err` when it is not one.
pub open spec fn potential_entry(t: Seq<char>) -> Result<Option<Grade>, ()> {
    if t.len() == 0 {
        Ok(None)
    } else {
        match crate::persistence::letter_word(crate::text::lower(t)) {
            Some(g) => Ok(Some(g)),
            None => Err(()),
        }
    }
}

/// Where a submitted subject goes, and where the selection ends up. When the
/// form edits a subject that is still at its display position, the subject
/// keeps its `included` flag; if its semester number is unchanged it is
/// replaced in place, else it moves to the end of its new semester (after
/// sorting the semesters) and the selection follows it. A new subject, with
/// `included` set, goes to the end of its semester.
pub open spec fn placed(
    sems: Seq<SemesterView>,
    selected: usize,
    editing: Option<usize>,
    semester: usize,
    code: Seq<char>,
    name: Seq<char>,
    credit: Seq<char>,
    result: Outcome,
    potential: Option<Grade>,
) -> (Seq<SemesterView>, usize) {
    if editing is Some && editing->0 < total(sems) {
        let (si, ui) = flat(sems)[editing->0 as int];
        let subject = SubjectView {
            code,
            name,
            credit,
            result,
            included: sems[si].subjects[ui].included,
            potential,
        };
        if sems[si].number == semester {
            (
                sems.update(
                    si,
                    SemesterView {
                        number: sems[si].number,
                        subjects: sems[si].subjects.update(ui, subject),
                    },
                ),
                selected,
            )
        } else {
            let after = sort_by_number(inserted(removed(sems, si, ui), semester, subject));
            let t = index_of_number(after, semester);
            (after, (offset(after, t) + after[t].subjects.len() - 1) as usize)
        }
    } else {
        let subject = SubjectView { code, name, credit, result, included: true, potential };
        (sort_by_number(inserted(sems, semester, subject)), selected)
    }
}

/// What Enter does in the form: the trimmed entries are read in the order
/// credit, semester, grade, potential grade, and the first one that does not
/// read sets its error message; otherwise the subject is placed (see
/// `placed`) and browsing resumes. The credit is read by the caller as a
/// floating-point number: `credit` is `None` when the trimmed credit entry is
/// not one, and otherwise the text that number is written as, which becomes
/// the subject's credit.
pub open spec fn submit_step(app: AppView, credit: Option<Seq<char>>) -> (AppView, Response) {
    match app.mode {
        ModeView::Browsing => (app, Response::Nothing),
        ModeView::Editing(form) => {
            let semester_in = crate::text::trimmed(form.semester);
            let grade_in = crate::text::trimmed(form.grade);
            let potential_in = crate::text::trimmed(form.potential);
            match credit {
                None => with_error(app, form, "credit must be a number"@),
                Some(credit) => match crate::text::parsed_unsigned(
                    semester_in,
                    usize::MAX as nat,
                ) {
                    None => with_error(app, form, "semester must be a whole number"@),
                    Some(semester) => match crate::persistence::grade_word(
                        crate::text::lower(grade_in),
                    ) {
                        None => with_error(app, form, "grade must be A-E, Pass, or Fail"@),
                        Some(result) => match potential_entry(potential_in) {
                            Err(_) => with_error(app, form, "potential grade must be A-E"@),
                            Ok(potential) => {
                                let (sems, selected) = placed(
                                    app.semesters,
                                    app.selected,
                                    form.editing,
                                    semester as usize,
                                    crate::text::trimmed(form.code),
                                    crate::text::trimmed(form.name),
                                    credit,
                                    result,
                                    potential,
                                );
                                (
                                    AppView { semesters: sems, selected, mode: ModeView::Browsing },
                                    Response::Changed,
                                )
                            },
                        },
                    },
                },
            }
        },
    }
}

/// What a key press does in the form: Esc cancels; Enter submits; Tab/Down
/// and BackTab/Up move between fields; Backspace deletes a character; a
/// character is typed into the focused field.
pub open spec fn edit_step(app: AppView, code: KeyCode, credit: Option<Seq<char>>) -> (
    AppView,
    Response,
) {
    if code == KeyCode::Esc {
        (AppView { mode: ModeView::Browsing, ..app }, Response::Nothing)
    } else if code == KeyCode::Enter {
        submit_step(app, credit)
    } else {
        match app.mode {
            ModeView::Browsing => (app, Response::Nothing),
            ModeView::Editing(f) => {
                let f2 = if code == KeyCode::Tab || code == KeyCode::Down {
                    FormView { field: f.field.spec_next(), ..f }
                } else if code == KeyCode::BackTab || code == KeyCode::Up {
                    FormView { field: f.field.spec_prev(), ..f }
                } else if code == KeyCode::Backspace {
                    f.with_text(
                        if f.text().len() == 0 {
                            f.text()
                        } else {
                            f.text().drop_last()
                        },
                    )
                } else {
                    match code {
                        KeyCode::Char(c) => f.with_text(
                            f.text().push(
                                if uppercased_field(f.field) {
                                    upper_char(c)
                                } else {
                                    c
                                },
                            ),
                        ),
                        _ => f,
                    }
                };
                (AppView { mode: ModeView::Editing(f2), ..app }, Response::Nothing)
            },
        }
    }
}

/// What a key press does: see `browse_step` and `edit_step`.
pub open spec fn key_step(
    app: AppView,
    code: KeyCode,
    modifiers: KeyModifiers,
    credit: Option<Seq<char>>,
) -> (AppView, Response) {
    match app.mode {
        ModeView::Browsing => browse_step(app, code, modifiers),
        ModeView::Editing(_) => edit_step(app, code, credit),
    }
}


/// Shows `message` in the form, if one is open.
fn set_form_error(app: &mut App, message: &str)
    ensures
        final(app).deep_view() == match old(app).deep_view().mode {
            ModeView::Editing(form) => with_error(old(app).deep_view(), form, message@).0,
            ModeView::Browsing => old(app).deep_view(),
        },
{
    if let Mode::Editing(form) = &mut app.mode {
        form.error = Some(String::from_str(message));
    }
}

/// Places a subject read from the form: see `placed`.
fn place_subject(
    app: &mut App,
    editing: Option<usize>,
    semester: usize,
    code: String,
    name: String,
    credit: String,
    result: Outcome,
    potential: Option<Grade>,
)
    ensures
        final(app).mode.deep_view() == old(app).mode.deep_view(),
        (final(app).semesters.deep_view(), final(app).selected) == placed(
            old(app).semesters.deep_view(),
            old(app).selected,
            editing,
            semester,
            code@,
            name@,
            credit@,
            result,
            potential,
        ),
{
    let ghost sv = app.semesters.deep_view();
    proof {
        lemma_flat(sv);
    }
    let mut included = true;
    let mut old_location: Option<(usize, usize, usize)> = None;
    if let Some(flat_index) = editing {
        let flat_list = flatten(&app.semesters);
        if flat_index < flat_list.len() {
            let (si, ui) = flat_list[flat_index];
            included = app.semesters[si].subjects[ui].included;
            old_location = Some((app.semesters[si].number, si, ui));
        }
    }
    let subject = Subject { code, name, credit, result, included, potential };
    match old_location {
        Some((old_semester, si, ui)) => {
            if old_semester == semester {
                app.semesters[si].subjects.set(ui, subject);
                assert(app.semesters.deep_view()[si as int].subjects =~= sv[si as int].subjects.update(
                    ui as int,
                    subject.deep_view(),
                ));
                assert(app.semesters.deep_view() =~= placed(
                    sv,
                    old(app).selected,
                    editing,
                    semester,
                    code@,
                    name@,
                    credit@,
                    result,
                    potential,
                ).0);
            } else {
                remove_subject(&mut app.semesters, si, ui);
                let ghost after_removal = app.semesters.deep_view();
                insert_subject(&mut app.semesters, semester, subject);
                sort_semesters(&mut app.semesters);
                let ghost after = app.semesters.deep_view();
                proof {
                    lemma_moved_target(after_removal, semester, subject.deep_view());
                    lemma_flat(after);
                }
                match position_of_number(&app.semesters, semester) {
                    Some(target_si) => {
                        let target_ui = app.semesters[target_si].subjects.len() - 1;
                        let new_flat = flatten(&app.semesters);
                        match find_position(&new_flat, target_si, target_ui) {
                            Some(k) => {
                                assert(new_flat@[k as int].0 == target_si && new_flat@[k as int].1
                                    == target_ui);
                                assert(flat(after)[k as int] == (target_si as int, target_ui as int));
                                app.selected = k;
                            },
                            None => {
                                let ghost kk = offset(after, target_si as int) + target_ui;
                                assert(flat(after)[kk] == (target_si as int, target_ui as int));
                                assert(offset(after, target_si as int) + after[target_si as int].subjects.len()
                                    <= total(after));
                                assert((new_flat@[kk].0 as int, new_flat@[kk].1 as int) == flat(
                                    after,
                                )[kk]);
                                assert(new_flat@[kk] == (target_si, target_ui));
                            },
                        }
                    },
                    None => {},
                }
            }
        },
        None => {
            insert_subject(&mut app.semesters, semester, subject);
            sort_semesters(&mut app.semesters);
        },
    }
}

/// After adding a subject to semester `n` and sorting, the first semester
/// numbered `n` exists and holds at least one subject.
pub proof fn lemma_moved_target(r: Seq<SemesterView>, n: usize, subject: SubjectView)
    ensures
        ({
            let after = sort_by_number(inserted(r, n, subject));
            let t = index_of_number(after, n);
            &&& 0 <= t < after.len()
            &&& after[t].number == n
            &&& after[t].subjects.len() > 0
        }),
{
    let unsorted = inserted(r, n, subject);
    lemma_index_of_push(r, SemesterView { number: n, subjects: seq![subject] }, n);
    let i0 = index_of_number(r, n);
    if i0 >= 0 {
        lemma_index_prefix(r, n);
        lemma_index_of_number(unsorted, n, i0);
    }
    lemma_sort_first(unsorted, n);
    let after = sort_by_number(unsorted);
    lemma_index_of_push(after, after[0], n);
}

pub proof fn lemma_index_prefix(s: Seq<SemesterView>, n: usize)
    ensures
        forall|j: int| 0 <= j < index_of_number(s, n) ==> s[j].number != n,
        index_of_number(s, n) < 0 ==> forall|j: int| 0 <= j < s.len() ==> s[j].number != n,
    decreases s.len(),
{
    if s.len() > 0 {
        lemma_index_prefix(s.drop_first(), n);
        lemma_index_of_push(s, s[0], n);
        assert forall|j: int| 0 <= j < index_of_number(s, n) implies s[j].number != n by {
            if j > 0 {
                assert(s[j] == s.drop_first()[j - 1]);
            }
        }
        assert forall|j: int| index_of_number(s, n) < 0 && 0 <= j < s.len() implies s[j].number
            != n by {
            if j > 0 {
                assert(s[j] == s.drop_first()[j - 1]);
            }
        }
    }
}


/// Enter in the form: see `submit_step`.
fn submit_form(app: &mut App, credit: Option<String>) -> (r: Response)
    ensures
        (final(app).deep_view(), r) == submit_step(old(app).deep_view(), opt_view(credit)),
{
    let (code, name, semester_input, grade_input, potential_input, editing) =
        match &app.mode {
        Mode::Editing(form) => (
            crate::text::trim(form.code.as_str()),
            crate::text::trim(form.name.as_str()),
            crate::text::trim(form.semester.as_str()),
            crate::text::trim(form.grade.as_str()),
            crate::text::trim(form.potential.as_str()),
            form.editing,
        ),
        Mode::Browsing => {
            return Response::Nothing;
        },
    };
    let credit = match credit {
        Some(v) => v,
        None => {
            set_form_error(app, "credit must be a number");
            return Response::Nothing;
        },
    };
    let semester = match crate::text::parse_usize(semester_input.as_str()) {
        Some(v) => v,
        None => {
            set_form_error(app, "semester must be a whole number");
            return Response::Nothing;
        },
    };
    let result = match crate::persistence::parse_grade(grade_input.as_str()) {
        Ok(o) => o,
        Err(_) => {
            set_form_error(app, "grade must be A-E, Pass, or Fail");
            return Response::Nothing;
        },
    };
    let potential = if potential_input.unicode_len() == 0 {
        None
    } else {
        match crate::persistence::parse_grade_letter(potential_input.as_str()) {
            Ok(g) => Some(g),
            Err(_) => {
                set_form_error(app, "potential grade must be A-E");
                return Response::Nothing;
            },
        }
    };
    place_subject(app, editing, semester, code, name, credit, result, potential);
    app.mode = Mode::Browsing;
    Response::Changed
}

/// Whether `handle_key` would step the selection past `usize::MAX` for this
/// key press (see `selection_overflows`); `handle_key` is not to be called then.
pub fn selection_overflows_now(app: &App, code: KeyCode, modifiers: KeyModifiers) -> (r: bool)
    ensures
        r == selection_overflows(app.deep_view(), code, modifiers),
{
    proof {
        lemma_flat(app.semesters.deep_view());
    }
    let browsing = match app.mode {
        Mode::Browsing => true,
        Mode::Editing(_) => false,
    };
    let down = match code {
        KeyCode::Down => !modifiers.shift,
        KeyCode::Char(c) => c == 'j',
        _ => false,
    };
    browsing && down && flatten(&app.semesters).len() > 0 && app.selected == usize::MAX
}

/// What a key press does in the form: see `edit_step`.
fn handle_editing_key(app: &mut App, code: KeyCode, credit: Option<String>) -> (r: Response)
    ensures
        (final(app).deep_view(), r) == edit_step(old(app).deep_view(), code, opt_view(credit)),
{
    match code {
        KeyCode::Esc => {
            app.mode = Mode::Browsing;
            return Response::Nothing;
        },
        KeyCode::Enter => {
            return submit_form(app, credit);
        },
        _ => {},
    }
    if let Mode::Editing(form) = &mut app.mode {
        match code {
            KeyCode::Tab | KeyCode::Down => {
                form.field = form.field.next();
            },
            KeyCode::BackTab | KeyCode::Up => {
                form.field = form.field.prev();
            },
            KeyCode::Backspace => {
                form.pop_char();
            },
            KeyCode::Char(c) => {
                form.push_char(c);
            },
            _ => {},
        }
    }
    Response::Nothing
}

/// The text of an optional string.
pub open spec fn opt_view(s: Option<String>) -> Option<Seq<char>> {
    match s {
        Some(t) => Some(t@),
        None => None,
    }
}

/// Dispatches a key press: see `key_step`. `credit` is what the form's
/// trimmed credit entry reads as a floating-point number, written out again
/// (`None` when it is not a number); only Enter in the form uses it.
pub fn handle_key(
    app: &mut App,
    code: KeyCode,
    modifiers: KeyModifiers,
    credit: Option<String>,
) -> (r: Response)
    requires
        !selection_overflows(old(app).deep_view(), code, modifiers),
    ensures
        (final(app).deep_view(), r) == key_step(
            old(app).deep_view(),
            code,
            modifiers,
            opt_view(credit),
        ),
{
    match app.mode {
        Mode::Browsing => handle_browsing_key(app, code, modifiers),
        Mode::Editing(_) => handle_editing_key(app, code, credit),
    }
}


/// Truncates to at most `max_chars` characters, so fixed-width columns stay
/// aligned even when the underlying text is longer than the column.
pub fn truncate(s: &str, max_chars: usize) -> (r: String)
    ensures
        r@ == s@.take(if max_chars < s@.len() {
            max_chars as int
        } else {
            s@.len() as int
        }),
{
    let n = s.unicode_len();
    let end = if max_chars < n {
        max_chars
    } else {
        n
    };
    String::from_str(s.substring_char(0, end))
}

/// `t` followed by spaces up to `width` characters (`format!("{t:<width$}")`).
pub open spec fn padded(t: Seq<char>, width: nat) -> Seq<char> {
    t + Seq::new(if width > t.len() { (width - t.len()) as nat } else { 0 }, |i: int| ' ')
}

/// `t` cut to at most `max` characters (see `truncate`).
pub open spec fn cut(t: Seq<char>, max: nat) -> Seq<char> {
    t.take(if max < t.len() { max as int } else { t.len() as int })
}

/// The start of a subject's row: a `> ` marker on the selected row (two
/// spaces on the others), the code cut and padded to `code_width`, a space,
/// the name cut and padded to `name_width`, and a space.
pub open spec fn row_label_text(
    selected: bool,
    s: SubjectView,
    code_width: nat,
    name_width: nat,
) -> Seq<char> {
    (if selected { seq!['>', ' '] } else { seq![' ', ' '] }) + padded(cut(s.code, code_width), code_width)
        + seq![' '] + padded(cut(s.name, name_width), name_width) + seq![' ']
}

/// Appends `t` padded with spaces to `width` characters.
fn push_padded(out: &mut String, t: &str, width: usize)
    ensures
        final(out)@ == old(out)@ + padded(t@, width as nat),
{
    let cs = crate::text::chars_of(t);
    let mut i: usize = 0;
    while i < cs.len()
        invariant
            i <= cs@.len(),
            cs@ == t@,
            out@ == old(out)@ + t@.take(i as int),
        decreases cs@.len() - i,
    {
        push_char(out, cs[i]);
        assert(t@.take(i + 1) =~= t@.take(i as int).push(cs@[i as int]));
        i = i + 1;
    }
    assert(t@.take(i as int) =~= t@);
    let mut k: usize = cs.len();
    while k < width
        invariant
            cs@.len() <= k <= if width > cs@.len() { width as int } else { cs@.len() as int },
            out@ == old(out)@ + t@ + Seq::new((k - cs@.len()) as nat, |j: int| ' '),
        decreases width - k,
    {
        push_char(out, ' ');
        assert(Seq::new((k + 1 - cs@.len()) as nat, |j: int| ' ') =~= Seq::new(
            (k - cs@.len()) as nat,
            |j: int| ' ',
        ).push(' '));
        k = k + 1;
    }
    assert(old(out)@ + t@ + Seq::new((k - cs@.len()) as nat, |j: int| ' ') =~= old(out)@ + padded(
        t@,
        width as nat,
    ));
}

/// The start of a subject's row in the list: see `row_label_text`.
pub fn row_label(selected: bool, subject: &Subject, code_width: usize, name_width: usize) -> (r:
    String)
    ensures
        r@ == row_label_text(selected, subject.deep_view(), code_width as nat, name_width as nat),
{
    let mut out = String::new();
    if selected {
        push_char(&mut out, '>');
    } else {
        push_char(&mut out, ' ');
    }
    push_char(&mut out, ' ');
    let ghost marker = out@;
    let code = truncate(subject.code.as_str(), code_width);
    push_padded(&mut out, code.as_str(), code_width);
    push_char(&mut out, ' ');
    let name = truncate(subject.name.as_str(), name_width);
    push_padded(&mut out, name.as_str(), name_width);
    push_char(&mut out, ' ');
    assert(out@ =~= row_label_text(
        selected,
        subject.deep_view(),
        code_width as nat,
        name_width as nat,
    ));
    out
}

/// The length of the longest code (`names` false) or name (`names` true)
/// among `subs`, 0 when there are none.
pub open spec fn longest(subs: Seq<SubjectView>, names: bool) -> nat
    decreases subs.len(),
{
    if subs.len() == 0 {
        0
    } else {
        let l = if names {
            subs.last().name.len()
        } else {
            subs.last().code.len()
        };
        let m = longest(subs.drop_last(), names);
        if l > m {
            l
        } else {
            m
        }
    }
}

/// `x` limited to `lo..=hi`.
pub open spec fn clamp(x: nat, lo: nat, hi: nat) -> nat {
    if x < lo {
        lo
    } else if x > hi {
        hi
    } else {
        x
    }
}

/// Widths for the code/name columns, sized to the longest value actually
/// present instead of a guessed constant — so nothing gets truncated unless
/// it's past the sanity cap (codes 4 to 15 characters, names 4 to 40).
pub fn column_widths(semesters: &[Semester]) -> (r: (usize, usize))
    ensures
        r.0 == clamp(longest(all_subjects(semesters.deep_view()), false), 4, 15),
        r.1 == clamp(longest(all_subjects(semesters.deep_view()), true), 4, 40),
{
    let ghost sv = semesters.deep_view();
    let mut code_max: usize = 0;
    let mut name_max: usize = 0;
    let mut i: usize = 0;
    assert(sv.take(0) =~= Seq::<SemesterView>::empty());
    while i < semesters.len()
        invariant
            i <= semesters@.len(),
            sv == semesters.deep_view(),
            code_max == longest(all_subjects(sv.take(i as int)), false),
            name_max == longest(all_subjects(sv.take(i as int)), true),
        decreases semesters@.len() - i,
    {
        let subjects = &semesters[i].subjects;
        let ghost done = all_subjects(sv.take(i as int));
        let ghost subs = sv[i as int].subjects;
        assert(subs == subjects.deep_view());
        let mut j: usize = 0;
        assert(done + subs.take(0) =~= done);
        while j < subjects.len()
            invariant
                j <= subjects@.len(),
                subs == subjects.deep_view(),
                code_max == longest(done + subs.take(j as int), false),
                name_max == longest(done + subs.take(j as int), true),
            decreases subjects@.len() - j,
        {
            let ghost next = done + subs.take(j + 1);
            assert(next.drop_last() =~= done + subs.take(j as int));
            assert(next.last() == subjects[j as int].deep_view());
            let c = subjects[j].code.unicode_len();
            let m = subjects[j].name.unicode_len();
            if c > code_max {
                code_max = c;
            }
            if m > name_max {
                name_max = m;
            }
            j = j + 1;
        }
        assert(sv.take(i + 1).drop_last() =~= sv.take(i as int));
        assert(done + subs.take(j as int) =~= all_subjects(sv.take(i + 1)));
        i = i + 1;
    }
    assert(sv.take(i as int) =~= sv);
    let code_width = if code_max < 4 {
        4
    } else if code_max > 15 {
        15
    } else {
        code_max
    };
    let name_width = if name_max < 4 {
        4
    } else if name_max > 40 {
        40
    } else {
        name_max
    };
    (code_width, name_width)
}

/// How a subject's grade is shown: its outcome, and `→` with the potential
/// grade when one is set.
pub open spec fn grade_label_text(s: SubjectView) -> Seq<char> {
    match s.potential {
        Some(g) => outcome_text(s.result) + " → "@ + letter_text(g),
        None => outcome_text(s.result),
    }
}

/// The grade shown for a subject: see `grade_label_text`.
pub fn grade_label(subject: &Subject) -> (r: String)
    ensures
        r@ == grade_label_text(subject.deep_view()),
{
    let mut grade = format_grade(&subject.result);
    if let Some(potential) = subject.potential {
        grade.append(" → ");
        grade.append(grade_letter(potential));
    }
    grade
}

} // verus!
