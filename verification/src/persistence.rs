//! The storage document: grade words, semester keys, and the conversion
//! between semesters and the document's sections.

use vstd::prelude::*;
use vstd::string::*;
use crate::model::{Grade, Outcome, Semester, SemesterView, Subject, SubjectView};
use crate::text::{
    decimal, format_usize, lower, lower_equals, parse_usize, parsed_unsigned, push_decimal,
    seq_less, starts_with, lemma_seq_less_irreflexive, lemma_seq_less_total,
    lemma_seq_less_transitive,
};

verus! {

/// Why a stored document could not be turned into semesters.
#[derive(Debug)]
pub enum Error {
    /// A grade or potential grade that is not one of the known words.
    InvalidGrade(String),
    /// A section key that is not `semester` followed by a number.
    InvalidSemesterKey(String),
}

/// The outcome that a lower-cased grade word stands for, if any.
pub open spec fn grade_word(w: Seq<char>) -> Option<Outcome> {
    if w == "a"@ {
        Some(Outcome::Passed(Some(Grade::A)))
    } else if w == "b"@ {
        Some(Outcome::Passed(Some(Grade::B)))
    } else if w == "c"@ {
        Some(Outcome::Passed(Some(Grade::C)))
    } else if w == "d"@ {
        Some(Outcome::Passed(Some(Grade::D)))
    } else if w == "e"@ {
        Some(Outcome::Passed(Some(Grade::E)))
    } else if w == "pass"@ || w == "passed"@ {
        Some(Outcome::Passed(None))
    } else if w == "f"@ || w == "fail"@ || w == "failed"@ {
        Some(Outcome::Failed)
    } else {
        None
    }
}

/// The letter grade that a lower-cased word stands for, if any.
pub open spec fn letter_word(w: Seq<char>) -> Option<Grade> {
    if w == "a"@ {
        Some(Grade::A)
    } else if w == "b"@ {
        Some(Grade::B)
    } else if w == "c"@ {
        Some(Grade::C)
    } else if w == "d"@ {
        Some(Grade::D)
    } else if w == "e"@ {
        Some(Grade::E)
    } else {
        None
    }
}

/// The upper-case letter of a grade.
pub open spec fn letter_text(grade: Grade) -> Seq<char> {
    match grade {
        Grade::A => "A"@,
        Grade::B => "B"@,
        Grade::C => "C"@,
        Grade::D => "D"@,
        Grade::E => "E"@,
    }
}

/// How an outcome is written: its letter, `Pass`, or `F`.
pub open spec fn outcome_text(outcome: Outcome) -> Seq<char> {
    match outcome {
        Outcome::Passed(Some(grade)) => letter_text(grade),
        Outcome::Passed(None) => "Pass"@,
        Outcome::Failed => "F"@,
    }
}

/// Reads a grade, ignoring ASCII case: `a`..`e`, `pass`/`passed`, or
/// `f`/`fail`/`failed`; anything else is an invalid grade.
pub fn parse_grade(grade: &str) -> (r: Result<Outcome, Error>)
    ensures
        match grade_word(lower(grade@)) {
            Some(outcome) => r == Ok::<Outcome, Error>(outcome),
            None => r matches Err(Error::InvalidGrade(s)) && s@ == grade@,
        },
{
    if lower_equals(grade, "a") {
        Ok(Outcome::Passed(Some(Grade::A)))
    } else if lower_equals(grade, "b") {
        Ok(Outcome::Passed(Some(Grade::B)))
    } else if lower_equals(grade, "c") {
        Ok(Outcome::Passed(Some(Grade::C)))
    } else if lower_equals(grade, "d") {
        Ok(Outcome::Passed(Some(Grade::D)))
    } else if lower_equals(grade, "e") {
        Ok(Outcome::Passed(Some(Grade::E)))
    } else if lower_equals(grade, "pass") || lower_equals(grade, "passed") {
        Ok(Outcome::Passed(None))
    } else if lower_equals(grade, "f") || lower_equals(grade, "fail") || lower_equals(
        grade,
        "failed",
    ) {
        Ok(Outcome::Failed)
    } else {
        Err(Error::InvalidGrade(String::from_str(grade)))
    }
}

/// Writes an outcome: its grade letter, `Pass`, or `F`.
pub fn format_grade(outcome: &Outcome) -> (r: String)
    ensures
        r@ == outcome_text(*outcome),
{
    let text = match outcome {
        Outcome::Passed(Some(grade)) => grade_letter(*grade),
        Outcome::Passed(None) => "Pass",
        Outcome::Failed => "F",
    };
    String::from_str(text)
}

/// Reads a letter grade `a`..`e`, ignoring ASCII case.
pub fn parse_grade_letter(s: &str) -> (r: Result<Grade, Error>)
    ensures
        match letter_word(lower(s@)) {
            Some(grade) => r == Ok::<Grade, Error>(grade),
            None => r matches Err(Error::InvalidGrade(t)) && t@ == s@,
        },
{
    if lower_equals(s, "a") {
        Ok(Grade::A)
    } else if lower_equals(s, "b") {
        Ok(Grade::B)
    } else if lower_equals(s, "c") {
        Ok(Grade::C)
    } else if lower_equals(s, "d") {
        Ok(Grade::D)
    } else if lower_equals(s, "e") {
        Ok(Grade::E)
    } else {
        Err(Error::InvalidGrade(String::from_str(s)))
    }
}

/// The upper-case letter of a grade.
pub fn grade_letter(grade: Grade) -> (r: &'static str)
    ensures
        r@ == letter_text(grade),
{
    match grade {
        Grade::A => "A",
        Grade::B => "B",
        Grade::C => "C",
        Grade::D => "D",
        Grade::E => "E",
    }
}


/// The prefix of every semester section key.
pub open spec fn key_prefix() -> Seq<char> {
    "semester"@
}

/// The key of the section that holds semester `number`.
pub open spec fn key_of(number: nat) -> Seq<char> {
    key_prefix() + decimal(number)
}

/// The semester number that a section key names: `semester` followed by a
/// `usize` written as `str::parse` reads it.
pub open spec fn key_number(key: Seq<char>) -> Option<nat> {
    if key_prefix().len() <= key.len() && key.take(key_prefix().len() as int) == key_prefix() {
        parsed_unsigned(key.skip(key_prefix().len() as int), usize::MAX as nat)
    } else {
        None
    }
}

/// An error as plain values.
pub enum ErrorView {
    InvalidGrade(Seq<char>),
    InvalidSemesterKey(Seq<char>),
}

impl DeepView for Error {
    type V = ErrorView;

    open spec fn deep_view(&self) -> ErrorView {
        match self {
            Error::InvalidGrade(s) => ErrorView::InvalidGrade(s@),
            Error::InvalidSemesterKey(s) => ErrorView::InvalidSemesterKey(s@),
        }
    }
}

/// Reads a section key: `semester` followed by the semester's number.
pub fn parse_semester_key(key: &str) -> (r: Result<usize, Error>)
    ensures
        match key_number(key@) {
            Some(n) => r == Ok::<usize, Error>(n as usize),
            None => r matches Err(Error::InvalidSemesterKey(s)) && s@ == key@,
        },
{
    let prefix = "semester";
    proof {
        reveal_strlit("semester");
    }
    if starts_with(key, prefix) {
        let n = key.unicode_len();
        let rest = key.substring_char(8, n);
        assert(rest@ =~= key@.skip(key_prefix().len() as int));
        match parse_usize(rest) {
            Some(v) => Ok(v),
            None => Err(Error::InvalidSemesterKey(String::from_str(key))),
        }
    } else {
        Err(Error::InvalidSemesterKey(String::from_str(key)))
    }
}

/// The key of the section that holds semester `number`.
pub fn semester_key(number: usize) -> (r: String)
    ensures
        r@ == key_of(number as nat),
{
    let mut key = String::from_str("semester");
    push_decimal(&mut key, number as u64);
    key
}

/// A stored subject, as its document section holds it.
pub struct TomlSubject {
    pub code: String,
    pub name: String,
    /// The credit as the text its floating-point value is written as.
    pub credit: String,
    pub grade: String,
    pub included: bool,
    pub potential: Option<String>,
}

/// A stored subject as plain values.
pub struct TomlSubjectView {
    pub code: Seq<char>,
    pub name: Seq<char>,
    pub credit: Seq<char>,
    pub grade: Seq<char>,
    pub included: bool,
    pub potential: Option<Seq<char>>,
}

impl DeepView for TomlSubject {
    type V = TomlSubjectView;

    open spec fn deep_view(&self) -> TomlSubjectView {
        TomlSubjectView {
            code: self.code@,
            name: self.name@,
            credit: self.credit@,
            grade: self.grade@,
            included: self.included,
            potential: match self.potential {
                Some(p) => Some(p@),
                None => None,
            },
        }
    }
}

/// One section of the document: a key and the subjects stored under it.
pub struct Section {
    pub key: String,
    pub subjects: Vec<TomlSubject>,
}

/// A section as plain values.
pub struct SectionView {
    pub key: Seq<char>,
    pub subjects: Seq<TomlSubjectView>,
}

impl DeepView for Section {
    type V = SectionView;

    open spec fn deep_view(&self) -> SectionView {
        SectionView { key: self.key@, subjects: self.subjects.deep_view() }
    }
}

/// The default of a stored subject's `included` flag.
pub fn default_true() -> (r: bool)
    ensures
        r,
{
    true
}

/// Whether an `included` flag holds its default, so that it need not be stored.
pub fn is_true(b: &bool) -> (r: bool)
    ensures
        r == *b,
{
    *b
}


/// `f` applied to each element of `s` in order; the first error, if any.
pub open spec fn map_results<A, B, E>(s: Seq<A>, f: spec_fn(A) -> Result<B, E>) -> Result<
    Seq<B>,
    E,
>
    decreases s.len(),
{
    if s.len() == 0 {
        Ok(Seq::empty())
    } else {
        match map_results(s.drop_last(), f) {
            Err(e) => Err(e),
            Ok(prev) => match f(s.last()) {
                Err(e) => Err(e),
                Ok(b) => Ok(prev.push(b)),
            },
        }
    }
}

proof fn lemma_map_results_err<A, B, E>(s: Seq<A>, f: spec_fn(A) -> Result<B, E>, k: int)
    requires
        0 <= k <= s.len(),
        map_results(s.take(k), f) is Err,
    ensures
        map_results(s, f) == map_results(s.take(k), f),
    decreases s.len(),
{
    if k < s.len() {
        assert(s.drop_last().take(k) =~= s.take(k));
        lemma_map_results_err(s.drop_last(), f, k);
    } else {
        assert(s.take(k) =~= s);
    }
}

proof fn lemma_map_results_step<A, B, E>(s: Seq<A>, f: spec_fn(A) -> Result<B, E>, k: int)
    requires
        0 <= k < s.len(),
    ensures
        map_results(s.take(k + 1), f) == match map_results(s.take(k), f) {
            Err(e) => Err(e),
            Ok(prev) => match f(s[k]) {
                Err(e) => Err(e),
                Ok(b) => Ok(prev.push(b)),
            },
        },
{
    assert(s.take(k + 1).drop_last() =~= s.take(k));
}

/// The subject that a stored subject stands for: its grade word read first,
/// then its potential grade, if set; the first invalid one is the error.
pub open spec fn read_subject(t: TomlSubjectView) -> Result<SubjectView, ErrorView> {
    match grade_word(lower(t.grade)) {
        None => Err(ErrorView::InvalidGrade(t.grade)),
        Some(result) => match t.potential {
            None => Ok(
                SubjectView {
                    code: t.code,
                    name: t.name,
                    credit: t.credit,
                    result,
                    included: t.included,
                    potential: None,
                },
            ),
            Some(p) => match letter_word(lower(p)) {
                Some(g) => Ok(
                    SubjectView {
                        code: t.code,
                        name: t.name,
                        credit: t.credit,
                        result,
                        included: t.included,
                        potential: Some(g),
                    },
                ),
                None => Err(ErrorView::InvalidGrade(p)),
            },
        },
    }
}

/// `read_subject` as a function value.
pub open spec fn subject_reader() -> spec_fn(TomlSubjectView) -> Result<SubjectView, ErrorView> {
    |t: TomlSubjectView| read_subject(t)
}

/// The semester that a section stands for: its key read first, then its
/// subjects in order.
pub open spec fn read_section(s: SectionView) -> Result<SemesterView, ErrorView> {
    match key_number(s.key) {
        None => Err(ErrorView::InvalidSemesterKey(s.key)),
        Some(n) => match map_results(s.subjects, subject_reader()) {
            Err(e) => Err(e),
            Ok(subjects) => Ok(SemesterView { number: n as usize, subjects }),
        },
    }
}

/// The semesters that a document stands for, section by section, or the
/// first error met.
pub open spec fn read_document(doc: Seq<SectionView>) -> Result<Seq<SemesterView>, ErrorView> {
    map_results(doc, |s: SectionView| read_section(s))
}

fn parse_subject(t: &TomlSubject) -> (r: Result<Subject, Error>)
    ensures
        match r {
            Ok(s) => read_subject(t.deep_view()) == Ok::<SubjectView, ErrorView>(s.deep_view()),
            Err(e) => read_subject(t.deep_view()) == Err::<SubjectView, ErrorView>(e.deep_view()),
        },
{
    let result = match parse_grade(t.grade.as_str()) {
        Ok(o) => o,
        Err(e) => {
            return Err(e);
        },
    };
    let potential = match &t.potential {
        None => None,
        Some(p) => match parse_grade_letter(p.as_str()) {
            Ok(g) => Some(g),
            Err(e) => {
                return Err(e);
            },
        },
    };
    Ok(
        Subject {
            code: t.code.clone(),
            name: t.name.clone(),
            credit: t.credit.clone(),
            result,
            included: t.included,
            potential,
        },
    )
}

fn parse_section(section: &Section) -> (r: Result<Semester, Error>)
    ensures
        match r {
            Ok(s) => read_section(section.deep_view()) == Ok::<SemesterView, ErrorView>(
                s.deep_view(),
            ),
            Err(e) => read_section(section.deep_view()) == Err::<SemesterView, ErrorView>(
                e.deep_view(),
            ),
        },
{
    let number = match parse_semester_key(section.key.as_str()) {
        Ok(n) => n,
        Err(e) => {
            return Err(e);
        },
    };
    let ghost f = subject_reader();
    let ghost ts = section.subjects.deep_view();
    let mut subjects: Vec<Subject> = Vec::new();
    let mut i: usize = 0;
    assert(ts.take(0) =~= Seq::<TomlSubjectView>::empty());
    assert(subjects.deep_view() =~= Seq::<SubjectView>::empty());
    while i < section.subjects.len()
        invariant
            i <= section.subjects@.len(),
            ts == section.subjects.deep_view(),
            key_number(section.key@) == Some(number as nat),
            f == subject_reader(),
            map_results(ts.take(i as int), f) == Ok::<Seq<SubjectView>, ErrorView>(
                subjects.deep_view(),
            ),
        decreases section.subjects@.len() - i,
    {
        proof {
            lemma_map_results_step(ts, f, i as int);
        }
        match parse_subject(&section.subjects[i]) {
            Ok(s) => {
                let ghost before = subjects.deep_view();
                subjects.push(s);
                assert(subjects.deep_view() =~= before.push(s.deep_view()));
            },
            Err(e) => {
                proof {
                    lemma_map_results_err(ts, f, i + 1);
                }
                return Err(e);
            },
        }
        i = i + 1;
    }
    assert(ts.take(i as int) =~= ts);
    Ok(Semester { number, subjects })
}

/// Turns the sections of a stored document into semesters, in section order.
pub fn parse_document(doc: Vec<Section>) -> (r: Result<Vec<Semester>, Error>)
    ensures
        match r {
            Ok(v) => read_document(doc.deep_view()) == Ok::<Seq<SemesterView>, ErrorView>(
                v.deep_view(),
            ),
            Err(e) => read_document(doc.deep_view()) == Err::<Seq<SemesterView>, ErrorView>(
                e.deep_view(),
            ),
        },
{
    let ghost f = |s: SectionView| read_section(s);
    let ghost ds = doc.deep_view();
    let mut semesters: Vec<Semester> = Vec::new();
    let mut i: usize = 0;
    assert(ds.take(0) =~= Seq::<SectionView>::empty());
    assert(semesters.deep_view() =~= Seq::<SemesterView>::empty());
    while i < doc.len()
        invariant
            i <= doc@.len(),
            ds == doc.deep_view(),
            f == (|s: SectionView| read_section(s)),
            map_results(ds.take(i as int), f) == Ok::<Seq<SemesterView>, ErrorView>(
                semesters.deep_view(),
            ),
        decreases doc@.len() - i,
    {
        proof {
            lemma_map_results_step(ds, f, i as int);
        }
        match parse_section(&doc[i]) {
            Ok(s) => {
                let ghost before = semesters.deep_view();
                semesters.push(s);
                assert(semesters.deep_view() =~= before.push(s.deep_view()));
            },
            Err(e) => {
                proof {
                    lemma_map_results_err(ds, f, i + 1);
                }
                return Err(e);
            },
        }
        i = i + 1;
    }
    assert(ds.take(i as int) =~= ds);
    Ok(semesters)
}


/// How a subject is stored: its grade and potential grade as words.
pub open spec fn stored_subject(s: SubjectView) -> TomlSubjectView {
    TomlSubjectView {
        code: s.code,
        name: s.name,
        credit: s.credit,
        grade: outcome_text(s.result),
        included: s.included,
        potential: match s.potential {
            Some(g) => Some(letter_text(g)),
            None => None,
        },
    }
}

/// How a semester is stored: under its key, its subjects in order.
pub open spec fn stored_section(s: SemesterView) -> SectionView {
    SectionView {
        key: key_of(s.number as nat),
        subjects: s.subjects.map_values(|x: SubjectView| stored_subject(x)),
    }
}

/// What the document holds under each key after storing `semesters` in
/// order: a later semester with the same key replaces an earlier one.
pub open spec fn document_map(semesters: Seq<SemesterView>) -> Map<
    Seq<char>,
    Seq<TomlSubjectView>,
>
    decreases semesters.len(),
{
    if semesters.len() == 0 {
        Map::empty()
    } else {
        let s = stored_section(semesters.last());
        document_map(semesters.drop_last()).insert(s.key, s.subjects)
    }
}

/// The keys of the sections strictly increase, in the order of `str`.
pub open spec fn keys_increasing(d: Seq<SectionView>) -> bool {
    forall|i: int, j: int|
        #![trigger d[i], d[j]]
        0 <= i < j < d.len() ==> seq_less(d[i].key, d[j].key)
}

/// What the sections hold under each key.
pub open spec fn sections_map(d: Seq<SectionView>) -> Map<Seq<char>, Seq<TomlSubjectView>>
    decreases d.len(),
{
    if d.len() == 0 {
        Map::empty()
    } else {
        sections_map(d.drop_last()).insert(d.last().key, d.last().subjects)
    }
}

pub proof fn lemma_sections_map(d: Seq<SectionView>)
    requires
        keys_increasing(d),
    ensures
        forall|i: int|
            #![trigger d[i]]
            0 <= i < d.len() ==> sections_map(d).contains_key(d[i].key) && sections_map(
                d,
            )[d[i].key] == d[i].subjects,
        forall|k: Seq<char>|
            #[trigger] sections_map(d).contains_key(k) ==> exists|i: int|
                0 <= i < d.len() && d[i].key == k,
    decreases d.len(),
{
    if d.len() > 0 {
        let p = d.drop_last();
        assert(keys_increasing(p)) by {
            assert forall|i: int, j: int| 0 <= i < j < p.len() implies seq_less(
                p[i].key,
                p[j].key,
            ) by {
                assert(p[i] == d[i] && p[j] == d[j]);
            }
        }
        lemma_sections_map(p);
        let last = d.len() - 1;
        assert forall|i: int| #![trigger d[i]] 0 <= i < d.len() implies sections_map(
            d,
        ).contains_key(d[i].key) && sections_map(d)[d[i].key] == d[i].subjects by {
            if i < last {
                assert(p[i] == d[i]);
                assert(seq_less(d[i].key, d[last].key));
                lemma_seq_less_irreflexive(d[i].key);
            }
        }
        assert forall|k: Seq<char>| #[trigger] sections_map(d).contains_key(k) implies exists|
            i: int,
        | 0 <= i < d.len() && d[i].key == k by {
            if k != d[last].key {
                assert(sections_map(p).contains_key(k));
                let i = choose|i: int| 0 <= i < p.len() && p[i].key == k;
                assert(d[i] == p[i]);
            }
        }
    }
}

/// Puts a section in its place by key, replacing the section with the same
/// key if there is one.
fn insert_section(doc: &mut Vec<Section>, section: Section)
    requires
        keys_increasing(old(doc).deep_view()),
    ensures
        keys_increasing(final(doc).deep_view()),
        sections_map(final(doc).deep_view()) == sections_map(old(doc).deep_view()).insert(
            section.key@,
            section.subjects.deep_view(),
        ),
{
    let ghost d = doc.deep_view();
    let ghost key = section.key@;
    let mut j: usize = 0;
    while j < doc.len() && crate::text::str_less(doc[j].key.as_str(), section.key.as_str())
        invariant
            j <= doc@.len(),
            d == doc.deep_view(),
            key == section.key@,
            forall|k: int| 0 <= k < j ==> seq_less(#[trigger] d[k].key, key),
        decreases doc@.len() - j,
    {
        j = j + 1;
    }
    proof {
        lemma_sections_map(d);
    }
    let ghost sv = section.deep_view();
    if j < doc.len() && doc[j].key == section.key {
        doc.set(j, section);
        let ghost d2 = doc.deep_view();
        assert(d2 =~= d.update(j as int, sv));
        assert(keys_increasing(d2)) by {
            assert forall|a: int, b: int| 0 <= a < b < d2.len() implies seq_less(
                #[trigger] d2[a].key,
                #[trigger] d2[b].key,
            ) by {
                assert(d[a].key == d2[a].key);
                assert(d[b].key == d2[b].key);
            }
        }
        proof {
            lemma_sections_map(d2);
        }
        let ghost m2 = sections_map(d2);
        let ghost m1 = sections_map(d).insert(key, sv.subjects);
        proof {
            assert forall|k: Seq<char>| #[trigger] m2.dom().contains(k) implies m1.dom().contains(k) by {
                let i = choose|i: int| 0 <= i < d2.len() && d2[i].key == k;
                assert(d[i].key == k);
                assert(sections_map(d).contains_key(d[i].key));
            }
            assert forall|k: Seq<char>| #[trigger] m1.dom().contains(k) implies m2.dom().contains(k)
                && m2[k] == m1[k] by {
                if k == key {
                    assert(d2[j as int].key == k);
                    assert(m2.contains_key(d2[j as int].key));
                    assert(m2[d2[j as int].key] == d2[j as int].subjects);
                } else {
                    assert(sections_map(d).contains_key(k));
                    let i = choose|i: int| 0 <= i < d.len() && d[i].key == k;
                    assert(d2[i] == d[i]);
                    assert(m2.contains_key(d2[i].key) && m2[d2[i].key] == d2[i].subjects);
                    assert(sections_map(d)[d[i].key] == d[i].subjects);
                }
            }
            lemma_same_map(m1, m2);
        }
    } else {
        proof {
            if j < d.len() {
                lemma_seq_less_total(key, d[j as int].key);
            }
        }
        doc.insert(j, section);
        let ghost d2 = doc.deep_view();
        assert(d2 =~= d.insert(j as int, sv));
        assert(keys_increasing(d2)) by {
            assert forall|a: int, b: int| 0 <= a < b < d2.len() implies seq_less(
                #[trigger] d2[a].key,
                #[trigger] d2[b].key,
            ) by {
                if b < j {
                    assert(d2[a] == d[a] && d2[b] == d[b]);
                } else if b == j {
                    assert(d2[a] == d[a]);
                } else if a == j {
                    assert(d2[b] == d[b - 1]);
                    if b - 1 > j {
                        lemma_seq_less_transitive(key, d[j as int].key, d[b - 1].key);
                    }
                } else if a < j {
                    assert(d2[a] == d[a] && d2[b] == d[b - 1]);
                } else {
                    assert(d2[a] == d[a - 1] && d2[b] == d[b - 1]);
                }
            }
        }
        proof {
            lemma_sections_map(d2);
        }
        let ghost m2 = sections_map(d2);
        let ghost m1 = sections_map(d).insert(key, sv.subjects);
        proof {
            assert forall|k: Seq<char>| #[trigger] m2.dom().contains(k) implies m1.dom().contains(k) by {
                let i = choose|i: int| 0 <= i < d2.len() && d2[i].key == k;
                if i < j {
                    assert(d[i].key == k);
                    assert(sections_map(d).contains_key(d[i].key));
                } else if i > j {
                    assert(d[i - 1].key == k);
                    assert(sections_map(d).contains_key(d[i - 1].key));
                }
            }
            assert forall|k: Seq<char>| #[trigger] m1.dom().contains(k) implies m2.dom().contains(k)
                && m2[k] == m1[k] by {
                if k == key {
                    assert(d2[j as int].key == k);
                    assert(m2.contains_key(d2[j as int].key));
                    assert(m2[d2[j as int].key] == d2[j as int].subjects);
                } else {
                    assert(sections_map(d).contains_key(k));
                    let i = choose|i: int| 0 <= i < d.len() && d[i].key == k;
                    assert(sections_map(d)[d[i].key] == d[i].subjects);
                    if i < j {
                        assert(d2[i] == d[i]);
                        assert(m2.contains_key(d2[i].key) && m2[d2[i].key] == d2[i].subjects);
                    } else {
                        assert(d2[i + 1] == d[i]);
                        assert(m2.contains_key(d2[i + 1].key) && m2[d2[i + 1].key] == d2[i
                            + 1].subjects);
                    }
                }
            }
            lemma_same_map(m1, m2);
        }
    }
}

proof fn lemma_same_map(m1: Map<Seq<char>, Seq<TomlSubjectView>>, m2: Map<Seq<char>, Seq<TomlSubjectView>>)
    requires
        forall|k: Seq<char>| #[trigger] m2.dom().contains(k) ==> m1.dom().contains(k),
        forall|k: Seq<char>| #[trigger] m1.dom().contains(k) ==> m2.dom().contains(k) && m2[k] == m1[k],
    ensures
        m2 == m1,
{
    assert(m2.dom() =~= m1.dom());
    assert(m2 =~= m1);
}

/// How a subject is stored.
fn store_subject(s: &Subject) -> (r: TomlSubject)
    ensures
        r.deep_view() == stored_subject(s.deep_view()),
{
    TomlSubject {
        code: s.code.clone(),
        name: s.name.clone(),
        credit: s.credit.clone(),
        grade: format_grade(&s.result),
        included: s.included,
        potential: match s.potential {
            Some(g) => Some(String::from_str(grade_letter(g))),
            None => None,
        },
    }
}

/// How a semester is stored.
fn store_section(s: &Semester) -> (r: Section)
    ensures
        r.deep_view() == stored_section(s.deep_view()),
{
    let key = semester_key(s.number);
    let mut subjects: Vec<TomlSubject> = Vec::new();
    let mut i: usize = 0;
    while i < s.subjects.len()
        invariant
            i <= s.subjects@.len(),
            subjects.deep_view() =~= s.subjects.deep_view().take(i as int).map_values(
                |x: SubjectView| stored_subject(x),
            ),
        decreases s.subjects@.len() - i,
    {
        let t = store_subject(&s.subjects[i]);
        let ghost before = subjects.deep_view();
        subjects.push(t);
        assert(subjects.deep_view() =~= before.push(t.deep_view()));
        assert(s.subjects.deep_view().take(i + 1) =~= s.subjects.deep_view().take(i as int).push(
            s.subjects[i as int].deep_view(),
        ));
        i = i + 1;
    }
    assert(s.subjects.deep_view().take(i as int) =~= s.subjects.deep_view());
    Section { key, subjects }
}

/// The document that stores `semesters`: one section per key, keys in
/// increasing order, a later semester with an already used key replacing
/// the earlier one.
pub fn to_document(semesters: &[Semester]) -> (r: Vec<Section>)
    ensures
        keys_increasing(r.deep_view()),
        sections_map(r.deep_view()) == document_map(semesters.deep_view()),
{
    let ghost sv = semesters.deep_view();
    let mut doc: Vec<Section> = Vec::new();
    let mut i: usize = 0;
    assert(sv.take(0) =~= Seq::<SemesterView>::empty());
    assert(doc.deep_view() =~= Seq::<SectionView>::empty());
    while i < semesters.len()
        invariant
            i <= semesters@.len(),
            sv == semesters.deep_view(),
            keys_increasing(doc.deep_view()),
            sections_map(doc.deep_view()) == document_map(sv.take(i as int)),
        decreases semesters@.len() - i,
    {
        let section = store_section(&semesters[i]);
        insert_section(&mut doc, section);
        assert(sv.take(i + 1).drop_last() =~= sv.take(i as int));
        i = i + 1;
    }
    assert(sv.take(i as int) =~= sv);
    doc
}

} // verus!
