//! Weighted averages and credit totals over semesters.

use vstd::prelude::*;
use crate::model::{
    all_subjects, grade_points, Grade, Outcome, Semester, SemesterView, Subject, SubjectView,
};
use crate::text::{parse_credit, parsed_credit};

verus! {

/// A grade with the credit (in thousandths) that weighs it.
#[derive(Clone, Copy, Debug, PartialEq, Eq, Structural)]
pub struct WeightedGrade {
    pub grade: Grade,
    pub weight: u32,
}

/// A weighted average as an exact fraction: `numerator / denominator` grade
/// points. The average of nothing is `0 / 1`.
#[derive(Clone, Copy, Debug, PartialEq, Eq, Structural)]
pub struct Average {
    pub numerator: u128,
    pub denominator: u128,
}

/// The `Some` results of `f` over `s`, in order.
pub open spec fn filter_map<A, B>(s: Seq<A>, f: spec_fn(A) -> Option<B>) -> Seq<B>
    decreases s.len(),
{
    if s.len() == 0 {
        Seq::empty()
    } else {
        match f(s.last()) {
            Some(b) => filter_map(s.drop_last(), f).push(b),
            None => filter_map(s.drop_last(), f),
        }
    }
}

/// The weight of a credit text: its value in thousandths when it is a whole
/// number of thousandths that fits in a `u32` (see `parsed_credit`), else 0.
pub open spec fn credit_weight(credit: Seq<char>) -> u32 {
    match parsed_credit(credit) {
        Some(m) => m as u32,
        None => 0,
    }
}

/// Whether the library computes with this credit: it is a whole number of
/// thousandths that fits in a `u32`.
pub open spec fn credit_held(credit: Seq<char>) -> bool {
    parsed_credit(credit) is Some
}

/// Whether every subject of `s` that `counted` selects has a credit the
/// library computes with.
pub open spec fn all_held(s: Seq<SubjectView>, counted: spec_fn(SubjectView) -> bool) -> bool
    decreases s.len(),
{
    if s.len() == 0 {
        true
    } else {
        all_held(s.drop_last(), counted) && (counted(s.last()) ==> credit_held(s.last().credit))
    }
}

/// The sum of the credits of the subjects of `s` that `counted` selects.
pub open spec fn credit_sum(s: Seq<SubjectView>, counted: spec_fn(SubjectView) -> bool) -> nat
    decreases s.len(),
{
    if s.len() == 0 {
        0
    } else {
        credit_sum(s.drop_last(), counted) + if counted(s.last()) {
            credit_weight(s.last().credit) as nat
        } else {
            0
        }
    }
}

/// The sum of grade points times weight.
pub open spec fn points_sum(g: Seq<WeightedGrade>) -> nat
    decreases g.len(),
{
    if g.len() == 0 {
        0
    } else {
        points_sum(g.drop_last()) + grade_points(g.last().grade) * (g.last().weight as nat)
    }
}

/// The sum of the weights.
pub open spec fn weight_sum(g: Seq<WeightedGrade>) -> nat
    decreases g.len(),
{
    if g.len() == 0 {
        0
    } else {
        weight_sum(g.drop_last()) + g.last().weight as nat
    }
}

/// The weighted average of grades, as (numerator, denominator): `0 / 1` for
/// no grades, else the weighted points over the total weight.
pub open spec fn average_of(g: Seq<WeightedGrade>) -> (nat, nat) {
    if g.len() == 0 {
        (0, 1)
    } else {
        (points_sum(g), weight_sum(g))
    }
}

/// The grade a subject contributes to the actual average: none when it is
/// excluded or has no letter grade, else its grade weighted by its credit.
pub open spec fn actual_grade(s: SubjectView) -> Option<WeightedGrade> {
    if !s.included {
        None
    } else {
        match s.result {
            Outcome::Passed(Some(grade)) => Some(WeightedGrade { grade, weight: credit_weight(s.credit) }),
            _ => None,
        }
    }
}

/// The grade a subject contributes to the potential average: for an
/// included subject, its potential grade if set, else its letter grade if any.
pub open spec fn potential_grade(s: SubjectView) -> Option<WeightedGrade> {
    if !s.included {
        None
    } else {
        match s.potential {
            Some(grade) => Some(WeightedGrade { grade, weight: credit_weight(s.credit) }),
            None => match s.result {
                Outcome::Passed(Some(grade)) => Some(WeightedGrade { grade, weight: credit_weight(s.credit) }),
                _ => None,
            },
        }
    }
}

/// Whether a subject's credit counts as earned: included and not failed.
pub open spec fn counts_valid(s: SubjectView) -> bool {
    s.included && s.result != Outcome::Failed
}

/// Whether a subject's credit counts in the projection: included, and not
/// failed or with a potential grade set.
pub open spec fn counts_potentially_valid(s: SubjectView) -> bool {
    s.included && (s.result != Outcome::Failed || s.potential is Some)
}

/// The weight of a subject's credit: see `credit_weight`.
fn weight_of(subject: &Subject) -> (r: u32)
    ensures
        r == credit_weight(subject.credit@),
{
    match parse_credit(subject.credit.as_str()) {
        Some(w) => w,
        None => 0,
    }
}

impl<'a> From<&'a Subject> for Option<WeightedGrade> {
    fn from(subject: &'a Subject) -> (r: Option<WeightedGrade>) {
        if !subject.included {
            return None;
        }
        match subject.result {
            Outcome::Passed(Some(grade)) => Some(WeightedGrade { grade, weight: weight_of(subject) }),
            _ => None,
        }
    }
}

impl<'a> vstd::std_specs::convert::FromSpecImpl<&'a Subject> for Option<WeightedGrade> {
    open spec fn obeys_from_spec() -> bool {
        true
    }

    open spec fn from_spec(subject: &'a Subject) -> Option<WeightedGrade> {
        actual_grade(subject.deep_view())
    }
}


proof fn lemma_sums_bound(g: Seq<WeightedGrade>)
    ensures
        points_sum(g) <= g.len() * (5 * 4294967295),
        weight_sum(g) <= g.len() * 4294967295,
    decreases g.len(),
{
    if g.len() > 0 {
        lemma_sums_bound(g.drop_last());
        let w = g.last().weight as nat;
        let p = grade_points(g.last().grade);
        assert(p <= 5);
        let n = g.len() as int;
        assert((n - 1) * (5 * 4294967295) + 5 * 4294967295 == n * (5 * 4294967295)) by (nonlinear_arith);
        assert((n - 1) * 4294967295 + 4294967295 == n * 4294967295) by (nonlinear_arith);
        assert(p * w <= 5 * 4294967295) by (nonlinear_arith)
            requires
                p <= 5,
                w <= 4294967295,
        ;
    }
}

/// The weighted average of `grades`: the sum of grade points times weight
/// over the sum of weights, or `0 / 1` when there are no grades.
pub fn ects_average(grades: &[WeightedGrade]) -> (r: Average)
    ensures
        (r.numerator as nat, r.denominator as nat) == average_of(grades@),
{
    if grades.len() == 0 {
        return Average { numerator: 0, denominator: 1 };
    }
    let mut weighted_credit_sum: u128 = 0;
    let mut credit_sum: u128 = 0;
    let mut i: usize = 0;
    while i < grades.len()
        invariant
            i <= grades@.len(),
            weighted_credit_sum == points_sum(grades@.take(i as int)),
            credit_sum == weight_sum(grades@.take(i as int)),
        decreases grades@.len() - i,
    {
        let WeightedGrade { grade, weight } = grades[i];
        let ghost next = grades@.take(i + 1);
        assert(next.drop_last() =~= grades@.take(i as int));
        proof {
            lemma_sums_bound(next);
            let len = next.len();
            assert(len <= usize::MAX);
            assert(len * (5 * 4294967295) < 0x1_0000_0000_0000_0000 * (5 * 4294967295)) by (nonlinear_arith)
                requires
                    len <= usize::MAX,
                    usize::MAX < 0x1_0000_0000_0000_0000,
            ;
        }
        let grade_value = usize::from(grade) as u128;
        weighted_credit_sum = weighted_credit_sum + grade_value * (weight as u128);
        credit_sum = credit_sum + weight as u128;
        i = i + 1;
    }
    assert(grades@.take(i as int) =~= grades@);
    Average { numerator: weighted_credit_sum, denominator: credit_sum }
}

/// The grades that `potential_grade` (or, without `potential`,
/// `actual_grade`) picks from the subjects of `semesters`, in order, and
/// whether every subject picked has a credit the library computes with.
fn collect_grades(semesters: &[Semester], potential: bool) -> (r: (Vec<WeightedGrade>, bool))
    ensures
        r.0@ == filter_map(
            all_subjects(semesters.deep_view()),
            if potential {
                |s: SubjectView| potential_grade(s)
            } else {
                |s: SubjectView| actual_grade(s)
            },
        ),
        r.1 == all_held(
            all_subjects(semesters.deep_view()),
            if potential {
                |s: SubjectView| potential_grade(s) is Some
            } else {
                |s: SubjectView| actual_grade(s) is Some
            },
        ),
{
    let ghost f = if potential {
        |s: SubjectView| potential_grade(s)
    } else {
        |s: SubjectView| actual_grade(s)
    };
    let ghost g = if potential {
        |s: SubjectView| potential_grade(s) is Some
    } else {
        |s: SubjectView| actual_grade(s) is Some
    };
    let ghost sv = semesters.deep_view();
    let mut grades: Vec<WeightedGrade> = Vec::new();
    let mut held = true;
    let mut i: usize = 0;
    assert(sv.take(0) =~= Seq::<SemesterView>::empty());
    while i < semesters.len()
        invariant
            i <= semesters@.len(),
            sv == semesters.deep_view(),
            f == (if potential {
                |s: SubjectView| potential_grade(s)
            } else {
                |s: SubjectView| actual_grade(s)
            }),
            g == (if potential {
                |s: SubjectView| potential_grade(s) is Some
            } else {
                |s: SubjectView| actual_grade(s) is Some
            }),
            grades@ == filter_map(all_subjects(sv.take(i as int)), f),
            held == all_held(all_subjects(sv.take(i as int)), g),
        decreases semesters@.len() - i,
    {
        let subjects = &semesters[i].subjects;
        let ghost done = all_subjects(sv.take(i as int));
        let ghost subs = sv[i as int].subjects;
        assert(subs == subjects.deep_view());
        let mut j: usize = 0;
        assert(done + subs.take(0) =~= done);
        while j < subjects.len()
            invariant
                j <= subjects@.len(),
                subs == subjects.deep_view(),
                f == (if potential {
                    |s: SubjectView| potential_grade(s)
                } else {
                    |s: SubjectView| actual_grade(s)
                }),
                g == (if potential {
                    |s: SubjectView| potential_grade(s) is Some
                } else {
                    |s: SubjectView| actual_grade(s) is Some
                }),
                grades@ == filter_map(done + subs.take(j as int), f),
                held == all_held(done + subs.take(j as int), g),
            decreases subjects@.len() - j,
        {
            let subject = &subjects[j];
            let ghost before = done + subs.take(j as int);
            assert((done + subs.take(j + 1)).drop_last() =~= before);
            assert((done + subs.take(j + 1)).last() == subject.deep_view());
            let picked = if potential {
                let grade = match subject.potential {
                    Some(g) => Some(g),
                    None => match subject.result {
                        Outcome::Passed(Some(g)) => Some(g),
                        _ => None,
                    },
                };
                if !subject.included {
                    None
                } else {
                    match grade {
                        Some(g) => Some(WeightedGrade { grade: g, weight: weight_of(subject) }),
                        None => None,
                    }
                }
            } else {
                Option::<WeightedGrade>::from(subject)
            };
            assert(picked == f(subject.deep_view()));
            match picked {
                Some(w) => {
                    if parse_credit(subject.credit.as_str()).is_none() {
                        held = false;
                    }
                    grades.push(w);
                },
                None => {},
            }
            j = j + 1;
        }
        assert(sv.take(i + 1).drop_last() =~= sv.take(i as int));
        assert(done + subs.take(j as int) =~= all_subjects(sv.take(i + 1)));
        i = i + 1;
    }
    assert(sv.take(i as int) =~= sv);
    (grades, held)
}

/// The credit-weighted average of the letter grades of the included
/// subjects; `None` when one of those subjects has a credit the library does
/// not compute with (see `credit_held`).
pub fn overall_average(semesters: &[Semester]) -> (r: Option<Average>)
    ensures
        match r {
            Some(a) => {
                &&& all_held(
                    all_subjects(semesters.deep_view()),
                    |s: SubjectView| actual_grade(s) is Some,
                )
                &&& (a.numerator as nat, a.denominator as nat) == average_of(
                    filter_map(all_subjects(semesters.deep_view()), |s: SubjectView| actual_grade(s)),
                )
            },
            None => !all_held(
                all_subjects(semesters.deep_view()),
                |s: SubjectView| actual_grade(s) is Some,
            ),
        },
{
    let (grades, held) = collect_grades(semesters, false);
    if held {
        Some(ects_average(grades.as_slice()))
    } else {
        None
    }
}

/// Same as `overall_average`, but a subject's `potential` grade (if set)
/// stands in for its actual one — including turning a currently-failed or
/// not-yet-passed subject into a graded one, as a "what if" projection.
pub fn potential_average(semesters: &[Semester]) -> (r: Option<Average>)
    ensures
        match r {
            Some(a) => {
                &&& all_held(
                    all_subjects(semesters.deep_view()),
                    |s: SubjectView| potential_grade(s) is Some,
                )
                &&& (a.numerator as nat, a.denominator as nat) == average_of(
                    filter_map(
                        all_subjects(semesters.deep_view()),
                        |s: SubjectView| potential_grade(s),
                    ),
                )
            },
            None => !all_held(
                all_subjects(semesters.deep_view()),
                |s: SubjectView| potential_grade(s) is Some,
            ),
        },
{
    let (grades, held) = collect_grades(semesters, true);
    if held {
        Some(ects_average(grades.as_slice()))
    } else {
        None
    }
}


proof fn lemma_credit_sum_bound(s: Seq<SubjectView>, counted: spec_fn(SubjectView) -> bool)
    ensures
        credit_sum(s, counted) <= s.len() * 4294967295,
    decreases s.len(),
{
    if s.len() > 0 {
        lemma_credit_sum_bound(s.drop_last(), counted);
        let n = s.len() as int;
        assert((n - 1) * 4294967295 + 4294967295 == n * 4294967295) by (nonlinear_arith);
    }
}

/// The total credit of the subjects of `semesters` that `potential` selects:
/// those that count as valid, or as potentially valid.
fn sum_credits(semesters: &[Semester], potential: bool) -> (r: (u128, bool))
    requires
        all_subjects(semesters.deep_view()).len() <= usize::MAX,
    ensures
        r.0 == credit_sum(
            all_subjects(semesters.deep_view()),
            if potential {
                |s: SubjectView| counts_potentially_valid(s)
            } else {
                |s: SubjectView| counts_valid(s)
            },
        ),
        r.1 == all_held(
            all_subjects(semesters.deep_view()),
            if potential {
                |s: SubjectView| counts_potentially_valid(s)
            } else {
                |s: SubjectView| counts_valid(s)
            },
        ),
{
    let ghost f = if potential {
        |s: SubjectView| counts_potentially_valid(s)
    } else {
        |s: SubjectView| counts_valid(s)
    };
    let ghost sv = semesters.deep_view();
    let mut total: u128 = 0;
    let mut held = true;
    let mut i: usize = 0;
    assert(sv.take(0) =~= Seq::<SemesterView>::empty());
    while i < semesters.len()
        invariant
            i <= semesters@.len(),
            sv == semesters.deep_view(),
            all_subjects(sv).len() <= usize::MAX,
            f == (if potential {
                |s: SubjectView| counts_potentially_valid(s)
            } else {
                |s: SubjectView| counts_valid(s)
            }),
            total == credit_sum(all_subjects(sv.take(i as int)), f),
            held == all_held(all_subjects(sv.take(i as int)), f),
            all_subjects(sv.take(i as int)).len() <= all_subjects(sv).len(),
        decreases semesters@.len() - i,
    {
        let subjects = &semesters[i].subjects;
        let ghost done = all_subjects(sv.take(i as int));
        let ghost subs = sv[i as int].subjects;
        assert(subs == subjects.deep_view());
        assert(sv.take(i + 1).drop_last() =~= sv.take(i as int));
        assert(done + subs =~= all_subjects(sv.take(i + 1)));
        proof {
            lemma_all_subjects_prefix_len(sv, i + 1);
        }
        let mut j: usize = 0;
        assert(done + subs.take(0) =~= done);
        while j < subjects.len()
            invariant
                j <= subjects@.len(),
                subs == subjects.deep_view(),
                (done + subs).len() <= usize::MAX,
                f == (if potential {
                    |s: SubjectView| counts_potentially_valid(s)
                } else {
                    |s: SubjectView| counts_valid(s)
                }),
                total == credit_sum(done + subs.take(j as int), f),
                held == all_held(done + subs.take(j as int), f),
            decreases subjects@.len() - j,
        {
            let subject = &subjects[j];
            let ghost next = done + subs.take(j + 1);
            assert(next.drop_last() =~= done + subs.take(j as int));
            assert(next.last() == subject.deep_view());
            proof {
                lemma_credit_sum_bound(next, f);
                let len = next.len();
                assert(len * 4294967295 < 0x1_0000_0000_0000_0000 * 4294967295) by (nonlinear_arith)
                    requires
                        len <= usize::MAX,
                        usize::MAX < 0x1_0000_0000_0000_0000,
                ;
            }
            let counted = if potential {
                subject.included && (!matches!(subject.result, Outcome::Failed)
                    || subject.potential.is_some())
            } else {
                subject.included && !matches!(subject.result, Outcome::Failed)
            };
            assert(counted == f(subject.deep_view()));
            if counted {
                let w = weight_of(subject);
                if parse_credit(subject.credit.as_str()).is_none() {
                    held = false;
                }
                total = total + w as u128;
            }
            j = j + 1;
        }
        assert(done + subs.take(j as int) =~= done + subs);
        i = i + 1;
    }
    assert(sv.take(i as int) =~= sv);
    (total, held)
}

proof fn lemma_all_subjects_prefix_len(sv: Seq<SemesterView>, k: int)
    requires
        0 <= k <= sv.len(),
    ensures
        all_subjects(sv.take(k)).len() <= all_subjects(sv).len(),
    decreases sv.len(),
{
    if k < sv.len() {
        assert(sv.drop_last().take(k) =~= sv.take(k));
        lemma_all_subjects_prefix_len(sv.drop_last(), k);
    } else {
        assert(sv.take(k) =~= sv);
    }
}

/// The total credit, in thousandths, of the included subjects that are not
/// failed; `None` when one of them has a credit the library does not compute
/// with (see `credit_held`).
pub fn valid_credits(semesters: &[Semester]) -> (r: Option<u128>)
    requires
        all_subjects(semesters.deep_view()).len() <= usize::MAX,
    ensures
        match r {
            Some(t) => {
                &&& all_held(all_subjects(semesters.deep_view()), |s: SubjectView| counts_valid(s))
                &&& t == credit_sum(
                    all_subjects(semesters.deep_view()),
                    |s: SubjectView| counts_valid(s),
                )
            },
            None => !all_held(all_subjects(semesters.deep_view()), |s: SubjectView| counts_valid(s)),
        },
{
    let (total, held) = sum_credits(semesters, false);
    if held {
        Some(total)
    } else {
        None
    }
}

/// Same as `valid_credits`, but a failed subject with a `potential` grade
/// set counts too — projecting the credits earned if that "what if" grade
/// came true.
pub fn potential_valid_credits(semesters: &[Semester]) -> (r: Option<u128>)
    requires
        all_subjects(semesters.deep_view()).len() <= usize::MAX,
    ensures
        match r {
            Some(t) => {
                &&& all_held(
                    all_subjects(semesters.deep_view()),
                    |s: SubjectView| counts_potentially_valid(s),
                )
                &&& t == credit_sum(
                    all_subjects(semesters.deep_view()),
                    |s: SubjectView| counts_potentially_valid(s),
                )
            },
            None => !all_held(
                all_subjects(semesters.deep_view()),
                |s: SubjectView| counts_potentially_valid(s),
            ),
        },
{
    let (total, held) = sum_credits(semesters, true);
    if held {
        Some(total)
    } else {
        None
    }
}

/// The grade and credit text a subject contributes to the potential average
/// (`potential`) or the actual one: see `potential_grade` and `actual_grade`.
pub open spec fn graded_credit(s: SubjectView, potential: bool) -> Option<(Grade, Seq<char>)> {
    match if potential {
        potential_grade(s)
    } else {
        actual_grade(s)
    } {
        Some(w) => Some((w.grade, s.credit)),
        None => None,
    }
}

/// The credit text a subject contributes to the potentially valid credits
/// (`potential`) or the valid ones: see `counts_potentially_valid` and `counts_valid`.
pub open spec fn counted_credit(s: SubjectView, potential: bool) -> Option<Seq<char>> {
    if (if potential {
        counts_potentially_valid(s)
    } else {
        counts_valid(s)
    }) {
        Some(s.credit)
    } else {
        None
    }
}

/// The grades, each with its subject's credit text, that the potential
/// average (`potential`) or the actual average takes, in order: what the
/// averages are computed from, whatever the credits are.
pub fn graded_credits(semesters: &[Semester], potential: bool) -> (r: Vec<(Grade, String)>)
    ensures
        r@.len() == filter_map(
            all_subjects(semesters.deep_view()),
            |s: SubjectView| graded_credit(s, potential),
        ).len(),
        forall|k: int|
            0 <= k < r@.len() ==> ({
                let e = filter_map(
                    all_subjects(semesters.deep_view()),
                    |s: SubjectView| graded_credit(s, potential),
                )[k];
                (#[trigger] r@[k]).0 == e.0 && r@[k].1@ == e.1
            }),
{
    let ghost f = |s: SubjectView| graded_credit(s, potential);
    let ghost sv = semesters.deep_view();
    let mut out: Vec<(Grade, String)> = Vec::new();
    let mut i: usize = 0;
    assert(sv.take(0) =~= Seq::<SemesterView>::empty());
    while i < semesters.len()
        invariant
            i <= semesters@.len(),
            sv == semesters.deep_view(),
            f == (|s: SubjectView| graded_credit(s, potential)),
            out@.len() == filter_map(all_subjects(sv.take(i as int)), f).len(),
            forall|k: int|
                0 <= k < out@.len() ==> (#[trigger] out@[k]).0 == filter_map(
                    all_subjects(sv.take(i as int)),
                    f,
                )[k].0 && out@[k].1@ == filter_map(all_subjects(sv.take(i as int)), f)[k].1,
        decreases semesters@.len() - i,
    {
        let subjects = &semesters[i].subjects;
        let ghost done = all_subjects(sv.take(i as int));
        let ghost subs = sv[i as int].subjects;
        assert(subs == subjects.deep_view());
        let mut j: usize = 0;
        assert(done + subs.take(0) =~= done);
        while j < subjects.len()
            invariant
                j <= subjects@.len(),
                subs == subjects.deep_view(),
                f == (|s: SubjectView| graded_credit(s, potential)),
                out@.len() == filter_map(done + subs.take(j as int), f).len(),
                forall|k: int|
                    0 <= k < out@.len() ==> (#[trigger] out@[k]).0 == filter_map(
                        done + subs.take(j as int),
                        f,
                    )[k].0 && out@[k].1@ == filter_map(done + subs.take(j as int), f)[k].1,
            decreases subjects@.len() - j,
        {
            let subject = &subjects[j];
            let ghost before = done + subs.take(j as int);
            assert((done + subs.take(j + 1)).drop_last() =~= before);
            assert((done + subs.take(j + 1)).last() == subject.deep_view());
            let grade = if !subject.included {
                None
            } else if potential {
                match subject.potential {
                    Some(g) => Some(g),
                    None => match subject.result {
                        Outcome::Passed(Some(g)) => Some(g),
                        _ => None,
                    },
                }
            } else {
                match subject.result {
                    Outcome::Passed(Some(g)) => Some(g),
                    _ => None,
                }
            };
            match grade {
                Some(g) => {
                    assert(f(subject.deep_view()) == Some((g, subject.credit@)));
                    out.push((g, subject.credit.clone()));
                },
                None => {
                    assert(f(subject.deep_view()) is None);
                },
            }
            j = j + 1;
        }
        assert(sv.take(i + 1).drop_last() =~= sv.take(i as int));
        assert(done + subs.take(j as int) =~= all_subjects(sv.take(i + 1)));
        i = i + 1;
    }
    assert(sv.take(i as int) =~= sv);
    out
}

/// The credit texts that the potentially valid credits (`potential`) or the
/// valid credits take, in order: what the totals are computed from, whatever
/// the credits are.
pub fn counted_credits(semesters: &[Semester], potential: bool) -> (r: Vec<String>)
    ensures
        r@.len() == filter_map(
            all_subjects(semesters.deep_view()),
            |s: SubjectView| counted_credit(s, potential),
        ).len(),
        forall|k: int|
            0 <= k < r@.len() ==> (#[trigger] r@[k])@ == filter_map(
                all_subjects(semesters.deep_view()),
                |s: SubjectView| counted_credit(s, potential),
            )[k],
{
    let ghost f = |s: SubjectView| counted_credit(s, potential);
    let ghost sv = semesters.deep_view();
    let mut out: Vec<String> = Vec::new();
    let mut i: usize = 0;
    assert(sv.take(0) =~= Seq::<SemesterView>::empty());
    while i < semesters.len()
        invariant
            i <= semesters@.len(),
            sv == semesters.deep_view(),
            f == (|s: SubjectView| counted_credit(s, potential)),
            out@.len() == filter_map(all_subjects(sv.take(i as int)), f).len(),
            forall|k: int|
                0 <= k < out@.len() ==> (#[trigger] out@[k])@ == filter_map(
                    all_subjects(sv.take(i as int)),
                    f,
                )[k],
        decreases semesters@.len() - i,
    {
        let subjects = &semesters[i].subjects;
        let ghost done = all_subjects(sv.take(i as int));
        let ghost subs = sv[i as int].subjects;
        assert(subs == subjects.deep_view());
        let mut j: usize = 0;
        assert(done + subs.take(0) =~= done);
        while j < subjects.len()
            invariant
                j <= subjects@.len(),
                subs == subjects.deep_view(),
                f == (|s: SubjectView| counted_credit(s, potential)),
                out@.len() == filter_map(done + subs.take(j as int), f).len(),
                forall|k: int|
                    0 <= k < out@.len() ==> (#[trigger] out@[k])@ == filter_map(
                        done + subs.take(j as int),
                        f,
                    )[k],
            decreases subjects@.len() - j,
        {
            let subject = &subjects[j];
            let ghost before = done + subs.take(j as int);
            assert((done + subs.take(j + 1)).drop_last() =~= before);
            assert((done + subs.take(j + 1)).last() == subject.deep_view());
            let counted = subject.included && (!matches!(subject.result, Outcome::Failed) || (
            potential && subject.potential.is_some()));
            if counted {
                assert(f(subject.deep_view()) == Some(subject.credit@));
                out.push(subject.credit.clone());
            } else {
                assert(f(subject.deep_view()) is None);
            }
            j = j + 1;
        }
        assert(sv.take(i + 1).drop_last() =~= sv.take(i as int));
        assert(done + subs.take(j as int) =~= all_subjects(sv.take(i + 1)));
        i = i + 1;
    }
    assert(sv.take(i as int) =~= sv);
    out
}

} // verus!
