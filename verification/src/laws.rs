//! Properties that hold across the library's operations.

use vstd::prelude::*;
use crate::model::{all_subjects, grade_points, Grade, Outcome, SemesterView, SubjectView};
use crate::persistence::{
    document_map, grade_word, keys_increasing, key_number, key_of, key_prefix, lemma_sections_map,
    letter_text, letter_word, map_results, outcome_text, read_document, read_section, read_subject,
    sections_map, stored_section, stored_subject, subject_reader, ErrorView, SectionView,
    TomlSubjectView,
};
use crate::text::{
    all_digits, credit_of_parts, decimal, digit_char, digits_value, is_digit, is_white_space,
    lemma_decimal, lemma_digit_char, lemma_first_dot, parsed_credit, strip_plus, lemma_seq_less_irreflexive, seq_less, lemma_lower_upper, lemma_parse_decimal, lemma_trimmed_unchanged,
    lower, parsed_unsigned, trimmed, unicode_uppercase, upper,
};
use crate::app::{
    browse_step, edit_step, flat, index_of_number, inserted, insert_by_number, key_step,
    lemma_flat, lemma_index_of_number, lemma_index_of_push, lemma_index_prefix, lemma_sort_first, lemma_moved_target, lemma_offset_update, move_step, offset, placed, removed, sort_by_number,
    potential_entry, submit_step, toggled, total, AppView, Field, KeyCode, KeyModifiers, ModeView, Response,
};
use crate::calculator::{
    actual_grade, all_held, average_of, counts_potentially_valid, counts_valid, credit_sum, filter_map,
    points_sum, potential_grade, weight_sum, WeightedGrade,
};

verus! {

/// The subjects of `s` that count at all: the included ones.
pub open spec fn included_only(s: Seq<SubjectView>) -> Seq<SubjectView>
    decreases s.len(),
{
    if s.len() == 0 {
        Seq::empty()
    } else if s.last().included {
        included_only(s.drop_last()).push(s.last())
    } else {
        included_only(s.drop_last())
    }
}

/// With no potential grade set on an included subject, the potential grades
/// are the actual ones.
proof fn lemma_no_potential_grades(s: Seq<SubjectView>)
    requires
        forall|i: int| 0 <= i < s.len() && (#[trigger] s[i]).included ==> s[i].potential is None,
    ensures
        filter_map(s, |x: SubjectView| potential_grade(x)) == filter_map(
            s,
            |x: SubjectView| actual_grade(x),
        ),
        all_held(s, |x: SubjectView| potential_grade(x) is Some) == all_held(
            s,
            |x: SubjectView| actual_grade(x) is Some,
        ),
    decreases s.len(),
{
    if s.len() > 0 {
        assert(s.last() == s[s.len() - 1]);
        lemma_no_potential_grades(s.drop_last());
    }
}

/// When no included subject has a potential grade set, the potential average
/// is the actual average (and the library computes both or neither).
pub proof fn law_potential_average_without_potentials(semesters: Seq<SemesterView>)
    requires
        forall|i: int|
            0 <= i < all_subjects(semesters).len() && (#[trigger] all_subjects(semesters)[i]).included
                ==> all_subjects(semesters)[i].potential is None,
    ensures
        average_of(filter_map(all_subjects(semesters), |x: SubjectView| potential_grade(x)))
            == average_of(filter_map(all_subjects(semesters), |x: SubjectView| actual_grade(x))),
        all_held(all_subjects(semesters), |x: SubjectView| potential_grade(x) is Some) == all_held(
            all_subjects(semesters),
            |x: SubjectView| actual_grade(x) is Some,
        ),
{
    lemma_no_potential_grades(all_subjects(semesters));
}

/// Whether a subject is an included failed one with a potential grade: the
/// only kind the projection counts beyond the valid credits.
pub open spec fn projected_failure(s: SubjectView) -> bool {
    s.included && s.result == Outcome::Failed && s.potential is Some
}

/// When no included failed subject has a potential grade set, the potentially
/// valid credits are the valid credits (and the library computes both or neither).
pub proof fn law_potential_credits_without_potentials(semesters: Seq<SemesterView>)
    requires
        forall|i: int|
            0 <= i < all_subjects(semesters).len() ==> !projected_failure(
                #[trigger] all_subjects(semesters)[i],
            ),
    ensures
        credit_sum(all_subjects(semesters), |x: SubjectView| counts_potentially_valid(x))
            == credit_sum(all_subjects(semesters), |x: SubjectView| counts_valid(x)),
        all_held(all_subjects(semesters), |x: SubjectView| counts_potentially_valid(x)) == all_held(
            all_subjects(semesters),
            |x: SubjectView| counts_valid(x),
        ),
{
    lemma_credits_without_potentials(all_subjects(semesters));
}

proof fn lemma_credits_without_potentials(s: Seq<SubjectView>)
    requires
        forall|i: int| 0 <= i < s.len() ==> !projected_failure(#[trigger] s[i]),
    ensures
        credit_sum(s, |x: SubjectView| counts_potentially_valid(x)) == credit_sum(
            s,
            |x: SubjectView| counts_valid(x),
        ),
        all_held(s, |x: SubjectView| counts_potentially_valid(x)) == all_held(
            s,
            |x: SubjectView| counts_valid(x),
        ),
    decreases s.len(),
{
    if s.len() > 0 {
        assert(s.last() == s[s.len() - 1]);
        assert(!projected_failure(s[s.len() - 1]));
        lemma_credits_without_potentials(s.drop_last());
    }
}

proof fn lemma_valid_at_most_potential(s: Seq<SubjectView>)
    ensures
        credit_sum(s, |x: SubjectView| counts_valid(x)) <= credit_sum(
            s,
            |x: SubjectView| counts_potentially_valid(x),
        ),
    decreases s.len(),
{
    if s.len() > 0 {
        lemma_valid_at_most_potential(s.drop_last());
    }
}

/// The projection only adds: the valid credits never exceed the potentially
/// valid credits.
pub proof fn law_valid_credits_at_most_potential(semesters: Seq<SemesterView>)
    ensures
        credit_sum(all_subjects(semesters), |x: SubjectView| counts_valid(x)) <= credit_sum(
            all_subjects(semesters),
            |x: SubjectView| counts_potentially_valid(x),
        ),
{
    lemma_valid_at_most_potential(all_subjects(semesters));
}

proof fn lemma_excluded_ignored(s: Seq<SubjectView>)
    ensures
        filter_map(s, |x: SubjectView| actual_grade(x)) == filter_map(
            included_only(s),
            |x: SubjectView| actual_grade(x),
        ),
        filter_map(s, |x: SubjectView| potential_grade(x)) == filter_map(
            included_only(s),
            |x: SubjectView| potential_grade(x),
        ),
        credit_sum(s, |x: SubjectView| counts_valid(x)) == credit_sum(
            included_only(s),
            |x: SubjectView| counts_valid(x),
        ),
        credit_sum(s, |x: SubjectView| counts_potentially_valid(x)) == credit_sum(
            included_only(s),
            |x: SubjectView| counts_potentially_valid(x),
        ),
    decreases s.len(),
{
    if s.len() > 0 {
        lemma_excluded_ignored(s.drop_last());
        if s.last().included {
            let t = included_only(s);
            assert(t.drop_last() =~= included_only(s.drop_last()));
        }
    }
}

/// Excluded subjects are ignored: averages and credit totals are those of the
/// included subjects alone.
pub proof fn law_excluded_subjects_ignored(semesters: Seq<SemesterView>)
    ensures
        ({
            let all = all_subjects(semesters);
            let inc = included_only(all_subjects(semesters));
            &&& average_of(filter_map(all, |x: SubjectView| actual_grade(x))) == average_of(
                filter_map(inc, |x: SubjectView| actual_grade(x)),
            )
            &&& average_of(filter_map(all, |x: SubjectView| potential_grade(x))) == average_of(
                filter_map(inc, |x: SubjectView| potential_grade(x)),
            )
            &&& credit_sum(all, |x: SubjectView| counts_valid(x)) == credit_sum(
                inc,
                |x: SubjectView| counts_valid(x),
            )
            &&& credit_sum(all, |x: SubjectView| counts_potentially_valid(x)) == credit_sum(
                inc,
                |x: SubjectView| counts_potentially_valid(x),
            )
        }),
{
    lemma_excluded_ignored(all_subjects(semesters));
}

/// A weighted average of ECTS grades lies between E (1) and A (5): the
/// weighted points are at least the total weight and at most five times it.
pub proof fn law_average_between_e_and_a(grades: Seq<WeightedGrade>)
    ensures
        weight_sum(grades) <= points_sum(grades) <= 5 * weight_sum(grades),
        average_of(grades).0 <= 5 * average_of(grades).1,
    decreases grades.len(),
{
    if grades.len() > 0 {
        law_average_between_e_and_a(grades.drop_last());
        let w = grades.last().weight as nat;
        let p = grade_points(grades.last().grade);
        assert(1 <= p <= 5);
        assert(w <= p * w <= 5 * w) by (nonlinear_arith)
            requires
                1 <= p <= 5,
        ;
    }
}


/// Reading back the written form of a grade letter gives that grade.
pub proof fn law_letter_round_trip(g: Grade)
    ensures
        letter_word(lower(letter_text(g))) == Some(g),
{
    reveal_strlit("a");
    reveal_strlit("b");
    reveal_strlit("c");
    reveal_strlit("d");
    reveal_strlit("e");
    reveal_strlit("A");
    reveal_strlit("B");
    reveal_strlit("C");
    reveal_strlit("D");
    reveal_strlit("E");
    let w = lower(letter_text(g));
    match g {
        Grade::A => assert(w =~= "a"@),
        Grade::B => {
            assert(w =~= "b"@);
            assert(w[0] != "a"@[0]);
        },
        Grade::C => {
            assert(w =~= "c"@);
            assert(w[0] != "a"@[0] && w[0] != "b"@[0]);
        },
        Grade::D => {
            assert(w =~= "d"@);
            assert(w[0] != "a"@[0] && w[0] != "b"@[0] && w[0] != "c"@[0]);
        },
        Grade::E => {
            assert(w =~= "e"@);
            assert(w[0] != "a"@[0] && w[0] != "b"@[0] && w[0] != "c"@[0] && w[0] != "d"@[0]);
        },
    }
}

/// Reading back the written form of an outcome gives that outcome.
pub proof fn law_outcome_round_trip(o: Outcome)
    ensures
        grade_word(lower(outcome_text(o))) == Some(o),
{
    reveal_strlit("a");
    reveal_strlit("b");
    reveal_strlit("c");
    reveal_strlit("d");
    reveal_strlit("e");
    reveal_strlit("f");
    reveal_strlit("A");
    reveal_strlit("B");
    reveal_strlit("C");
    reveal_strlit("D");
    reveal_strlit("E");
    reveal_strlit("F");
    reveal_strlit("pass");
    reveal_strlit("passed");
    reveal_strlit("fail");
    reveal_strlit("failed");
    reveal_strlit("Pass");
    let w = lower(outcome_text(o));
    match o {
        Outcome::Passed(Some(Grade::A)) => assert(w =~= "a"@),
        Outcome::Passed(Some(Grade::B)) => {
            assert(w =~= "b"@);
            assert(w[0] != "a"@[0]);
        },
        Outcome::Passed(Some(Grade::C)) => {
            assert(w =~= "c"@);
            assert(w[0] != "a"@[0] && w[0] != "b"@[0]);
        },
        Outcome::Passed(Some(Grade::D)) => {
            assert(w =~= "d"@);
            assert(w[0] != "a"@[0] && w[0] != "b"@[0] && w[0] != "c"@[0]);
        },
        Outcome::Passed(Some(Grade::E)) => {
            assert(w =~= "e"@);
            assert(w[0] != "a"@[0] && w[0] != "b"@[0] && w[0] != "c"@[0] && w[0] != "d"@[0]);
        },
        Outcome::Passed(None) => {
            assert(w =~= "pass"@);
            assert(w.len() != "a"@.len());
        },
        Outcome::Failed => {
            assert(w =~= "f"@);
            assert(w[0] != "a"@[0] && w[0] != "b"@[0] && w[0] != "c"@[0] && w[0] != "d"@[0]
                && w[0] != "e"@[0] && w.len() != "pass"@.len() && w.len() != "passed"@.len());
        },
    }
}

/// Reading back the key of a semester gives its number.
pub proof fn law_key_round_trip(n: usize)
    ensures
        key_number(key_of(n as nat)) == Some(n as nat),
{
    reveal_strlit("semester");
    let k = key_of(n as nat);
    assert(k.take(key_prefix().len() as int) =~= key_prefix());
    assert(k.skip(key_prefix().len() as int) =~= crate::text::decimal(n as nat));
    lemma_parse_decimal(n as nat, usize::MAX as nat);
}


/// Reading back a stored subject gives that subject.
pub proof fn law_subject_round_trip(s: SubjectView)
    ensures
        read_subject(stored_subject(s)) == Ok::<SubjectView, ErrorView>(s),
{
    law_outcome_round_trip(s.result);
    if let Some(g) = s.potential {
        law_letter_round_trip(g);
    }
}

proof fn lemma_subjects_round_trip(subs: Seq<SubjectView>)
    ensures
        map_results(subs.map_values(|x: SubjectView| stored_subject(x)), subject_reader())
            == Ok::<Seq<SubjectView>, ErrorView>(subs),
    decreases subs.len(),
{
    if subs.len() > 0 {
        let p = subs.drop_last();
        lemma_subjects_round_trip(p);
        let stored = subs.map_values(|x: SubjectView| stored_subject(x));
        assert(stored.drop_last() =~= p.map_values(|x: SubjectView| stored_subject(x)));
        law_subject_round_trip(subs.last());
        assert(p.push(subs.last()) =~= subs);
    } else {
        assert(subs.map_values(|x: SubjectView| stored_subject(x)) =~= Seq::<TomlSubjectView>::empty());
        assert(subs =~= Seq::<SubjectView>::empty());
    }
}

/// Reading back a stored semester gives that semester.
pub proof fn law_section_round_trip(s: SemesterView)
    ensures
        read_section(stored_section(s)) == Ok::<SemesterView, ErrorView>(s),
{
    law_key_round_trip(s.number);
    lemma_subjects_round_trip(s.subjects);
}

proof fn lemma_key_injective(a: usize, b: usize)
    requires
        key_of(a as nat) == key_of(b as nat),
    ensures
        a == b,
{
    law_key_round_trip(a);
    law_key_round_trip(b);
}

/// The semester numbers are pairwise distinct.
pub open spec fn distinct_numbers(sems: Seq<SemesterView>) -> bool {
    forall|i: int, j: int|
        #![trigger sems[i], sems[j]]
        0 <= i < j < sems.len() ==> sems[i].number != sems[j].number
}

proof fn lemma_document_map(sems: Seq<SemesterView>)
    requires
        distinct_numbers(sems),
    ensures
        forall|i: int|
            #![trigger sems[i]]
            0 <= i < sems.len() ==> document_map(sems).contains_key(key_of(sems[i].number as nat))
                && document_map(sems)[key_of(sems[i].number as nat)] == stored_section(
                sems[i],
            ).subjects,
        forall|k: Seq<char>|
            #[trigger] document_map(sems).contains_key(k) ==> exists|i: int|
                0 <= i < sems.len() && key_of(sems[i].number as nat) == k,
    decreases sems.len(),
{
    if sems.len() > 0 {
        let p = sems.drop_last();
        let last = sems.len() - 1;
        assert(distinct_numbers(p)) by {
            assert forall|i: int, j: int| 0 <= i < j < p.len() implies p[i].number
                != p[j].number by {
                assert(p[i] == sems[i] && p[j] == sems[j]);
            }
        }
        lemma_document_map(p);
        assert forall|i: int| #![trigger sems[i]] 0 <= i < sems.len() implies document_map(
            sems,
        ).contains_key(key_of(sems[i].number as nat)) && document_map(sems)[key_of(
            sems[i].number as nat,
        )] == stored_section(sems[i]).subjects by {
            if i < last {
                assert(p[i] == sems[i]);
                if key_of(sems[i].number as nat) == key_of(sems[last].number as nat) {
                    lemma_key_injective(sems[i].number, sems[last].number);
                }
            }
        }
        assert forall|k: Seq<char>| #[trigger] document_map(sems).contains_key(k) implies exists|
            i: int,
        | 0 <= i < sems.len() && key_of(sems[i].number as nat) == k by {
            if k != key_of(sems[last].number as nat) {
                assert(document_map(p).contains_key(k));
                let i = choose|i: int| 0 <= i < p.len() && key_of(p[i].number as nat) == k;
                assert(p[i] == sems[i]);
            }
        }
    }
}

proof fn lemma_map_results_all_ok<A, B, E>(s: Seq<A>, f: spec_fn(A) -> Result<B, E>, r: Seq<B>)
    requires
        r.len() == s.len(),
        forall|k: int| 0 <= k < s.len() ==> f(#[trigger] s[k]) == Ok::<B, E>(r[k]),
    ensures
        map_results(s, f) == Ok::<Seq<B>, E>(r),
    decreases s.len(),
{
    if s.len() > 0 {
        let n = s.len() - 1;
        assert forall|k: int| 0 <= k < n implies f(#[trigger] s.drop_last()[k]) == Ok::<B, E>(
            r.drop_last()[k],
        ) by {
            assert(s.drop_last()[k] == s[k]);
        }
        lemma_map_results_all_ok(s.drop_last(), f, r.drop_last());
        assert(f(s[n]) == Ok::<B, E>(r[n]));
        assert(r.drop_last().push(r[n]) =~= r);
    } else {
        assert(r =~= Seq::<B>::empty());
    }
}

/// Storing semesters with distinct numbers and reading the document back
/// gives those semesters, each once, in the order of their keys as text
/// (`semester10` before `semester2`): every section reads back to one of the
/// semesters, every semester is read back from some section, none twice, and
/// as many semesters come back as were stored.
pub proof fn law_document_round_trip(sems: Seq<SemesterView>, d: Seq<SectionView>)
    requires
        distinct_numbers(sems),
        keys_increasing(d),
        sections_map(d) == document_map(sems),
    ensures
        read_document(d) is Ok,
        forall|k: int|
            0 <= k < d.len() ==> exists|i: int|
                0 <= i < sems.len() && #[trigger] read_document(d)->Ok_0[k] == sems[i],
        forall|i: int|
            0 <= i < sems.len() ==> exists|k: int|
                0 <= k < d.len() && read_document(d)->Ok_0[k] == #[trigger] sems[i],
        read_document(d)->Ok_0.len() == d.len(),
        read_document(d)->Ok_0.len() == sems.len(),
        read_document(d)->Ok_0.no_duplicates(),
        forall|k1: int, k2: int|
            0 <= k1 < k2 < d.len() ==> seq_less(
                key_of(#[trigger] read_document(d)->Ok_0[k1].number as nat),
                key_of(#[trigger] read_document(d)->Ok_0[k2].number as nat),
            ),
{
    lemma_sections_map(d);
    lemma_document_map(sems);
    let pick = |k: int| choose|i: int| 0 <= i < sems.len() && key_of(sems[i].number as nat) == d[k].key;
    let r = Seq::new(d.len(), |k: int| sems[pick(k)]);
    assert forall|k: int| 0 <= k < d.len() implies read_section(#[trigger] d[k]) == Ok::<
        SemesterView,
        ErrorView,
    >(r[k]) by {
        assert(sections_map(d).contains_key(d[k].key));
        let i = pick(k);
        assert(0 <= i < sems.len() && key_of(sems[i].number as nat) == d[k].key);
        assert(d[k] == stored_section(sems[i]));
        law_section_round_trip(sems[i]);
    }
    lemma_map_results_all_ok(d, |s: SectionView| read_section(s), r);
    assert(read_document(d) == Ok::<Seq<SemesterView>, ErrorView>(r));
    assert forall|i: int| 0 <= i < sems.len() implies exists|k: int|
        0 <= k < d.len() && read_document(d)->Ok_0[k] == #[trigger] sems[i] by {
        let key = key_of(sems[i].number as nat);
        assert(document_map(sems).contains_key(key));
        let k = choose|k: int| 0 <= k < d.len() && d[k].key == key;
        let j = pick(k);
        assert(key_of(sems[j].number as nat) == key);
        lemma_key_injective(sems[j].number, sems[i].number);
        if i != j {
            if i < j {
                assert(sems[i].number != sems[j].number);
            } else {
                assert(sems[j].number != sems[i].number);
            }
        }
        assert(r[k] == sems[i]);
        assert(0 <= k < d.len() && read_document(d)->Ok_0[k] == sems[i]);
    }
    assert forall|k: int| 0 <= k < d.len() implies key_of(#[trigger] r[k].number as nat)
        == d[k].key by {
        assert(sections_map(d).contains_key(d[k].key));
    }
    assert forall|k1: int, k2: int| 0 <= k1 < k2 < d.len() implies seq_less(
        key_of(#[trigger] r[k1].number as nat),
        key_of(#[trigger] r[k2].number as nat),
    ) by {
        assert(seq_less(d[k1].key, d[k2].key));
    }
    assert(r.no_duplicates()) by {
        assert forall|k1: int, k2: int|
            0 <= k1 < r.len() && 0 <= k2 < r.len() && k1 != k2 implies r[k1] != r[k2] by {
            let (a, b) = if k1 < k2 { (k1, k2) } else { (k2, k1) };
            assert(seq_less(d[a].key, d[b].key));
            lemma_seq_less_irreflexive(d[a].key);
            assert(key_of(r[a].number as nat) == d[a].key);
            assert(key_of(r[b].number as nat) == d[b].key);
        }
    }
    assert(sems.no_duplicates()) by {
        assert forall|i: int, j: int|
            0 <= i < sems.len() && 0 <= j < sems.len() && i != j implies sems[i] != sems[j] by {
            if i < j {
                assert(sems[i].number != sems[j].number);
            } else {
                assert(sems[j].number != sems[i].number);
            }
        }
    }
    assert(r.to_set() =~= sems.to_set()) by {
        assert forall|x: SemesterView| r.contains(x) implies sems.contains(x) by {
            let k = choose|k: int| 0 <= k < r.len() && r[k] == x;
            let i = choose|i: int| 0 <= i < sems.len() && #[trigger] read_document(d)->Ok_0[k] == sems[i];
        }
        assert forall|x: SemesterView| sems.contains(x) implies r.contains(x) by {
            let i = choose|i: int| 0 <= i < sems.len() && sems[i] == x;
            let k = choose|k: int| 0 <= k < d.len() && read_document(d)->Ok_0[k] == #[trigger] sems[i];
        }
    }
    r.unique_seq_to_set();
    sems.unique_seq_to_set();
}


proof fn lemma_total_update(s: Seq<SemesterView>, i: int, x: SemesterView)
    requires
        0 <= i < s.len(),
    ensures
        total(s.update(i, x)) == total(s) - s[i].subjects.len() + x.subjects.len(),
    decreases s.len(),
{
    let u = s.update(i, x);
    if i == s.len() - 1 {
        assert(u.drop_last() =~= s.drop_last());
    } else {
        lemma_total_update(s.drop_last(), i, x);
        assert(u.drop_last() =~= s.drop_last().update(i, x));
    }
}

proof fn lemma_total_remove(s: Seq<SemesterView>, i: int)
    requires
        0 <= i < s.len(),
    ensures
        total(s.remove(i)) == total(s) - s[i].subjects.len(),
    decreases s.len(),
{
    let r = s.remove(i);
    if i == s.len() - 1 {
        assert(r =~= s.drop_last());
    } else {
        lemma_total_remove(s.drop_last(), i);
        assert(r.drop_last() =~= s.drop_last().remove(i));
    }
}

proof fn lemma_total_removed(s: Seq<SemesterView>, si: int, ui: int)
    requires
        0 <= si < s.len(),
        0 <= ui < s[si].subjects.len(),
    ensures
        total(removed(s, si, ui)) == total(s) - 1,
{
    let subjects = s[si].subjects.remove(ui);
    if subjects.len() == 0 {
        lemma_total_remove(s, si);
    } else {
        lemma_total_update(s, si, SemesterView { number: s[si].number, subjects });
    }
}

proof fn lemma_total_push(q: Seq<SemesterView>, x: SemesterView)
    ensures
        total(q.push(x)) == total(q) + x.subjects.len(),
{
    assert(q.push(x).drop_last() =~= q);
}

proof fn lemma_total_insert_by_number(q: Seq<SemesterView>, x: SemesterView)
    ensures
        total(insert_by_number(q, x)) == total(q) + x.subjects.len(),
    decreases q.len(),
{
    if q.len() == 0 {
        assert(seq![x].drop_last() =~= Seq::<SemesterView>::empty());
        assert(total(Seq::<SemesterView>::empty()) == 0);
    } else if q.last().number > x.number {
        lemma_total_insert_by_number(q.drop_last(), x);
        lemma_total_push(insert_by_number(q.drop_last(), x), q.last());
        lemma_total_push(q.drop_last(), q.last());
        assert(q.drop_last().push(q.last()) =~= q);
    } else {
        lemma_total_push(q, x);
    }
}

proof fn lemma_total_sort(s: Seq<SemesterView>)
    ensures
        total(sort_by_number(s)) == total(s),
    decreases s.len(),
{
    if s.len() > 0 {
        lemma_total_sort(s.drop_last());
        lemma_total_insert_by_number(sort_by_number(s.drop_last()), s.last());
    }
}

proof fn lemma_total_inserted(s: Seq<SemesterView>, n: usize, subject: SubjectView)
    ensures
        total(inserted(s, n, subject)) == total(s) + 1,
{
    let i = index_of_number(s, n);
    crate::app::lemma_index_bounds(s, n);
    if i >= 0 {
        lemma_total_update(s, i, SemesterView { number: n, subjects: s[i].subjects.push(subject) });
    } else {
        lemma_total_push(s, SemesterView { number: n, subjects: seq![subject] });
    }
}

/// The selection is on a subject, or at the top of an empty list.
pub open spec fn selection_ok(app: AppView) -> bool {
    app.selected == 0 || app.selected < total(app.semesters)
}

/// Every key press keeps the selection on a subject (or at the top of an
/// empty list).
pub proof fn law_selection_stays_in_range(
    app: AppView,
    code: KeyCode,
    modifiers: KeyModifiers,
    credit: Option<Seq<char>>,
)
    requires
        selection_ok(app),
        total(app.semesters) <= usize::MAX,
    ensures
        selection_ok(key_step(app, code, modifiers, credit).0),
{
    let sems = app.semesters;
    let sel = app.selected as int;
    lemma_flat(sems);
    if sel < total(sems) {
        let (si, ui) = flat(sems)[sel];
        lemma_total_removed(sems, si, ui);
        let s = sems[si];
        let t = s.subjects[ui];
        lemma_total_update(
            sems,
            si,
            SemesterView {
                number: s.number,
                subjects: s.subjects.update(ui, SubjectView { included: !t.included, ..t }),
            },
        );
        let other = if modifiers.shift && code == KeyCode::Down { ui + 1 } else { ui - 1 };
        if 0 <= other < s.subjects.len() {
            lemma_total_update(
                sems,
                si,
                SemesterView {
                    number: s.number,
                    subjects: s.subjects.update(ui, s.subjects[other]).update(other, s.subjects[ui]),
                },
            );
        }
    }
    match app.mode {
        ModeView::Editing(form) => {
            if code == KeyCode::Enter {
                lemma_submit_selection(app, credit);
            }
        },
        _ => {},
    }
}

proof fn lemma_placed_selection(
    sems: Seq<SemesterView>,
    selected: usize,
    editing: Option<usize>,
    semester: usize,
    code: Seq<char>,
    name: Seq<char>,
    credit: Seq<char>,
    result: Outcome,
    potential: Option<Grade>,
)
    requires
        selected == 0 || selected < total(sems),
    ensures
        ({
            let (s2, sel2) = placed(
                sems,
                selected,
                editing,
                semester,
                code,
                name,
                credit,
                result,
                potential,
            );
            sel2 == 0 || sel2 < total(s2)
        }),
{
    lemma_flat(sems);
    if editing is Some && editing->0 < total(sems) {
        let (si, ui) = flat(sems)[editing->0 as int];
        let subject = SubjectView {
            code,
            name,
            credit,
            result,
            included: sems[si].subjects[ui].included,
            potential,
        };
        if sems[si].number == semester {
            lemma_total_update(
                sems,
                si,
                SemesterView {
                    number: sems[si].number,
                    subjects: sems[si].subjects.update(ui, subject),
                },
            );
        } else {
            let r = removed(sems, si, ui);
            let after = sort_by_number(inserted(r, semester, subject));
            lemma_moved_target(r, semester, subject);
            lemma_flat(after);
            let t = index_of_number(after, semester);
            assert(offset(after, t) + after[t].subjects.len() <= total(after));
        }
    } else {
        let subject = SubjectView { code, name, credit, result, included: true, potential };
        lemma_total_sort(inserted(sems, semester, subject));
        lemma_total_inserted(sems, semester, subject);
    }
}

proof fn lemma_submit_selection(app: AppView, credit: Option<Seq<char>>)
    requires
        selection_ok(app),
    ensures
        selection_ok(submit_step(app, credit).0),
{
    match app.mode {
        ModeView::Browsing => {},
        ModeView::Editing(form) => {
            let semester_in = crate::text::trimmed(form.semester);
            let grade_in = crate::text::trimmed(form.grade);
            let potential_in = crate::text::trimmed(form.potential);
            if let Some(credit) = credit {
                if let Some(semester) = crate::text::parsed_unsigned(semester_in, usize::MAX as nat) {
                    if let Some(result) = grade_word(lower(grade_in)) {
                        if let Ok(potential) = crate::app::potential_entry(potential_in) {
                            lemma_placed_selection(
                                app.semesters,
                                app.selected,
                                form.editing,
                                semester as usize,
                                crate::text::trimmed(form.code),
                                crate::text::trimmed(form.name),
                                credit,
                                result,
                                potential,
                            );
                        }
                    }
                }
            }
        },
    }
}


/// Semester numbers never decrease along the list.
pub open spec fn sorted_by_number(s: Seq<SemesterView>) -> bool {
    forall|i: int, j: int|
        #![trigger s[i], s[j]]
        0 <= i < j < s.len() ==> s[i].number <= s[j].number
}

proof fn lemma_insert_sorted(q: Seq<SemesterView>, x: SemesterView)
    requires
        sorted_by_number(q),
    ensures
        sorted_by_number(insert_by_number(q, x)),
        insert_by_number(q, x).len() == q.len() + 1,
        forall|k: int|
            0 <= k < q.len() + 1 ==> #[trigger] insert_by_number(q, x)[k] == x || exists|i: int|
                0 <= i < q.len() && insert_by_number(q, x)[k] == q[i],
    decreases q.len(),
{
    let ins = insert_by_number(q, x);
    if q.len() == 0 {
    } else if q.last().number <= x.number {
        assert forall|k: int| 0 <= k < q.len() + 1 implies #[trigger] ins[k] == x || exists|i: int|
            0 <= i < q.len() && ins[k] == q[i] by {
            if k < q.len() {
                assert(ins[k] == q[k]);
            }
        }
    } else {
        let p = q.drop_last();
        let l = q.last();
        assert(sorted_by_number(p)) by {
            assert forall|i: int, j: int| 0 <= i < j < p.len() implies p[i].number <= p[j].number by {
                assert(p[i] == q[i] && p[j] == q[j]);
            }
        }
        lemma_insert_sorted(p, x);
        let pi = insert_by_number(p, x);
        assert forall|k: int| 0 <= k < pi.len() implies (#[trigger] pi[k]).number <= l.number by {
            if pi[k] != x {
                let i = choose|i: int| 0 <= i < p.len() && pi[k] == p[i];
                assert(q[i] == p[i]);
                assert(q[i].number <= q[q.len() - 1].number);
            }
        }
        assert forall|i: int, j: int| 0 <= i < j < ins.len() implies ins[i].number
            <= ins[j].number by {
            if j == ins.len() - 1 {
                assert(ins[i] == pi[i]);
            } else {
                assert(ins[i] == pi[i] && ins[j] == pi[j]);
            }
        }
        assert forall|k: int| 0 <= k < q.len() + 1 implies #[trigger] ins[k] == x || exists|i: int|
            0 <= i < q.len() && ins[k] == q[i] by {
            if k == q.len() {
                assert(ins[k] == q[q.len() - 1]);
            } else {
                assert(ins[k] == pi[k]);
                if pi[k] != x {
                    let i = choose|i: int| 0 <= i < p.len() && pi[k] == p[i];
                    assert(q[i] == p[i]);
                }
            }
        }
    }
}

/// Sorting by number gives a list whose numbers never decrease.
pub proof fn law_sort_is_sorted(s: Seq<SemesterView>)
    ensures
        sorted_by_number(sort_by_number(s)),
    decreases s.len(),
{
    if s.len() > 0 {
        law_sort_is_sorted(s.drop_last());
        lemma_insert_sorted(sort_by_number(s.drop_last()), s.last());
    }
}

proof fn lemma_sorted_update(s: Seq<SemesterView>, i: int, x: SemesterView)
    requires
        sorted_by_number(s),
        0 <= i < s.len(),
        x.number == s[i].number,
    ensures
        sorted_by_number(s.update(i, x)),
{
    let u = s.update(i, x);
    assert forall|a: int, b: int| 0 <= a < b < u.len() implies u[a].number <= u[b].number by {
        assert(s[a].number <= s[b].number);
    }
}

proof fn lemma_sorted_removed(s: Seq<SemesterView>, si: int, ui: int)
    requires
        sorted_by_number(s),
        0 <= si < s.len(),
        0 <= ui < s[si].subjects.len(),
    ensures
        sorted_by_number(removed(s, si, ui)),
{
    let subjects = s[si].subjects.remove(ui);
    if subjects.len() == 0 {
        let r = s.remove(si);
        assert forall|a: int, b: int| 0 <= a < b < r.len() implies r[a].number <= r[b].number by {
            let a2 = if a < si { a } else { a + 1 };
            let b2 = if b < si { b } else { b + 1 };
            assert(r[a] == s[a2] && r[b] == s[b2]);
            assert(s[a2].number <= s[b2].number);
        }
    } else {
        lemma_sorted_update(s, si, SemesterView { number: s[si].number, subjects });
    }
}

/// Every key press keeps the semesters sorted by number.
pub proof fn law_semesters_stay_sorted(
    app: AppView,
    code: KeyCode,
    modifiers: KeyModifiers,
    credit: Option<Seq<char>>,
)
    requires
        sorted_by_number(app.semesters),
    ensures
        sorted_by_number(key_step(app, code, modifiers, credit).0.semesters),
{
    let sems = app.semesters;
    let sel = app.selected as int;
    lemma_flat(sems);
    if sel < total(sems) {
        let (si, ui) = flat(sems)[sel];
        lemma_sorted_removed(sems, si, ui);
        let s = sems[si];
        let t = s.subjects[ui];
        lemma_sorted_update(
            sems,
            si,
            SemesterView {
                number: s.number,
                subjects: s.subjects.update(ui, SubjectView { included: !t.included, ..t }),
            },
        );
        let other = if modifiers.shift && code == KeyCode::Down { ui + 1 } else { ui - 1 };
        if 0 <= other < s.subjects.len() {
            lemma_sorted_update(
                sems,
                si,
                SemesterView {
                    number: s.number,
                    subjects: s.subjects.update(ui, s.subjects[other]).update(other, s.subjects[ui]),
                },
            );
        }
    }
    match app.mode {
        ModeView::Editing(form) => {
            if code == KeyCode::Enter {
                lemma_submit_sorted(app, credit);
            }
        },
        _ => {},
    }
}

proof fn lemma_submit_sorted(app: AppView, credit: Option<Seq<char>>)
    requires
        sorted_by_number(app.semesters),
    ensures
        sorted_by_number(submit_step(app, credit).0.semesters),
{
    match app.mode {
        ModeView::Browsing => {},
        ModeView::Editing(form) => {
            let sems = app.semesters;
            lemma_flat(sems);
            if let Some(credit) = credit {
                if let Some(semester) = crate::text::parsed_unsigned(
                    crate::text::trimmed(form.semester),
                    usize::MAX as nat,
                ) {
                    if let Some(result) = grade_word(lower(crate::text::trimmed(form.grade))) {
                        if let Ok(potential) = crate::app::potential_entry(
                            crate::text::trimmed(form.potential),
                        ) {
                            let code = crate::text::trimmed(form.code);
                            let name = crate::text::trimmed(form.name);
                            let semester = semester as usize;
                            if form.editing is Some && form.editing->0 < total(sems) {
                                let (si, ui) = flat(sems)[form.editing->0 as int];
                                let subject = SubjectView {
                                    code,
                                    name,
                                    credit,
                                    result,
                                    included: sems[si].subjects[ui].included,
                                    potential,
                                };
                                lemma_sorted_update(
                                    sems,
                                    si,
                                    SemesterView {
                                        number: sems[si].number,
                                        subjects: sems[si].subjects.update(ui, subject),
                                    },
                                );
                                law_sort_is_sorted(
                                    inserted(removed(sems, si, ui), semester, subject),
                                );
                            } else {
                                let subject = SubjectView {
                                    code,
                                    name,
                                    credit,
                                    result,
                                    included: true,
                                    potential,
                                };
                                law_sort_is_sorted(inserted(sems, semester, subject));
                            }
                        }
                    }
                }
            }
        },
    }
}

/// Semester numbers strictly increase along the list, and no semester is
/// without subjects.
pub open spec fn semesters_ok(s: Seq<SemesterView>) -> bool {
    &&& forall|i: int, j: int|
        #![trigger s[i], s[j]]
        0 <= i < j < s.len() ==> s[i].number < s[j].number
    &&& forall|i: int| 0 <= i < s.len() ==> (#[trigger] s[i]).subjects.len() > 0
}

/// What every key press keeps: the semesters as `semesters_ok` says, the
/// selection on a subject (or at the top of an empty list), and an open edit
/// form pointing at a subject.
pub open spec fn app_ok(app: AppView) -> bool {
    &&& semesters_ok(app.semesters)
    &&& selection_ok(app)
    &&& match app.mode {
        ModeView::Editing(f) => f.editing is Some ==> f.editing->0 < total(app.semesters),
        ModeView::Browsing => true,
    }
}

proof fn lemma_ok_sorted(s: Seq<SemesterView>)
    requires
        semesters_ok(s),
    ensures
        sorted_by_number(s),
{
    assert forall|i: int, j: int| 0 <= i < j < s.len() implies s[i].number <= s[j].number by {
        assert(s[i].number < s[j].number);
    }
}

/// Sorting a list already in order of number leaves it as it is.
proof fn lemma_sort_identity(s: Seq<SemesterView>)
    requires
        sorted_by_number(s),
    ensures
        sort_by_number(s) == s,
    decreases s.len(),
{
    if s.len() > 0 {
        let p = s.drop_last();
        assert(sorted_by_number(p)) by {
            assert forall|i: int, j: int| 0 <= i < j < p.len() implies p[i].number <= p[j].number by {
                assert(p[i] == s[i] && p[j] == s[j]);
            }
        }
        lemma_sort_identity(p);
        if p.len() > 0 {
            assert(p.last() == s[p.len() - 1]);
            assert(s[p.len() - 1].number <= s[s.len() - 1].number);
            assert(p.push(s.last()) =~= s);
        } else {
            assert(seq![s.last()] =~= s);
        }
    }
}

proof fn lemma_ok_update(s: Seq<SemesterView>, i: int, x: SemesterView)
    requires
        semesters_ok(s),
        0 <= i < s.len(),
        x.number == s[i].number,
        x.subjects.len() > 0,
    ensures
        semesters_ok(s.update(i, x)),
{
    let u = s.update(i, x);
    assert forall|a: int, b: int| 0 <= a < b < u.len() implies u[a].number < u[b].number by {
        assert(s[a].number < s[b].number);
    }
}

proof fn lemma_ok_removed(s: Seq<SemesterView>, si: int, ui: int)
    requires
        semesters_ok(s),
        0 <= si < s.len(),
        0 <= ui < s[si].subjects.len(),
    ensures
        semesters_ok(removed(s, si, ui)),
{
    let subjects = s[si].subjects.remove(ui);
    if subjects.len() == 0 {
        let r = s.remove(si);
        assert forall|a: int, b: int| 0 <= a < b < r.len() implies r[a].number < r[b].number by {
            let a2 = if a < si { a } else { a + 1 };
            let b2 = if b < si { b } else { b + 1 };
            assert(r[a] == s[a2] && r[b] == s[b2]);
            assert(s[a2].number < s[b2].number);
        }
        assert forall|a: int| 0 <= a < r.len() implies (#[trigger] r[a]).subjects.len() > 0 by {
            let a2 = if a < si { a } else { a + 1 };
            assert(r[a] == s[a2]);
        }
    } else {
        lemma_ok_update(s, si, SemesterView { number: s[si].number, subjects });
    }
}

/// Placing a semester whose number is new into a list in strict order of
/// number keeps the order strict.
proof fn lemma_insert_strict(p: Seq<SemesterView>, x: SemesterView)
    requires
        semesters_ok(p),
        x.subjects.len() > 0,
        forall|i: int| 0 <= i < p.len() ==> (#[trigger] p[i]).number != x.number,
    ensures
        semesters_ok(insert_by_number(p, x)),
    decreases p.len(),
{
    let ins = insert_by_number(p, x);
    if p.len() == 0 {
        assert(ins =~= seq![x]);
    } else if p.last().number <= x.number {
        let n = p.len() - 1;
        assert(p.last() == p[n]);
        assert(ins == p.push(x));
        assert forall|a: int, b: int| 0 <= a < b < ins.len() implies ins[a].number < ins[b].number by {
            if b == p.len() {
                if a < n {
                    assert(p[a].number < p[n].number);
                }
            } else {
                assert(p[a].number < p[b].number);
            }
        }
        assert forall|a: int| 0 <= a < ins.len() implies (#[trigger] ins[a]).subjects.len() > 0 by {
            if a < p.len() {
                assert(ins[a] == p[a]);
            }
        }
    } else {
        let q = p.drop_last();
        let l = p.last();
        let n = p.len() - 1;
        assert(l == p[n]);
        assert(semesters_ok(q)) by {
            assert forall|a: int, b: int| 0 <= a < b < q.len() implies q[a].number < q[b].number by {
                assert(q[a] == p[a] && q[b] == p[b]);
            }
            assert forall|a: int| 0 <= a < q.len() implies (#[trigger] q[a]).subjects.len() > 0 by {
                assert(q[a] == p[a]);
            }
        }
        assert forall|i: int| 0 <= i < q.len() implies (#[trigger] q[i]).number != x.number by {
            assert(q[i] == p[i]);
        }
        lemma_insert_strict(q, x);
        lemma_ok_sorted(q);
        lemma_insert_sorted(q, x);
        let qi = insert_by_number(q, x);
        assert(ins == qi.push(l));
        assert forall|k: int| 0 <= k < qi.len() implies (#[trigger] qi[k]).number < l.number by {
            if qi[k] != x {
                let i = choose|i: int| 0 <= i < q.len() && qi[k] == q[i];
                assert(q[i] == p[i]);
                assert(p[i].number < p[n].number);
            }
        }
        assert forall|a: int, b: int| 0 <= a < b < ins.len() implies ins[a].number < ins[b].number by {
            assert(ins[a] == qi[a]);
            if b < qi.len() {
                assert(ins[b] == qi[b]);
            }
        }
        assert forall|a: int| 0 <= a < ins.len() implies (#[trigger] ins[a]).subjects.len() > 0 by {
            if a < qi.len() {
                assert(ins[a] == qi[a]);
            }
        }
    }
}

proof fn lemma_ok_sort_inserted(s: Seq<SemesterView>, n: usize, subject: SubjectView)
    requires
        semesters_ok(s),
    ensures
        semesters_ok(sort_by_number(inserted(s, n, subject))),
{
    let x = SemesterView { number: n, subjects: seq![subject] };
    let i = index_of_number(s, n);
    lemma_index_of_push(s, x, n);
    let t = inserted(s, n, subject);
    if i >= 0 {
        lemma_ok_update(s, i, SemesterView { number: n, subjects: s[i].subjects.push(subject) });
        lemma_ok_sorted(t);
        lemma_sort_identity(t);
    } else {
        lemma_index_prefix(s, n);
        assert(t.drop_last() =~= s);
        lemma_ok_sorted(s);
        lemma_sort_identity(s);
        assert(sort_by_number(t) == insert_by_number(s, x));
        lemma_insert_strict(s, x);
    }
}

proof fn lemma_placed_ok(
    sems: Seq<SemesterView>,
    selected: usize,
    editing: Option<usize>,
    semester: usize,
    code: Seq<char>,
    name: Seq<char>,
    credit: Seq<char>,
    result: Outcome,
    potential: Option<Grade>,
)
    requires
        semesters_ok(sems),
    ensures
        semesters_ok(
            placed(sems, selected, editing, semester, code, name, credit, result, potential).0,
        ),
{
    lemma_flat(sems);
    if editing is Some && editing->0 < total(sems) {
        let (si, ui) = flat(sems)[editing->0 as int];
        let subject = SubjectView {
            code,
            name,
            credit,
            result,
            included: sems[si].subjects[ui].included,
            potential,
        };
        if sems[si].number == semester {
            lemma_ok_update(
                sems,
                si,
                SemesterView {
                    number: sems[si].number,
                    subjects: sems[si].subjects.update(ui, subject),
                },
            );
        } else {
            lemma_ok_removed(sems, si, ui);
            lemma_ok_sort_inserted(removed(sems, si, ui), semester, subject);
        }
    } else {
        let subject = SubjectView { code, name, credit, result, included: true, potential };
        lemma_ok_sort_inserted(sems, semester, subject);
    }
}

proof fn lemma_submit_ok(app: AppView, credit: Option<Seq<char>>)
    requires
        semesters_ok(app.semesters),
    ensures
        semesters_ok(submit_step(app, credit).0.semesters),
{
    match app.mode {
        ModeView::Browsing => {},
        ModeView::Editing(form) => {
            if let Some(credit) = credit {
                if let Some(semester) = crate::text::parsed_unsigned(
                    crate::text::trimmed(form.semester),
                    usize::MAX as nat,
                ) {
                    if let Some(result) = grade_word(lower(crate::text::trimmed(form.grade))) {
                        if let Ok(potential) = crate::app::potential_entry(
                            crate::text::trimmed(form.potential),
                        ) {
                            lemma_placed_ok(
                                app.semesters,
                                app.selected,
                                form.editing,
                                semester as usize,
                                crate::text::trimmed(form.code),
                                crate::text::trimmed(form.name),
                                credit,
                                result,
                                potential,
                            );
                        }
                    }
                }
            }
        },
    }
}

/// Every key press keeps the editor's state as `app_ok` says: semester
/// numbers strictly increasing, no semester without subjects, the selection
/// on a subject (or at the top of an empty list), and an open edit form
/// pointing at a subject.
pub proof fn law_key_press_keeps_state(
    app: AppView,
    code: KeyCode,
    modifiers: KeyModifiers,
    credit: Option<Seq<char>>,
)
    requires
        app_ok(app),
        total(app.semesters) <= usize::MAX,
    ensures
        app_ok(key_step(app, code, modifiers, credit).0),
{
    law_selection_stays_in_range(app, code, modifiers, credit);
    let sems = app.semesters;
    let sel = app.selected as int;
    lemma_flat(sems);
    if sel < total(sems) {
        let (si, ui) = flat(sems)[sel];
        lemma_ok_removed(sems, si, ui);
        let s = sems[si];
        let t = s.subjects[ui];
        lemma_ok_update(
            sems,
            si,
            SemesterView {
                number: s.number,
                subjects: s.subjects.update(ui, SubjectView { included: !t.included, ..t }),
            },
        );
        let other = if modifiers.shift && code == KeyCode::Down { ui + 1 } else { ui - 1 };
        if 0 <= other < s.subjects.len() {
            lemma_ok_update(
                sems,
                si,
                SemesterView {
                    number: s.number,
                    subjects: s.subjects.update(ui, s.subjects[other]).update(other, s.subjects[ui]),
                },
            );
        }
    }
    match app.mode {
        ModeView::Editing(form) => {
            if code == KeyCode::Enter {
                lemma_submit_ok(app, credit);
            }
        },
        _ => {},
    }
}

/// A key press that does not answer `Changed` leaves the semesters as they were.
pub proof fn law_unchanged_unless_changed(
    app: AppView,
    code: KeyCode,
    modifiers: KeyModifiers,
    credit: Option<Seq<char>>,
)
    ensures
        key_step(app, code, modifiers, credit).1 != Response::Changed ==> key_step(
            app,
            code,
            modifiers,
            credit,
        ).0.semesters == app.semesters,
{
}

/// Pressing `t` twice while browsing with a subject selected restores the
/// list: each press flips whether that subject counts.
pub proof fn law_toggle_twice(app: AppView, modifiers: KeyModifiers, credit: Option<Seq<char>>)
    requires
        app.mode is Browsing,
        app.selected < total(app.semesters),
    ensures
        ({
            let (once, first) = key_step(app, KeyCode::Char('t'), modifiers, credit);
            &&& first == Response::Changed
            &&& key_step(once, KeyCode::Char('t'), modifiers, credit) == (app, Response::Changed)
        }),
{
    let sems = app.semesters;
    lemma_flat(sems);
    let (si, ui) = flat(sems)[app.selected as int];
    let sems2 = toggled(sems, si, ui);
    let t = sems[si].subjects[ui];
    let x = SemesterView {
        number: sems[si].number,
        subjects: sems[si].subjects.update(ui, SubjectView { included: !t.included, ..t }),
    };
    lemma_total_update(sems, si, x);
    lemma_offset_update(sems, si, x, si);
    lemma_flat(sems2);
    assert(flat(sems2)[app.selected as int] == (si, ui));
    assert(sems2[si].subjects[ui] == SubjectView { included: !t.included, ..t });
    assert(toggled(sems2, si, ui)[si].subjects =~= sems[si].subjects);
    assert(toggled(sems2, si, ui) =~= sems);
}

/// Saving the edit form that `e` opens, untouched, changes nothing: the list
/// and the selection stay as they were and browsing resumes. This needs the
/// subject's code to be its own upper-case form and code and name to carry
/// no surrounding white space (the form shows them so, and saving trims
/// them), and the credit entry to read back as the credit text itself (as
/// the written form of a floating-point number does).
pub proof fn law_untouched_edit(app: AppView, modifiers: KeyModifiers, credit: Option<Seq<char>>)
    requires
        app.mode is Browsing,
        app.selected < total(app.semesters),
        ({
            let (si, ui) = flat(app.semesters)[app.selected as int];
            let s = app.semesters[si].subjects[ui];
            &&& unicode_uppercase(s.code) == s.code
            &&& trimmed(s.code) == s.code
            &&& trimmed(s.name) == s.name
        }),
    ensures
        ({
            let (si, ui) = flat(app.semesters)[app.selected as int];
            let opened = key_step(app, KeyCode::Char('e'), modifiers, credit).0;
            key_step(
                opened,
                KeyCode::Enter,
                modifiers,
                Some(app.semesters[si].subjects[ui].credit),
            ) == (app, Response::Changed)
        }),
{
    let sems = app.semesters;
    lemma_flat(sems);
    let sel = app.selected;
    let (si, ui) = flat(sems)[sel as int];
    let s = sems[si].subjects[ui];
    let number = sems[si].number;
    let form = crate::app::edit_form(sel, number, s);
    let opened = key_step(app, KeyCode::Char('e'), modifiers, credit).0;
    assert(opened == AppView { mode: ModeView::Editing(form), ..app });
    // The semester entry reads back as the semester number.
    lemma_decimal(number as nat);
    lemma_trimmed_unchanged(crate::text::decimal(number as nat));
    lemma_parse_decimal(number as nat, usize::MAX as nat);
    // The grade entry reads back as the outcome.
    reveal_strlit("A");
    reveal_strlit("B");
    reveal_strlit("C");
    reveal_strlit("D");
    reveal_strlit("E");
    reveal_strlit("F");
    reveal_strlit("Pass");
    let g = upper(outcome_text(s.result));
    assert(outcome_text(s.result).len() > 0);
    assert(!is_white_space(g[0]) && !is_white_space(g.last()));
    lemma_trimmed_unchanged(g);
    lemma_lower_upper(outcome_text(s.result));
    law_outcome_round_trip(s.result);
    // The potential grade entry reads back as the potential grade.
    match s.potential {
        Some(p) => {
            let t = letter_text(p);
            assert(!is_white_space(t[0]) && !is_white_space(t.last()));
            lemma_trimmed_unchanged(t);
            law_letter_round_trip(p);
        },
        None => {
            lemma_trimmed_unchanged(Seq::<char>::empty());
        },
    }
    let subject = SubjectView {
        code: s.code,
        name: s.name,
        credit: s.credit,
        result: s.result,
        included: s.included,
        potential: s.potential,
    };
    assert(subject == s);
    assert(sems[si].subjects.update(ui, subject) =~= sems[si].subjects);
    assert(sems.update(si, SemesterView { number, subjects: sems[si].subjects.update(ui, subject) })
        =~= sems);
}

/// Moving a subject down and then up again restores the list and the selection.
pub proof fn law_move_down_then_up(app: AppView)
    requires
        move_step(app, true).1 == Response::Changed,
        total(app.semesters) <= usize::MAX,
    ensures
        move_step(move_step(app, true).0, false) == (app, Response::Changed),
{
    let sems = app.semesters;
    lemma_flat(sems);
    let (si, ui) = flat(sems)[app.selected as int];
    let app2 = move_step(app, true).0;
    let sems2 = app2.semesters;
    lemma_flat(sems2);
    assert(offset(sems, si) + sems[si].subjects.len() <= total(sems));
    assert(sems2[si].subjects.len() == sems[si].subjects.len());
    assert(sems2.take(si) =~= sems.take(si));
    assert(flat(sems2)[offset(sems2, si) + ui + 1] == (si, ui + 1));
    let back = move_step(app2, false).0;
    assert(back.semesters[si].subjects =~= sems[si].subjects);
    assert(back.semesters =~= sems);
}

/// Moving a subject up and then down again restores the list and the selection.
pub proof fn law_move_up_then_down(app: AppView)
    requires
        move_step(app, false).1 == Response::Changed,
    ensures
        move_step(move_step(app, false).0, true) == (app, Response::Changed),
{
    let sems = app.semesters;
    lemma_flat(sems);
    let (si, ui) = flat(sems)[app.selected as int];
    let app2 = move_step(app, false).0;
    let sems2 = app2.semesters;
    lemma_flat(sems2);
    assert(sems2[si].subjects.len() == sems[si].subjects.len());
    assert(sems2.take(si) =~= sems.take(si));
    assert(flat(sems2)[offset(sems2, si) + ui - 1] == (si, ui - 1));
    let back = move_step(app2, true).0;
    assert(back.semesters[si].subjects =~= sems[si].subjects);
    assert(back.semesters =~= sems);
}

/// Moving to the next form field and back, or back and forth, returns to the field.
pub proof fn law_field_cycle(f: Field)
    ensures
        f.spec_next().spec_prev() == f,
        f.spec_prev().spec_next() == f,
{
}

proof fn lemma_all_subjects_push(q: Seq<SemesterView>, y: SemesterView)
    ensures
        all_subjects(q.push(y)) == all_subjects(q) + y.subjects,
{
    assert(q.push(y).drop_last() =~= q);
}

/// The subject at display position `offset(s, si) + ui` is subject `ui` of semester `si`.
proof fn lemma_all_subjects_index(s: Seq<SemesterView>, si: int, ui: int)
    requires
        0 <= si < s.len(),
        0 <= ui < s[si].subjects.len(),
    ensures
        offset(s, si) + ui < all_subjects(s).len(),
        all_subjects(s)[offset(s, si) + ui] == s[si].subjects[ui],
    decreases s.len(),
{
    let p = s.drop_last();
    lemma_flat(s);
    if si == s.len() - 1 {
        assert(s.take(si) =~= p);
    } else {
        lemma_all_subjects_index(p, si, ui);
        assert(s.take(si) =~= p.take(si));
        assert(p[si] == s[si]);
    }
}

/// Removing subject `ui` of semester `si` takes exactly the subject at its
/// display position out of the list of all subjects.
proof fn lemma_all_subjects_removed(s: Seq<SemesterView>, si: int, ui: int)
    requires
        0 <= si < s.len(),
        0 <= ui < s[si].subjects.len(),
    ensures
        all_subjects(removed(s, si, ui)) == all_subjects(s).remove(offset(s, si) + ui),
    decreases s.len(),
{
    let p = s.drop_last();
    let last = s.last();
    let subjects = s[si].subjects.remove(ui);
    lemma_flat(p);
    if si == s.len() - 1 {
        assert(s.take(si) =~= p);
        if subjects.len() == 0 {
            assert(s.remove(si) =~= p);
            assert(all_subjects(s).remove(offset(s, si) + ui) =~= all_subjects(p));
        } else {
            let x = SemesterView { number: s[si].number, subjects };
            assert(s.update(si, x) =~= p.push(x));
            lemma_all_subjects_push(p, x);
            assert(all_subjects(s).remove(offset(s, si) + ui) =~= all_subjects(p) + subjects);
        }
    } else {
        assert(p[si] == s[si]);
        lemma_all_subjects_removed(p, si, ui);
        assert(s.take(si) =~= p.take(si));
        assert(offset(p, si) + p[si].subjects.len() <= total(p));
        let j = offset(s, si) + ui;
        if subjects.len() == 0 {
            assert(s.remove(si) =~= p.remove(si).push(last));
            lemma_all_subjects_push(p.remove(si), last);
        } else {
            let x = SemesterView { number: s[si].number, subjects };
            assert(s.update(si, x) =~= p.update(si, x).push(last));
            lemma_all_subjects_push(p.update(si, x), last);
        }
        assert(all_subjects(s).remove(j) =~= all_subjects(p).remove(j) + last.subjects);
    }
}

/// Deleting the selected subject removes exactly that subject: the subjects
/// in display order afterwards are those before, with the one at the
/// selection taken out.
pub proof fn law_delete_removes_selected(
    app: AppView,
    modifiers: KeyModifiers,
    credit: Option<Seq<char>>,
)
    requires
        app.mode is Browsing,
        app.selected < total(app.semesters),
    ensures
        ({
            let (after, r) = key_step(app, KeyCode::Char('d'), modifiers, credit);
            &&& r == Response::Changed
            &&& all_subjects(after.semesters) == all_subjects(app.semesters).remove(
                app.selected as int,
            )
            &&& after.selected == if app.selected > 0 && app.selected + 1 >= total(app.semesters) {
                app.selected - 1
            } else {
                app.selected as int
            }
            &&& after.mode == app.mode
        }),
{
    let sems = app.semesters;
    lemma_flat(sems);
    let (si, ui) = flat(sems)[app.selected as int];
    lemma_all_subjects_removed(sems, si, ui);
    lemma_total_removed(sems, si, ui);
}

/// After adding `subject` to semester `n` (and sorting), the first semester
/// numbered `n` ends with `subject`.
proof fn lemma_inserted_last(r: Seq<SemesterView>, n: usize, subject: SubjectView)
    ensures
        ({
            let after = sort_by_number(inserted(r, n, subject));
            let t = index_of_number(after, n);
            &&& 0 <= t < after.len()
            &&& after[t].number == n
            &&& after[t].subjects.len() > 0
            &&& after[t].subjects.last() == subject
        }),
{
    let x = SemesterView { number: n, subjects: seq![subject] };
    let u = inserted(r, n, subject);
    let i = index_of_number(r, n);
    lemma_index_of_push(r, x, n);
    if i >= 0 {
        lemma_index_prefix(r, n);
        lemma_index_of_number(u, n, i);
    } else {
        lemma_index_of_push(r, x, n);
    }
    lemma_sort_first(u, n);
    lemma_moved_target(r, n, subject);
}

/// The subject a valid form describes: trimmed code and name, the credit
/// text, the outcome the grade entry reads as, the given `included` flag, and
/// no potential grade when that entry is empty, else the letter it reads as.
pub open spec fn submitted(form: crate::app::FormView, credit: Seq<char>, included: bool) -> SubjectView {
    let p = trimmed(form.potential);
    SubjectView {
        code: trimmed(form.code),
        name: trimmed(form.name),
        credit,
        result: grade_word(lower(trimmed(form.grade)))->0,
        included,
        potential: if p.len() == 0 {
            None
        } else {
            letter_word(lower(p))
        },
    }
}

/// Whether every entry of the form reads: a semester number, a grade, and an
/// empty or letter-grade potential grade.
pub open spec fn form_reads(form: crate::app::FormView) -> bool {
    &&& parsed_unsigned(trimmed(form.semester), usize::MAX as nat) is Some
    &&& grade_word(lower(trimmed(form.grade))) is Some
    &&& (trimmed(form.potential).len() == 0 || letter_word(lower(trimmed(form.potential))) is Some)
}

/// Saving a valid add form puts the subject it describes, counted in, at the
/// end of the semester whose number the form names, and resumes browsing.
pub proof fn law_add_saves_entries(app: AppView, form: crate::app::FormView, credit: Seq<char>)
    requires
        app.mode == ModeView::Editing(form),
        form.editing is None,
        form_reads(form),
    ensures
        ({
            let (after, r) = submit_step(app, Some(credit));
            let n = parsed_unsigned(trimmed(form.semester), usize::MAX as nat)->0;
            &&& r == Response::Changed
            &&& after.mode is Browsing
            &&& exists|t: int|
                0 <= t < after.semesters.len() && after.semesters[t].number == n
                    && #[trigger] after.semesters[t].subjects.last() == submitted(form, credit, true)
                    && after.semesters[t].subjects.len() > 0
        }),
{
    let n = parsed_unsigned(trimmed(form.semester), usize::MAX as nat)->0;
    let subject = submitted(form, credit, true);
    lemma_inserted_last(app.semesters, n as usize, subject);
    let after = sort_by_number(inserted(app.semesters, n as usize, subject));
    let t = index_of_number(after, n as usize);
    assert(submit_step(app, Some(credit)).0.semesters == after);
    assert(after[t].subjects.last() == subject);
}

/// Saving a valid form that edits the selected subject puts at the selection
/// exactly the subject the form describes, keeping only the edited subject's
/// `included` flag, whether it stays in its semester or moves to another.
pub proof fn law_edit_saves_entries(app: AppView, form: crate::app::FormView, credit: Seq<char>)
    requires
        app.mode == ModeView::Editing(form),
        form.editing == Some(app.selected),
        app.selected < total(app.semesters),
        total(app.semesters) <= usize::MAX,
        form_reads(form),
    ensures
        ({
            let (after, r) = submit_step(app, Some(credit));
            &&& r == Response::Changed
            &&& after.mode is Browsing
            &&& after.selected < all_subjects(after.semesters).len()
            &&& all_subjects(after.semesters)[after.selected as int] == submitted(
                form,
                credit,
                all_subjects(app.semesters)[app.selected as int].included,
            )
        }),
{
    let sems = app.semesters;
    let k = app.selected as int;
    lemma_flat(sems);
    let (si, ui) = flat(sems)[k];
    lemma_all_subjects_index(sems, si, ui);
    let n = parsed_unsigned(trimmed(form.semester), usize::MAX as nat)->0;
    let subject = submitted(form, credit, sems[si].subjects[ui].included);
    let after = submit_step(app, Some(credit)).0;
    assert(potential_entry(trimmed(form.potential)) == Ok::<Option<Grade>, ()>(subject.potential));
    assert(k == offset(sems, si) + ui);
    assert(placed(
        sems,
        app.selected,
        form.editing,
        n as usize,
        trimmed(form.code),
        trimmed(form.name),
        credit,
        subject.result,
        subject.potential,
    ) == (after.semesters, after.selected));
    if sems[si].number == n {
        let x = SemesterView { number: sems[si].number, subjects: sems[si].subjects.update(ui, subject) };
        assert(after.semesters == sems.update(si, x));
        lemma_offset_update(sems, si, x, si);
        lemma_total_update(sems, si, x);
        lemma_all_subjects_index(sems.update(si, x), si, ui);
        assert(sems.update(si, x)[si].subjects[ui] == subject);
        assert(after.selected == app.selected);
    } else {
        let r = removed(sems, si, ui);
        lemma_inserted_last(r, n as usize, subject);
        let s2 = sort_by_number(inserted(r, n as usize, subject));
        let t = index_of_number(s2, n as usize);
        assert(after.semesters == s2);
        lemma_all_subjects_index(s2, t, s2[t].subjects.len() - 1);
        lemma_total_removed(sems, si, ui);
        lemma_total_inserted(r, n as usize, subject);
        lemma_total_sort(inserted(r, n as usize, subject));
        assert(s2[t].subjects[s2[t].subjects.len() - 1] == subject);
        assert(after.selected == offset(s2, t) + s2[t].subjects.len() - 1);
    }
}

/// A potential grade stands in for the actual outcome of an included subject,
/// whatever that outcome is (a letter grade, a pass without one, or a fail),
/// weighted by its credit; without one the actual grade counts; an excluded
/// subject counts in neither average.
pub proof fn law_potential_grade_stands_in(s: SubjectView)
    ensures
        s.included && s.potential is Some ==> potential_grade(s) == Some(
            WeightedGrade { grade: s.potential->0, weight: crate::calculator::credit_weight(s.credit) },
        ),
        s.potential is None ==> potential_grade(s) == actual_grade(s),
        !s.included ==> potential_grade(s) is None && actual_grade(s) is None,
        forall|g: Grade|
            s.included && s.result == Outcome::Passed(Some(g)) ==> actual_grade(s) == Some(
                WeightedGrade { grade: g, weight: crate::calculator::credit_weight(s.credit) },
            ),
        s.included && (s.result == Outcome::Passed(None) || s.result == Outcome::Failed)
            ==> actual_grade(s) is None,
{
}

/// Reading a credit whose whole part is `w` and whose fraction is the one
/// to three digits `frac`.
proof fn lemma_credit_parts(w: nat, frac: Seq<char>)
    requires
        all_digits(frac),
        1 <= frac.len() <= 3,
        w * 1000 + 999 <= u32::MAX,
    ensures
        parsed_credit(decimal(w) + seq!['.'] + frac) == Some(
            w * 1000 + crate::text::milli_of_fraction(frac),
        ),
{
    lemma_decimal(w);
    let t = decimal(w) + seq!['.'] + frac;
    let k = decimal(w).len() as int;
    assert(t[0] == decimal(w)[0]);
    assert(strip_plus(t) == t);
    assert forall|j: int| 0 <= j < k implies t[j] != '.' by {
        assert(t[j] == decimal(w)[j]);
        assert(is_digit(decimal(w)[j]));
    }
    assert(t[k] == '.');
    lemma_first_dot(t, k);
    assert(t.take(k) =~= decimal(w));
    assert(t.skip(k + 1) =~= frac);
    lemma_small_fraction(frac);
}

proof fn lemma_small_fraction(frac: Seq<char>)
    requires
        all_digits(frac),
        1 <= frac.len() <= 3,
    ensures
        crate::text::milli_of_fraction(frac) <= 999,
{
    crate::text::lemma_digits_value_bound(frac);
    if frac.len() <= 2 {
        crate::text::lemma_digits_value_bound_99(frac);
    }
    if frac.len() == 3 {
        assert(frac.take(3) =~= frac);
    }
}

/// Reading a credit with no fractional part.
proof fn lemma_credit_whole(w: nat)
    requires
        w * 1000 <= u32::MAX,
    ensures
        parsed_credit(decimal(w)) == Some(w * 1000),
{
    lemma_decimal(w);
    let d = decimal(w);
    assert(strip_plus(d) == d);
    assert forall|j: int| 0 <= j < d.len() implies d[j] != '.' by {
        assert(is_digit(d[j]));
    }
    lemma_first_dot(d, d.len() as int);
}

/// The value of one, two or three digits.
proof fn lemma_small_digits(a: nat, b: nat, c: nat)
    requires
        a < 10,
        b < 10,
        c < 10,
    ensures
        all_digits(seq![digit_char(a)]),
        all_digits(seq![digit_char(a), digit_char(b)]),
        all_digits(seq![digit_char(a), digit_char(b), digit_char(c)]),
        digits_value(seq![digit_char(a)]) == a,
        digits_value(seq![digit_char(a), digit_char(b)]) == a * 10 + b,
        digits_value(seq![digit_char(a), digit_char(b), digit_char(c)]) == a * 100 + b * 10 + c,
{
    lemma_digit_char(a);
    lemma_digit_char(b);
    lemma_digit_char(c);
    let e = Seq::<char>::empty();
    let f1 = seq![digit_char(a)];
    let f2 = seq![digit_char(a), digit_char(b)];
    let f3 = seq![digit_char(a), digit_char(b), digit_char(c)];
    assert(digits_value(e) == 0);
    assert(f1.drop_last() =~= e);
    assert(f1.last() == digit_char(a));
    assert(digits_value(f1) == a);
    assert(f2.drop_last() =~= f1);
    assert(f2.last() == digit_char(b));
    assert(digits_value(f2) == a * 10 + b);
    assert(f3.drop_last() =~= f2);
    assert(f3.last() == digit_char(c));
    assert(digits_value(f3) == (a * 10 + b) * 10 + c);
}

/// A credit text reads as its decimal value in thousandths: the whole part
/// counts a thousand each, and the digits after the point count by their
/// place: tenths a hundred, hundredths ten, thousandths one.
pub proof fn law_credit_decimal_value(w: nat, a: nat, b: nat, c: nat)
    requires
        a < 10,
        b < 10,
        c < 10,
        w * 1000 + 999 <= u32::MAX,
    ensures
        parsed_credit(decimal(w)) == Some(w * 1000),
        parsed_credit(decimal(w) + seq!['.', digit_char(a)]) == Some(w * 1000 + a * 100),
        parsed_credit(decimal(w) + seq!['.', digit_char(a), digit_char(b)]) == Some(
            w * 1000 + a * 100 + b * 10,
        ),
        parsed_credit(decimal(w) + seq!['.', digit_char(a), digit_char(b), digit_char(c)]) == Some(
            w * 1000 + a * 100 + b * 10 + c,
        ),
{
    lemma_credit_whole(w);
    lemma_credit_tenths(w, a);
    lemma_credit_hundredths(w, a, b);
    lemma_credit_thousandths(w, a, b, c);
}

proof fn lemma_credit_tenths(w: nat, a: nat)
    requires
        a < 10,
        w * 1000 + 999 <= u32::MAX,
    ensures
        parsed_credit(decimal(w) + seq!['.', digit_char(a)]) == Some(w * 1000 + a * 100),
{
    lemma_small_digits(a, 0, 0);
    let f = seq![digit_char(a)];
    lemma_credit_parts(w, f);
    assert(decimal(w) + seq!['.'] + f =~= decimal(w) + seq!['.', digit_char(a)]);
}

proof fn lemma_credit_hundredths(w: nat, a: nat, b: nat)
    requires
        a < 10,
        b < 10,
        w * 1000 + 999 <= u32::MAX,
    ensures
        parsed_credit(decimal(w) + seq!['.', digit_char(a), digit_char(b)]) == Some(
            w * 1000 + a * 100 + b * 10,
        ),
{
    lemma_small_digits(a, b, 0);
    let f = seq![digit_char(a), digit_char(b)];
    lemma_credit_parts(w, f);
    assert(decimal(w) + seq!['.'] + f =~= decimal(w) + seq!['.', digit_char(a), digit_char(b)]);
}

proof fn lemma_credit_thousandths(w: nat, a: nat, b: nat, c: nat)
    requires
        a < 10,
        b < 10,
        c < 10,
        w * 1000 + 999 <= u32::MAX,
    ensures
        parsed_credit(decimal(w) + seq!['.', digit_char(a), digit_char(b), digit_char(c)]) == Some(
            w * 1000 + a * 100 + b * 10 + c,
        ),
{
    lemma_small_digits(a, b, c);
    let f = seq![digit_char(a), digit_char(b), digit_char(c)];
    lemma_credit_parts(w, f);
    assert(f.take(3) =~= f);
    assert(decimal(w) + seq!['.'] + f =~= decimal(w) + seq![
        '.',
        digit_char(a),
        digit_char(b),
        digit_char(c),
    ]);
}

/// Replacing semester `si` replaces its run of subjects in the list of all subjects.
proof fn lemma_all_subjects_update(s: Seq<SemesterView>, si: int, x: SemesterView)
    requires
        0 <= si < s.len(),
    ensures
        offset(s, si) + s[si].subjects.len() <= all_subjects(s).len(),
        all_subjects(s.update(si, x)) == all_subjects(s).subrange(0, offset(s, si) as int)
            + x.subjects + all_subjects(s).subrange(
            (offset(s, si) + s[si].subjects.len()) as int,
            all_subjects(s).len() as int,
        ),
    decreases s.len(),
{
    let p = s.drop_last();
    let last = s.last();
    lemma_flat(s);
    lemma_flat(p);
    if si == s.len() - 1 {
        assert(s.take(si) =~= p);
        assert(s.update(si, x) =~= p.push(x));
        lemma_all_subjects_push(p, x);
        assert(all_subjects(s).subrange(0, offset(s, si) as int) =~= all_subjects(p));
    } else {
        assert(p[si] == s[si]);
        lemma_all_subjects_update(p, si, x);
        assert(s.take(si) =~= p.take(si));
        assert(s.update(si, x) =~= p.update(si, x).push(last));
        lemma_all_subjects_push(p.update(si, x), last);
        let o = offset(s, si) as int;
        let e = (o + s[si].subjects.len()) as int;
        assert(all_subjects(s).subrange(0, o) =~= all_subjects(p).subrange(0, o));
        assert(all_subjects(s).subrange(e, all_subjects(s).len() as int) =~= all_subjects(p).subrange(
            e,
            all_subjects(p).len() as int,
        ) + last.subjects);
    }
}

/// Pressing `t` flips whether the selected subject counts, and changes
/// nothing else: in display order the subjects are those before with only the
/// selected one's `included` flag flipped.
pub proof fn law_toggle_flips_selected(
    app: AppView,
    modifiers: KeyModifiers,
    credit: Option<Seq<char>>,
)
    requires
        app.mode is Browsing,
        app.selected < total(app.semesters),
    ensures
        ({
            let (after, r) = key_step(app, KeyCode::Char('t'), modifiers, credit);
            let k = app.selected as int;
            let old = all_subjects(app.semesters)[k];
            &&& r == Response::Changed
            &&& after.selected == app.selected
            &&& after.mode == app.mode
            &&& all_subjects(after.semesters) == all_subjects(app.semesters).update(
                k,
                SubjectView { included: !old.included, ..old },
            )
        }),
{
    let sems = app.semesters;
    let k = app.selected as int;
    lemma_flat(sems);
    let (si, ui) = flat(sems)[k];
    lemma_all_subjects_index(sems, si, ui);
    let t = sems[si].subjects[ui];
    let x = SemesterView {
        number: sems[si].number,
        subjects: sems[si].subjects.update(ui, SubjectView { included: !t.included, ..t }),
    };
    lemma_all_subjects_update(sems, si, x);
    let all = all_subjects(sems);
    let o = offset(sems, si) as int;
    let e = (o + sems[si].subjects.len()) as int;
    assert(all.subrange(0, o) + x.subjects + all.subrange(e, all.len() as int)
        =~= all.update(k, SubjectView { included: !t.included, ..t })) by {
        assert(all.subrange(0, o) + sems[si].subjects + all.subrange(e, all.len() as int) =~= all) by {
            assert forall|j: int| o <= j < o + sems[si].subjects.len() implies all[j]
                == sems[si].subjects[j - o] by {
                lemma_all_subjects_index(sems, si, j - o);
            }
        }
    }
}

/// Shift+Down swaps the selected subject with the next one in its semester
/// and moves the selection with it: in display order the two subjects trade
/// places and nothing else changes. At the end of a semester nothing changes.
pub proof fn law_move_down_swaps(app: AppView)
    requires
        app.selected < total(app.semesters),
        total(app.semesters) <= usize::MAX,
    ensures
        ({
            let (after, r) = move_step(app, true);
            let k = app.selected as int;
            let all = all_subjects(app.semesters);
            r == Response::Changed ==> {
                &&& k + 1 < all.len()
                &&& after.selected == k + 1
                &&& all_subjects(after.semesters) == all.update(k, all[k + 1]).update(k + 1, all[k])
            }
        }),
        move_step(app, true).1 != Response::Changed ==> move_step(app, true).0 == app,
{
    let sems = app.semesters;
    let k = app.selected as int;
    lemma_flat(sems);
    let (si, ui) = flat(sems)[k];
    let subjects = sems[si].subjects;
    if ui + 1 < subjects.len() {
        lemma_all_subjects_index(sems, si, ui);
        lemma_all_subjects_index(sems, si, ui + 1);
        let swapped = subjects.update(ui, subjects[ui + 1]).update(ui + 1, subjects[ui]);
        let x = SemesterView { number: sems[si].number, subjects: swapped };
        lemma_all_subjects_update(sems, si, x);
        let all = all_subjects(sems);
        let o = offset(sems, si) as int;
        let e = (o + subjects.len()) as int;
        assert(all.subrange(0, o) + subjects + all.subrange(e, all.len() as int) =~= all) by {
            assert forall|j: int| o <= j < o + subjects.len() implies all[j] == subjects[j - o] by {
                lemma_all_subjects_index(sems, si, j - o);
            }
        }
        assert(all.subrange(0, o) + swapped + all.subrange(e, all.len() as int) =~= all.update(
            k,
            all[k + 1],
        ).update(k + 1, all[k]));
    }
}

/// Shift+Up swaps the selected subject with the previous one in its semester
/// and moves the selection with it: in display order the two subjects trade
/// places and nothing else changes. At the start of a semester nothing changes.
pub proof fn law_move_up_swaps(app: AppView)
    requires
        app.selected < total(app.semesters),
    ensures
        ({
            let (after, r) = move_step(app, false);
            let k = app.selected as int;
            let all = all_subjects(app.semesters);
            r == Response::Changed ==> {
                &&& 0 < k
                &&& after.selected == k - 1
                &&& all_subjects(after.semesters) == all.update(k, all[k - 1]).update(k - 1, all[k])
            }
        }),
        move_step(app, false).1 != Response::Changed ==> move_step(app, false).0 == app,
{
    let sems = app.semesters;
    let k = app.selected as int;
    lemma_flat(sems);
    let (si, ui) = flat(sems)[k];
    let subjects = sems[si].subjects;
    if ui > 0 {
        lemma_all_subjects_index(sems, si, ui);
        lemma_all_subjects_index(sems, si, ui - 1);
        let swapped = subjects.update(ui, subjects[ui - 1]).update(ui - 1, subjects[ui]);
        let x = SemesterView { number: sems[si].number, subjects: swapped };
        lemma_all_subjects_update(sems, si, x);
        let all = all_subjects(sems);
        let o = offset(sems, si) as int;
        let e = (o + subjects.len()) as int;
        assert(all.subrange(0, o) + subjects + all.subrange(e, all.len() as int) =~= all) by {
            assert forall|j: int| o <= j < o + subjects.len() implies all[j] == subjects[j - o] by {
                lemma_all_subjects_index(sems, si, j - o);
            }
        }
        assert(all.subrange(0, o) + swapped + all.subrange(e, all.len() as int) =~= all.update(
            k,
            all[k - 1],
        ).update(k - 1, all[k]));
    }
}

/// The grade points: A counts 5, B 4, C 3, D 2, E 1.
pub proof fn law_grade_points()
    ensures
        grade_points(Grade::A) == 5,
        grade_points(Grade::B) == 4,
        grade_points(Grade::C) == 3,
        grade_points(Grade::D) == 2,
        grade_points(Grade::E) == 1,
{
}

/// Adding a grade to a list adds its points times its weight to the
/// weighted points, and its weight to the total weight.
pub proof fn law_average_sums_grow(g: Seq<WeightedGrade>, x: WeightedGrade)
    ensures
        points_sum(g.push(x)) == points_sum(g) + grade_points(x.grade) * x.weight,
        weight_sum(g.push(x)) == weight_sum(g) + x.weight,
{
    assert(g.push(x).drop_last() =~= g);
}

/// Which credits the totals count: a subject's credit counts as earned
/// exactly when it is included and not failed, and in the projection also
/// when it is included, failed, and has a potential grade.
pub proof fn law_credit_totals_count(s: Seq<SubjectView>, x: SubjectView)
    ensures
        credit_sum(s.push(x), |y: SubjectView| counts_valid(y)) == credit_sum(
            s,
            |y: SubjectView| counts_valid(y),
        ) + if x.included && x.result != Outcome::Failed {
            crate::calculator::credit_weight(x.credit) as nat
        } else {
            0
        },
        credit_sum(s.push(x), |y: SubjectView| counts_potentially_valid(y)) == credit_sum(
            s,
            |y: SubjectView| counts_potentially_valid(y),
        ) + if x.included && (x.result != Outcome::Failed || x.potential is Some) {
            crate::calculator::credit_weight(x.credit) as nat
        } else {
            0
        },
{
    assert(s.push(x).drop_last() =~= s);
}

} // verus!
