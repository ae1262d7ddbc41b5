//! Character and string helpers: ASCII case, decimal numbers.

use vstd::prelude::*;
use vstd::string::*;

verus! {

/// `c` with ASCII `A`..`Z` mapped to `a`..`z`; every other character unchanged.
pub open spec fn lower_char(c: char) -> char {
    if 'A' <= c && c <= 'Z' {
        ((c as u32) + 32) as char
    } else {
        c
    }
}

/// `c` with ASCII `a`..`z` mapped to `A`..`Z`; every other character unchanged.
pub open spec fn upper_char(c: char) -> char {
    if 'a' <= c && c <= 'z' {
        ((c as u32) - 32) as char
    } else {
        c
    }
}

/// The ASCII lower-case form of a string.
pub open spec fn lower(s: Seq<char>) -> Seq<char> {
    s.map_values(|c: char| lower_char(c))
}

pub fn to_ascii_lowercase(c: char) -> (r: char)
    ensures
        r == lower_char(c),
{
    if 'A' <= c && c <= 'Z' {
        ((c as u8) + 32) as char
    } else {
        c
    }
}

pub fn to_ascii_uppercase(c: char) -> (r: char)
    ensures
        r == upper_char(c),
{
    if 'a' <= c && c <= 'z' {
        ((c as u8) - 32) as char
    } else {
        c
    }
}

/// Whether `s`, lower-cased in ASCII, is exactly `word`.
pub fn lower_equals(s: &str, word: &str) -> (r: bool)
    ensures
        r == (lower(s@) == word@),
{
    let n = s.unicode_len();
    let m = word.unicode_len();
    if n != m {
        return false;
    }
    let mut i: usize = 0;
    while i < n
        invariant
            n == s@.len(),
            m == word@.len(),
            n == m,
            i <= n,
            forall|k: int| 0 <= k < i ==> lower_char(#[trigger] s@[k]) == word@[k],
        decreases n - i,
    {
        let c = to_ascii_lowercase(s.get_char(i));
        if c != word.get_char(i) {
            assert(lower(s@)[i as int] != word@[i as int]);
            return false;
        }
        i = i + 1;
    }
    assert(lower(s@) =~= word@);
    true
}

/// The characters of a string, in order.
pub fn chars_of(s: &str) -> (v: Vec<char>)
    ensures
        v@ == s@,
{
    broadcast use vstd::string::group_string_axioms;
    let mut v: Vec<char> = Vec::new();
    for c in it: s.chars()
        invariant
            it.seq() == s@,
            v@ == s@.take(it.index() as int),
    {
        v.push(c);
    }
    v
}


/// Whether `c` is an ASCII decimal digit.
pub open spec fn is_digit(c: char) -> bool {
    '0' <= c && c <= '9'
}

/// The value of an ASCII digit.
pub open spec fn digit_value(c: char) -> nat {
    ((c as u32) - ('0' as u32)) as nat
}

/// The digit character for a value below ten.
pub open spec fn digit_char(d: nat) -> char {
    (('0' as u32) + d) as char
}

/// Every character of `s` is an ASCII digit.
pub open spec fn all_digits(s: Seq<char>) -> bool {
    forall|i: int| 0 <= i < s.len() ==> is_digit(#[trigger] s[i])
}

/// The number that a string of decimal digits denotes (0 for the empty string).
pub open spec fn digits_value(s: Seq<char>) -> nat
    decreases s.len(),
{
    if s.len() == 0 {
        0
    } else {
        digits_value(s.drop_last()) * 10 + digit_value(s.last())
    }
}

/// The decimal numeral of `n`, without sign or leading zeros.
pub open spec fn decimal(n: nat) -> Seq<char>
    decreases n,
{
    if n < 10 {
        seq![digit_char(n)]
    } else {
        decimal(n / 10).push(digit_char(n % 10))
    }
}

/// `s` without one leading `+`, if it has one.
pub open spec fn strip_plus(s: Seq<char>) -> Seq<char> {
    if s.len() > 0 && s[0] == '+' {
        s.drop_first()
    } else {
        s
    }
}

/// The unsigned number that `s` denotes when read as a decimal integer with
/// an optional leading `+`, if it denotes one that is at most `max`.
pub open spec fn parsed_unsigned(s: Seq<char>, max: nat) -> Option<nat> {
    let d = strip_plus(s);
    if d.len() > 0 && all_digits(d) && digits_value(d) <= max {
        Some(digits_value(d))
    } else {
        None
    }
}

pub proof fn lemma_digit_char(d: nat)
    requires
        d < 10,
    ensures
        is_digit(digit_char(d)),
        digit_value(digit_char(d)) == d,
        digit_char(d) != '.',
        digit_char(d) != '+',
{
}

pub proof fn lemma_digits_value_prefix(s: Seq<char>, k: int)
    requires
        all_digits(s),
        0 <= k <= s.len(),
    ensures
        digits_value(s.take(k)) <= digits_value(s),
    decreases s.len(),
{
    if k < s.len() {
        assert(s.drop_last().take(k) =~= s.take(k));
        lemma_digits_value_prefix(s.drop_last(), k);
    } else {
        assert(s.take(k) =~= s);
    }
}

/// The decimal numeral of `n` is a non-empty string of digits that denotes `n`.
pub proof fn lemma_decimal(n: nat)
    ensures
        decimal(n).len() > 0,
        all_digits(decimal(n)),
        digits_value(decimal(n)) == n,
        decimal(n)[0] != '+',
    decreases n,
{
    if n < 10 {
        lemma_digit_char(n);
        assert(decimal(n).drop_last() =~= Seq::<char>::empty());
        assert(digits_value(Seq::<char>::empty()) == 0);
    } else {
        lemma_decimal(n / 10);
        lemma_digit_char(n % 10);
        assert(decimal(n).drop_last() =~= decimal(n / 10));
        assert(n == (n / 10) * 10 + n % 10);
    }
}

/// Reads the digits `cs[from..to]`: their value when every one is a digit
/// and the value is at most `cap`, else `None`.
fn parse_digits(cs: &Vec<char>, from: usize, to: usize, cap: u64) -> (r: Option<u64>)
    requires
        from <= to <= cs@.len(),
    ensures
        match r {
            Some(v) => all_digits(cs@.subrange(from as int, to as int)) && v == digits_value(
                cs@.subrange(from as int, to as int),
            ) && v <= cap,
            None => !(all_digits(cs@.subrange(from as int, to as int)) && digits_value(
                cs@.subrange(from as int, to as int),
            ) <= cap),
        },
{
    let mut acc: u64 = 0;
    let mut i: usize = from;
    while i < to
        invariant
            from <= i <= to <= cs@.len(),
            all_digits(cs@.subrange(from as int, i as int)),
            acc == digits_value(cs@.subrange(from as int, i as int)),
            acc <= cap,
        decreases to - i,
    {
        let ghost whole = cs@.subrange(from as int, to as int);
        let ghost next = cs@.subrange(from as int, i + 1);
        assert(next.drop_last() =~= cs@.subrange(from as int, i as int));
        assert(next[next.len() - 1] == cs@[i as int]);
        let c = cs[i];
        if !('0' <= c && c <= '9') {
            assert(!is_digit(whole[i - from]));
            return None;
        }
        let d = ((c as u32) - ('0' as u32)) as u64;
        assert(all_digits(next));
        assert(digits_value(next) == acc * 10 + d);
        if d > cap || acc > (cap - d) / 10 {
            proof {
                if d <= cap {
                    assert(acc * 10 + d > cap) by (nonlinear_arith)
                        requires
                            acc > (cap - d) / 10,
                            d <= cap,
                    ;
                }
                if all_digits(whole) {
                    assert(whole.take(i + 1 - from) =~= next);
                    lemma_digits_value_prefix(whole, i + 1 - from);
                }
            }
            return None;
        }
        assert(acc * 10 + d <= cap) by (nonlinear_arith)
            requires
                acc <= (cap - d) / 10,
                d <= cap,
        ;
        acc = acc * 10 + d;
        i = i + 1;
    }
    Some(acc)
}


/// Reads a `usize` the way `str::parse::<usize>` does: an optional `+`, then
/// one or more ASCII digits whose value fits in a `usize`.
pub fn parse_usize(s: &str) -> (r: Option<usize>)
    ensures
        match parsed_unsigned(s@, usize::MAX as nat) {
            Some(v) => r == Some(v as usize),
            None => r is None,
        },
{
    let cs = chars_of(s);
    let start: usize = if cs.len() > 0 && cs[0] == '+' {
        1
    } else {
        0
    };
    assert(strip_plus(s@) =~= cs@.subrange(start as int, cs@.len() as int));
    if start == cs.len() {
        return None;
    }
    match parse_digits(&cs, start, cs.len(), usize::MAX as u64) {
        Some(v) => Some(v as usize),
        None => None,
    }
}

/// Appends one character to a string (`String::push`).
#[verifier::external_body]
pub fn push_char(s: &mut String, c: char)
    ensures
        final(s)@ == old(s)@.push(c),
{
    s.push(c);
}

/// Removes the last character of a string, if any (`String::pop`).
#[verifier::external_body]
pub fn pop_char(s: &mut String) -> (r: Option<char>)
    ensures
        old(s)@.len() == 0 ==> r is None && final(s)@ == old(s)@,
        old(s)@.len() > 0 ==> r == Some(old(s)@.last()) && final(s)@ == old(s)@.drop_last(),
{
    s.pop()
}

fn digit(d: u64) -> (c: char)
    requires
        d < 10,
    ensures
        c == digit_char(d as nat),
{
    ((('0' as u32) as u64 + d) as u8) as char
}

/// Appends the decimal numeral of `n`.
pub fn push_decimal(out: &mut String, n: u64)
    ensures
        final(out)@ == old(out)@ + decimal(n as nat),
    decreases n,
{
    if n >= 10 {
        push_decimal(out, n / 10);
    }
    push_char(out, digit(n % 10));
    proof {
        if n < 10 {
            assert(n % 10 == n);
        }
    }
    assert(out@ =~= old(out)@ + decimal(n as nat)) by {
        if n >= 10 {
            assert(decimal(n as nat) == decimal((n / 10) as nat).push(digit_char((n % 10) as nat)));
        }
    }
}

/// The decimal numeral of `n` (what `n.to_string()` gives).
pub fn format_usize(n: usize) -> (r: String)
    ensures
        r@ == decimal(n as nat),
{
    let mut out = String::new();
    push_decimal(&mut out, n as u64);
    assert(out@ =~= decimal(n as nat));
    out
}


/// The position of the first `.` in `t`, or its length when it has none.
pub open spec fn first_dot(t: Seq<char>) -> nat
    decreases t.len(),
{
    if t.len() == 0 {
        0
    } else if t[0] == '.' {
        0
    } else {
        1 + first_dot(t.drop_first())
    }
}

/// Thousandths denoted by the digits after a decimal point; digits past the
/// third are not counted.
pub open spec fn milli_of_fraction(f: Seq<char>) -> nat {
    if f.len() >= 3 {
        digits_value(f.take(3))
    } else if f.len() == 2 {
        digits_value(f) * 10
    } else if f.len() == 1 {
        digits_value(f) * 100
    } else {
        0
    }
}

/// The credit, in thousandths, written with the digits `whole` before the
/// point and `frac` after it: at least one digit in all, only digits, no
/// non-zero digit past the third after the point, and a value that fits in a `u32`.
pub open spec fn credit_of_parts(whole: Seq<char>, frac: Seq<char>) -> Option<nat> {
    let value = digits_value(whole) * 1000 + milli_of_fraction(frac);
    if whole.len() + frac.len() > 0 && all_digits(whole) && all_digits(frac) && (forall|i: int|
        3 <= i < frac.len() ==> frac[i] == '0') && value <= u32::MAX {
        Some(value)
    } else {
        None
    }
}

/// The credit, in thousandths of an ECTS credit, that `s` denotes as an
/// unsigned decimal number (`7.5`, `10`, `.5`, `5.`, with an optional `+`),
/// if it denotes one that is a whole number of thousandths and fits in a `u32`.
pub open spec fn parsed_credit(s: Seq<char>) -> Option<nat> {
    let t = strip_plus(s);
    let k = first_dot(t) as int;
    if k < t.len() {
        credit_of_parts(t.take(k), t.skip(k + 1))
    } else {
        credit_of_parts(t, Seq::<char>::empty())
    }
}

pub proof fn lemma_first_dot(t: Seq<char>, k: int)
    requires
        0 <= k <= t.len(),
        forall|j: int| 0 <= j < k ==> t[j] != '.',
        k == t.len() || t[k] == '.',
    ensures
        first_dot(t) == k,
    decreases k,
{
    if k > 0 {
        lemma_first_dot(t.drop_first(), k - 1);
    }
}

/// Whether `cs[from..to]` holds only digits, and only zeros past its third.
fn fraction_ok(cs: &Vec<char>, from: usize, to: usize) -> (r: bool)
    requires
        from <= to <= cs@.len(),
    ensures
        r == (all_digits(cs@.subrange(from as int, to as int)) && (forall|i: int|
            3 <= i < to - from ==> cs@.subrange(from as int, to as int)[i] == '0')),
{
    let ghost frac = cs@.subrange(from as int, to as int);
    let mut i: usize = from;
    while i < to
        invariant
            from <= i <= to <= cs@.len(),
            frac == cs@.subrange(from as int, to as int),
            forall|j: int| 0 <= j < i - from ==> is_digit(#[trigger] frac[j]),
            forall|j: int| 3 <= j < i - from ==> #[trigger] frac[j] == '0',
        decreases to - i,
    {
        let c = cs[i];
        assert(frac[i - from] == c);
        if !('0' <= c && c <= '9') {
            return false;
        }
        if i - from >= 3 && c != '0' {
            return false;
        }
        i = i + 1;
    }
    true
}

/// The credit written with the digits `cs[ws..we]` before the point and
/// `cs[fs..fe]` after it (see `credit_of_parts`).
fn credit_from_parts(cs: &Vec<char>, ws: usize, we: usize, fs: usize, fe: usize) -> (r: Option<u32>)
    requires
        ws <= we <= cs@.len(),
        fs <= fe <= cs@.len(),
    ensures
        match credit_of_parts(
            cs@.subrange(ws as int, we as int),
            cs@.subrange(fs as int, fe as int),
        ) {
            Some(v) => r == Some(v as u32),
            None => r is None,
        },
{
    let ghost whole = cs@.subrange(ws as int, we as int);
    let ghost frac = cs@.subrange(fs as int, fe as int);
    if we == ws && fe == fs {
        return None;
    }
    let w = match parse_digits(cs, ws, we, 4294967) {
        Some(w) => w,
        None => {
            return None;
        },
    };
    if !fraction_ok(cs, fs, fe) {
        return None;
    }
    let len3: usize = if fe - fs >= 3 {
        3
    } else {
        fe - fs
    };
    let ghost head = cs@.subrange(fs as int, (fs + len3) as int);
    assert(all_digits(head)) by {
        assert forall|j: int| 0 <= j < head.len() implies is_digit(#[trigger] head[j]) by {
            assert(head[j] == frac[j]);
        }
    }
    proof {
        lemma_digits_value_bound(head);
    }
    let f = match parse_digits(cs, fs, fs + len3, 999) {
        Some(f) => f,
        None => {
            return None;
        },
    };
    if len3 == 3 {
        assert(frac.take(3) =~= head);
    } else {
        assert(frac =~= head);
    }
    let milli: u64 = if len3 == 3 {
        f
    } else if len3 == 2 {
        f * 10
    } else if len3 == 1 {
        f * 100
    } else {
        0
    };
    assert(milli == milli_of_fraction(frac));
    let value = w * 1000 + milli;
    if value > 4294967295 {
        return None;
    }
    Some(value as u32)
}

/// Reads a credit text as whole thousandths: see `parsed_credit`.
pub fn parse_credit(s: &str) -> (r: Option<u32>)
    ensures
        match parsed_credit(s@) {
            Some(v) => r == Some(v as u32),
            None => r is None,
        },
{
    let cs = chars_of(s);
    let n = cs.len();
    let start: usize = if n > 0 && cs[0] == '+' {
        1
    } else {
        0
    };
    let ghost t = strip_plus(s@);
    assert(t =~= cs@.subrange(start as int, n as int));
    let mut k: usize = start;
    while k < n && cs[k] != '.'
        invariant
            start <= k <= n == cs@.len(),
            forall|j: int| start <= j < k ==> cs@[j] != '.',
        decreases n - k,
    {
        k = k + 1;
    }
    proof {
        lemma_first_dot(t, k - start);
    }
    assert(t.take(k - start) =~= cs@.subrange(start as int, k as int));
    if k < n {
        assert(t.skip(k - start + 1) =~= cs@.subrange(k + 1, n as int));
        credit_from_parts(&cs, start, k, k + 1, n)
    } else {
        assert(t =~= cs@.subrange(start as int, k as int));
        assert(Seq::<char>::empty() =~= cs@.subrange(n as int, n as int));
        credit_from_parts(&cs, start, k, n, n)
    }
}

pub proof fn lemma_digits_value_bound(s: Seq<char>)
    requires
        all_digits(s),
        s.len() <= 3,
    ensures
        digits_value(s) <= 999,
    decreases s.len(),
{
    if s.len() > 0 {
        lemma_digits_value_bound(s.drop_last());
        let a = digits_value(s.drop_last());
        if s.len() == 1 {
            assert(s.drop_last().len() == 0);
            assert(a == 0);
        } else if s.len() == 2 {
            lemma_digits_value_bound_99(s.drop_last());
        } else {
            lemma_digits_value_bound_99(s.drop_last());
        }
    }
}

pub proof fn lemma_digits_value_bound_99(s: Seq<char>)
    requires
        all_digits(s),
        s.len() <= 2,
    ensures
        digits_value(s) <= 99,
        s.len() <= 1 ==> digits_value(s) <= 9,
    decreases s.len(),
{
    if s.len() > 0 {
        lemma_digits_value_bound_99(s.drop_last());
        assert(s.drop_last().len() == 0 ==> digits_value(s.drop_last()) == 0);
    }
}


/// Reading back the decimal numeral of a number gives that number.
pub proof fn lemma_parse_decimal(n: nat, max: nat)
    requires
        n <= max,
    ensures
        parsed_unsigned(decimal(n), max) == Some(n),
{
    lemma_decimal(n);
}


/// Whether `a` comes strictly before `b` in the order of `str`: by the first
/// differing character, a proper prefix first.
pub open spec fn seq_less(a: Seq<char>, b: Seq<char>) -> bool
    decreases a.len(),
{
    if a.len() == 0 {
        b.len() > 0
    } else if b.len() == 0 {
        false
    } else if a[0] != b[0] {
        a[0] < b[0]
    } else {
        seq_less(a.drop_first(), b.drop_first())
    }
}

pub proof fn lemma_seq_less_irreflexive(a: Seq<char>)
    ensures
        !seq_less(a, a),
    decreases a.len(),
{
    if a.len() > 0 {
        lemma_seq_less_irreflexive(a.drop_first());
    }
}

pub proof fn lemma_seq_less_total(a: Seq<char>, b: Seq<char>)
    ensures
        a != b ==> seq_less(a, b) || seq_less(b, a),
        !(seq_less(a, b) && seq_less(b, a)),
    decreases a.len(),
{
    if a.len() > 0 && b.len() > 0 && a[0] == b[0] {
        lemma_seq_less_total(a.drop_first(), b.drop_first());
        if a != b {
            assert(a =~= seq![a[0]] + a.drop_first());
            assert(b =~= seq![b[0]] + b.drop_first());
        }
    } else if a.len() == 0 && b.len() == 0 {
        assert(a =~= b);
    }
}

pub proof fn lemma_seq_less_transitive(a: Seq<char>, b: Seq<char>, c: Seq<char>)
    requires
        seq_less(a, b),
        seq_less(b, c),
    ensures
        seq_less(a, c),
    decreases a.len(),
{
    if a.len() > 0 && b.len() > 0 && c.len() > 0 && a[0] == b[0] && b[0] == c[0] {
        lemma_seq_less_transitive(a.drop_first(), b.drop_first(), c.drop_first());
    }
}

/// Whether `a` comes strictly before `b` (see `seq_less`).
pub fn str_less(a: &str, b: &str) -> (r: bool)
    ensures
        r == seq_less(a@, b@),
{
    let x = chars_of(a);
    let y = chars_of(b);
    let mut i: usize = 0;
    assert(x@.skip(0) =~= a@);
    assert(y@.skip(0) =~= b@);
    while i < x.len() && i < y.len() && x[i] == y[i]
        invariant
            i <= x@.len(),
            i <= y@.len(),
            seq_less(a@, b@) == seq_less(x@.skip(i as int), y@.skip(i as int)),
        decreases x@.len() - i,
    {
        assert(x@.skip(i as int).drop_first() =~= x@.skip(i + 1));
        assert(y@.skip(i as int).drop_first() =~= y@.skip(i + 1));
        i = i + 1;
    }
    if i < x.len() && i < y.len() {
        assert(x@.skip(i as int)[0] == x@[i as int]);
        assert(y@.skip(i as int)[0] == y@[i as int]);
        x[i] < y[i]
    } else {
        i < y.len()
    }
}

/// Whether `s` begins with `prefix`.
pub fn starts_with(s: &str, prefix: &str) -> (r: bool)
    ensures
        r == (prefix@.len() <= s@.len() && s@.take(prefix@.len() as int) == prefix@),
{
    let n = s.unicode_len();
    let m = prefix.unicode_len();
    if m > n {
        return false;
    }
    let mut i: usize = 0;
    while i < m
        invariant
            n == s@.len(),
            m == prefix@.len(),
            m <= n,
            i <= m,
            forall|k: int| 0 <= k < i ==> s@[k] == prefix@[k],
        decreases m - i,
    {
        if s.get_char(i) != prefix.get_char(i) {
            assert(s@.take(m as int)[i as int] != prefix@[i as int]);
            return false;
        }
        i = i + 1;
    }
    assert(s@.take(m as int) =~= prefix@);
    true
}


/// Whether `c` has the Unicode `White_Space` property (`char::is_whitespace`).
pub open spec fn is_white_space(c: char) -> bool {
    ('\u{9}' <= c && c <= '\u{d}') || c == ' ' || c == '\u{85}' || c == '\u{a0}' || c
        == '\u{1680}' || ('\u{2000}' <= c && c <= '\u{200a}') || c == '\u{2028}' || c
        == '\u{2029}' || c == '\u{202f}' || c == '\u{205f}' || c == '\u{3000}'
}

/// `s` without its leading white space.
pub open spec fn trim_start(s: Seq<char>) -> Seq<char>
    decreases s.len(),
{
    if s.len() > 0 && is_white_space(s[0]) {
        trim_start(s.drop_first())
    } else {
        s
    }
}

/// `s` without its trailing white space.
pub open spec fn trim_end(s: Seq<char>) -> Seq<char>
    decreases s.len(),
{
    if s.len() > 0 && is_white_space(s.last()) {
        trim_end(s.drop_last())
    } else {
        s
    }
}

/// `s` without its leading and trailing white space (`str::trim`).
pub open spec fn trimmed(s: Seq<char>) -> Seq<char> {
    trim_end(trim_start(s))
}

/// Text that neither starts nor ends with white space is its own trimmed form.
pub proof fn lemma_trimmed_unchanged(t: Seq<char>)
    requires
        t.len() > 0 ==> !is_white_space(t[0]) && !is_white_space(t.last()),
    ensures
        trimmed(t) == t,
{
}

/// ASCII lower case ignores a prior ASCII upper-casing.
pub proof fn lemma_lower_upper(t: Seq<char>)
    ensures
        lower(upper(t)) == lower(t),
{
    assert forall|i: int| 0 <= i < t.len() implies lower_char(upper_char(t[i])) == lower_char(
        t[i],
    ) by {
        let c = t[i];
        if 'a' <= c && c <= 'z' {
            assert((((c as u32) - 32) as char) as u32 == (c as u32) - 32);
        }
    }
    assert(lower(upper(t)) =~= lower(t));
}

fn white_space(c: char) -> (r: bool)
    ensures
        r == is_white_space(c),
{
    ('\u{9}' <= c && c <= '\u{d}') || c == ' ' || c == '\u{85}' || c == '\u{a0}' || c
        == '\u{1680}' || ('\u{2000}' <= c && c <= '\u{200a}') || c == '\u{2028}' || c
        == '\u{2029}' || c == '\u{202f}' || c == '\u{205f}' || c == '\u{3000}'
}

proof fn lemma_trim_start(s: Seq<char>, a: int)
    requires
        0 <= a <= s.len(),
        forall|k: int| 0 <= k < a ==> is_white_space(#[trigger] s[k]),
        a == s.len() || !is_white_space(s[a]),
    ensures
        trim_start(s) == s.skip(a),
    decreases a,
{
    if a > 0 {
        lemma_trim_start(s.drop_first(), a - 1);
        assert(s.drop_first().skip(a - 1) =~= s.skip(a));
    } else {
        assert(s.skip(0) =~= s);
    }
}

proof fn lemma_trim_end(s: Seq<char>, b: int)
    requires
        0 <= b <= s.len(),
        forall|k: int| b <= k < s.len() ==> is_white_space(#[trigger] s[k]),
        b == 0 || !is_white_space(s[b - 1]),
    ensures
        trim_end(s) == s.take(b),
    decreases s.len() - b,
{
    if b < s.len() {
        lemma_trim_end(s.drop_last(), b);
        assert(s.drop_last().take(b) =~= s.take(b));
    } else {
        assert(s.take(b) =~= s);
    }
}

/// `s` without leading and trailing white space, as a new string.
pub fn trim(s: &str) -> (r: String)
    ensures
        r@ == trimmed(s@),
{
    let cs = chars_of(s);
    let n = cs.len();
    let mut a: usize = 0;
    while a < n && white_space(cs[a])
        invariant
            a <= n == cs@.len(),
            forall|k: int| 0 <= k < a ==> is_white_space(#[trigger] cs@[k]),
        decreases n - a,
    {
        a = a + 1;
    }
    proof {
        lemma_trim_start(s@, a as int);
    }
    let mut b: usize = n;
    while b > a && white_space(cs[b - 1])
        invariant
            a <= b <= n == cs@.len(),
            forall|k: int| b <= k < n ==> is_white_space(#[trigger] cs@[k]),
        decreases b,
    {
        b = b - 1;
    }
    let ghost rest = s@.skip(a as int);
    proof {
        assert forall|k: int| b - a <= k < rest.len() implies is_white_space(#[trigger] rest[k]) by {
            assert(rest[k] == cs@[a + k]);
        }
        if b > a {
            assert(rest[b - a - 1] == cs@[b - 1]);
        }
        lemma_trim_end(rest, b - a);
        assert(rest.take(b - a) =~= s@.subrange(a as int, b as int));
    }
    String::from_str(s.substring_char(a, b))
}

/// The upper-case form of a string under Unicode case mapping, as
/// `str::to_uppercase` computes it.
pub uninterp spec fn unicode_uppercase(s: Seq<char>) -> Seq<char>;

/// `str::to_uppercase`: the Unicode upper-case form of `s`. Its result is
/// a function of `s` alone, named `unicode_uppercase`. Of that form only one
/// thing is stated: on a string of ASCII characters it is the ASCII upper-case
/// form (ASCII letters have their ASCII capitals as Unicode upper case, and
/// every other ASCII character maps to itself).
#[verifier::external_body]
pub fn to_uppercase(s: &str) -> (r: String)
    ensures
        r@ == unicode_uppercase(s@),
        (forall|i: int| 0 <= i < s@.len() ==> s@[i] <= '\u{7f}') ==> r@ == upper(s@),
{
    s.to_uppercase()
}

/// The ASCII upper-case form of a string.
pub open spec fn upper(s: Seq<char>) -> Seq<char> {
    s.map_values(|c: char| upper_char(c))
}

/// `s` with ASCII letters in upper case.
pub fn to_ascii_uppercase_string(s: &str) -> (r: String)
    ensures
        r@ == upper(s@),
{
    let cs = chars_of(s);
    let mut out = String::new();
    let mut i: usize = 0;
    while i < cs.len()
        invariant
            i <= cs@.len(),
            cs@ == s@,
            out@ =~= upper(s@).take(i as int),
        decreases cs@.len() - i,
    {
        push_char(&mut out, to_ascii_uppercase(cs[i]));
        i = i + 1;
    }
    out
}

} // verus!
