use vstd::prelude::*;

use vstd::string::*;

use crate::value::{Node, Value};

verus! {

pub open spec fn is_digit(c: char) -> bool {
    '0' <= c && c <= '9'
}

/// Letters and digits (ASCII), underscore and space.
pub open spec fn is_key_char(c: char) -> bool {
    ('a' <= c && c <= 'z') || ('A' <= c && c <= 'Z') || is_digit(c) || c == '_' || c == ' '
}

pub open spec fn all_digits(t: Seq<char>) -> bool {
    t.len() > 0 && forall|i: int| 0 <= i < t.len() ==> is_digit(#[trigger] t[i])
}

/// Digits, optionally followed by a point and more digits.
pub open spec fn is_unsigned_decimal(t: Seq<char>) -> bool {
    all_digits(t) || exists|k: int|
        0 < k < t.len() && #[trigger] t[k] == '.' && all_digits(t.take(k)) && all_digits(
            t.skip(k + 1),
        )
}

/// A number literal: an optional sign, then an unsigned decimal.
pub open spec fn is_number(t: Seq<char>) -> bool {
    if t.len() > 0 && (t[0] == '+' || t[0] == '-') {
        is_unsigned_decimal(t.skip(1))
    } else {
        is_unsigned_decimal(t)
    }
}

/// `"..."` on one line, where every inner double quote is preceded by a
/// backslash, and the closing one is not.
pub open spec fn is_double_quoted(t: Seq<char>) -> bool {
    &&& t.len() >= 2
    &&& t[0] == '"'
    &&& t[t.len() - 1] == '"'
    &&& t[t.len() - 2] != '\\'
    &&& forall|i: int| 1 <= i < t.len() - 1 && #[trigger] t[i] == '"' ==> t[i - 1] == '\\'
    &&& forall|i: int| 1 <= i < t.len() - 1 ==> #[trigger] t[i] != '\n'
}

/// `'...'` on one line, with no single quote inside.
pub open spec fn is_single_quoted(t: Seq<char>) -> bool {
    &&& t.len() >= 2
    &&& t[0] == '\''
    &&& t[t.len() - 1] == '\''
    &&& forall|i: int| 1 <= i < t.len() - 1 ==> #[trigger] t[i] != '\'' && t[i] != '\n'
}

pub open spec fn true_text() -> Seq<char> {
    seq!['t', 'r', 'u', 'e']
}

pub open spec fn false_text() -> Seq<char> {
    seq!['f', 'a', 'l', 's', 'e']
}

/// The scalar that the whole of `t` denotes, tried in the order
/// string, number, boolean.
pub open spec fn scalar_of(t: Seq<char>) -> Option<Node> {
    if is_double_quoted(t) || is_single_quoted(t) {
        Some(Node::Str(t.subrange(1, t.len() - 1)))
    } else if is_number(t) {
        Some(Node::Num(t))
    } else if t == true_text() {
        Some(Node::Bool(true))
    } else if t == false_text() {
        Some(Node::Bool(false))
    } else {
        None
    }
}

/// Number of leading characters of `t` that satisfy `p`.
pub open spec fn run_len(t: Seq<char>, p: spec_fn(char) -> bool) -> nat
    decreases t.len(),
{
    if t.len() > 0 && p(t[0]) {
        1 + run_len(t.drop_first(), p)
    } else {
        0
    }
}

/// The length of the key that starts `t`.
pub open spec fn key_len(t: Seq<char>) -> nat {
    run_len(t, |c: char| is_key_char(c))
}

pub proof fn lemma_run_len(t: Seq<char>, p: spec_fn(char) -> bool, j: int)
    requires
        0 <= j <= t.len(),
        forall|m: int| 0 <= m < j ==> p(#[trigger] t[m]),
        j == t.len() || !p(t[j]),
    ensures
        run_len(t, p) == j,
    decreases j,
{
    if j > 0 {
        let u = t.drop_first();
        assert forall|m: int| 0 <= m < j - 1 implies p(#[trigger] u[m]) by {
            assert(u[m] == t[m + 1]);
        }
        if j < t.len() {
            assert(u[j - 1] == t[j]);
        }
        lemma_run_len(u, p, j - 1);
    }
}

/// First index in `a..b` at or after which `s` holds no digit, scanning from `a`.
fn digits_end(s: &Vec<char>, a: usize, b: usize) -> (j: usize)
    requires
        a <= b <= s.len(),
    ensures
        a <= j <= b,
        forall|m: int| a <= m < j ==> is_digit(#[trigger] s[m]),
        j == b || !is_digit(s[j as int]),
{
    let mut j: usize = a;
    while j < b && '0' <= s[j] && s[j] <= '9'
        invariant
            a <= j <= b <= s.len(),
            forall|m: int| a <= m < j ==> is_digit(#[trigger] s[m]),
        decreases b - j,
    {
        j = j + 1;
    }
    j
}

proof fn lemma_point_unique(t: Seq<char>, j: int, k: int)
    requires
        0 <= j <= t.len(),
        forall|m: int| 0 <= m < j ==> is_digit(#[trigger] t[m]),
        j == t.len() || !is_digit(t[j]),
        0 < k < t.len(),
        t[k] == '.',
        all_digits(t.take(k)),
    ensures
        k == j,
{
    if k > j {
        assert(t.take(k)[j] == t[j]);
    }
}

/// Whether `s[a..b]` is, as a whole, an unsigned decimal.
fn unsigned_decimal(s: &Vec<char>, a: usize, b: usize) -> (r: bool)
    requires
        a <= b <= s.len(),
    ensures
        r == is_unsigned_decimal(s@.subrange(a as int, b as int)),
{
    let ghost t = s@.subrange(a as int, b as int);
    let j = digits_end(s, a, b);
    assert forall|m: int| 0 <= m < j - a implies is_digit(#[trigger] t[m]) by {
        assert(t[m] == s[m + a]);
    }
    if j == a {
        assert(!is_unsigned_decimal(t)) by {
            if t.len() > 0 {
                assert(t[0] == s[a as int]);
            }
            assert forall|k: int| 0 < k < t.len() && #[trigger] t[k] == '.' implies !all_digits(
                t.take(k),
            ) by {
                assert(t.take(k)[0] == t[0]);
                assert(t[0] == s[a as int]);
            }
        }
        return false;
    }
    if j == b {
        return true;
    }
    if s[j] != '.' {
        assert(!is_unsigned_decimal(t)) by {
            assert(t[j - a] == s[j as int]);
            assert forall|k: int| 0 < k < t.len() && #[trigger] t[k] == '.' implies !all_digits(
                t.take(k),
            ) || !all_digits(t.skip(k + 1)) by {
                if all_digits(t.take(k)) {
                    lemma_point_unique(t, j - a, k);
                }
            }
        }
        return false;
    }
    let e = digits_end(s, j + 1, b);
    let r = j + 1 < b && e == b;
    let ghost k0 = j - a;
    let ghost rest = t.skip(k0 + 1);
    assert(t[k0] == s[j as int]);
    assert(t.take(k0) =~= s@.subrange(a as int, j as int));
    assert(rest =~= s@.subrange(j + 1, b as int));
    assert(all_digits(t.take(k0)));
    if r {
        assert forall|m: int| 0 <= m < rest.len() implies is_digit(#[trigger] rest[m]) by {
            assert(rest[m] == s[m + j + 1]);
        }
        assert(0 < k0 < t.len() && t[k0] == '.' && all_digits(t.take(k0)) && all_digits(rest));
    } else {
        assert(!all_digits(t)) by {
            assert(t[k0] == s[j as int]);
        }
        if j + 1 < b {
            assert(rest[e - j - 1] == s[e as int]);
        }
        assert forall|k: int| 0 < k < t.len() && #[trigger] t[k] == '.' implies !all_digits(
            t.take(k),
        ) || !all_digits(t.skip(k + 1)) by {
            if all_digits(t.take(k)) {
                lemma_point_unique(t, j - a, k);
            }
        }
    }
    r
}

/// Whether `s[a..b]` is, as a whole, a number literal.
pub fn number(s: &Vec<char>, a: usize, b: usize) -> (r: bool)
    requires
        a <= b <= s.len(),
    ensures
        r == is_number(s@.subrange(a as int, b as int)),
{
    let ghost t = s@.subrange(a as int, b as int);
    if a < b && (s[a] == '+' || s[a] == '-') {
        assert(t[0] == s[a as int]);
        assert(t.skip(1) =~= s@.subrange(a + 1, b as int));
        unsigned_decimal(s, a + 1, b)
    } else {
        unsigned_decimal(s, a, b)
    }
}

/// Whether `s[a..b]` is, as a whole, a double-quoted string.
fn double_quoted(s: &Vec<char>, a: usize, b: usize) -> (r: bool)
    requires
        a <= b <= s.len(),
    ensures
        r == is_double_quoted(s@.subrange(a as int, b as int)),
{
    let ghost t = s@.subrange(a as int, b as int);
    if b - a < 2 || s[a] != '"' {
        assert(b - a >= 2 ==> t[0] == s[a as int]);
        return false;
    }
    let mut j: usize = a + 1;
    while j < b && s[j] != '\n' && !(s[j] == '"' && s[j - 1] != '\\')
        invariant
            a < j <= b <= s.len(),
            forall|m: int| a < m < j && #[trigger] s[m] == '"' ==> s[m - 1] == '\\',
            forall|m: int| a < m < j ==> #[trigger] s[m] != '\n',
        decreases b - j,
    {
        j = j + 1;
    }
    assert(t[0] == s[a as int]);
    if j == b {
        assert(t[t.len() - 1] == s[b - 1]);
        assert(t[t.len() - 2] == s[b - 2]);
        assert(b - 1 > a ==> (s[b - 1] == '"' ==> s[b - 2] == '\\'));
        return false;
    }
    assert(t[j - a] == s[j as int] && t[j - a - 1] == s[j - 1]);
    if s[j] == '\n' {
        return false;
    }
    if j + 1 == b {
        assert forall|i: int| 1 <= i < t.len() - 1 && #[trigger] t[i] == '"' implies t[i - 1]
            == '\\' by {
            assert(t[i] == s[i + a] && t[i - 1] == s[i + a - 1]);
        }
        assert forall|i: int| 1 <= i < t.len() - 1 implies #[trigger] t[i] != '\n' by {
            assert(t[i] == s[i + a]);
        }
        true
    } else {
        false
    }
}

/// Whether `s[a..b]` is, as a whole, a single-quoted string.
fn single_quoted(s: &Vec<char>, a: usize, b: usize) -> (r: bool)
    requires
        a <= b <= s.len(),
    ensures
        r == is_single_quoted(s@.subrange(a as int, b as int)),
{
    let ghost t = s@.subrange(a as int, b as int);
    if b - a < 2 || s[a] != '\'' {
        assert(b - a >= 2 ==> t[0] == s[a as int]);
        return false;
    }
    let mut j: usize = a + 1;
    while j < b && s[j] != '\'' && s[j] != '\n'
        invariant
            a < j <= b <= s.len(),
            forall|m: int| a < m < j ==> #[trigger] s[m] != '\'' && s[m] != '\n',
        decreases b - j,
    {
        j = j + 1;
    }
    assert(t[0] == s[a as int]);
    if j == b {
        assert(t[t.len() - 1] == s[b - 1]);
        return false;
    }
    assert(t[j - a] == s[j as int]);
    if s[j] == '\n' {
        return false;
    }
    if j + 1 == b {
        assert forall|i: int| 1 <= i < t.len() - 1 implies #[trigger] t[i] != '\'' && t[i] != '\n' by {
            assert(t[i] == s[i + a]);
        }
        true
    } else {
        false
    }
}

/// Whether `s[a..b]` is exactly the text `w`.
fn span_is(s: &Vec<char>, a: usize, b: usize, w: &Vec<char>) -> (r: bool)
    requires
        a <= b <= s.len(),
    ensures
        r == (s@.subrange(a as int, b as int) == w@),
{
    let ghost t = s@.subrange(a as int, b as int);
    if b - a != w.len() {
        return false;
    }
    let mut i: usize = 0;
    while i < w.len()
        invariant
            b - a == w.len(),
            a <= b <= s.len(),
            0 <= i <= w.len(),
            forall|m: int| 0 <= m < i ==> s[a + m] == w[m],
        decreases w.len() - i,
    {
        if s[a + i] != w[i] {
            assert(s@.subrange(a as int, b as int)[i as int] == s[a + i]);
            return false;
        }
        i = i + 1;
    }
    assert(t =~= w@) by {
        assert forall|m: int| 0 <= m < t.len() implies t[m] == w@[m] by {
            assert(t[m] == s[a + m]);
        }
    }
    true
}

/// The boolean that `s[a..b]` spells, if it is `true` or `false`.
pub fn boolean(s: &Vec<char>, a: usize, b: usize) -> (r: Option<bool>)
    requires
        a <= b <= s.len(),
    ensures
        r == (if s@.subrange(a as int, b as int) == true_text() {
            Some(true)
        } else if s@.subrange(a as int, b as int) == false_text() {
            Some(false)
        } else {
            None::<bool>
        }),
{
    let t = vec!['t', 'r', 'u', 'e'];
    let f = vec!['f', 'a', 'l', 's', 'e'];
    assert(t@ =~= true_text());
    assert(f@ =~= false_text());
    if span_is(s, a, b, &t) {
        Some(true)
    } else if span_is(s, a, b, &f) {
        Some(false)
    } else {
        None
    }
}

/// Whether `s[a..b]` is, as a whole, a quoted string.
pub fn string(s: &Vec<char>, a: usize, b: usize) -> (r: bool)
    requires
        a <= b <= s.len(),
    ensures
        r == (is_double_quoted(s@.subrange(a as int, b as int)) || is_single_quoted(
            s@.subrange(a as int, b as int),
        )),
{
    double_quoted(s, a, b) || single_quoted(s, a, b)
}

/// The scalar that `s[a..b]` denotes as a whole, where `s` holds the
/// characters of `input`.
pub fn scalar(input: &str, s: &Vec<char>, a: usize, b: usize) -> (r: Option<Value>)
    requires
        a <= b <= s.len(),
        s@ == input@,
    ensures
        match r {
            Some(v) => scalar_of(s@.subrange(a as int, b as int)) == Some(v@),
            None => scalar_of(s@.subrange(a as int, b as int)) is None,
        },
{
    let ghost t = s@.subrange(a as int, b as int);
    if string(s, a, b) {
        let body = input.substring_char(a + 1, b - 1).to_owned();
        assert(body@ =~= t.subrange(1, t.len() - 1));
        Some(Value::String(body))
    } else if number(s, a, b) {
        let text = input.substring_char(a, b).to_owned();
        Some(Value::Number(text))
    } else {
        match boolean(s, a, b) {
            Some(x) => Some(Value::Bool(x)),
            None => None,
        }
    }
}

/// Letters and digits (ASCII), underscore and space.
fn is_key(c: char) -> (r: bool)
    ensures
        r == is_key_char(c),
{
    ('a' <= c && c <= 'z') || ('A' <= c && c <= 'Z') || ('0' <= c && c <= '9') || c == '_'
        || c == ' '
}

/// The end of the key that starts at `a`: the longest run of key characters
/// in `s[a..b]`.
pub fn key(s: &Vec<char>, a: usize, b: usize) -> (j: usize)
    requires
        a <= b <= s.len(),
    ensures
        a <= j <= b,
        j - a == key_len(s@.subrange(a as int, b as int)),
{
    let mut j: usize = a;
    while j < b && is_key(s[j])
        invariant
            a <= j <= b <= s.len(),
            forall|m: int| a <= m < j ==> is_key_char(#[trigger] s[m]),
        decreases b - j,
    {
        j = j + 1;
    }
    let ghost t = s@.subrange(a as int, b as int);
    proof {
        assert forall|m: int| 0 <= m < j - a implies (|c: char| is_key_char(c))(#[trigger] t[m]) by {
            assert(t[m] == s[m + a]);
        }
        if j < b {
            assert(t[j - a] == s[j as int]);
        }
        lemma_run_len(t, |c: char| is_key_char(c), j - a);
    }
    j
}

} // verus!
