use vstd::prelude::*;

use crate::grammar::{document_lines, indent_of, is_space, split_lines};
use crate::lexer::lemma_run_len;

verus! {

/// Where one line of the input lies: it spans `start..end`, and its text,
/// after the indentation, begins at `text`.
#[derive(Clone, Copy)]
pub struct Line {
    pub start: usize,
    pub text: usize,
    pub end: usize,
}

impl Line {
    pub open spec fn indent(self) -> nat {
        (self.text - self.start) as nat
    }

    /// The line spans `l` of `s`, and `text` is past exactly its indentation.
    pub open spec fn spans(self, s: Seq<char>, l: Seq<char>) -> bool {
        &&& self.start <= self.text <= self.end <= s.len()
        &&& s.subrange(self.start as int, self.end as int) == l
        &&& self.indent() == indent_of(l)
    }
}

pub open spec fn spans_view(s: Seq<char>, v: Seq<(usize, usize)>) -> Seq<Seq<char>> {
    Seq::new(v.len(), |k: int| s.subrange(v[k].0 as int, v[k].1 as int))
}

/// Cuts `s[..n]` at every newline.
fn split_at_newlines(s: &Vec<char>, n: usize) -> (r: Vec<(usize, usize)>)
    requires
        n <= s.len(),
    ensures
        spans_view(s@, r@) == split_lines(s@.take(n as int)),
        forall|k: int| 0 <= k < r.len() ==> (#[trigger] r[k]).0 <= r[k].1 <= n,
{
    let mut spans: Vec<(usize, usize)> = Vec::new();
    let mut c: usize = 0;
    let mut i: usize = 0;
    assert(s@.take(0) =~= Seq::<char>::empty());
    assert(spans_view(s@, spans@).push(s@.subrange(0, 0)) =~= split_lines(s@.take(0)));
    while i < n
        invariant
            n <= s.len(),
            c <= i <= n,
            forall|k: int| 0 <= k < spans.len() ==> (#[trigger] spans[k]).0 <= spans[k].1 <= c,
            split_lines(s@.take(i as int)) == spans_view(s@, spans@).push(
                s@.subrange(c as int, i as int),
            ),
        decreases n - i,
    {
        let ghost old_view = spans_view(s@, spans@);
        assert(s@.take(i + 1).drop_last() =~= s@.take(i as int));
        assert(s@.take(i + 1).last() == s[i as int]);
        if s[i] == '\n' {
            let ghost c0 = c;
            spans.push((c, i));
            c = i + 1;
            assert(spans_view(s@, spans@) =~= old_view.push(s@.subrange(c0 as int, i as int)));
            assert(s@.subrange(c as int, i + 1) =~= Seq::<char>::empty());
        } else {
            assert(s@.subrange(c as int, i as int).push(s[i as int]) =~= s@.subrange(
                c as int,
                i + 1,
            ));
        }
        i = i + 1;
    }
    let ghost before = spans_view(s@, spans@);
    spans.push((c, n));
    assert(spans_view(s@, spans@) =~= before.push(s@.subrange(c as int, n as int)));
    spans
}

/// Counts the spaces that begin `s[a..b]`.
fn count_indent(s: &Vec<char>, a: usize, b: usize) -> (j: usize)
    requires
        a <= b <= s.len(),
    ensures
        a <= j <= b,
        j - a == indent_of(s@.subrange(a as int, b as int)),
{
    let mut j: usize = a;
    while j < b && s[j] == ' '
        invariant
            a <= j <= b <= s.len(),
            forall|m: int| a <= m < j ==> #[trigger] s[m] == ' ',
        decreases b - j,
    {
        j = j + 1;
    }
    let ghost t = s@.subrange(a as int, b as int);
    assert forall|m: int| 0 <= m < j - a implies (|c: char| is_space(c))(#[trigger] t[m]) by {
        assert(t[m] == s[m + a]);
    }
    if j < b {
        assert(t[j - a] == s[j as int]);
    }
    proof {
        lemma_run_len(t, |c: char| is_space(c), j - a);
    }
    j
}

/// The lines of the document `s`, each with its indentation measured.
pub fn lines(s: &Vec<char>) -> (r: Vec<Line>)
    ensures
        r.len() == document_lines(s@).len(),
        forall|k: int| 0 <= k < r.len() ==> (#[trigger] r[k]).spans(s@, document_lines(s@)[k]),
{
    let mut n = s.len();
    if n > 0 && s[n - 1] == '\n' {
        n = n - 1;
        assert(s@.take(n as int) =~= s@.drop_last());
    } else {
        assert(s@.take(n as int) =~= s@);
    }
    let spans = split_at_newlines(s, n);
    let ghost ls = document_lines(s@);
    let mut r: Vec<Line> = Vec::new();
    let mut k: usize = 0;
    while k < spans.len()
        invariant
            n <= s.len(),
            ls == document_lines(s@),
            spans_view(s@, spans@) == ls,
            forall|m: int| 0 <= m < spans.len() ==> (#[trigger] spans[m]).0 <= spans[m].1 <= n,
            k <= spans.len(),
            r.len() == k,
            forall|m: int| 0 <= m < k ==> (#[trigger] r[m]).spans(s@, ls[m]),
        decreases spans.len() - k,
    {
        let (a, b) = spans[k];
        let t = count_indent(s, a, b);
        assert(ls[k as int] == s@.subrange(a as int, b as int));
        r.push(Line { start: a, text: t, end: b });
        k = k + 1;
    }
    r
}

} // verus!
