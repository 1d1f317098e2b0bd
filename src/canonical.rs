use vstd::prelude::*;

use crate::grammar::{
    array_from, block_ends, collection, document, document_lines, entry_value, has_key, indent_of,
    is_entry_line, is_item_line, is_space, keys_unique, obj_put, object_from, split_lines, text_of,
};
use crate::lexer::{
    false_text, is_digit, key_len, is_double_quoted, is_key_char, is_number, is_single_quoted,
    lemma_run_len, scalar_of, true_text,
};
use crate::value::Node;

verus! {

pub open spec fn spaces(n: nat) -> Seq<char> {
    Seq::new(n, |i: int| ' ')
}

pub open spec fn is_scalar(n: Node) -> bool {
    n is Str || n is Num || n is Bool
}

pub open spec fn children(n: Node) -> nat {
    match n {
        Node::Arr(xs) => xs.len(),
        Node::Obj(es) => es.len(),
        _ => 0,
    }
}

/// `t` holds no `c`.
pub open spec fn lacks(t: Seq<char>, c: char) -> bool {
    forall|i: int| 0 <= i < t.len() ==> #[trigger] t[i] != c
}

/// The canonical text of a scalar: strings single-quoted, or double-quoted
/// when they hold a single quote; numbers and booleans as they are written.
pub open spec fn scalar_text(n: Node) -> Seq<char> {
    match n {
        Node::Str(t) => if lacks(t, '\'') {
            seq!['\''] + t + seq!['\'']
        } else {
            seq!['"'] + t + seq!['"']
        },
        Node::Num(t) => t,
        Node::Bool(b) => if b {
            true_text()
        } else {
            false_text()
        },
        _ => Seq::empty(),
    }
}

/// A key that can be written at the start of a line.
pub open spec fn valid_key(k: Seq<char>) -> bool {
    &&& k.len() > 0
    &&& k[0] != ' '
    &&& forall|i: int| 0 <= i < k.len() ==> is_key_char(#[trigger] k[i])
}

/// A value that the canonical form can write: strings hold no newline, and
/// a string with a single quote holds no double quote and no backslash; numbers are number literals, collections are not empty,
/// and object keys are valid and distinct.
pub open spec fn well_formed(n: Node) -> bool
    decreases n,
{
    match n {
        Node::Str(t) => lacks(t, '\n') && (lacks(t, '\'') || (lacks(t, '"') && lacks(t, '\\'))),
        Node::Num(t) => is_number(t),
        Node::Bool(_) => true,
        Node::Arr(xs) => xs.len() > 0 && forall|i: int|
            0 <= i < xs.len() ==> well_formed(#[trigger] xs[i]),
        Node::Obj(es) => es.len() > 0 && keys_unique(es) && forall|i: int|
            0 <= i < es.len() ==> valid_key((#[trigger] es[i]).0) && well_formed(es[i].1),
    }
}

/// The lines of one entry at indentation `ind`, whose marker is `head` (a
/// dash, or a key and a colon): a scalar follows the marker after a space; a
/// collection follows on the next lines, two spaces deeper.
pub open spec fn entry_lines(head: Seq<char>, x: Node, ind: nat) -> Seq<Seq<char>>
    decreases x, children(x) + 1,
{
    if is_scalar(x) {
        seq![spaces(ind) + head + seq![' '] + scalar_text(x)]
    } else {
        seq![spaces(ind) + head] + block_lines(x, ind + 2, 0)
    }
}

/// The lines of the entries of the collection `n` from the `j`-th on, at
/// indentation `ind`.
pub open spec fn block_lines(n: Node, ind: nat, j: nat) -> Seq<Seq<char>>
    decreases n, children(n) - j,
{
    if j >= children(n) {
        Seq::empty()
    } else {
        match n {
            Node::Arr(xs) => entry_lines(seq!['-'], xs[j as int], ind) + block_lines(n, ind, j + 1),
            Node::Obj(es) => entry_lines(es[j as int].0 + seq![':'], es[j as int].1, ind)
                + block_lines(n, ind, j + 1),
            _ => Seq::empty(),
        }
    }
}

/// Lines joined with newlines between them.
pub open spec fn join_lines(ls: Seq<Seq<char>>) -> Seq<char>
    decreases ls.len(),
{
    if ls.len() == 0 {
        Seq::empty()
    } else if ls.len() == 1 {
        ls[0]
    } else {
        join_lines(ls.drop_last()) + seq!['\n'] + ls.last()
    }
}

/// The canonical document of a collection.
pub open spec fn serialize(n: Node) -> Seq<char> {
    join_lines(block_lines(n, 0, 0))
}

pub open spec fn no_newline(t: Seq<char>) -> bool {
    forall|i: int| 0 <= i < t.len() ==> #[trigger] t[i] != '\n'
}

proof fn lemma_split_append(p: Seq<char>, b: Seq<char>)
    requires
        no_newline(b),
    ensures
        split_lines(p + b) == split_lines(p).update(
            split_lines(p).len() - 1,
            split_lines(p).last() + b,
        ),
    decreases b.len(),
{
    crate::grammar::lemma_split_lines_len(p);
    let sp = split_lines(p);
    if b.len() == 0 {
        assert(p + b =~= p);
        assert(sp.last() + b =~= sp.last());
        assert(sp.update(sp.len() - 1, sp.last()) =~= sp);
    } else {
        let b0 = b.drop_last();
        assert(no_newline(b0)) by {
            assert forall|i: int| 0 <= i < b0.len() implies #[trigger] b0[i] != '\n' by {
                assert(b0[i] == b[i]);
            }
        }
        lemma_split_append(p, b0);
        assert((p + b).drop_last() =~= p + b0);
        assert((p + b).last() == b.last());
        assert(b.last() == b[b.len() - 1]);
        let r = split_lines(p + b0);
        assert(r.last() == sp.last() + b0);
        assert(r.last().push(b.last()) =~= sp.last() + b);
        assert(r.update(r.len() - 1, r.last().push(b.last())) =~= sp.update(
            sp.len() - 1,
            sp.last() + b,
        ));
    }
}

proof fn lemma_split_join(ls: Seq<Seq<char>>)
    requires
        ls.len() >= 1,
        forall|k: int| 0 <= k < ls.len() ==> no_newline(#[trigger] ls[k]),
    ensures
        split_lines(join_lines(ls)) == ls,
    decreases ls.len(),
{
    if ls.len() == 1 {
        lemma_split_append(Seq::empty(), ls[0]);
        assert(Seq::<char>::empty() + ls[0] =~= ls[0]);
        assert(split_lines(Seq::empty()) =~= seq![Seq::<char>::empty()]);
        assert(seq![Seq::<char>::empty()].update(0, Seq::<char>::empty() + ls[0]) =~= ls);
    } else {
        let a = ls.drop_last();
        assert forall|k: int| 0 <= k < a.len() implies no_newline(#[trigger] a[k]) by {
            assert(a[k] == ls[k]);
        }
        lemma_split_join(a);
        let p = join_lines(a) + seq!['\n'];
        assert(p.drop_last() =~= join_lines(a));
        assert(p.last() == '\n');
        assert(split_lines(p) == a.push(Seq::empty()));
        lemma_split_append(p, ls.last());
        assert(join_lines(ls) == p + ls.last());
        assert(Seq::<char>::empty() + ls.last() =~= ls.last());
        assert(a.push(Seq::empty()).update(a.len() as int, ls.last()) =~= ls);
    }
}

/// A line of `ind` spaces and then `body`, which starts with no space.
proof fn lemma_line_shape(ind: nat, body: Seq<char>)
    requires
        body.len() > 0,
        body[0] != ' ',
    ensures
        indent_of(spaces(ind) + body) == ind,
        text_of(spaces(ind) + body) == body,
{
    let l = spaces(ind) + body;
    assert forall|m: int| 0 <= m < ind implies (|c: char| is_space(c))(#[trigger] l[m]) by {}
    assert(l[ind as int] == body[0]);
    lemma_run_len(l, |c: char| is_space(c), ind as int);
    assert(l.skip(ind as int) =~= body);
}

proof fn lemma_scalar(x: Node)
    requires
        well_formed(x),
        is_scalar(x),
    ensures
        scalar_of(scalar_text(x)) == Some(x),
        scalar_text(x).len() > 0,
        scalar_text(x)[0] != ' ',
        no_newline(scalar_text(x)),
{
    let t = scalar_text(x);
    match x {
        Node::Str(b) => {
            if lacks(b, '\'') {
                assert(is_single_quoted(t)) by {
                    assert forall|i: int| 1 <= i < t.len() - 1 implies #[trigger] t[i] != '\''
                        && t[i] != '\n' by {
                        assert(t[i] == b[i - 1]);
                    }
                }
            } else {
                assert(is_double_quoted(t)) by {
                    assert(t[t.len() - 2] != '\\') by {
                        if b.len() > 0 {
                            assert(t[t.len() - 2] == b[b.len() - 1]);
                        }
                    }
                    assert forall|i: int| 1 <= i < t.len() - 1 implies #[trigger] t[i] != '"'
                        && t[i] != '\n' by {
                        assert(t[i] == b[i - 1]);
                    }
                }
            }
            assert(t.subrange(1, t.len() - 1) =~= b);
            assert forall|i: int| 0 <= i < t.len() implies #[trigger] t[i] != '\n' by {
                if 1 <= i < t.len() - 1 {
                    assert(t[i] == b[i - 1]);
                }
            }
        },
        Node::Num(b) => {
            let u = if b.len() > 0 && (b[0] == '+' || b[0] == '-') {
                b.skip(1)
            } else {
                b
            };
            assert(u.len() > 0 && is_digit(u[0])) by {
                if !crate::lexer::all_digits(u) {
                    let k = choose|k: int|
                        0 < k < u.len() && #[trigger] u[k] == '.' && crate::lexer::all_digits(
                            u.take(k),
                        ) && crate::lexer::all_digits(u.skip(k + 1));
                    assert(u.take(k)[0] == u[0]);
                }
            }
            if b.len() > 0 && (b[0] == '+' || b[0] == '-') {
                assert(u[0] == b[1]);
            }
            assert(!is_double_quoted(t) && !is_single_quoted(t));
            let off: int = if b.len() > 0 && (b[0] == '+' || b[0] == '-') {
                1
            } else {
                0
            };
            assert forall|i: int| 0 <= i < t.len() implies #[trigger] t[i] != '\n' by {
                if i >= off {
                    let j = i - off;
                    assert(u[j] == b[i]);
                    if !crate::lexer::all_digits(u) {
                        let k = choose|k: int|
                            0 < k < u.len() && #[trigger] u[k] == '.'
                                && crate::lexer::all_digits(u.take(k))
                                && crate::lexer::all_digits(u.skip(k + 1));
                        if j < k {
                            assert(u.take(k)[j] == u[j]);
                        } else if j > k {
                            assert(u.skip(k + 1)[j - k - 1] == u[j]);
                        }
                    }
                }
            }
        },
        Node::Bool(v) => {
            assert(t[0] == 't' || t[0] == 'f');
            assert(!is_number(t)) by {
                assert(!is_digit(t[0]));
                assert forall|k: int| 0 < k < t.len() && #[trigger] t[k] == '.' implies !crate::lexer::all_digits(
                    t.take(k),
                ) by {
                    assert(t.take(k)[0] == t[0]);
                }
            }
            assert forall|i: int| 0 <= i < t.len() implies #[trigger] t[i] != '\n' by {}
        },
        _ => {},
    }
}

/// What follows an entry's marker on its first line.
pub open spec fn rest_of(x: Node) -> Seq<char> {
    if is_scalar(x) {
        seq![' '] + scalar_text(x)
    } else {
        Seq::empty()
    }
}

/// The marker of the `j`-th entry of a collection.
pub open spec fn head_of(n: Node, j: int) -> Seq<char> {
    match n {
        Node::Obj(es) => es[j].0 + seq![':'],
        _ => seq!['-'],
    }
}

pub open spec fn child_of(n: Node, j: int) -> Node {
    match n {
        Node::Obj(es) => es[j].1,
        Node::Arr(xs) => xs[j],
        _ => n,
    }
}

proof fn lemma_block_step(n: Node, ind: nat, j: nat)
    requires
        j < children(n),
        n is Arr || n is Obj,
    ensures
        block_lines(n, ind, j) == entry_lines(head_of(n, j as int), child_of(n, j as int), ind)
            + block_lines(n, ind, j + 1),
        entry_lines(head_of(n, j as int), child_of(n, j as int), ind).len() >= 1,
        entry_lines(head_of(n, j as int), child_of(n, j as int), ind)[0] == spaces(ind) + (
        head_of(n, j as int) + rest_of(child_of(n, j as int))),
{
    let h = head_of(n, j as int);
    let x = child_of(n, j as int);
    let e = entry_lines(h, x, ind);
    if is_scalar(x) {
        assert(spaces(ind) + h + seq![' '] + scalar_text(x) =~= spaces(ind) + (h + rest_of(x)));
    } else {
        assert(e[0] == spaces(ind) + h);
        assert(h + rest_of(x) =~= h);
    }
}

proof fn lemma_key_line(k: Seq<char>, r: Seq<char>)
    requires
        valid_key(k),
    ensures
        ({
            let t = k + seq![':'] + r;
            &&& key_len(t) == k.len()
            &&& is_entry_line(t)
            &&& !is_item_line(t)
            &&& t.take(k.len() as int) == k
            &&& t.skip(k.len() + 1int) == r
        }),
{
    let t = k + seq![':'] + r;
    assert forall|m: int| 0 <= m < k.len() implies (|c: char| is_key_char(c))(#[trigger] t[m]) by {
        assert(t[m] == k[m]);
    }
    assert(t[k.len() as int] == ':');
    lemma_run_len(t, |c: char| is_key_char(c), k.len() as int);
    assert(t[0] == k[0]);
    assert(t.take(k.len() as int) =~= k);
    assert(t.skip(k.len() + 1int) =~= r);
}

proof fn lemma_entry(ls: Seq<Seq<char>>, i: int, head: Seq<char>, x: Node, ind: nat)
    requires
        well_formed(x),
        0 <= i,
        i + entry_lines(head, x, ind).len() <= ls.len(),
        ls.subrange(i, i + entry_lines(head, x, ind).len()) == entry_lines(head, x, ind),
        block_ends(ls, i + entry_lines(head, x, ind).len(), ind + 1),
    ensures
        entry_value(ls, i, ind, rest_of(x)) == Some((x, i + entry_lines(head, x, ind).len())),
    decreases x, children(x) + 1,
{
    let e = entry_lines(head, x, ind);
    if is_scalar(x) {
        lemma_scalar(x);
        assert(rest_of(x).drop_first() =~= scalar_text(x));
    } else {
        let b = block_lines(x, ind + 2, 0);
        assert(e == seq![spaces(ind) + head] + b);
        lemma_block_step(x, ind + 2, 0);
        let h = head_of(x, 0);
        let c = child_of(x, 0);
        let body = h + rest_of(c);
        match x {
            Node::Obj(es) => {
                assert(valid_key(es[0].0));
                assert(body[0] == es[0].0[0]);
            },
            _ => {},
        }
        lemma_line_shape(ind + 2, body);
        assert(ls[i + 1] == e[1]);
        assert(ls.subrange(i + 1, i + 1 + b.len()) =~= b) by {
            assert forall|m: int| 0 <= m < b.len() implies ls.subrange(i + 1, i + 1 + b.len())[m]
                == b[m] by {
                assert(ls.subrange(i, i + e.len())[m + 1] == e[m + 1]);
            }
        }
        lemma_block(ls, i + 1, x, ind + 2, 0);
        match x {
            Node::Obj(es) => {
                lemma_key_line(es[0].0, rest_of(c));
                assert(es.take(0) =~= seq![]);
            },
            Node::Arr(xs) => {
                assert(xs.take(0) =~= seq![]);
            },
            _ => {},
        }
    }
}

proof fn lemma_block(ls: Seq<Seq<char>>, i: int, n: Node, ind: nat, j: nat)
    requires
        well_formed(n),
        n is Arr || n is Obj,
        j < children(n),
        0 <= i,
        i + block_lines(n, ind, j).len() <= ls.len(),
        ls.subrange(i, i + block_lines(n, ind, j).len()) == block_lines(n, ind, j),
        block_ends(ls, i + block_lines(n, ind, j).len(), ind),
    ensures
        n is Arr ==> array_from(ls, i, ind, n->Arr_0.take(j as int)) == Some(
            (n, i + block_lines(n, ind, j).len()),
        ),
        n is Obj ==> object_from(ls, i, ind, n->Obj_0.take(j as int)) == Some(
            (n, i + block_lines(n, ind, j).len()),
        ),
    decreases n, children(n) - j,
{
    let b = block_lines(n, ind, j);
    let end = i + b.len();
    lemma_block_step(n, ind, j);
    let h = head_of(n, j as int);
    let x = child_of(n, j as int);
    let e = entry_lines(h, x, ind);
    let b2 = block_lines(n, ind, j + 1);
    let i2 = i + e.len();
    assert(ls.subrange(i, i2) =~= e) by {
        assert forall|m: int| 0 <= m < e.len() implies ls.subrange(i, i2)[m] == e[m] by {
            assert(ls.subrange(i, end)[m] == b[m]);
        }
    }
    assert(ls.subrange(i2, end) =~= b2) by {
        assert forall|m: int| 0 <= m < b2.len() implies ls.subrange(i2, end)[m] == b2[m] by {
            assert(ls.subrange(i, end)[m + e.len()] == b[m + e.len()]);
        }
    }
    if j + 1 < children(n) {
        lemma_block_step(n, ind, j + 1);
        let body2 = head_of(n, j + 1int) + rest_of(child_of(n, j + 1int));
        match n {
            Node::Obj(es) => {
                assert(valid_key(es[j + 1int].0));
                assert(body2[0] == es[j + 1int].0[0]);
            },
            _ => {},
        }
        lemma_line_shape(ind, body2);
        assert(ls[i2] == ls.subrange(i2, end)[0]);
    }
    match n {
        Node::Obj(es) => {
            assert(well_formed(es[j as int].1));
        },
        Node::Arr(xs) => {
            assert(well_formed(xs[j as int]));
        },
        _ => {},
    }
    lemma_entry(ls, i, h, x, ind);
    let body = h + rest_of(x);
    match n {
        Node::Obj(es) => {
            assert(valid_key(es[j as int].0));
            assert(body[0] == es[j as int].0[0]);
        },
        _ => {},
    }
    lemma_line_shape(ind, body);
    assert(ls[i] == ls.subrange(i, i2)[0]);
    if j + 1 < children(n) {
        lemma_block(ls, i2, n, ind, j + 1);
    }
    match n {
        Node::Arr(xs) => {
            assert(body.drop_first() =~= rest_of(x));
            assert(xs.take(j as int).push(x) =~= xs.take(j + 1int));
            assert(xs.take(children(n) as int) =~= xs);
        },
        Node::Obj(es) => {
            let k = es[j as int].0;
            lemma_key_line(k, rest_of(x));
            assert(body =~= k + seq![':'] + rest_of(x));
            let acc = es.take(j as int);
            assert(!has_key(acc, k)) by {
                assert forall|m: int| 0 <= m < acc.len() implies (#[trigger] acc[m]).0 != k by {
                    assert(acc[m] == es[m]);
                }
            }
            assert(obj_put(acc, k, x) =~= es.take(j + 1int));
            assert(es.take(children(n) as int) =~= es);
        },
        _ => {},
    }
}

proof fn lemma_concat_plain(a: Seq<char>, b: Seq<char>)
    requires
        no_newline(a),
        no_newline(b),
    ensures
        no_newline(a + b),
{
    assert forall|i: int| 0 <= i < (a + b).len() implies #[trigger] (a + b)[i] != '\n' by {
        if i >= a.len() {
            assert((a + b)[i] == b[i - a.len()]);
        }
    }
}

pub open spec fn plain_lines(ls: Seq<Seq<char>>) -> bool {
    forall|k: int| 0 <= k < ls.len() ==> no_newline(#[trigger] ls[k]) && ls[k].len() > 0
}

proof fn lemma_entry_plain(head: Seq<char>, x: Node, ind: nat)
    requires
        well_formed(x),
        head.len() > 0,
        no_newline(head),
    ensures
        plain_lines(entry_lines(head, x, ind)),
    decreases x, children(x) + 1,
{
    let e = entry_lines(head, x, ind);
    assert(no_newline(spaces(ind)));
    lemma_concat_plain(spaces(ind), head);
    if is_scalar(x) {
        lemma_scalar(x);
        assert(no_newline(seq![' ']));
        lemma_concat_plain(spaces(ind) + head, seq![' ']);
        lemma_concat_plain(spaces(ind) + head + seq![' '], scalar_text(x));
    } else {
        lemma_block_plain(x, ind + 2, 0);
        let b = block_lines(x, ind + 2, 0);
        assert forall|k: int| 0 <= k < e.len() implies no_newline(#[trigger] e[k]) && e[k].len()
            > 0 by {
            if k > 0 {
                assert(e[k] == b[k - 1]);
            }
        }
    }
}

proof fn lemma_block_plain(n: Node, ind: nat, j: nat)
    requires
        well_formed(n),
    ensures
        plain_lines(block_lines(n, ind, j)),
    decreases n, children(n) - j,
{
    if j < children(n) {
        lemma_block_step(n, ind, j);
        let h = head_of(n, j as int);
        match n {
            Node::Obj(es) => {
                let k = es[j as int].0;
                assert(valid_key(k) && well_formed(es[j as int].1));
                assert(no_newline(k));
                assert(no_newline(seq![':']));
                lemma_concat_plain(k, seq![':']);
            },
            Node::Arr(xs) => {
                assert(well_formed(xs[j as int]));
                assert(no_newline(seq!['-']));
            },
            _ => {},
        }
        lemma_entry_plain(h, child_of(n, j as int), ind);
        lemma_block_plain(n, ind, j + 1);
        let e = entry_lines(h, child_of(n, j as int), ind);
        let b2 = block_lines(n, ind, j + 1);
        let b = block_lines(n, ind, j);
        assert forall|k: int| 0 <= k < b.len() implies no_newline(#[trigger] b[k]) && b[k].len()
            > 0 by {
            if k < e.len() {
                assert(b[k] == e[k]);
            } else {
                assert(b[k] == b2[k - e.len()]);
            }
        }
    }
}

proof fn lemma_join_last(ls: Seq<Seq<char>>)
    requires
        ls.len() >= 1,
        ls.last().len() > 0,
    ensures
        join_lines(ls).len() > 0,
        join_lines(ls).last() == ls.last().last(),
{
    if ls.len() > 1 {
        let p = join_lines(ls.drop_last()) + seq!['\n'];
        assert(join_lines(ls) == p + ls.last());
        assert((p + ls.last()).last() == ls.last().last());
    }
}

/// Writing a well-formed collection in canonical form and parsing the text
/// gives the collection back.
pub proof fn law_round_trip(n: Node)
    requires
        well_formed(n),
        n is Arr || n is Obj,
    ensures
        document(serialize(n)) == Some(n),
{
    let ls = block_lines(n, 0, 0);
    lemma_block_plain(n, 0, 0);
    lemma_block_step(n, 0, 0);
    assert(ls.len() >= 1);
    assert forall|k: int| 0 <= k < ls.len() implies no_newline(#[trigger] ls[k]) by {}
    lemma_split_join(ls);
    let s = serialize(n);
    lemma_join_last(ls);
    assert(no_newline(ls.last()) && ls.last().len() > 0);
    assert(ls.last().last() != '\n');
    assert(document_lines(s) == ls);
    let body = head_of(n, 0) + rest_of(child_of(n, 0));
    match n {
        Node::Obj(es) => {
            assert(valid_key(es[0].0));
            assert(body[0] == es[0].0[0]);
            lemma_key_line(es[0].0, rest_of(child_of(n, 0)));
            assert(es.take(0) =~= seq![]);
        },
        Node::Arr(xs) => {
            assert(xs.take(0) =~= seq![]);
        },
        _ => {},
    }
    lemma_line_shape(0, body);
    assert(ls.subrange(0, ls.len() as int) =~= ls);
    lemma_block(ls, 0, n, 0, 0);
}

} // verus!
