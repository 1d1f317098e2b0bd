use vstd::prelude::*;

use crate::lexer::{key_len, run_len, scalar_of};
use crate::value::Node;

verus! {

/// `s` cut at every newline: one more piece than there are newlines.
pub open spec fn split_lines(s: Seq<char>) -> Seq<Seq<char>>
    decreases s.len(),
{
    if s.len() == 0 {
        seq![Seq::empty()]
    } else {
        let r = split_lines(s.drop_last());
        if s.last() == '\n' {
            r.push(Seq::empty())
        } else {
            r.update(r.len() - 1, r.last().push(s.last()))
        }
    }
}

pub proof fn lemma_split_lines_len(s: Seq<char>)
    ensures
        split_lines(s).len() >= 1,
    decreases s.len(),
{
    if s.len() > 0 {
        lemma_split_lines_len(s.drop_last());
    }
}

pub proof fn lemma_document_lines_len(s: Seq<char>)
    ensures
        document_lines(s).len() >= 1,
{
    lemma_split_lines_len(s);
    if s.len() > 0 {
        lemma_split_lines_len(s.drop_last());
    }
}

/// The lines of a document: at most one final newline is dropped, then the
/// text is cut at every newline.
pub open spec fn document_lines(s: Seq<char>) -> Seq<Seq<char>> {
    if s.len() > 0 && s.last() == '\n' {
        split_lines(s.drop_last())
    } else {
        split_lines(s)
    }
}

pub open spec fn is_space(c: char) -> bool {
    c == ' '
}

/// The indentation of a line: its count of leading spaces.
pub open spec fn indent_of(l: Seq<char>) -> nat {
    run_len(l, |c: char| is_space(c))
}

/// A line without its indentation.
pub open spec fn text_of(l: Seq<char>) -> Seq<char> {
    l.skip(indent_of(l) as int)
}

/// A line's text is an object entry: a key, then a colon.
pub open spec fn is_entry_line(t: Seq<char>) -> bool {
    0 < key_len(t) < t.len() && t[key_len(t) as int] == ':'
}

/// A line's text is an array element: it starts with a dash.
pub open spec fn is_item_line(t: Seq<char>) -> bool {
    t.len() > 0 && t[0] == '-'
}

/// Whether the block at indentation `ind` is over before line `k`: the input
/// has ended, or line `k` is indented less.
pub open spec fn block_ends(ls: Seq<Seq<char>>, k: int, ind: nat) -> bool {
    k >= ls.len() || indent_of(ls[k]) < ind
}

pub open spec fn keys_unique(e: Seq<(Seq<char>, Node)>) -> bool {
    forall|i: int, j: int| 0 <= i < j < e.len() ==> (#[trigger] e[i]).0 != (#[trigger] e[j]).0
}

pub open spec fn has_key(e: Seq<(Seq<char>, Node)>, k: Seq<char>) -> bool {
    exists|i: int| 0 <= i < e.len() && (#[trigger] e[i]).0 == k
}

/// Binds `k` to `v`: a key already present keeps its place and takes the new
/// value; a new key comes last.
pub open spec fn obj_put(e: Seq<(Seq<char>, Node)>, k: Seq<char>, v: Node) -> Seq<
    (Seq<char>, Node),
> {
    if has_key(e, k) {
        e.map_values(|p: (Seq<char>, Node)| if p.0 == k { (k, v) } else { p })
    } else {
        e.push((k, v))
    }
}

/// The value of an entry on line `i` whose marker (`-` or `key:`) is followed
/// by `rest`: a space and an inline scalar, or nothing and a block of deeper
/// lines starting on the next line. Gives the value and the first line after it.
pub open spec fn entry_value(ls: Seq<Seq<char>>, i: int, ind: nat, rest: Seq<char>) -> Option<
    (Node, int),
>
    decreases ls.len() - i, 0int,
{
    if !(0 <= i < ls.len()) {
        None
    } else if rest.len() == 0 {
        if i + 1 < ls.len() && indent_of(ls[i + 1]) > ind {
            collection(ls, i + 1, indent_of(ls[i + 1]))
        } else {
            None
        }
    } else if rest[0] == ' ' {
        match scalar_of(rest.drop_first()) {
            Some(n) => Some((n, i + 1)),
            None => None,
        }
    } else {
        None
    }
}

/// The array whose elements are `acc` followed by those on lines `i..` at
/// indentation `ind`.
pub open spec fn array_from(ls: Seq<Seq<char>>, i: int, ind: nat, acc: Seq<Node>) -> Option<
    (Node, int),
>
    decreases ls.len() - i, 1int,
{
    if !(0 <= i < ls.len()) || !is_item_line(text_of(ls[i])) {
        None
    } else {
        match entry_value(ls, i, ind, text_of(ls[i]).drop_first()) {
            None => None,
            Some((n, k)) => {
                let acc2 = acc.push(n);
                if !(i < k <= ls.len()) {
                    None
                } else if block_ends(ls, k, ind) {
                    Some((Node::Arr(acc2), k))
                } else if indent_of(ls[k]) == ind {
                    array_from(ls, k, ind, acc2)
                } else {
                    None
                }
            },
        }
    }
}

/// The object whose entries are `acc` followed by those on lines `i..` at
/// indentation `ind`.
pub open spec fn object_from(
    ls: Seq<Seq<char>>,
    i: int,
    ind: nat,
    acc: Seq<(Seq<char>, Node)>,
) -> Option<(Node, int)>
    decreases ls.len() - i, 1int,
{
    if !(0 <= i < ls.len()) || !is_entry_line(text_of(ls[i])) {
        None
    } else {
        let t = text_of(ls[i]);
        let kl = key_len(t) as int;
        match entry_value(ls, i, ind, t.skip(kl + 1)) {
            None => None,
            Some((n, k)) => {
                let acc2 = obj_put(acc, t.take(kl), n);
                if !(i < k <= ls.len()) {
                    None
                } else if block_ends(ls, k, ind) {
                    Some((Node::Obj(acc2), k))
                } else if indent_of(ls[k]) == ind {
                    object_from(ls, k, ind, acc2)
                } else {
                    None
                }
            },
        }
    }
}

/// The collection that starts on line `i` at indentation `ind`: an array if
/// the line starts with a dash, else an object. Gives it and the first line
/// after it.
pub open spec fn collection(ls: Seq<Seq<char>>, i: int, ind: nat) -> Option<(Node, int)>
    decreases ls.len() - i, 2int,
{
    if !(0 <= i < ls.len()) {
        None
    } else if is_item_line(text_of(ls[i])) {
        array_from(ls, i, ind, seq![])
    } else {
        object_from(ls, i, ind, seq![])
    }
}

/// The value a whole document denotes: one collection at indentation zero
/// that takes every line.
pub open spec fn document(s: Seq<char>) -> Option<Node> {
    let ls = document_lines(s);
    if ls.len() == 0 || indent_of(ls[0]) != 0 {
        None
    } else {
        match collection(ls, 0, 0) {
            Some((n, k)) => if k == ls.len() {
                Some(n)
            } else {
                None
            },
            None => None,
        }
    }
}

} // verus!
