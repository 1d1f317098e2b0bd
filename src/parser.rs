use vstd::prelude::*;
use vstd::string::*;

use crate::grammar::{
    array_from, collection, document, document_lines, entry_value, has_key, indent_of, keys_unique,
    obj_put, object_from, text_of,
};
use crate::lexer::{key, scalar};
use crate::lines::{lines, Line};
use crate::tracker::Tracker;
use crate::value::{Node, Value};

verus! {

broadcast use vstd::std_specs::vec::group_vec_axioms;

/// The input does not follow the grammar.
#[derive(Debug, Clone, Copy, PartialEq, Eq)]
pub struct SyntaxError;

pub open spec fn views(v: Seq<Value>) -> Seq<Node> {
    Seq::new(v.len(), |i: int| v[i]@)
}

pub open spec fn entries_view(v: Seq<(String, Value)>) -> Seq<(Seq<char>, Node)> {
    Seq::new(v.len(), |i: int| (v[i].0@, v[i].1@))
}

/// `ls` holds, in order, where each line of the document `s` lies.
pub open spec fn lines_of(s: Seq<char>, ls: Seq<Line>) -> bool {
    &&& ls.len() == document_lines(s).len()
    &&& forall|k: int| 0 <= k < ls.len() ==> (#[trigger] ls[k]).spans(s, document_lines(s)[k])
}

/// What a parsing step over `ls` may assume.
pub open spec fn ready(input: &str, s: &Vec<char>, ls: &Vec<Line>, tr: &Tracker, ind: usize) -> bool {
    &&& s@ == input@
    &&& lines_of(s@, ls@)
    &&& tr.wf()
    &&& tr.top() == ind
}

/// `r` is the result of the grammar's `expected`, with values for nodes.
pub open spec fn agrees(r: Option<(Value, usize)>, expected: Option<(Node, int)>) -> bool {
    match r {
        Some((v, k)) => expected == Some((v@, k as int)),
        None => expected is None,
    }
}

proof fn lemma_line(s: Seq<char>, l: Line, g: Seq<char>)
    requires
        l.spans(s, g),
    ensures
        text_of(g) == s.subrange(l.text as int, l.end as int),
        indent_of(g) == l.text - l.start,
{
    assert(text_of(g) =~= s.subrange(l.text as int, l.end as int));
}

proof fn lemma_array_view(v: Vec<Value>)
    ensures
        Value::Array(v)@ == Node::Arr(views(v@)),
{
    let n = Value::Array(v)@;
    assert(n is Arr);
    assert(n->Arr_0 =~= views(v@));
}

proof fn lemma_object_view(v: Vec<(String, Value)>)
    ensures
        Value::Object(v)@ == Node::Obj(entries_view(v@)),
{
    let n = Value::Object(v)@;
    assert(n is Obj);
    assert(n->Obj_0 =~= entries_view(v@));
}

/// Binds `key` to `v` in the entries `acc`.
fn put(acc: &mut Vec<(String, Value)>, key: String, v: Value)
    requires
        keys_unique(entries_view(old(acc)@)),
    ensures
        entries_view(final(acc)@) == obj_put(entries_view(old(acc)@), key@, v@),
        keys_unique(entries_view(final(acc)@)),
{
    let ghost e = entries_view(acc@);
    let ghost kv = key@;
    let ghost nv = v@;
    let mut j: usize = 0;
    while j < acc.len()
        invariant
            e == entries_view(acc@),
            acc@ == old(acc)@,
            kv == key@,
            nv == v@,
            keys_unique(e),
            j <= acc.len(),
            forall|m: int| 0 <= m < j ==> (#[trigger] acc@[m]).0@ != key@,
        decreases acc.len() - j,
    {
        if acc[j].0 == key {
            let ghost jj = j as int;
            assert(e[jj].0 == kv);
            assert(has_key(e, kv));
            assert forall|m: int| 0 <= m < e.len() && m != jj implies e[m].0 != kv by {
                if m < jj {
                    assert(acc@[m].0@ != key@);
                }
            }
            acc.set(j, (key, v));
            assert(entries_view(acc@) =~= obj_put(e, kv, nv));
            return ;
        }
        j = j + 1;
    }
    assert(!has_key(e, kv)) by {
        assert forall|m: int| 0 <= m < e.len() implies (#[trigger] e[m]).0 != kv by {
            assert(acc@[m].0@ != key@);
        }
    }
    acc.push((key, v));
    assert(entries_view(acc@) =~= e.push((kv, nv)));
}

/// The value of the entry on line `i` whose marker is followed by `s[ra..rb]`.
fn entry(
    input: &str,
    s: &Vec<char>,
    ls: &Vec<Line>,
    tr: &mut Tracker,
    i: usize,
    ind: usize,
    ra: usize,
    rb: usize,
) -> (r: Option<(Value, usize)>)
    requires
        ready(input, s, ls, old(tr), ind),
        i < ls.len(),
        ra <= rb <= s.len(),
    ensures
        final(tr)@ == old(tr)@,
        agrees(r, entry_value(document_lines(s@), i as int, ind as nat, s@.subrange(ra as int, rb as int))),
    decreases ls.len() - i, 0int,
{
    let ghost g = document_lines(s@);
    let ghost rest = s@.subrange(ra as int, rb as int);
    if ra == rb {
        if i + 1 < ls.len() {
            let l = ls[i + 1];
            proof {
                lemma_line(s@, l, g[i + 1]);
            }
            let d = l.text - l.start;
            if tr.enter_deeper(d) {
                let ghost pushed = tr@;
                let r = collection_at(input, s, ls, tr, i + 1, d);
                proof {
                    old(tr).lemma_exit_to_parent(ind, d);
                }
                let back = tr.exit_to(ind);
                proof {
                    assert(pushed == old(tr)@.push(d));
                    assert(back);
                    let n = tr@.len() - 1;
                    assert(tr@[n] == pushed[n]);
                    assert(tr@ =~= old(tr)@);
                }
                r
            } else {
                None
            }
        } else {
            None
        }
    } else if s[ra] == ' ' {
        assert(rest[0] == s[ra as int]);
        assert(rest.drop_first() =~= s@.subrange(ra + 1, rb as int));
        match scalar(input, s, ra + 1, rb) {
            Some(v) => Some((v, i + 1)),
            None => None,
        }
    } else {
        assert(rest[0] == s[ra as int]);
        None
    }
}

/// The array that starts on line `i0` at indentation `ind`.
fn array_at(input: &str, s: &Vec<char>, ls: &Vec<Line>, tr: &mut Tracker, i0: usize, ind: usize) -> (r:
    Option<(Value, usize)>)
    requires
        ready(input, s, ls, old(tr), ind),
        i0 < ls.len(),
    ensures
        final(tr)@ == old(tr)@,
        agrees(r, array_from(document_lines(s@), i0 as int, ind as nat, seq![])),
    decreases ls.len() - i0, 1int,
{
    let ghost g = document_lines(s@);
    let ghost goal = array_from(g, i0 as int, ind as nat, seq![]);
    let mut acc: Vec<Value> = Vec::new();
    let mut i = i0;
    assert(views(acc@) =~= Seq::<Node>::empty());
    loop
        invariant
            ready(input, s, ls, tr, ind),
            tr@ == old(tr)@,
            g == document_lines(s@),
            i0 <= i < ls.len(),
            goal == array_from(g, i0 as int, ind as nat, seq![]),
            goal == array_from(g, i as int, ind as nat, views(acc@)),
        decreases ls.len() - i,
    {
        let l = ls[i];
        proof {
            lemma_line(s@, l, g[i as int]);
        }
        let ghost t = text_of(g[i as int]);
        if !(l.text < l.end && s[l.text] == '-') {
            assert(l.text < l.end ==> t[0] == s[l.text as int]);
            return None;
        }
        assert(t[0] == s[l.text as int]);
        assert(t.drop_first() =~= s@.subrange(l.text + 1, l.end as int));
        match entry(input, s, ls, tr, i, ind, l.text + 1, l.end) {
            None => {
                return None;
            },
            Some((v, k)) => {
                let ghost acc_view = views(acc@);
                acc.push(v);
                assert(views(acc@) =~= acc_view.push(v@));
                if !(i < k && k <= ls.len()) {
                    return None;
                }
                if k == ls.len() {
                    proof {
                        lemma_array_view(acc);
                    }
                    return Some((Value::Array(acc), k));
                }
                let lk = ls[k];
                proof {
                    lemma_line(s@, lk, g[k as int]);
                }
                let dk = lk.text - lk.start;
                if dk < ind {
                    proof {
                        lemma_array_view(acc);
                    }
                    return Some((Value::Array(acc), k));
                }
                if !tr.at_current_level(dk) {
                    return None;
                }
                i = k;
            },
        }
    }
}

/// The object that starts on line `i0` at indentation `ind`.
fn object_at(input: &str, s: &Vec<char>, ls: &Vec<Line>, tr: &mut Tracker, i0: usize, ind: usize) -> (r:
    Option<(Value, usize)>)
    requires
        ready(input, s, ls, old(tr), ind),
        i0 < ls.len(),
    ensures
        final(tr)@ == old(tr)@,
        agrees(r, object_from(document_lines(s@), i0 as int, ind as nat, seq![])),
    decreases ls.len() - i0, 1int,
{
    let ghost g = document_lines(s@);
    let ghost goal = object_from(g, i0 as int, ind as nat, seq![]);
    let mut acc: Vec<(String, Value)> = Vec::new();
    let mut i = i0;
    assert(entries_view(acc@) =~= Seq::<(Seq<char>, Node)>::empty());
    loop
        invariant
            ready(input, s, ls, tr, ind),
            tr@ == old(tr)@,
            g == document_lines(s@),
            i0 <= i < ls.len(),
            keys_unique(entries_view(acc@)),
            goal == object_from(g, i0 as int, ind as nat, seq![]),
            goal == object_from(g, i as int, ind as nat, entries_view(acc@)),
        decreases ls.len() - i,
    {
        let l = ls[i];
        proof {
            lemma_line(s@, l, g[i as int]);
        }
        let ghost t = text_of(g[i as int]);
        let j = key(s, l.text, l.end);
        if !(l.text < j && j < l.end && s[j] == ':') {
            return None;
        }
        let ghost kl = j - l.text;
        assert(t.take(kl) =~= s@.subrange(l.text as int, j as int));
        assert(t.skip(kl + 1) =~= s@.subrange(j + 1, l.end as int));
        match entry(input, s, ls, tr, i, ind, j + 1, l.end) {
            None => {
                return None;
            },
            Some((v, k)) => {
                let key = input.substring_char(l.text, j).to_owned();
                put(&mut acc, key, v);
                if !(i < k && k <= ls.len()) {
                    return None;
                }
                if k == ls.len() {
                    proof {
                        lemma_object_view(acc);
                    }
                    return Some((Value::Object(acc), k));
                }
                let lk = ls[k];
                proof {
                    lemma_line(s@, lk, g[k as int]);
                }
                let dk = lk.text - lk.start;
                if dk < ind {
                    proof {
                        lemma_object_view(acc);
                    }
                    return Some((Value::Object(acc), k));
                }
                if !tr.at_current_level(dk) {
                    return None;
                }
                i = k;
            },
        }
    }
}

/// The collection that starts on line `i` at indentation `ind`.
fn collection_at(input: &str, s: &Vec<char>, ls: &Vec<Line>, tr: &mut Tracker, i: usize, ind: usize) -> (r:
    Option<(Value, usize)>)
    requires
        ready(input, s, ls, old(tr), ind),
        i < ls.len(),
    ensures
        final(tr)@ == old(tr)@,
        agrees(r, collection(document_lines(s@), i as int, ind as nat)),
    decreases ls.len() - i, 2int,
{
    let l = ls[i];
    proof {
        lemma_line(s@, l, document_lines(s@)[i as int]);
    }
    if l.text < l.end && s[l.text] == '-' {
        array_at(input, s, ls, tr, i, ind)
    } else {
        object_at(input, s, ls, tr, i, ind)
    }
}

/// The characters of `input`.
fn chars_of(input: &str) -> (s: Vec<char>)
    ensures
        s@ == input@,
{
    broadcast use vstd::string::axiom_spec_iter;

    let mut s: Vec<char> = Vec::new();
    for c in it: input.chars()
        invariant
            it.seq() == input@,
            s@ == it.seq().take(it.index()),
    {
        s.push(c);
    }
    s
}

/// Parses a whole document: one collection at indentation zero, optionally
/// followed by one newline, and nothing else.
pub fn parse(input: &str) -> (r: Result<Value, SyntaxError>)
    ensures
        match r {
            Ok(v) => document(input@) == Some(v@),
            Err(_) => document(input@) is None,
        },
{
    let s = chars_of(input);
    let ls = lines(&s);
    proof {
        crate::grammar::lemma_document_lines_len(s@);
    }
    let first = ls[0];
    if first.text != first.start {
        return Err(SyntaxError);
    }
    let mut tr = Tracker::new();
    match collection_at(input, &s, &ls, &mut tr, 0, 0) {
        Some((v, k)) => if k == ls.len() {
            Ok(v)
        } else {
            Err(SyntaxError)
        },
        None => Err(SyntaxError),
    }
}

} // verus!
