use vstd::prelude::*;

use crate::grammar::{
    array_from, collection, document, document_lines, entry_value, has_key, indent_of,
    is_entry_line, is_item_line, keys_unique, obj_put, object_from, text_of,
};
use crate::value::Node;

verus! {

/// Lines `a..b` of `ls` are indented by `ind` or more, and those indented by
/// exactly `ind` are array elements when `items`, object entries otherwise.
pub open spec fn one_kind(ls: Seq<Seq<char>>, a: int, b: int, ind: nat, items: bool) -> bool {
    forall|m: int|
        a <= m < b ==> indent_of(#[trigger] ls[m]) >= ind && (indent_of(ls[m]) == ind ==> (if items {
            is_item_line(text_of(ls[m]))
        } else {
            is_entry_line(text_of(ls[m])) && !is_item_line(text_of(ls[m]))
        }))
}

/// Line `m` returns to an open level: some line `j` in `a..m` is indented
/// exactly as much, and every line between them is indented more.
pub open spec fn lands_on_open_level(ls: Seq<Seq<char>>, a: int, m: int) -> bool {
    exists|j: int|
        #![trigger ls[j]]
        a <= j < m && indent_of(ls[j]) == indent_of(ls[m]) && forall|p: int|
            j < p < m ==> indent_of(#[trigger] ls[p]) > indent_of(ls[m])
}

/// Every line of `a..b` that is indented no more than the line before it
/// returns to an open level.
pub open spec fn dedents_ok(ls: Seq<Seq<char>>, a: int, b: int) -> bool {
    forall|m: int|
        a < m < b && indent_of(#[trigger] ls[m]) <= indent_of(ls[m - 1]) ==> lands_on_open_level(
            ls,
            a,
            m,
        )
}

proof fn lemma_lands_widen(ls: Seq<Seq<char>>, a: int, a2: int, m: int)
    requires
        a <= a2,
        lands_on_open_level(ls, a2, m),
    ensures
        lands_on_open_level(ls, a, m),
{
    let j = choose|j: int|
        #![trigger ls[j]]
        a2 <= j < m && indent_of(ls[j]) == indent_of(ls[m]) && forall|p: int|
            j < p < m ==> indent_of(#[trigger] ls[p]) > indent_of(ls[m]);
    assert(a <= j < m && indent_of(ls[j]) == indent_of(ls[m]));
}

proof fn lemma_entry_kind(ls: Seq<Seq<char>>, i: int, ind: nat, rest: Seq<char>)
    requires
        entry_value(ls, i, ind, rest) is Some,
    ensures
        ({
            let k = entry_value(ls, i, ind, rest)->Some_0.1;
            &&& i < k <= ls.len()
            &&& forall|m: int| i < m < k ==> indent_of(#[trigger] ls[m]) > ind
            &&& dedents_ok(ls, i + 1, k)
        }),
    decreases ls.len() - i, 0int,
{
    if rest.len() == 0 {
        let d = indent_of(ls[i + 1]);
        lemma_collection_kind(ls, i + 1, d);
    }
}

proof fn lemma_array_kind(ls: Seq<Seq<char>>, i: int, ind: nat, acc: Seq<Node>)
    requires
        array_from(ls, i, ind, acc) is Some,
        0 <= i < ls.len(),
        indent_of(ls[i]) == ind,
    ensures
        ({
            let (n, k) = array_from(ls, i, ind, acc)->Some_0;
            &&& n is Arr
            &&& i < k <= ls.len()
            &&& one_kind(ls, i, k, ind, true)
            &&& dedents_ok(ls, i, k)
        }),
    decreases ls.len() - i, 1int,
{
    let t = text_of(ls[i]);
    let e = entry_value(ls, i, ind, t.drop_first());
    lemma_entry_kind(ls, i, ind, t.drop_first());
    let k1 = e->Some_0.1;
    let (n, k) = array_from(ls, i, ind, acc)->Some_0;
    if k1 < ls.len() && indent_of(ls[k1]) == ind {
        lemma_array_kind(ls, k1, ind, acc.push(e->Some_0.0));
    }
    assert forall|m: int| i <= m < k implies indent_of(#[trigger] ls[m]) >= ind && (indent_of(ls[m])
        == ind ==> is_item_line(text_of(ls[m]))) by {
        if m < k1 {
            assert(m == i || indent_of(ls[m]) > ind);
        }
    }
    assert forall|m: int| i < m < k && indent_of(#[trigger] ls[m]) <= indent_of(ls[m - 1]) implies lands_on_open_level(ls, i, m) by {
        if m < k1 {
            if m > i + 1 {
                lemma_lands_widen(ls, i, i + 1, m);
            }
        } else if m == k1 {
            assert(indent_of(ls[i]) == indent_of(ls[m]));
            assert forall|p: int| i < p < m implies indent_of(#[trigger] ls[p]) > indent_of(ls[m]) by {}
        } else {
            lemma_lands_widen(ls, i, k1, m);
        }
    }
}

proof fn lemma_object_kind(ls: Seq<Seq<char>>, i: int, ind: nat, acc: Seq<(Seq<char>, Node)>)
    requires
        object_from(ls, i, ind, acc) is Some,
        0 <= i < ls.len(),
        indent_of(ls[i]) == ind,
        !is_item_line(text_of(ls[i])),
    ensures
        ({
            let (n, k) = object_from(ls, i, ind, acc)->Some_0;
            &&& n is Obj
            &&& i < k <= ls.len()
            &&& one_kind(ls, i, k, ind, false)
            &&& dedents_ok(ls, i, k)
        }),
    decreases ls.len() - i, 1int,
{
    let t = text_of(ls[i]);
    let kl = crate::lexer::key_len(t) as int;
    let e = entry_value(ls, i, ind, t.skip(kl + 1));
    lemma_entry_kind(ls, i, ind, t.skip(kl + 1));
    let k1 = e->Some_0.1;
    let (n, k) = object_from(ls, i, ind, acc)->Some_0;
    if k1 < ls.len() && indent_of(ls[k1]) == ind {
        let t1 = text_of(ls[k1]);
        if is_item_line(t1) {
            assert(crate::lexer::key_len(t1) == 0) by {
                reveal_with_fuel(crate::lexer::run_len, 2);
            }
        }
        lemma_object_kind(ls, k1, ind, crate::grammar::obj_put(acc, t.take(kl), e->Some_0.0));
    }
    assert forall|m: int| i <= m < k implies indent_of(#[trigger] ls[m]) >= ind && (indent_of(ls[m])
        == ind ==> is_entry_line(text_of(ls[m])) && !is_item_line(text_of(ls[m]))) by {
        if m < k1 {
            assert(m == i || indent_of(ls[m]) > ind);
        }
    }
    assert forall|m: int| i < m < k && indent_of(#[trigger] ls[m]) <= indent_of(ls[m - 1]) implies lands_on_open_level(ls, i, m) by {
        if m < k1 {
            if m > i + 1 {
                lemma_lands_widen(ls, i, i + 1, m);
            }
        } else if m == k1 {
            assert(indent_of(ls[i]) == indent_of(ls[m]));
            assert forall|p: int| i < p < m implies indent_of(#[trigger] ls[p]) > indent_of(ls[m]) by {}
        } else {
            lemma_lands_widen(ls, i, k1, m);
        }
    }
}

proof fn lemma_collection_kind(ls: Seq<Seq<char>>, i: int, ind: nat)
    requires
        collection(ls, i, ind) is Some,
        0 <= i < ls.len(),
        indent_of(ls[i]) == ind,
    ensures
        ({
            let (n, k) = collection(ls, i, ind)->Some_0;
            &&& i < k <= ls.len()
            &&& one_kind(ls, i, k, ind, n is Arr)
            &&& dedents_ok(ls, i, k)
        }),
    decreases ls.len() - i, 2int,
{
    if is_item_line(text_of(ls[i])) {
        lemma_array_kind(ls, i, ind, seq![]);
    } else {
        lemma_object_kind(ls, i, ind, seq![]);
    }
}

/// Within one collection, the lines at its own indentation are all of one
/// kind: all array elements (`- ...`) or all object entries (`key: ...`).
/// So a document that mixes the two kinds at one level of one collection
/// does not parse.
pub proof fn law_one_kind_per_level(s: Seq<char>, i: int, ind: nat)
    requires
        0 <= i < document_lines(s).len(),
        indent_of(document_lines(s)[i]) == ind,
        collection(document_lines(s), i, ind) is Some,
    ensures
        ({
            let ls = document_lines(s);
            let (n, k) = collection(ls, i, ind)->Some_0;
            &&& one_kind(ls, i, k, ind, n is Arr)
        }),
{
    lemma_collection_kind(document_lines(s), i, ind);
}

/// A whole document is one collection: every line at indentation zero is an
/// array element if it is an array, an object entry if it is an object.
pub proof fn law_document_one_kind(s: Seq<char>)
    requires
        document(s) is Some,
    ensures
        one_kind(document_lines(s), 0, document_lines(s).len() as int, 0, document(s)->Some_0 is Arr),
{
    lemma_collection_kind(document_lines(s), 0, 0);
}

/// In a document that parses, every line indented no more than the line
/// before it returns to a level that is still open: an earlier line is
/// indented exactly as much, and every line since is indented more. So a
/// dedent to a width that no enclosing collection uses does not parse.
pub proof fn law_dedent_to_open_level(s: Seq<char>)
    requires
        document(s) is Some,
    ensures
        dedents_ok(document_lines(s), 0, document_lines(s).len() as int),
{
    lemma_collection_kind(document_lines(s), 0, 0);
}

/// Every object in `n`, at any depth, has distinct keys.
pub open spec fn keys_distinct(n: Node) -> bool
    decreases n,
{
    match n {
        Node::Obj(es) => keys_unique(es) && forall|i: int|
            0 <= i < es.len() ==> keys_distinct((#[trigger] es[i]).1),
        Node::Arr(xs) => forall|i: int| 0 <= i < xs.len() ==> keys_distinct(#[trigger] xs[i]),
        _ => true,
    }
}

pub open spec fn entries_distinct(es: Seq<(Seq<char>, Node)>) -> bool {
    keys_unique(es) && forall|i: int| 0 <= i < es.len() ==> keys_distinct((#[trigger] es[i]).1)
}

proof fn lemma_put_distinct(acc: Seq<(Seq<char>, Node)>, k: Seq<char>, v: Node)
    requires
        entries_distinct(acc),
        keys_distinct(v),
    ensures
        entries_distinct(obj_put(acc, k, v)),
{
    let r = obj_put(acc, k, v);
    if has_key(acc, k) {
        assert forall|i: int| 0 <= i < r.len() implies (#[trigger] r[i]).0 == acc[i].0
            && keys_distinct(r[i].1) by {}
        assert forall|i: int, j: int| 0 <= i < j < r.len() implies (#[trigger] r[i]).0 != (
        #[trigger] r[j]).0 by {
            assert(acc[i].0 != acc[j].0);
        }
    } else {
        assert forall|i: int| 0 <= i < r.len() implies keys_distinct((#[trigger] r[i]).1) by {
            if i < acc.len() {
                assert(r[i] == acc[i]);
            }
        }
        assert forall|i: int, j: int| 0 <= i < j < r.len() implies (#[trigger] r[i]).0 != (
        #[trigger] r[j]).0 by {
            assert(r[i] == acc[i]);
            if j < acc.len() {
                assert(r[j] == acc[j]);
            } else {
                assert(acc[i].0 != k);
            }
        }
    }
}

proof fn lemma_entry_distinct(ls: Seq<Seq<char>>, i: int, ind: nat, rest: Seq<char>)
    requires
        entry_value(ls, i, ind, rest) is Some,
    ensures
        keys_distinct(entry_value(ls, i, ind, rest)->Some_0.0),
    decreases ls.len() - i, 0int,
{
    if rest.len() == 0 {
        lemma_collection_distinct(ls, i + 1, indent_of(ls[i + 1]));
    }
}

proof fn lemma_array_distinct(ls: Seq<Seq<char>>, i: int, ind: nat, acc: Seq<Node>)
    requires
        array_from(ls, i, ind, acc) is Some,
        forall|m: int| 0 <= m < acc.len() ==> keys_distinct(#[trigger] acc[m]),
    ensures
        keys_distinct(array_from(ls, i, ind, acc)->Some_0.0),
    decreases ls.len() - i, 1int,
{
    let t = text_of(ls[i]);
    let e = entry_value(ls, i, ind, t.drop_first());
    lemma_entry_distinct(ls, i, ind, t.drop_first());
    let (x, k1) = e->Some_0;
    let acc2 = acc.push(x);
    assert forall|m: int| 0 <= m < acc2.len() implies keys_distinct(#[trigger] acc2[m]) by {
        if m < acc.len() {
            assert(acc2[m] == acc[m]);
        }
    }
    if k1 < ls.len() && indent_of(ls[k1]) >= ind {
        if indent_of(ls[k1]) == ind {
            lemma_array_distinct(ls, k1, ind, acc2);
        }
    } else {
        let n = array_from(ls, i, ind, acc)->Some_0.0;
        assert(n == Node::Arr(acc2));
    }
}

proof fn lemma_object_distinct(ls: Seq<Seq<char>>, i: int, ind: nat, acc: Seq<(Seq<char>, Node)>)
    requires
        object_from(ls, i, ind, acc) is Some,
        entries_distinct(acc),
    ensures
        keys_distinct(object_from(ls, i, ind, acc)->Some_0.0),
    decreases ls.len() - i, 1int,
{
    let t = text_of(ls[i]);
    let kl = crate::lexer::key_len(t) as int;
    let e = entry_value(ls, i, ind, t.skip(kl + 1));
    lemma_entry_distinct(ls, i, ind, t.skip(kl + 1));
    let (x, k1) = e->Some_0;
    let acc2 = obj_put(acc, t.take(kl), x);
    lemma_put_distinct(acc, t.take(kl), x);
    if k1 < ls.len() && indent_of(ls[k1]) >= ind {
        if indent_of(ls[k1]) == ind {
            lemma_object_distinct(ls, k1, ind, acc2);
        }
    } else {
        let n = object_from(ls, i, ind, acc)->Some_0.0;
        assert(n == Node::Obj(acc2));
    }
}

proof fn lemma_collection_distinct(ls: Seq<Seq<char>>, i: int, ind: nat)
    requires
        collection(ls, i, ind) is Some,
    ensures
        keys_distinct(collection(ls, i, ind)->Some_0.0),
    decreases ls.len() - i, 2int,
{
    if is_item_line(text_of(ls[i])) {
        lemma_array_distinct(ls, i, ind, seq![]);
    } else {
        lemma_object_distinct(ls, i, ind, seq![]);
    }
}

/// Every object in a parsed document, at any depth, has distinct keys: a key
/// repeated within one object keeps one entry, holding the last value.
pub proof fn law_parsed_keys_distinct(s: Seq<char>)
    requires
        document(s) is Some,
    ensures
        keys_distinct(document(s)->Some_0),
{
    lemma_collection_distinct(document_lines(s), 0, 0);
}

} // verus!
