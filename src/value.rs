use vstd::prelude::*;

verus! {

broadcast use vstd::std_specs::vec::group_vec_axioms;

/// The mathematical model of a parsed value.
///
/// Objects are sequences of key/value pairs whose keys are pairwise distinct;
/// their order is the order in which each key first appeared.
pub enum Node {
    Str(Seq<char>),
    Num(Seq<char>),
    Bool(bool),
    Obj(Seq<(Seq<char>, Node)>),
    Arr(Seq<Node>),
}

/// A parsed value.
///
/// A number is kept as the text of its literal (an optional sign, digits, and
/// optionally a point followed by digits), so that no precision is lost; the
/// caller converts it to whatever numeric type it needs. Strings and keys are
/// copied out of the input. An object is a list of key/value pairs with
/// distinct keys, in the order in which each key first appeared.
#[derive(Debug, PartialEq)]
pub enum Value {
    String(String),
    Number(String),
    Bool(bool),
    Object(Vec<(String, Value)>),
    Array(Vec<Value>),
}

impl Value {
    /// The model of this value.
    pub open spec fn view(self) -> Node
        decreases self,
    {
        match self {
            Value::String(s) => Node::Str(s@),
            Value::Number(s) => Node::Num(s@),
            Value::Bool(b) => Node::Bool(b),
            Value::Object(v) => Node::Obj(
                Seq::new(
                    v.len() as nat,
                    |i: int|
                        if 0 <= i < v.len() {
                            (v[i].0@, v[i].1.view())
                        } else {
                            (Seq::empty(), Node::Bool(false))
                        },
                ),
            ),
            Value::Array(v) => Node::Arr(
                Seq::new(
                    v.len() as nat,
                    |i: int|
                        if 0 <= i < v.len() {
                            v[i].view()
                        } else {
                            Node::Bool(false)
                        },
                ),
            ),
        }
    }
}

} // verus!
