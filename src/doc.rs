use vstd::prelude::*;

verus! {

broadcast use vstd::std_specs::vec::group_vec_axioms;

/// A document value, as the YAML parser yields it and the serializer takes it.
///
/// Numbers are held in their textual form; tags in their printed form, with
/// the leading `!`.
#[derive(Debug, PartialEq)]
pub enum Doc {
    Null,
    Bool(bool),
    Number(String),
    Str(String),
    Sequence(Vec<Doc>),
    Mapping(Vec<(Doc, Doc)>),
    Tagged(String, Box<Doc>),
}

/// The mathematical model of a [`Doc`].
pub enum Node {
    Null,
    Bool(bool),
    Number(Seq<char>),
    Str(Seq<char>),
    List(Seq<Node>),
    Dict(Seq<(Node, Node)>),
    Tagged(Seq<char>, Box<Node>),
}

impl Doc {
    pub open spec fn view(&self) -> Node
        decreases self,
    {
        match self {
            Doc::Null => Node::Null,
            Doc::Bool(b) => Node::Bool(*b),
            Doc::Number(s) => Node::Number(s@),
            Doc::Str(s) => Node::Str(s@),
            Doc::Sequence(v) => Node::List(Seq::new(v.len() as nat, |i: int| if 0 <= i < v.len() { v[i].view() } else { Node::Null })),
            Doc::Mapping(v) => Node::Dict(Seq::new(v.len() as nat, |i: int|
                if 0 <= i < v.len() { (v[i].0.view(), v[i].1.view()) } else { (Node::Null, Node::Null) })),
            Doc::Tagged(t, inner) => Node::Tagged(t@, Box::new(inner.view())),
        }
    }
}

} // verus!

verus! {

impl Doc {
    /// A deep copy.
    pub fn copy(&self) -> (r: Doc)
        ensures
            r@ == self@,
        decreases self,
    {
        match self {
            Doc::Null => Doc::Null,
            Doc::Bool(b) => Doc::Bool(*b),
            Doc::Number(s) => Doc::Number(s.clone()),
            Doc::Str(s) => Doc::Str(s.clone()),
            Doc::Sequence(v) => {
                let mut out: Vec<Doc> = Vec::new();
                let mut i: usize = 0;
                while i < v.len()
                    invariant
                        i <= v.len(),
                        out.len() == i,
                        decreases_to!(*self => *v),
                        *self == Doc::Sequence(*v),
                        forall|j: int| 0 <= j < i ==> (#[trigger] out@[j])@ == v@[j]@,
                    decreases v.len() - i,
                {
                    proof {
                        assert(decreases_to!(v => v[i as int]));
                        assert(decreases_to!(*self => v[i as int]));
                    }
                    out.push(v[i].copy());
                    i = i + 1;
                }
                let r = Doc::Sequence(out);
                assert(r@->List_0 =~= self@->List_0);
                assert(r@ == self@);
                r
            },
            Doc::Mapping(v) => {
                let mut out: Vec<(Doc, Doc)> = Vec::new();
                let mut i: usize = 0;
                while i < v.len()
                    invariant
                        i <= v.len(),
                        out.len() == i,
                        decreases_to!(*self => *v),
                        *self == Doc::Mapping(*v),
                        forall|j: int| 0 <= j < i ==> (#[trigger] out@[j]).0@ == v@[j].0@ && out@[j].1@ == v@[j].1@,
                    decreases v.len() - i,
                {
                    proof {
                        assert(decreases_to!(v => v[i as int]));
                        assert(decreases_to!(*self => v[i as int]));
                    }
                    let k = v[i].0.copy();
                    let x = v[i].1.copy();
                    out.push((k, x));
                    i = i + 1;
                }
                let r = Doc::Mapping(out);
                assert(r@->Dict_0 =~= self@->Dict_0);
                assert(r@ == self@);
                r
            },
            Doc::Tagged(t, inner) => Doc::Tagged(t.clone(), Box::new(inner.copy())),
        }
    }
}

} // verus!

verus! {

/// Whether two documents are equal.
pub fn same_doc(a: &Doc, b: &Doc) -> (r: bool)
    ensures
        r == (a@ == b@),
    decreases a,
{
    match (a, b) {
        (Doc::Null, Doc::Null) => true,
        (Doc::Bool(x), Doc::Bool(y)) => *x == *y,
        (Doc::Number(x), Doc::Number(y)) => *x == *y,
        (Doc::Str(x), Doc::Str(y)) => *x == *y,
        (Doc::Sequence(x), Doc::Sequence(y)) => {
            if x.len() != y.len() {
                assert(a@->List_0.len() != b@->List_0.len());
                return false;
            }
            let mut i: usize = 0;
            while i < x.len()
                invariant
                    x.len() == y.len(),
                    i <= x.len(),
                    decreases_to!(*a => *x),
                    *a == Doc::Sequence(*x),
                    *b == Doc::Sequence(*y),
                    forall|j: int| 0 <= j < i ==> (#[trigger] x@[j])@ == y@[j]@,
                decreases x.len() - i,
            {
                proof {
                    assert(decreases_to!(x => x[i as int]));
                    assert(decreases_to!(*a => x[i as int]));
                }
                if !same_doc(&x[i], &y[i]) {
                    assert(a@->List_0[i as int] != b@->List_0[i as int]);
                    return false;
                }
                i = i + 1;
            }
            assert(a@->List_0 =~= b@->List_0);
            true
        },
        (Doc::Mapping(x), Doc::Mapping(y)) => {
            if x.len() != y.len() {
                assert(a@->Dict_0.len() != b@->Dict_0.len());
                return false;
            }
            let mut i: usize = 0;
            while i < x.len()
                invariant
                    x.len() == y.len(),
                    i <= x.len(),
                    decreases_to!(*a => *x),
                    *a == Doc::Mapping(*x),
                    *b == Doc::Mapping(*y),
                    forall|j: int| 0 <= j < i ==> (#[trigger] x@[j]).0@ == y@[j].0@ && x@[j].1@ == y@[j].1@,
                decreases x.len() - i,
            {
                proof {
                    assert(decreases_to!(x => x[i as int]));
                    assert(decreases_to!(*a => x[i as int]));
                }
                if !same_doc(&x[i].0, &y[i].0) || !same_doc(&x[i].1, &y[i].1) {
                    assert(a@->Dict_0[i as int] != b@->Dict_0[i as int]);
                    return false;
                }
                i = i + 1;
            }
            assert(a@->Dict_0 =~= b@->Dict_0);
            true
        },
        (Doc::Tagged(t, x), Doc::Tagged(u, y)) => {
            let same_tag = *t == *u;
            let same_inner = same_doc(x, y);
            same_tag && same_inner
        },
        _ => false,
    }
}

} // verus!
