use vstd::prelude::*;
use crate::doc::{same_doc, Doc, Node};
use crate::error::{Error, Fault};

verus! {

broadcast use vstd::std_specs::vec::group_vec_axioms;

/// The position of the first entry with key `k`, or -1 where there is none.
pub open spec fn key_position(entries: Seq<(Node, Node)>, k: Node) -> int
    decreases entries.len(),
{
    if entries.len() == 0 {
        -1
    } else {
        let p = key_position(entries.drop_last(), k);
        if p >= 0 {
            p
        } else if entries.last().0 == k {
            entries.len() - 1
        } else {
            -1
        }
    }
}

/// The deep merge of `b` into `a`: mappings union their keys and merge the
/// values of the keys they share, sequences concatenate; any other pair does
/// not merge (`None`).
pub open spec fn merged(a: Node, b: Node) -> Option<Node>
    decreases b,
{
    match b {
        Node::Dict(ys) => match a {
            Node::Dict(xs) => match merged_entries(xs, ys) {
                Some(m) => Some(Node::Dict(m)),
                None => None,
            },
            _ => None,
        },
        Node::List(ys) => match a {
            Node::List(xs) => Some(Node::List(xs + ys)),
            _ => None,
        },
        _ => None,
    }
}

/// The entries `ys` merged, in their order, into `xs`.
pub open spec fn merged_entries(xs: Seq<(Node, Node)>, ys: Seq<(Node, Node)>) -> Option<Seq<(Node, Node)>>
    decreases ys,
{
    if ys.len() == 0 {
        Some(xs)
    } else {
        proof {
            assert(decreases_to!(ys => ys[ys.len() - 1]));
        }
        match merged_entries(xs, ys.drop_last()) {
            None => None,
            Some(acc) => merged_entry(acc, ys.last()),
        }
    }
}

/// One entry merged into `acc`.
pub open spec fn merged_entry(acc: Seq<(Node, Node)>, e: (Node, Node)) -> Option<Seq<(Node, Node)>>
    decreases e,
{
    let p = key_position(acc, e.0);
    if p < 0 {
        Some(acc.push(e))
    } else {
        match merged(acc[p].1, e.1) {
            Some(m) => Some(acc.update(p, (acc[p].0, m))),
            None => None,
        }
    }
}

/// The model of the entries of a mapping.
pub open spec fn entries_view(v: Seq<(Doc, Doc)>) -> Seq<(Node, Node)> {
    Seq::new(v.len() as nat, |i: int| (v[i].0@, v[i].1@))
}

/// Where `key_position` is -1 no entry has the key.
pub proof fn lemma_key_position_spec(s: Seq<(Node, Node)>, k: Node)
    ensures
        key_position(s, k) == -1 <==> forall|j: int| 0 <= j < s.len() ==> (#[trigger] s[j]).0 != k,
{
    lemma_key_position(s, k);
}

pub proof fn lemma_key_position_range(s: Seq<(Node, Node)>, k: Node)
    ensures
        -1 <= key_position(s, k) < s.len(),
{
    lemma_key_position(s, k);
}

proof fn lemma_key_position(s: Seq<(Node, Node)>, k: Node)
    ensures
        -1 <= key_position(s, k) < s.len(),
        key_position(s, k) == -1 <==> forall|j: int| 0 <= j < s.len() ==> (#[trigger] s[j]).0 != k,
        key_position(s, k) >= 0 ==> s[key_position(s, k)].0 == k && forall|j: int|
            0 <= j < key_position(s, k) ==> (#[trigger] s[j]).0 != k,
    decreases s.len(),
{
    if s.len() > 0 {
        lemma_key_position(s.drop_last(), k);
        assert forall|j: int| 0 <= j < s.len() - 1 implies #[trigger] s[j] == s.drop_last()[j] by {}
    }
}

proof fn lemma_merge_failure_stays(xs: Seq<(Node, Node)>, ys: Seq<(Node, Node)>, i: int)
    requires
        0 <= i <= ys.len(),
        merged_entries(xs, ys.take(i)) is None,
    ensures
        merged_entries(xs, ys) is None,
    decreases ys.len(),
{
    if i < ys.len() {
        assert(ys.drop_last().take(i) == ys.take(i));
        lemma_merge_failure_stays(xs, ys.drop_last(), i);
    } else {
        assert(ys.take(i) == ys);
    }
}

/// The position of the first entry whose key equals `k`.
fn find_key(entries: &Vec<(Doc, Doc)>, k: &Doc) -> (r: Option<usize>)
    ensures
        match r {
            Some(i) => key_position(entries_view(entries@), k@) == i,
            None => key_position(entries_view(entries@), k@) == -1,
        },
{
    let mut i: usize = 0;
    while i < entries.len()
        invariant
            i <= entries.len(),
            forall|j: int| 0 <= j < i ==> (#[trigger] entries_view(entries@)[j]).0 != k@,
        decreases entries.len() - i,
    {
        if same_doc(&entries[i].0, k) {
            proof {
                lemma_key_position(entries_view(entries@), k@);
                assert(entries_view(entries@)[i as int].0 == k@);
            }
            return Some(i);
        }
        i = i + 1;
    }
    proof {
        lemma_key_position(entries_view(entries@), k@);
    }
    None
}

/// The deep merge of `b` into `a`, as [`merged`] states it.
fn merge_values(a: Doc, b: &Doc) -> (r: Result<Doc, Error>)
    ensures
        match merged(a@, b@) {
            Some(m) => r matches Ok(d) && d@ == m,
            None => r matches Err(e) && e@ == Fault::Merge,
        },
    decreases b,
{
    match a {
        Doc::Mapping(xs) => match b {
            Doc::Mapping(ys) => {
                let ghost x0 = entries_view(xs@);
                let ghost yv = entries_view(ys@);
                assert(a@->Dict_0 =~= x0);
                assert(b@->Dict_0 =~= yv);
                assert(a@ == Node::Dict(x0));
                assert(b@ == Node::Dict(yv));
                let mut xs = xs;
                let mut i: usize = 0;
                assert(yv.take(0) =~= Seq::<(Node, Node)>::empty());
                while i < ys.len()
                    invariant
                        i <= ys.len(),
                        yv == entries_view(ys@),
                        a@ == Node::Dict(x0),
                        b@ == Node::Dict(yv),
                        decreases_to!(*b => *ys),
                        merged_entries(x0, yv.take(i as int)) == Some(entries_view(xs@)),
                    decreases ys.len() - i,
                {
                    proof {
                        assert(decreases_to!(ys => ys[i as int]));
                        assert(yv.take(i + 1).drop_last() =~= yv.take(i as int));
                        assert(yv.take(i + 1).last() == yv[i as int]);
                        lemma_key_position(entries_view(xs@), ys@[i as int].0@);
                    }
                    let ghost acc = entries_view(xs@);
                    match find_key(&xs, &ys[i].0) {
                        None => {
                            let k = ys[i].0.copy();
                            let v = ys[i].1.copy();
                            xs.push((k, v));
                            assert(entries_view(xs@) =~= acc.push(yv[i as int]));
                        },
                        Some(p) => {
                            let ghost before = xs@;
                            let (xk, xv) = xs.remove(p);
                            assert(xv@ == acc[p as int].1);
                            match merge_values(xv, &ys[i].1) {
                                Ok(m) => {
                                    xs.insert(p, (xk, m));
                                    assert(entries_view(xs@) =~= acc.update(p as int, (acc[p as int].0, m@)));
                                },
                                Err(e) => {
                                    proof {
                                        assert(merged_entry(acc, yv[i as int]) is None);
                                        lemma_merge_failure_stays(x0, yv, i + 1);
                                    }
                                    return Err(e);
                                },
                            }
                        },
                    }
                    i = i + 1;
                }
                assert(yv.take(ys.len() as int) =~= yv);
                let r = Doc::Mapping(xs);
                assert(r@->Dict_0 =~= entries_view(xs@));
                Ok(r)
            },
            _ => Err(Error::MergeError),
        },
        Doc::Sequence(xs) => match b {
            Doc::Sequence(ys) => {
                let ghost x0 = xs@;
                let ghost al = a@->List_0;
                let ghost bl = b@->List_0;
                assert(al.len() == x0.len() && forall|j: int| 0 <= j < x0.len() ==> #[trigger] al[j] == x0[j]@);
                assert(bl.len() == ys.len() && forall|j: int| 0 <= j < ys.len() ==> #[trigger] bl[j] == ys@[j]@);
                let mut xs = xs;
                let mut i: usize = 0;
                while i < ys.len()
                    invariant
                        i <= ys.len(),
                        al.len() == x0.len() && forall|j: int| 0 <= j < x0.len() ==> #[trigger] al[j] == x0[j]@,
                        bl.len() == ys.len() && forall|j: int| 0 <= j < ys.len() ==> #[trigger] bl[j] == ys@[j]@,
                        a@->List_0 == al,
                        b@->List_0 == bl,
                        xs.len() == x0.len() + i,
                        forall|j: int| 0 <= j < x0.len() ==> (#[trigger] xs@[j])@ == x0[j]@,
                        forall|j: int| 0 <= j < i ==> (#[trigger] xs@[x0.len() + j])@ == ys@[j]@,
                    decreases ys.len() - i,
                {
                    xs.push(ys[i].copy());
                    i = i + 1;
                }
                let r = Doc::Sequence(xs);
                assert forall|j: int| 0 <= j < xs.len() implies #[trigger] r@->List_0[j] == (al + bl)[j] by {
                    if j >= al.len() {
                        assert(xs@[x0.len() + (j - x0.len())]@ == ys@[j - x0.len()]@);
                    }
                }
                assert(r@->List_0 =~= al + bl);
                Ok(r)
            },
            _ => Err(Error::MergeError),
        },
        _ => Err(Error::MergeError),
    }
}

/// Merges `b` into `a` in place, as [`merged`] states it; on failure `a` is
/// left in an unspecified state.
pub fn merge_yaml_values_in_place(a: &mut Doc, b: Doc) -> (r: Result<(), Error>)
    ensures
        match merged(old(a)@, b@) {
            Some(m) => r is Ok && final(a)@ == m,
            None => r matches Err(e) && e@ == Fault::Merge,
        },
{
    let mut cur = Doc::Null;
    std::mem::swap(a, &mut cur);
    match merge_values(cur, &b) {
        Ok(m) => {
            *a = m;
            Ok(())
        },
        Err(e) => Err(e),
    }
}

} // verus!
