use vstd::prelude::*;
use crate::doc::Node;
use crate::engine::{
    dict_size, directive_of, enter, include_each, include_file, include_target, include_yaml, list_size, resolve,
    resolve_entries, resolve_items, size, Ctx,
};
use crate::glob::selected_paths;
use crate::merge::{key_position, lemma_key_position_range, merged, merged_entries, merged_entry};
use crate::sources::Sources;

verus! {

/// No two entries of a mapping share a key.
pub open spec fn keys_distinct(s: Seq<(Node, Node)>) -> bool {
    forall|i: int, j: int| 0 <= i < j < s.len() ==> (#[trigger] s[i]).0 != (#[trigger] s[j]).0
}

/// Every mapping in a document, at any depth, has distinct keys.
pub open spec fn unique_keys(n: Node) -> bool
    decreases n,
{
    match n {
        Node::List(s) => forall|i: int| 0 <= i < s.len() ==> unique_keys(#[trigger] s[i]),
        Node::Dict(s) => keys_distinct(s) && forall|i: int|
            0 <= i < s.len() ==> unique_keys(#[trigger] s[i].0) && unique_keys(s[i].1),
        Node::Tagged(_, inner) => unique_keys(*inner),
        _ => true,
    }
}

/// Every document that the sources hold has unique keys, as a YAML parser
/// gives them.
pub open spec fn documents_unique(w: Sources) -> bool {
    forall|p: Seq<char>| #[trigger] w.document(p) matches Some(Ok(d)) ==> unique_keys(d@)
}


/// Merging two documents whose mappings have distinct keys gives one whose
/// mappings have distinct keys.
pub proof fn lemma_merged_unique(a: Node, b: Node)
    requires
        unique_keys(a),
        unique_keys(b),
    ensures
        merged(a, b) matches Some(m) ==> unique_keys(m),
    decreases b,
{
    match (a, b) {
        (Node::Dict(xs), Node::Dict(ys)) => {
            lemma_merged_entries_unique(xs, ys);
        },
        (Node::List(xs), Node::List(ys)) => {
            assert forall|i: int| 0 <= i < (xs + ys).len() implies unique_keys(#[trigger] (xs + ys)[i]) by {
                if i >= xs.len() {
                    assert((xs + ys)[i] == ys[i - xs.len()]);
                } else {
                    assert((xs + ys)[i] == xs[i]);
                }
            }
        },
        _ => {},
    }
}

proof fn lemma_merged_entries_unique(xs: Seq<(Node, Node)>, ys: Seq<(Node, Node)>)
    requires
        unique_keys(Node::Dict(xs)),
        unique_keys(Node::Dict(ys)),
    ensures
        merged_entries(xs, ys) matches Some(m) ==> unique_keys(Node::Dict(m)),
    decreases ys,
{
    if ys.len() > 0 {
        assert(decreases_to!(ys => ys[ys.len() - 1]));
        let yd = ys.drop_last();
        assert forall|i: int| 0 <= i < yd.len() implies #[trigger] yd[i] == ys[i] by {}
        assert(unique_keys(Node::Dict(yd)));
        lemma_merged_entries_unique(xs, yd);
        if let Some(acc) = merged_entries(xs, yd) {
            let e = ys.last();
            assert(e == ys[ys.len() - 1]);
            assert(merged_entries(xs, ys) == merged_entry(acc, e));
            let p = key_position(acc, e.0);
            lemma_key_position_range(acc, e.0);
            crate::merge::lemma_key_position_spec(acc, e.0);
            if p < 0 {
                let out = acc.push(e);
                assert forall|i: int, j: int| 0 <= i < j < out.len() implies (#[trigger] out[i]).0 != (#[trigger] out[j]).0 by {
                    assert(out[i] == acc[i]);
                    if j < acc.len() {
                        assert(out[j] == acc[j]);
                    }
                }
                assert forall|i: int| 0 <= i < out.len() implies unique_keys(#[trigger] out[i].0) && unique_keys(out[i].1) by {
                    if i < acc.len() {
                        assert(out[i] == acc[i]);
                    }
                }
                assert(unique_keys(Node::Dict(out)));
            } else {
                lemma_merged_unique(acc[p].1, e.1);
                if let Some(m) = merged(acc[p].1, e.1) {
                    let up = acc.update(p, (acc[p].0, m));
                    assert forall|i: int, j: int| 0 <= i < j < up.len() implies (#[trigger] up[i]).0 != (#[trigger] up[j]).0 by {
                        assert(up[i].0 == acc[i].0);
                        assert(up[j].0 == acc[j].0);
                    }
                    assert forall|i: int| 0 <= i < up.len() implies unique_keys(#[trigger] up[i].0) && unique_keys(up[i].1) by {
                        if i != p {
                            assert(up[i] == acc[i]);
                        }
                    }
                    assert(unique_keys(Node::Dict(up)));
                }
            }
        }
    } else {
        assert(ys =~= Seq::<(Node, Node)>::empty());
    }
}

proof fn lemma_binary_record_keys()
    ensures
        Node::Str("filename"@) != Node::Str("base64"@),
{
    reveal_strlit("filename");
    reveal_strlit("base64");
    assert("filename"@.len() == 8);
    assert("base64"@.len() == 6);
}

/// Where every document of the sources has distinct keys in each mapping,
/// so has every document that resolution gives.
pub proof fn lemma_resolve_keeps_unique_keys(w: Sources, c: Ctx, n: Node)
    requires
        documents_unique(w),
        unique_keys(n),
    ensures
        resolve(w, c, n) matches Ok(r) ==> unique_keys(r),
    decreases crate::engine::budget(w, c.seen), size(n), 0nat, 0nat,
{
    match n {
        Node::List(s) => lemma_unique_items(w, c, s),
        Node::Dict(s) => lemma_unique_entries(w, c, s),
        Node::Tagged(tag, inner) => {
            if let Some(crate::engine::Directive::Include(mode)) = directive_of(tag) {
                if let Node::Str(target) = *inner {
                    lemma_unique_target(w, c, target, mode);
                }
            }
        },
        _ => {},
    }
}

proof fn lemma_unique_items(w: Sources, c: Ctx, s: Seq<Node>)
    requires
        documents_unique(w),
        forall|i: int| 0 <= i < s.len() ==> unique_keys(#[trigger] s[i]),
    ensures
        resolve_items(w, c, s) matches Ok(r) ==> forall|i: int| 0 <= i < r.len() ==> unique_keys(#[trigger] r[i]),
    decreases crate::engine::budget(w, c.seen), list_size(s), 1nat, 0nat,
{
    if s.len() > 0 {
        crate::engine::lemma_size_positive(s.last());
        assert forall|i: int| 0 <= i < s.drop_last().len() implies unique_keys(#[trigger] s.drop_last()[i]) by {
            assert(s.drop_last()[i] == s[i]);
        }
        assert(unique_keys(s[s.len() - 1]));
        lemma_unique_items(w, c, s.drop_last());
        lemma_resolve_keeps_unique_keys(w, c, s.last());
        if let Ok(r) = resolve_items(w, c, s) {
            let prev = resolve_items(w, c, s.drop_last())->Ok_0;
            assert forall|i: int| 0 <= i < r.len() implies unique_keys(#[trigger] r[i]) by {
                if i < prev.len() {
                    assert(r[i] == prev[i]);
                }
            }
        }
    }
}

proof fn lemma_unique_entries(w: Sources, c: Ctx, s: Seq<(Node, Node)>)
    requires
        documents_unique(w),
        unique_keys(Node::Dict(s)),
    ensures
        resolve_entries(w, c, s) matches Ok(r) ==> r.len() == s.len() && (forall|i: int|
            0 <= i < r.len() ==> (#[trigger] r[i]).0 == s[i].0) && unique_keys(Node::Dict(r)),
    decreases crate::engine::budget(w, c.seen), dict_size(s), 1nat, 0nat,
{
    if s.len() > 0 {
        crate::engine::lemma_size_positive(s.last().1);
        let sd = s.drop_last();
        assert forall|i: int| 0 <= i < sd.len() implies #[trigger] sd[i] == s[i] by {}
        assert(unique_keys(Node::Dict(sd)));
        assert(unique_keys(s[s.len() - 1].1));
        lemma_unique_entries(w, c, sd);
        lemma_resolve_keeps_unique_keys(w, c, s.last().1);
        if let Ok(r) = resolve_entries(w, c, s) {
            let prev = resolve_entries(w, c, sd)->Ok_0;
            assert forall|i: int| 0 <= i < r.len() implies (#[trigger] r[i]).0 == s[i].0 by {
                if i < prev.len() {
                    assert(r[i] == prev[i]);
                }
            }
            assert forall|i: int| 0 <= i < r.len() implies unique_keys(#[trigger] r[i].0) && unique_keys(r[i].1) by {
                if i < prev.len() {
                    assert(r[i] == prev[i]);
                }
            }
            assert forall|i: int, j: int| 0 <= i < j < r.len() implies (#[trigger] r[i]).0 != (#[trigger] r[j]).0 by {
                assert(r[i].0 == s[i].0);
                assert(r[j].0 == s[j].0);
            }
        }
    } else {
        assert(s =~= Seq::<(Node, Node)>::empty());
    }
}

proof fn lemma_unique_target(w: Sources, c: Ctx, target: Seq<char>, mode: crate::engine::Mode)
    requires
        documents_unique(w),
    ensures
        include_target(w, c, target, mode) matches Ok(r) ==> unique_keys(r),
    decreases crate::engine::budget(w, c.seen), 0nat, 4nat, 0nat,
{
    if let Ok(p) = crate::engine::target_path(w, c, target) {
        lemma_unique_file(w, c, p, mode, target);
    }
    if let Some(dir) = crate::paths::path_parent(c.root) {
        if let Some(Ok(es)) = w.listing(dir) {
            assert(unique_keys(Node::Dict(Seq::empty())));
            lemma_unique_each(w, c, target, mode, selected_paths(target, es@, c.root), 0, Node::Dict(Seq::empty()));
        }
    }
}

proof fn lemma_unique_each(
    w: Sources,
    c: Ctx,
    target: Seq<char>,
    mode: crate::engine::Mode,
    paths: Seq<Seq<char>>,
    i: int,
    acc: Node,
)
    requires
        documents_unique(w),
        unique_keys(acc),
    ensures
        include_each(w, c, target, mode, paths, i, acc) matches Ok(r) ==> unique_keys(r),
    decreases crate::engine::budget(w, c.seen), 0nat, 3nat, paths.len() - i,
{
    if 0 <= i < paths.len() {
        lemma_unique_file(w, c, paths[i], mode, target);
        if let Ok(v) = include_file(w, c, paths[i], mode, target) {
            if let Some(stem) = crate::paths::path_file_stem(paths[i]) {
                let entries = seq![(Node::Str(stem), v)];
                let wrapped = Node::Dict(entries);
                assert(entries[0] == (Node::Str(stem), v));
                assert(entries.len() == 1);
                assert(unique_keys(entries[0].0) && unique_keys(entries[0].1));
                assert(keys_distinct(entries));
                assert(unique_keys(wrapped));
                lemma_merged_unique(acc, wrapped);
                if let Some(next) = merged(acc, wrapped) {
                    lemma_unique_each(w, c, target, mode, paths, i + 1, next);
                }
            }
        }
    }
}

proof fn lemma_unique_file(w: Sources, c: Ctx, path: Seq<char>, mode: crate::engine::Mode, target: Seq<char>)
    requires
        documents_unique(w),
    ensures
        include_file(w, c, path, mode, target) matches Ok(r) ==> unique_keys(r),
    decreases crate::engine::budget(w, c.seen), 0nat, 2nat, 0nat,
{
    lemma_unique_yaml(w, c, path, target);
    if let Ok(r) = crate::engine::binary_fragment(w, path) {
        lemma_binary_record_keys();
        let rec = r->Tagged_1;
        let es = (*rec)->Dict_0;
        assert(es.len() == 2);
        assert(unique_keys(es[0].0) && unique_keys(es[0].1));
        assert(unique_keys(es[1].0) && unique_keys(es[1].1));
        assert(keys_distinct(es));
        assert(unique_keys(*rec));
    }
}

proof fn lemma_unique_yaml(w: Sources, c: Ctx, path: Seq<char>, target: Seq<char>)
    requires
        documents_unique(w),
    ensures
        include_yaml(w, c, path, target) matches Ok(r) ==> unique_keys(r),
    decreases crate::engine::budget(w, c.seen), 0nat, 1nat, 0nat,
{
    let marker = Node::Tagged("!circular"@, Box::new(Node::Str(target)));
    assert(unique_keys(Node::Str(target)));
    assert(unique_keys(marker));
    if let Ok(child) = enter(w, path, c.strict, c.seen) {
        if let Some(Ok(d)) = w.document(child.root) {
            crate::engine::lemma_budget_shrinks(w, c.seen, child.root);
            assert(unique_keys(d@));
            lemma_resolve_keeps_unique_keys(w, child, d@);
        }
    }
}


/// Where every document of the sources has distinct keys in each mapping,
/// so has every document that parsing gives.
pub proof fn lemma_parse_keeps_unique_keys(w: Sources, c: Ctx)
    requires
        documents_unique(w),
    ensures
        crate::engine::parse(w, c) matches Ok(r) ==> unique_keys(r),
{
    if let Some(Ok(d)) = w.document(c.root) {
        assert(unique_keys(d@));
        lemma_resolve_keeps_unique_keys(w, c, d@);
    }
}

/// Merging mappings that share no key, each with distinct keys, appends the
/// entries of the second after those of the first.
pub proof fn lemma_merge_disjoint_mappings(xs: Seq<(Node, Node)>, ys: Seq<(Node, Node)>)
    requires
        keys_distinct(xs),
        keys_distinct(ys),
        forall|i: int, j: int| 0 <= i < xs.len() && 0 <= j < ys.len() ==> (#[trigger] xs[i]).0 != (#[trigger] ys[j]).0,
    ensures
        merged(Node::Dict(xs), Node::Dict(ys)) == Some(Node::Dict(xs + ys)),
{
    lemma_merged_entries_disjoint(xs, ys);
}

proof fn lemma_merged_entries_disjoint(xs: Seq<(Node, Node)>, ys: Seq<(Node, Node)>)
    requires
        keys_distinct(ys),
        forall|i: int, j: int| 0 <= i < xs.len() && 0 <= j < ys.len() ==> (#[trigger] xs[i]).0 != (#[trigger] ys[j]).0,
    ensures
        merged_entries(xs, ys) == Some(xs + ys),
    decreases ys.len(),
{
    if ys.len() == 0 {
        assert(xs + ys =~= xs);
    } else {
        let yd = ys.drop_last();
        assert forall|i: int, j: int| 0 <= i < yd.len() && 0 <= j < yd.len() && i < j implies (#[trigger] yd[i]).0 != (#[trigger] yd[j]).0 by {
            assert(yd[i] == ys[i] && yd[j] == ys[j]);
        }
        assert forall|i: int, j: int| 0 <= i < xs.len() && 0 <= j < yd.len() implies (#[trigger] xs[i]).0 != (#[trigger] yd[j]).0 by {
            assert(yd[j] == ys[j]);
        }
        lemma_merged_entries_disjoint(xs, yd);
        let acc = xs + yd;
        let e = ys.last();
        assert(e == ys[ys.len() - 1]);
        assert forall|j: int| 0 <= j < acc.len() implies (#[trigger] acc[j]).0 != e.0 by {
            if j < xs.len() {
                assert(acc[j] == xs[j]);
            } else {
                assert(acc[j] == ys[j - xs.len()]);
            }
        }
        crate::merge::lemma_key_position_spec(acc, e.0);
        assert(key_position(acc, e.0) == -1);
        assert(merged_entry(acc, e) == Some(acc.push(e)));
        assert(ys.drop_last() == yd);
        assert(merged_entries(xs, ys) == merged_entry(acc, e));
        assert(acc.push(e) =~= xs + ys);
    }
}

} // verus!
