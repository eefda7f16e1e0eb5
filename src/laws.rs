use vstd::prelude::*;
use crate::doc::Node;
use crate::engine::{
    directive_of, dict_size, enter, include_each, include_file, include_target, include_yaml, list_size, parse, resolve,
    resolve_entries, resolve_items, size, Ctx,
};
use crate::error::Fault;
use crate::glob::{entry_matches, matching_paths, path_order, selected_paths, GlobEntry};
use crate::merge::{key_position, merged, merged_entries};
use crate::sources::{Halt, Sources};
use crate::text::lemma_text_le_total_ordering;

verus! {

/// A document with no directive left in its values: every tag on a value is
/// one that resolution passes through.
pub open spec fn plain(n: Node) -> bool
    decreases n,
{
    match n {
        Node::List(s) => plain_items(s),
        Node::Dict(s) => plain_entries(s),
        Node::Tagged(t, _) => directive_of(t) is None,
        _ => true,
    }
}

pub open spec fn plain_items(s: Seq<Node>) -> bool
    decreases s,
{
    if s.len() == 0 {
        true
    } else {
        proof {
            assert(decreases_to!(s => s[s.len() - 1]));
        }
        plain_items(s.drop_last()) && plain(s.last())
    }
}

pub open spec fn plain_entries(s: Seq<(Node, Node)>) -> bool
    decreases s,
{
    if s.len() == 0 {
        true
    } else {
        proof {
            assert(decreases_to!(s => s[s.len() - 1]));
        }
        plain_entries(s.drop_last()) && plain(s.last().1)
    }
}

/// Resolving a document that holds no directive gives it back unchanged,
/// whatever the sources and the context.
pub proof fn lemma_resolve_plain(w: Sources, c: Ctx, n: Node)
    requires
        plain(n),
    ensures
        resolve(w, c, n) == Ok::<Node, Halt>(n),
    decreases size(n), 0nat,
{
    match n {
        Node::List(s) => {
            lemma_resolve_plain_items(w, c, s);
        },
        Node::Dict(s) => {
            lemma_resolve_plain_entries(w, c, s);
        },
        _ => {},
    }
}

proof fn lemma_resolve_plain_items(w: Sources, c: Ctx, s: Seq<Node>)
    requires
        plain_items(s),
    ensures
        resolve_items(w, c, s) == Ok::<Seq<Node>, Halt>(s),
    decreases list_size(s), 1nat,
{
    if s.len() > 0 {
        crate::engine::lemma_size_positive(s.last());
        lemma_resolve_plain_items(w, c, s.drop_last());
        lemma_resolve_plain(w, c, s.last());
        assert(s.drop_last().push(s.last()) =~= s);
    } else {
        assert(s =~= Seq::<Node>::empty());
    }
}

proof fn lemma_resolve_plain_entries(w: Sources, c: Ctx, s: Seq<(Node, Node)>)
    requires
        plain_entries(s),
    ensures
        resolve_entries(w, c, s) == Ok::<Seq<(Node, Node)>, Halt>(s),
    decreases dict_size(s), 1nat,
{
    if s.len() > 0 {
        crate::engine::lemma_size_positive(s.last().1);
        lemma_resolve_plain_entries(w, c, s.drop_last());
        lemma_resolve_plain(w, c, s.last().1);
        assert(s.drop_last().push((s.last().0, s.last().1)) =~= s);
    } else {
        assert(s =~= Seq::<(Node, Node)>::empty());
    }
}

/// Parsing a document that holds no directive gives it back unchanged.
pub proof fn lemma_parse_plain(w: Sources, c: Ctx, n: Node)
    requires
        w.document(c.root) matches Some(Ok(d)) && d@ == n,
        plain(n),
    ensures
        parse(w, c) == Ok::<Node, Halt>(n),
{
    lemma_resolve_plain(w, c, n);
}

/// Whether an outcome is a failure on a circular inclusion.
pub open spec fn fails_circular<T>(r: Result<T, Halt>) -> bool {
    r matches Err(Halt::Fail(Fault::Circular(_)))
}

/// In graceful mode no resolution fails on a circular inclusion: each one
/// becomes a `!circular` marker.
pub proof fn lemma_graceful_never_circular(w: Sources, c: Ctx, n: Node)
    requires
        !c.strict,
    ensures
        !fails_circular(resolve(w, c, n)),
    decreases crate::engine::budget(w, c.seen), size(n), 0nat, 0nat,
{
    match n {
        Node::List(s) => lemma_graceful_items(w, c, s),
        Node::Dict(s) => lemma_graceful_entries(w, c, s),
        Node::Tagged(tag, inner) => {
            if let Some(crate::engine::Directive::Include(mode)) = directive_of(tag) {
                if let Node::Str(target) = *inner {
                    lemma_graceful_target(w, c, target, mode);
                }
            }
        },
        _ => {},
    }
}

proof fn lemma_graceful_items(w: Sources, c: Ctx, s: Seq<Node>)
    requires
        !c.strict,
    ensures
        !fails_circular(resolve_items(w, c, s)),
    decreases crate::engine::budget(w, c.seen), list_size(s), 1nat, 0nat,
{
    if s.len() > 0 {
        crate::engine::lemma_size_positive(s.last());
        lemma_graceful_items(w, c, s.drop_last());
        lemma_graceful_never_circular(w, c, s.last());
    }
}

proof fn lemma_graceful_entries(w: Sources, c: Ctx, s: Seq<(Node, Node)>)
    requires
        !c.strict,
    ensures
        !fails_circular(resolve_entries(w, c, s)),
    decreases crate::engine::budget(w, c.seen), dict_size(s), 1nat, 0nat,
{
    if s.len() > 0 {
        crate::engine::lemma_size_positive(s.last().1);
        lemma_graceful_entries(w, c, s.drop_last());
        lemma_graceful_never_circular(w, c, s.last().1);
    }
}

proof fn lemma_graceful_target(w: Sources, c: Ctx, target: Seq<char>, mode: crate::engine::Mode)
    requires
        !c.strict,
    ensures
        !fails_circular(include_target(w, c, target, mode)),
    decreases crate::engine::budget(w, c.seen), 0nat, 4nat, 0nat,
{
    reveal_with_fuel(include_target, 1);
    match crate::engine::target_path(w, c, target) {
        Ok(p) => lemma_graceful_file(w, c, p, mode, target),
        Err(_) => {},
    }
    if let Some(dir) = crate::paths::path_parent(c.root) {
        if let Some(Ok(es)) = w.listing(dir) {
            lemma_graceful_each(w, c, target, mode, selected_paths(target, es@, c.root), 0, Node::Dict(Seq::empty()));
        }
    }
}

proof fn lemma_graceful_each(
    w: Sources,
    c: Ctx,
    target: Seq<char>,
    mode: crate::engine::Mode,
    paths: Seq<Seq<char>>,
    i: int,
    acc: Node,
)
    requires
        !c.strict,
    ensures
        !fails_circular(include_each(w, c, target, mode, paths, i, acc)),
    decreases crate::engine::budget(w, c.seen), 0nat, 3nat, paths.len() - i,
{
    if 0 <= i < paths.len() {
        lemma_graceful_file(w, c, paths[i], mode, target);
        if let Ok(v) = include_file(w, c, paths[i], mode, target) {
            if let Some(stem) = crate::paths::path_file_stem(paths[i]) {
                if let Some(next) = merged(acc, Node::Dict(seq![(Node::Str(stem), v)])) {
                    lemma_graceful_each(w, c, target, mode, paths, i + 1, next);
                }
            }
        }
    }
}

proof fn lemma_graceful_file(w: Sources, c: Ctx, path: Seq<char>, mode: crate::engine::Mode, target: Seq<char>)
    requires
        !c.strict,
    ensures
        !fails_circular(include_file(w, c, path, mode, target)),
    decreases crate::engine::budget(w, c.seen), 0nat, 2nat, 0nat,
{
    lemma_graceful_yaml(w, c, path, target);
}

proof fn lemma_graceful_yaml(w: Sources, c: Ctx, path: Seq<char>, target: Seq<char>)
    requires
        !c.strict,
    ensures
        !fails_circular(include_yaml(w, c, path, target)),
    decreases crate::engine::budget(w, c.seen), 0nat, 1nat, 0nat,
{
    if let Ok(child) = enter(w, path, c.strict, c.seen) {
        if let Some(Ok(d)) = w.document(child.root) {
            crate::engine::lemma_budget_shrinks(w, c.seen, child.root);
            lemma_graceful_never_circular(w, child, d@);
        }
    }
}

/// A glob never selects the document that holds it.
pub proof fn lemma_self_excluded(pattern: Seq<char>, entries: Seq<GlobEntry>, own: Seq<char>)
    ensures
        !selected_paths(pattern, entries, own).contains(own),
{
    lemma_matching_excludes(pattern, entries, own);
    lemma_text_le_total_ordering();
    matching_paths(pattern, entries, own).lemma_sort_by_ensures(path_order());
}

proof fn lemma_matching_excludes(pattern: Seq<char>, entries: Seq<GlobEntry>, own: Seq<char>)
    ensures
        !matching_paths(pattern, entries, own).contains(own),
    decreases entries.len(),
{
    if entries.len() > 0 {
        lemma_matching_excludes(pattern, entries.drop_last(), own);
        let before = matching_paths(pattern, entries.drop_last(), own);
        let after = matching_paths(pattern, entries, own);
        if after.len() > before.len() {
            assert forall|i: int| 0 <= i < after.len() implies after[i] != own by {
                if i < before.len() {
                    assert(after[i] == before[i]);
                }
            }
        }
    }
}

/// Merging the results `{a: x}` and `{b: y}` of a glob, with distinct keys,
/// into an empty mapping gives both entries, in either order of the matches.
pub proof fn lemma_merge_disjoint(a: Node, x: Node, b: Node, y: Node)
    requires
        a != b,
    ensures
        ({
            let first = merged(Node::Dict(Seq::empty()), Node::Dict(seq![(a, x)]));
            first == Some(Node::Dict(seq![(a, x)]))
                && merged(first->Some_0, Node::Dict(seq![(b, y)])) == Some(Node::Dict(seq![(a, x), (b, y)]))
        }),
        ({
            let first = merged(Node::Dict(Seq::empty()), Node::Dict(seq![(b, y)]));
            first == Some(Node::Dict(seq![(b, y)]))
                && merged(first->Some_0, Node::Dict(seq![(a, x)])) == Some(Node::Dict(seq![(b, y), (a, x)]))
        }),
        seq![(a, x), (b, y)].to_set() == seq![(b, y), (a, x)].to_set(),
{
    let e = Seq::<(Node, Node)>::empty();
    lemma_merge_one(e, a, x);
    lemma_merge_one(seq![(a, x)], b, y);
    lemma_merge_one(e, b, y);
    lemma_merge_one(seq![(b, y)], a, x);
    assert(e.push((a, x)) =~= seq![(a, x)]);
    assert(e.push((b, y)) =~= seq![(b, y)]);
    assert(seq![(a, x)].push((b, y)) =~= seq![(a, x), (b, y)]);
    assert(seq![(b, y)].push((a, x)) =~= seq![(b, y), (a, x)]);
    assert(seq![(a, x), (b, y)].to_set() =~= seq![(b, y), (a, x)].to_set()) by {
        assert(seq![(a, x), (b, y)][0] == (a, x));
        assert(seq![(a, x), (b, y)][1] == (b, y));
        assert(seq![(b, y), (a, x)][0] == (b, y));
        assert(seq![(b, y), (a, x)][1] == (a, x));
    }
}

proof fn lemma_merge_one(acc: Seq<(Node, Node)>, k: Node, v: Node)
    requires
        forall|i: int| 0 <= i < acc.len() ==> (#[trigger] acc[i]).0 != k,
    ensures
        merged(Node::Dict(acc), Node::Dict(seq![(k, v)])) == Some(Node::Dict(acc.push((k, v)))),
{
    let ys = seq![(k, v)];
    assert(ys.drop_last() =~= Seq::<(Node, Node)>::empty());
    assert(key_position(acc, k) == -1) by {
        lemma_key_absent(acc, k);
    }
    assert(merged_entries(acc, ys.drop_last()) == Some(acc));
}

proof fn lemma_key_absent(acc: Seq<(Node, Node)>, k: Node)
    requires
        forall|i: int| 0 <= i < acc.len() ==> (#[trigger] acc[i]).0 != k,
    ensures
        key_position(acc, k) == -1,
    decreases acc.len(),
{
    if acc.len() > 0 {
        assert forall|i: int| 0 <= i < acc.drop_last().len() implies (#[trigger] acc.drop_last()[i]).0 != k by {
            assert(acc.drop_last()[i] == acc[i]);
        }
        lemma_key_absent(acc.drop_last(), k);
        assert(acc.last() == acc[acc.len() - 1]);
    }
}

/// Merging two results that share their key merges their values; the merge
/// fails where the values are not two mappings or two sequences.
pub proof fn lemma_merge_shared_key(k: Node, x: Node, y: Node)
    ensures
        merged(Node::Dict(seq![(k, x)]), Node::Dict(seq![(k, y)])) == match merged(x, y) {
            Some(m) => Some(Node::Dict(seq![(k, m)])),
            None => None::<Node>,
        },
        !((x is Dict && y is Dict) || (x is List && y is List)) ==> merged(x, y) is None,
{
    let ys = seq![(k, y)];
    assert(ys.drop_last() =~= Seq::<(Node, Node)>::empty());
    let acc = seq![(k, x)];
    assert(acc.drop_last() =~= Seq::<(Node, Node)>::empty());
    assert(acc.last() == (k, x));
    assert(key_position(acc.drop_last(), k) == -1);
    assert(key_position(acc, k) == 0);
    assert(merged_entries(acc, ys.drop_last()) == Some(acc));
    if let Some(m) = merged(x, y) {
        assert(acc.update(0, (k, m)) =~= seq![(k, m)]);
    }
}


proof fn lemma_matching_remove(pattern: Seq<char>, s: Seq<GlobEntry>, k: int, own: Seq<char>)
    requires
        0 <= k < s.len(),
    ensures
        matching_paths(pattern, s, own).to_multiset() == ({
            let rest = matching_paths(pattern, s.remove(k), own).to_multiset();
            if entry_matches(pattern, s[k]) && s[k].full_path@ != own {
                rest.insert(s[k].full_path@)
            } else {
                rest
            }
        }),
    decreases s.len(),
{
    broadcast use vstd::seq_lib::group_to_multiset_ensures;
    broadcast use vstd::multiset::group_multiset_axioms;

    if k == s.len() - 1 {
        assert(s.remove(k) =~= s.drop_last());
    } else {
        assert(s.remove(k).drop_last() =~= s.drop_last().remove(k));
        assert(s.remove(k).last() == s.last());
        assert(s.drop_last()[k] == s[k]);
        lemma_matching_remove(pattern, s.drop_last(), k, own);
        let a = s[k].full_path@;
        let b = s.last().full_path@;
        let m = matching_paths(pattern, s.drop_last().remove(k), own).to_multiset();
        assert(m.insert(a).insert(b) =~= m.insert(b).insert(a));
    }
}

proof fn lemma_matching_permutation(pattern: Seq<char>, e1: Seq<GlobEntry>, e2: Seq<GlobEntry>, own: Seq<char>)
    requires
        e1.to_multiset() == e2.to_multiset(),
    ensures
        matching_paths(pattern, e1, own).to_multiset() == matching_paths(pattern, e2, own).to_multiset(),
    decreases e1.len(),
{
    broadcast use vstd::seq_lib::group_to_multiset_ensures;
    broadcast use vstd::multiset::group_multiset_axioms;

    if e1.len() == 0 {
        assert(e2.to_multiset().len() == 0);
        assert(e2.len() == 0);
    } else {
        let x = e1.last();
        assert(e1.drop_last().push(x) =~= e1);
        assert(e1.to_multiset().count(x) > 0);
        assert(e2.contains(x));
        let k = choose|k: int| 0 <= k < e2.len() && e2[k] == x;
        assert(e1.drop_last().to_multiset() =~= e1.to_multiset().remove(x));
        assert(e2.remove(k).to_multiset() =~= e2.to_multiset().remove(x));
        lemma_matching_permutation(pattern, e1.drop_last(), e2.remove(k), own);
        lemma_matching_remove(pattern, e2, k, own);
    }
}

/// The files a glob selects, and their order, do not depend on the order in
/// which the folder was listed: a listing in any other order gives the same
/// selection.
pub proof fn lemma_selection_ignores_listing_order(
    pattern: Seq<char>,
    e1: Seq<GlobEntry>,
    e2: Seq<GlobEntry>,
    own: Seq<char>,
)
    requires
        e1.to_multiset() == e2.to_multiset(),
    ensures
        selected_paths(pattern, e1, own) == selected_paths(pattern, e2, own),
{
    let m1 = matching_paths(pattern, e1, own);
    let m2 = matching_paths(pattern, e2, own);
    lemma_matching_permutation(pattern, e1, e2, own);
    lemma_text_le_total_ordering();
    m1.lemma_sort_by_ensures(path_order());
    m2.lemma_sort_by_ensures(path_order());
    vstd::seq_lib::lemma_sorted_unique(m1.sort_by(path_order()), m2.sort_by(path_order()), path_order());
}


/// Two sets of facts that agree on everything but the order in which each
/// folder's files were listed.
pub open spec fn same_but_listing_order(w1: Sources, w2: Sources) -> bool {
    &&& forall|p: Seq<char>| #[trigger] w1.path_info(p) == w2.path_info(p)
    &&& forall|p: Seq<char>| #[trigger] w1.document(p) == w2.document(p)
    &&& forall|p: Seq<char>| #[trigger] w1.text(p) == w2.text(p)
    &&& forall|p: Seq<char>| #[trigger] w1.bytes(p) == w2.bytes(p)
    &&& forall|p: Seq<char>| #[trigger] w1.variable(p) == w2.variable(p)
    &&& forall|d: Seq<char>| match (#[trigger] w1.listing(d), w2.listing(d)) {
        (None, None) => true,
        (Some(Err(a)), Some(Err(b))) => a == b,
        (Some(Ok(a)), Some(Ok(b))) => a@.to_multiset() == b@.to_multiset(),
        _ => false,
    }
}

/// Resolution does not depend on the order in which folders were listed:
/// two runs over the same files give the same document, glob results
/// included.
pub proof fn lemma_resolution_ignores_listing_order(w1: Sources, w2: Sources, c: Ctx, n: Node)
    requires
        same_but_listing_order(w1, w2),
    ensures
        resolve(w1, c, n) == resolve(w2, c, n),
    decreases crate::engine::budget(w1, c.seen), size(n), 0nat, 0nat,
{
    match n {
        Node::List(s) => lemma_order_items(w1, w2, c, s),
        Node::Dict(s) => lemma_order_entries(w1, w2, c, s),
        Node::Tagged(tag, inner) => {
            if let Some(crate::engine::Directive::Include(mode)) = directive_of(tag) {
                if let Node::Str(target) = *inner {
                    lemma_order_target(w1, w2, c, target, mode);
                }
            }
        },
        _ => {},
    }
}

/// Parsing a document does not depend on the order in which folders were
/// listed.
pub proof fn lemma_parse_ignores_listing_order(w1: Sources, w2: Sources, c: Ctx)
    requires
        same_but_listing_order(w1, w2),
    ensures
        parse(w1, c) == parse(w2, c),
{
    if let Some(Ok(d)) = w1.document(c.root) {
        lemma_resolution_ignores_listing_order(w1, w2, c, d@);
    }
}

proof fn lemma_order_items(w1: Sources, w2: Sources, c: Ctx, s: Seq<Node>)
    requires
        same_but_listing_order(w1, w2),
    ensures
        resolve_items(w1, c, s) == resolve_items(w2, c, s),
    decreases crate::engine::budget(w1, c.seen), list_size(s), 1nat, 0nat,
{
    if s.len() > 0 {
        crate::engine::lemma_size_positive(s.last());
        lemma_order_items(w1, w2, c, s.drop_last());
        lemma_resolution_ignores_listing_order(w1, w2, c, s.last());
    }
}

proof fn lemma_order_entries(w1: Sources, w2: Sources, c: Ctx, s: Seq<(Node, Node)>)
    requires
        same_but_listing_order(w1, w2),
    ensures
        resolve_entries(w1, c, s) == resolve_entries(w2, c, s),
    decreases crate::engine::budget(w1, c.seen), dict_size(s), 1nat, 0nat,
{
    if s.len() > 0 {
        crate::engine::lemma_size_positive(s.last().1);
        lemma_order_entries(w1, w2, c, s.drop_last());
        lemma_resolution_ignores_listing_order(w1, w2, c, s.last().1);
    }
}

proof fn lemma_order_target(w1: Sources, w2: Sources, c: Ctx, target: Seq<char>, mode: crate::engine::Mode)
    requires
        same_but_listing_order(w1, w2),
    ensures
        include_target(w1, c, target, mode) == include_target(w2, c, target, mode),
    decreases crate::engine::budget(w1, c.seen), 0nat, 4nat, 0nat,
{
    assert(crate::engine::target_path(w1, c, target) == crate::engine::target_path(w2, c, target));
    if let Ok(p) = crate::engine::target_path(w1, c, target) {
        lemma_order_file(w1, w2, c, p, mode, target);
    }
    if let Some(dir) = crate::paths::path_parent(c.root) {
        let l1 = w1.listing(dir);
        let l2 = w2.listing(dir);
        if let Some(Ok(es1)) = l1 {
            let es2 = l2->Some_0->Ok_0;
            lemma_selection_ignores_listing_order(target, es1@, es2@, c.root);
            lemma_order_each(w1, w2, c, target, mode, selected_paths(target, es1@, c.root), 0, Node::Dict(Seq::empty()));
        }
    }
}

proof fn lemma_order_each(
    w1: Sources,
    w2: Sources,
    c: Ctx,
    target: Seq<char>,
    mode: crate::engine::Mode,
    paths: Seq<Seq<char>>,
    i: int,
    acc: Node,
)
    requires
        same_but_listing_order(w1, w2),
    ensures
        include_each(w1, c, target, mode, paths, i, acc) == include_each(w2, c, target, mode, paths, i, acc),
    decreases crate::engine::budget(w1, c.seen), 0nat, 3nat, paths.len() - i,
{
    if 0 <= i < paths.len() {
        lemma_order_file(w1, w2, c, paths[i], mode, target);
        if let Ok(v) = include_file(w1, c, paths[i], mode, target) {
            if let Some(stem) = crate::paths::path_file_stem(paths[i]) {
                if let Some(next) = merged(acc, Node::Dict(seq![(Node::Str(stem), v)])) {
                    lemma_order_each(w1, w2, c, target, mode, paths, i + 1, next);
                }
            }
        }
    }
}

proof fn lemma_order_file(w1: Sources, w2: Sources, c: Ctx, path: Seq<char>, mode: crate::engine::Mode, target: Seq<char>)
    requires
        same_but_listing_order(w1, w2),
    ensures
        include_file(w1, c, path, mode, target) == include_file(w2, c, path, mode, target),
    decreases crate::engine::budget(w1, c.seen), 0nat, 2nat, 0nat,
{
    lemma_order_yaml(w1, w2, c, path, target);
    assert(crate::engine::text_fragment(w1, path) == crate::engine::text_fragment(w2, path));
    assert(crate::engine::binary_fragment(w1, path) == crate::engine::binary_fragment(w2, path));
}

proof fn lemma_order_yaml(w1: Sources, w2: Sources, c: Ctx, path: Seq<char>, target: Seq<char>)
    requires
        same_but_listing_order(w1, w2),
    ensures
        include_yaml(w1, c, path, target) == include_yaml(w2, c, path, target),
    decreases crate::engine::budget(w1, c.seen), 0nat, 1nat, 0nat,
{
    assert(enter(w1, path, c.strict, c.seen) == enter(w2, path, c.strict, c.seen));
    if let Ok(child) = enter(w1, path, c.strict, c.seen) {
        assert(w1.document(child.root) == w2.document(child.root));
        if let Some(Ok(d)) = w1.document(child.root) {
            crate::engine::lemma_budget_shrinks(w1, c.seen, child.root);
            lemma_resolution_ignores_listing_order(w1, w2, child, d@);
        }
    }
}


/// At a back edge, an inclusion of a document that is already being
/// resolved, strict mode fails with the canonical path of that document and
/// graceful mode gives a `!circular` marker with the directive's target.
pub proof fn lemma_back_edge(w: Sources, c: Ctx, path: Seq<char>, target: Seq<char>)
    requires
        w.path_info(path) matches Some(info) && info.canonical matches Ok(q) && c.seen.contains(q@),
    ensures
        ({
            let q = w.path_info(path)->Some_0.canonical->Ok_0@;
            include_yaml(w, c, path, target) == if c.strict {
                Err::<Node, Halt>(Halt::Fail(Fault::Circular(q)))
            } else {
                Ok(Node::Tagged("!circular"@, Box::new(Node::Str(target))))
            }
        }),
{
}


proof fn lemma_plain_items_all(s: Seq<Node>)
    ensures
        plain_items(s) <==> forall|i: int| 0 <= i < s.len() ==> plain(#[trigger] s[i]),
    decreases s.len(),
{
    if s.len() > 0 {
        lemma_plain_items_all(s.drop_last());
        if plain_items(s) {
            assert forall|i: int| 0 <= i < s.len() implies plain(#[trigger] s[i]) by {
                if i < s.len() - 1 {
                    assert(s.drop_last()[i] == s[i]);
                }
            }
        }
        if forall|i: int| 0 <= i < s.len() ==> plain(#[trigger] s[i]) {
            assert forall|i: int| 0 <= i < s.drop_last().len() implies plain(#[trigger] s.drop_last()[i]) by {
                assert(s.drop_last()[i] == s[i]);
            }
            assert(plain(s[s.len() - 1]));
        }
    }
}

proof fn lemma_plain_entries_all(s: Seq<(Node, Node)>)
    ensures
        plain_entries(s) <==> forall|i: int| 0 <= i < s.len() ==> plain(#[trigger] s[i].1),
    decreases s.len(),
{
    if s.len() > 0 {
        lemma_plain_entries_all(s.drop_last());
        if plain_entries(s) {
            assert forall|i: int| 0 <= i < s.len() implies plain(#[trigger] s[i].1) by {
                if i < s.len() - 1 {
                    assert(s.drop_last()[i] == s[i]);
                }
            }
        }
        if forall|i: int| 0 <= i < s.len() ==> plain(#[trigger] s[i].1) {
            assert forall|i: int| 0 <= i < s.drop_last().len() implies plain(#[trigger] s.drop_last()[i].1) by {
                assert(s.drop_last()[i] == s[i]);
            }
            assert(plain(s[s.len() - 1].1));
        }
    }
}

/// Merging two documents with no directive gives one with no directive.
pub proof fn lemma_merged_plain(a: Node, b: Node)
    requires
        plain(a),
        plain(b),
    ensures
        merged(a, b) matches Some(m) ==> plain(m),
    decreases b,
{
    match (a, b) {
        (Node::Dict(xs), Node::Dict(ys)) => {
            lemma_merged_entries_plain(xs, ys);
        },
        (Node::List(xs), Node::List(ys)) => {
            lemma_plain_items_all(xs);
            lemma_plain_items_all(ys);
            lemma_plain_items_all(xs + ys);
            assert forall|i: int| 0 <= i < (xs + ys).len() implies plain(#[trigger] (xs + ys)[i]) by {
                if i >= xs.len() {
                    assert((xs + ys)[i] == ys[i - xs.len()]);
                }
            }
        },
        _ => {},
    }
}

proof fn lemma_merged_entries_plain(xs: Seq<(Node, Node)>, ys: Seq<(Node, Node)>)
    requires
        plain_entries(xs),
        plain_entries(ys),
    ensures
        merged_entries(xs, ys) matches Some(m) ==> plain_entries(m),
    decreases ys,
{
    if ys.len() > 0 {
        assert(decreases_to!(ys => ys[ys.len() - 1]));
        lemma_plain_entries_all(ys);
        lemma_plain_entries_all(ys.drop_last());
        assert forall|i: int| 0 <= i < ys.len() - 1 implies #[trigger] ys.drop_last()[i] == ys[i] by {}
        lemma_merged_entries_plain(xs, ys.drop_last());
        if let Some(acc) = merged_entries(xs, ys.drop_last()) {
            let e = ys.last();
            assert(plain(e.1));
            assert(merged_entries(xs, ys) == crate::merge::merged_entry(acc, e));
            lemma_plain_entries_all(acc);
            let p = key_position(acc, e.0);
            if p < 0 {
                lemma_plain_entries_all(acc.push(e));
                assert forall|i: int| 0 <= i < acc.push(e).len() implies plain(#[trigger] acc.push(e)[i].1) by {
                    if i < acc.len() {
                        assert(acc.push(e)[i] == acc[i]);
                    }
                }
            } else {
                crate::merge::lemma_key_position_range(acc, e.0);
                lemma_merged_plain(acc[p].1, e.1);
                if let Some(m) = merged(acc[p].1, e.1) {
                    let up = acc.update(p, (acc[p].0, m));
                    lemma_plain_entries_all(up);
                    assert forall|i: int| 0 <= i < up.len() implies plain(#[trigger] up[i].1) by {
                        if i != p {
                            assert(up[i] == acc[i]);
                        }
                    }
                    assert(plain_entries(up));
                }
            }
        }
    } else {
        assert(ys =~= Seq::<(Node, Node)>::empty());
    }
}

proof fn lemma_marker_tags_pass_through()
    ensures
        directive_of("!binary"@) is None,
        directive_of("!circular"@) is None,
{
    reveal_strlit("!binary");
    reveal_strlit("!circular");
    reveal_strlit("!env");
    reveal_strlit("!include");
    reveal_strlit("!include_yaml");
    reveal_strlit("!include_yml");
    reveal_strlit("!include_text");
    reveal_strlit("!include_txt");
    reveal_strlit("!file");
    reveal_strlit("!include_bin");
    assert("!binary"@.len() == 7);
    assert("!circular"@.len() == 9);
    assert("!env"@.len() == 4);
    assert("!include"@.len() == 8);
    assert("!include_yaml"@.len() == 13);
    assert("!include_yml"@.len() == 12);
    assert("!include_text"@.len() == 13);
    assert("!include_txt"@.len() == 12);
    assert("!file"@.len() == 5);
    assert("!include_bin"@.len() == 12);
}

/// What a resolution gives holds no directive: every directive has been
/// replaced, and only tags that resolution passes through are left.
pub proof fn lemma_resolved_is_plain(w: Sources, c: Ctx, n: Node)
    ensures
        resolve(w, c, n) matches Ok(r) ==> plain(r),
    decreases crate::engine::budget(w, c.seen), size(n), 0nat, 0nat,
{
    match n {
        Node::List(s) => lemma_plain_out_items(w, c, s),
        Node::Dict(s) => lemma_plain_out_entries(w, c, s),
        Node::Tagged(tag, inner) => {
            if let Some(crate::engine::Directive::Include(mode)) = directive_of(tag) {
                if let Node::Str(target) = *inner {
                    lemma_plain_out_target(w, c, target, mode);
                }
            }
        },
        _ => {},
    }
}

proof fn lemma_plain_out_items(w: Sources, c: Ctx, s: Seq<Node>)
    ensures
        resolve_items(w, c, s) matches Ok(r) ==> plain_items(r),
    decreases crate::engine::budget(w, c.seen), list_size(s), 1nat, 0nat,
{
    if s.len() > 0 {
        crate::engine::lemma_size_positive(s.last());
        lemma_plain_out_items(w, c, s.drop_last());
        lemma_resolved_is_plain(w, c, s.last());
        if let Ok(r) = resolve_items(w, c, s) {
            let prev = resolve_items(w, c, s.drop_last())->Ok_0;
            assert(r.drop_last() =~= prev);
        }
    }
}

proof fn lemma_plain_out_entries(w: Sources, c: Ctx, s: Seq<(Node, Node)>)
    ensures
        resolve_entries(w, c, s) matches Ok(r) ==> plain_entries(r),
    decreases crate::engine::budget(w, c.seen), dict_size(s), 1nat, 0nat,
{
    if s.len() > 0 {
        crate::engine::lemma_size_positive(s.last().1);
        lemma_plain_out_entries(w, c, s.drop_last());
        lemma_resolved_is_plain(w, c, s.last().1);
        if let Ok(r) = resolve_entries(w, c, s) {
            let prev = resolve_entries(w, c, s.drop_last())->Ok_0;
            assert(r.drop_last() =~= prev);
        }
    }
}

proof fn lemma_plain_out_target(w: Sources, c: Ctx, target: Seq<char>, mode: crate::engine::Mode)
    ensures
        include_target(w, c, target, mode) matches Ok(r) ==> plain(r),
    decreases crate::engine::budget(w, c.seen), 0nat, 4nat, 0nat,
{
    if let Ok(p) = crate::engine::target_path(w, c, target) {
        lemma_plain_out_file(w, c, p, mode, target);
    }
    if let Some(dir) = crate::paths::path_parent(c.root) {
        if let Some(Ok(es)) = w.listing(dir) {
            assert(plain(Node::Dict(Seq::empty())));
            lemma_plain_out_each(w, c, target, mode, selected_paths(target, es@, c.root), 0, Node::Dict(Seq::empty()));
        }
    }
}

proof fn lemma_plain_out_each(
    w: Sources,
    c: Ctx,
    target: Seq<char>,
    mode: crate::engine::Mode,
    paths: Seq<Seq<char>>,
    i: int,
    acc: Node,
)
    requires
        plain(acc),
    ensures
        include_each(w, c, target, mode, paths, i, acc) matches Ok(r) ==> plain(r),
    decreases crate::engine::budget(w, c.seen), 0nat, 3nat, paths.len() - i,
{
    if 0 <= i < paths.len() {
        lemma_plain_out_file(w, c, paths[i], mode, target);
        if let Ok(v) = include_file(w, c, paths[i], mode, target) {
            if let Some(stem) = crate::paths::path_file_stem(paths[i]) {
                let wrapped = Node::Dict(seq![(Node::Str(stem), v)]);
                lemma_plain_entries_all(seq![(Node::Str(stem), v)]);
                lemma_merged_plain(acc, wrapped);
                if let Some(next) = merged(acc, wrapped) {
                    lemma_plain_out_each(w, c, target, mode, paths, i + 1, next);
                }
            }
        }
    }
}

proof fn lemma_plain_out_file(w: Sources, c: Ctx, path: Seq<char>, mode: crate::engine::Mode, target: Seq<char>)
    ensures
        include_file(w, c, path, mode, target) matches Ok(r) ==> plain(r),
    decreases crate::engine::budget(w, c.seen), 0nat, 2nat, 0nat,
{
    lemma_marker_tags_pass_through();
    lemma_plain_out_yaml(w, c, path, target);
}

proof fn lemma_plain_out_yaml(w: Sources, c: Ctx, path: Seq<char>, target: Seq<char>)
    ensures
        include_yaml(w, c, path, target) matches Ok(r) ==> plain(r),
    decreases crate::engine::budget(w, c.seen), 0nat, 1nat, 0nat,
{
    lemma_marker_tags_pass_through();
    if let Ok(child) = enter(w, path, c.strict, c.seen) {
        if let Some(Ok(d)) = w.document(child.root) {
            crate::engine::lemma_budget_shrinks(w, c.seen, child.root);
            lemma_resolved_is_plain(w, child, d@);
        }
    }
}

/// Resolving a resolved document again gives it back unchanged: where a
/// resolution gives `r`, a resolution of a document that reads as `r`, in
/// any sources and either mode, gives `r`.
pub proof fn lemma_resolving_again_is_identity(w: Sources, c: Ctx, w2: Sources, c2: Ctx)
    requires
        parse(w, c) is Ok,
        w2.document(c2.root) matches Some(Ok(d)) && d@ == parse(w, c)->Ok_0,
    ensures
        parse(w2, c2) == parse(w, c),
{
    let d = w.document(c.root)->Some_0->Ok_0;
    lemma_resolved_is_plain(w, c, d@);
    lemma_resolve_plain(w2, c2, parse(w, c)->Ok_0);
}

} // verus!
