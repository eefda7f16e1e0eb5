use vstd::prelude::*;
use crate::content::{base64_of, encodable, extension_class, Extension};
use crate::doc::Node;
use crate::error::Fault;
use crate::glob::{fixed_from, glob_build_error, selected_paths};
use crate::merge::merged;
use crate::paths::{path_extension, path_file_name, path_file_stem, path_is_absolute, path_join, path_parent};
use crate::sources::{Halt, Sources, Want};

verus! {

broadcast use vstd::std_specs::vec::group_vec_axioms;

/// How a directive reads the files it names.
#[derive(Debug, Clone, Copy, PartialEq, Eq, Structural)]
pub enum Mode {
    /// By the extension of each file.
    ByExtension,
    /// As a document, whatever the extension.
    Yaml,
    /// As text, whatever the extension.
    Text,
    /// As bytes, whatever the extension.
    Binary,
}

/// What a tagged node asks for.
#[derive(Debug, Clone, Copy, PartialEq, Eq, Structural)]
pub enum Directive {
    /// The value of an environment variable.
    Env,
    /// The content of the files that a path or pattern names.
    Include(Mode),
}

/// The directive of a tag; `None` for a tag that is passed through.
pub open spec fn directive_of(tag: Seq<char>) -> Option<Directive> {
    if tag == "!env"@ {
        Some(Directive::Env)
    } else if tag == "!include"@ {
        Some(Directive::Include(Mode::ByExtension))
    } else if tag == "!include_yaml"@ || tag == "!include_yml"@ {
        Some(Directive::Include(Mode::Yaml))
    } else if tag == "!include_text"@ || tag == "!include_txt"@ || tag == "!file"@ {
        Some(Directive::Include(Mode::Text))
    } else if tag == "!include_bin"@ {
        Some(Directive::Include(Mode::Binary))
    } else {
        None
    }
}

/// The state of one resolution: strict mode, the canonical path of the
/// document being resolved, and those of the documents that include it.
pub struct Ctx {
    pub strict: bool,
    pub root: Seq<char>,
    pub seen: Seq<Seq<char>>,
}

/// The number of nodes of a document.
pub open spec fn size(n: Node) -> nat
    decreases n,
{
    match n {
        Node::List(s) => 1 + list_size(s),
        Node::Dict(s) => 1 + dict_size(s),
        _ => 1,
    }
}

pub open spec fn list_size(s: Seq<Node>) -> nat
    decreases s,
{
    if s.len() == 0 {
        0
    } else {
        proof {
            assert(decreases_to!(s => s[s.len() - 1]));
        }
        list_size(s.drop_last()) + size(s.last())
    }
}

pub open spec fn dict_size(s: Seq<(Node, Node)>) -> nat
    decreases s,
{
    if s.len() == 0 {
        0
    } else {
        proof {
            assert(decreases_to!(s => s[s.len() - 1]));
        }
        dict_size(s.drop_last()) + size(s.last().1)
    }
}

pub proof fn lemma_size_positive(n: Node)
    ensures
        size(n) >= 1,
{
}

/// How many known documents a resolution may still enter.
pub open spec fn budget(w: Sources, seen: Seq<Seq<char>>) -> nat {
    w.document_paths().difference(seen.to_set()).len()
}

pub proof fn lemma_budget_shrinks(w: Sources, seen: Seq<Seq<char>>, p: Seq<char>)
    requires
        w.document(p) is Some,
        !seen.contains(p),
    ensures
        budget(w, seen.push(p)) < budget(w, seen),
{
    w.lemma_document_paths(p);
    let d = w.document_paths().difference(seen.to_set());
    assert forall|x: Seq<char>| seen.push(p).contains(x) <==> (seen.contains(x) || x == p) by {
        if seen.contains(x) {
            let i = choose|i: int| 0 <= i < seen.len() && seen[i] == x;
            assert(seen.push(p)[i] == x);
        }
        if seen.push(p).contains(x) && x != p {
            let i = choose|i: int| 0 <= i < seen.push(p).len() && seen.push(p)[i] == x;
            assert(seen[i] == x);
        }
        if x == p {
            assert(seen.push(p)[seen.len() as int] == x);
        }
    }
    assert(w.document_paths().difference(seen.push(p).to_set()) =~= d.remove(p));
    assert(d.contains(p));
    vstd::set_lib::lemma_set_difference_len(w.document_paths(), seen.to_set());
}

/// Entering the document at `path`: its canonical path must not be one of
/// `seen`.
pub open spec fn enter(w: Sources, path: Seq<char>, strict: bool, seen: Seq<Seq<char>>) -> Result<Ctx, Halt> {
    match w.path_info(path) {
        None => Err(Halt::Need(Want::Path(path))),
        Some(info) => match info.canonical {
            Err(e) => Err(Halt::Fail(Fault::Io(e@))),
            Ok(c) => if seen.contains(c@) {
                Err(Halt::Fail(Fault::Circular(c@)))
            } else {
                Ok(Ctx { strict, root: c@, seen: seen.push(c@) })
            },
        },
    }
}

/// The canonical path of a single file target, relative targets taken from
/// the folder of the current document.
pub open spec fn target_path(w: Sources, c: Ctx, target: Seq<char>) -> Result<Seq<char>, Halt> {
    let current = if path_is_absolute(target) {
        Ok(target)
    } else {
        match path_parent(c.root) {
            None => Err(Halt::Fail(Fault::NoParent(c.root))),
            Some(dir) => Ok(path_join(dir, target)),
        }
    };
    match current {
        Err(h) => Err(h),
        Ok(p) => match w.path_info(p) {
            None => Err(Halt::Need(Want::Path(p))),
            Some(info) => if info.is_file {
                match info.canonical {
                    Ok(q) => Ok(q@),
                    Err(e) => Err(Halt::Fail(Fault::Io(e@))),
                }
            } else {
                Err(Halt::Fail(Fault::Include(p, "Not a file"@)))
            },
        },
    }
}

/// The class a file is read as under a mode.
pub open spec fn class_of(mode: Mode, path: Seq<char>) -> Extension {
    match mode {
        Mode::ByExtension => extension_class(path_extension(path)),
        Mode::Yaml => Extension::Yaml,
        Mode::Text => Extension::Text,
        Mode::Binary => Extension::Binary,
    }
}

/// A text file, as a string.
pub open spec fn text_fragment(w: Sources, path: Seq<char>) -> Result<Node, Halt> {
    match w.text(path) {
        None => Err(Halt::Need(Want::Text(path))),
        Some(Err(e)) => Err(Halt::Fail(Fault::Io(e@))),
        Some(Ok(s)) => Ok(Node::Str(s@)),
    }
}

/// A binary file, as a `!binary` record of its file name and base64 text.
pub open spec fn binary_fragment(w: Sources, path: Seq<char>) -> Result<Node, Halt> {
    match path_file_name(path) {
        None => Err(Halt::Fail(Fault::Include(path, "Unable to include"@))),
        Some(name) => match w.bytes(path) {
            None => Err(Halt::Need(Want::Bytes(path))),
            Some(Err(e)) => Err(Halt::Fail(Fault::Io(e@))),
            Some(Ok(b)) => if encodable(b@.len()) {
                Ok(Node::Tagged("!binary"@, Box::new(Node::Dict(seq![
                    (Node::Str("filename"@), Node::Str(name)),
                    (Node::Str("base64"@), Node::Str(base64_of(b@))),
                ]))))
            } else {
                Err(Halt::Fail(Fault::Include(path, "File too large"@)))
            },
        },
    }
}

/// An environment variable: its value, or null where it is unset.
pub open spec fn env_fragment(w: Sources, name: Seq<char>) -> Result<Node, Halt> {
    match w.variable(name) {
        None => Err(Halt::Need(Want::Env(name))),
        Some(None) => Ok(Node::Null),
        Some(Some(v)) => Ok(Node::Str(v@)),
    }
}

/// A resolved document.
pub open spec fn resolve(w: Sources, c: Ctx, n: Node) -> Result<Node, Halt>
    decreases budget(w, c.seen), size(n), 0nat, 0nat,
{
    match n {
        Node::List(items) => match resolve_items(w, c, items) {
            Ok(s) => Ok(Node::List(s)),
            Err(h) => Err(h),
        },
        Node::Dict(entries) => match resolve_entries(w, c, entries) {
            Ok(s) => Ok(Node::Dict(s)),
            Err(h) => Err(h),
        },
        Node::Tagged(tag, inner) => match directive_of(tag) {
            None => Ok(n),
            Some(d) => match *inner {
                Node::Str(target) => match d {
                    Directive::Env => env_fragment(w, target),
                    Directive::Include(mode) => include_target(w, c, target, mode),
                },
                _ => Err(Halt::Fail(Fault::InvalidString(*inner))),
            },
        },
        _ => Ok(n),
    }
}

/// The items of a sequence, resolved from first to last.
pub open spec fn resolve_items(w: Sources, c: Ctx, items: Seq<Node>) -> Result<Seq<Node>, Halt>
    decreases budget(w, c.seen), list_size(items), 1nat, 0nat,
{
    if items.len() == 0 {
        Ok(Seq::empty())
    } else {
        proof {
            lemma_size_positive(items.last());
        }
        match resolve_items(w, c, items.drop_last()) {
            Err(h) => Err(h),
            Ok(s) => match resolve(w, c, items.last()) {
                Err(h) => Err(h),
                Ok(v) => Ok(s.push(v)),
            },
        }
    }
}

/// The values of a mapping, resolved from first to last; keys are kept.
pub open spec fn resolve_entries(w: Sources, c: Ctx, entries: Seq<(Node, Node)>) -> Result<Seq<(Node, Node)>, Halt>
    decreases budget(w, c.seen), dict_size(entries), 1nat, 0nat,
{
    if entries.len() == 0 {
        Ok(Seq::empty())
    } else {
        proof {
            lemma_size_positive(entries.last().1);
        }
        match resolve_entries(w, c, entries.drop_last()) {
            Err(h) => Err(h),
            Ok(s) => match resolve(w, c, entries.last().1) {
                Err(h) => Err(h),
                Ok(v) => Ok(s.push((entries.last().0, v))),
            },
        }
    }
}

/// An include directive: a single file, or each file that a pattern matches.
pub open spec fn include_target(w: Sources, c: Ctx, target: Seq<char>, mode: Mode) -> Result<Node, Halt>
    decreases budget(w, c.seen), 0nat, 4nat, 0nat,
{
    match path_parent(c.root) {
        None => Err(Halt::Fail(Fault::NoParent(c.root))),
        Some(dir) => match glob_build_error(target) {
            Some(m) => Err(Halt::Fail(Fault::Include(target, m))),
            None => if fixed_from(target, false) {
                match target_path(w, c, target) {
                    Err(h) => Err(h),
                    Ok(p) => include_file(w, c, p, mode, target),
                }
            } else {
                match w.listing(dir) {
                    None => Err(Halt::Need(Want::Listing(dir))),
                    Some(Err(g)) => Err(Halt::Fail(Fault::Glob(g@))),
                    Some(Ok(es)) => include_each(w, c, target, mode, selected_paths(target, es@, c.root), 0, Node::Dict(Seq::empty())),
                }
            },
        },
    }
}

/// The files `paths[i..]` of a glob, each wrapped under its file stem and
/// merged into `acc`.
pub open spec fn include_each(
    w: Sources,
    c: Ctx,
    target: Seq<char>,
    mode: Mode,
    paths: Seq<Seq<char>>,
    i: int,
    acc: Node,
) -> Result<Node, Halt>
    decreases budget(w, c.seen), 0nat, 3nat, paths.len() - i,
{
    if i < 0 || i >= paths.len() {
        Ok(acc)
    } else {
        match include_file(w, c, paths[i], mode, target) {
            Err(h) => Err(h),
            Ok(v) => match path_file_stem(paths[i]) {
                None => Err(Halt::Fail(Fault::Include(paths[i], "Bad filename"@))),
                Some(stem) => match merged(acc, Node::Dict(seq![(Node::Str(stem), v)])) {
                    None => Err(Halt::Fail(Fault::Merge)),
                    Some(next) => include_each(w, c, target, mode, paths, i + 1, next),
                },
            },
        }
    }
}

/// One included file, read as its mode says.
pub open spec fn include_file(w: Sources, c: Ctx, path: Seq<char>, mode: Mode, target: Seq<char>) -> Result<Node, Halt>
    decreases budget(w, c.seen), 0nat, 2nat, 0nat,
{
    match class_of(mode, path) {
        Extension::Yaml => include_yaml(w, c, path, target),
        Extension::Text => text_fragment(w, path),
        Extension::Binary => binary_fragment(w, path),
    }
}

/// An included document, resolved in a context that has entered it; in
/// graceful mode a circular inclusion gives a `!circular` marker with the
/// directive's target.
pub open spec fn include_yaml(w: Sources, c: Ctx, path: Seq<char>, target: Seq<char>) -> Result<Node, Halt>
    decreases budget(w, c.seen), 0nat, 1nat, 0nat,
{
    match enter(w, path, c.strict, c.seen) {
        Err(Halt::Fail(Fault::Circular(p))) => if c.strict {
            Err(Halt::Fail(Fault::Circular(p)))
        } else {
            Ok(Node::Tagged("!circular"@, Box::new(Node::Str(target))))
        },
        Err(h) => Err(h),
        Ok(child) => match w.document(child.root) {
            None => Err(Halt::Need(Want::Document(child.root))),
            Some(Err(e)) => Err(Halt::Fail(e.fault())),
            Some(Ok(d)) => {
                proof {
                    lemma_budget_shrinks(w, c.seen, child.root);
                }
                resolve(w, child, d@)
            },
        },
    }
}

/// A document read and resolved in a context that has entered it.
pub open spec fn parse(w: Sources, c: Ctx) -> Result<Node, Halt> {
    match w.document(c.root) {
        None => Err(Halt::Need(Want::Document(c.root))),
        Some(Err(e)) => Err(Halt::Fail(e.fault())),
        Some(Ok(d)) => resolve(w, c, d@),
    }
}

} // verus!
