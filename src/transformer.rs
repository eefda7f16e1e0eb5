use vstd::prelude::*;
use crate::content::{base64_of, encode_base64, Extension};
use crate::doc::{Doc, Node};
use crate::engine::{
    binary_fragment, budget, directive_of, enter, env_fragment, include_each, include_file, include_target,
    include_yaml, lemma_budget_shrinks, list_size, dict_size, parse, resolve,
    resolve_entries, resolve_items, size, target_path, text_fragment, Ctx, Directive, Mode,
};
use crate::error::{Error, Fault, GlobError};
use crate::glob::{texts, Glob};
use crate::merge::merge_yaml_values_in_place;
use crate::paths::{path_file_name, extension_of, file_name_of, file_stem_of, is_absolute, join_path, parent_of};
use crate::sources::{Halt, Request, Sources, Stop};
use crate::text::same_text;

verus! {

broadcast use vstd::std_specs::vec::group_vec_axioms;

/// The model of the outcome of a resolution.
pub open spec fn doc_result(r: Result<Doc, Stop>) -> Result<Node, Halt> {
    match r {
        Ok(d) => Ok(d@),
        Err(s) => Err(s@),
    }
}

/// The directive of a tag, as [`directive_of`] states it.
pub fn directive(tag: &str) -> (r: Option<Directive>)
    ensures
        r == directive_of(tag@),
{
    if same_text(tag, "!env") {
        Some(Directive::Env)
    } else if same_text(tag, "!include") {
        Some(Directive::Include(Mode::ByExtension))
    } else if same_text(tag, "!include_yaml") || same_text(tag, "!include_yml") {
        Some(Directive::Include(Mode::Yaml))
    } else if same_text(tag, "!include_text") || same_text(tag, "!include_txt") || same_text(tag, "!file") {
        Some(Directive::Include(Mode::Text))
    } else if same_text(tag, "!include_bin") {
        Some(Directive::Include(Mode::Binary))
    } else {
        None
    }
}

/// The payload of a directive, which must be a string.
pub fn tagged_value_as_str(value: &Doc) -> (r: Result<&String, Error>)
    ensures
        match value@ {
            Node::Str(s) => r matches Ok(x) && x@ == s,
            _ => r matches Err(e) && e@ == Fault::InvalidString(value@),
        },
{
    match value {
        Doc::Str(s) => Ok(s),
        _ => Err(Error::InvalidStringValue(value.copy())),
    }
}

/// The value of an environment variable, or null where it is unset.
fn include_env(w: &Sources, name: &str) -> (r: Result<Doc, Stop>)
    ensures
        doc_result(r) == env_fragment(*w, name@),
{
    match w.get_variable(name) {
        None => Err(Stop::Need(Request::Env(name.to_owned()))),
        Some(None) => Ok(Doc::Null),
        Some(Some(v)) => Ok(Doc::Str(v.clone())),
    }
}

/// The text of a file.
fn include_text_file(w: &Sources, path: &str) -> (r: Result<Doc, Stop>)
    ensures
        doc_result(r) == text_fragment(*w, path@),
{
    match w.get_text(path) {
        None => Err(Stop::Need(Request::Text(path.to_owned()))),
        Some(Err(e)) => Err(Stop::Fail(Error::IoError(e.clone()))),
        Some(Ok(s)) => Ok(Doc::Str(s.clone())),
    }
}

/// A file as a `!binary` record of its file name and its bytes in base64.
fn include_bin_file(w: &Sources, path: &str) -> (r: Result<Doc, Stop>)
    ensures
        doc_result(r) == binary_fragment(*w, path@),
{
    let name = match file_name_of(path) {
        None => return Err(Stop::Fail(Error::IncludeError(path.to_owned(), "Unable to include".to_owned()))),
        Some(n) => n,
    };
    match w.get_bytes(path) {
        None => Err(Stop::Need(Request::Bytes(path.to_owned()))),
        Some(Err(e)) => Err(Stop::Fail(Error::IoError(e.clone()))),
        Some(Ok(b)) => {
            if b.len() / 3 >= usize::MAX / 4 - 1 {
                return Err(Stop::Fail(Error::IncludeError(path.to_owned(), "File too large".to_owned())));
            }
            let bytes = b.as_slice();
            assert(bytes@ == b@);
            let data = encode_base64(bytes);
            let ghost data_v = data@;
            let ghost name_v = name@;
            let mut fields: Vec<(Doc, Doc)> = Vec::new();
            fields.push((Doc::Str("filename".to_owned()), Doc::Str(name)));
            fields.push((Doc::Str("base64".to_owned()), Doc::Str(data)));
            let record = Doc::Mapping(fields);
            let r = Doc::Tagged("!binary".to_owned(), Box::new(record));
            proof {
                let expected = Node::Dict(seq![
                    (Node::Str("filename"@), Node::Str(path_file_name(path@)->Some_0)),
                    (Node::Str("base64"@), Node::Str(base64_of(b@))),
                ]);
                assert(fields@.len() == 2);
                assert(record@->Dict_0.len() == 2);
                assert(name_v == path_file_name(path@)->Some_0);
                assert(fields@[0].0@ == Node::Str("filename"@));
                assert(fields@[0].1@ == Node::Str(name_v));
                assert(record@->Dict_0[0] == expected->Dict_0[0]);
                assert(fields@[1].0@ == Node::Str("base64"@));
                assert(fields@[1].1@ == Node::Str(data_v));
                assert(record@->Dict_0[1] == expected->Dict_0[1]);
                assert(record@->Dict_0 =~= expected->Dict_0);
            }
            Ok(r)
        },
    }
}


pub open spec fn doc_views(v: Seq<Doc>) -> Seq<Node> {
    v.map_values(|d: Doc| d@)
}

pub open spec fn entry_views(v: Seq<(Doc, Doc)>) -> Seq<(Node, Node)> {
    v.map_values(|e: (Doc, Doc)| (e.0@, e.1@))
}

/// The model of a path that resolution gave.
pub open spec fn path_result(r: Result<String, Stop>) -> Result<Seq<char>, Halt> {
    match r {
        Ok(p) => Ok(p@),
        Err(s) => Err(s@),
    }
}

proof fn lemma_list_size_bound(s: Seq<Node>, i: int)
    requires
        0 <= i < s.len(),
    ensures
        size(s[i]) <= list_size(s),
    decreases s.len(),
{
    if i < s.len() - 1 {
        lemma_list_size_bound(s.drop_last(), i);
    }
}

proof fn lemma_dict_size_bound(s: Seq<(Node, Node)>, i: int)
    requires
        0 <= i < s.len(),
    ensures
        size(s[i].1) <= dict_size(s),
    decreases s.len(),
{
    if i < s.len() - 1 {
        lemma_dict_size_bound(s.drop_last(), i);
    }
}

proof fn lemma_items_failure(w: Sources, c: Ctx, s: Seq<Node>, i: int)
    requires
        0 <= i <= s.len(),
        resolve_items(w, c, s.take(i)) is Err,
    ensures
        resolve_items(w, c, s) == resolve_items(w, c, s.take(i)),
    decreases s.len(),
{
    if i < s.len() {
        assert(s.drop_last().take(i) == s.take(i));
        lemma_items_failure(w, c, s.drop_last(), i);
    } else {
        assert(s.take(i) == s);
    }
}

proof fn lemma_entries_failure(w: Sources, c: Ctx, s: Seq<(Node, Node)>, i: int)
    requires
        0 <= i <= s.len(),
        resolve_entries(w, c, s.take(i)) is Err,
    ensures
        resolve_entries(w, c, s) == resolve_entries(w, c, s.take(i)),
    decreases s.len(),
{
    if i < s.len() {
        assert(s.drop_last().take(i) == s.take(i));
        lemma_entries_failure(w, c, s.drop_last(), i);
    } else {
        assert(s.take(i) == s);
    }
}

/// A copy of a list of paths.
fn copy_paths(v: &Vec<String>) -> (r: Vec<String>)
    ensures
        texts(r@) == texts(v@),
{
    let mut out: Vec<String> = Vec::new();
    let mut i: usize = 0;
    while i < v.len()
        invariant
            i <= v.len(),
            texts(out@) == texts(v@).take(i as int),
        decreases v.len() - i,
    {
        let ghost prev = out@;
        let x = v[i].clone();
        out.push(x);
        assert(texts(out@) =~= texts(prev).push(x@));
        assert(texts(v@).take(i + 1) =~= texts(v@).take(i as int).push(v@[i as int]@));
        i = i + 1;
    }
    assert(texts(v@).take(v.len() as int) =~= texts(v@));
    out
}

/// Whether `p` is one of `v`.
fn contains_path(v: &Vec<String>, p: &str) -> (r: bool)
    ensures
        r == texts(v@).contains(p@),
{
    let mut i: usize = 0;
    while i < v.len()
        invariant
            i <= v.len(),
            forall|j: int| 0 <= j < i ==> texts(v@)[j] != p@,
        decreases v.len() - i,
    {
        if same_text(v[i].as_str(), p) {
            assert(texts(v@)[i as int] == p@);
            return true;
        }
        i = i + 1;
    }
    false
}

/// The resolution of one document: strict or graceful handling of circular
/// inclusion, the canonical path of the document, and those of the documents
/// that include it, itself among them.
#[derive(Debug)]
pub struct Transformer {
    error_on_circular: bool,
    root_path: String,
    seen_paths: Vec<String>,
}

/// The model of the outcome of entering a document.
pub open spec fn ctx_result(r: Result<Transformer, Stop>) -> Result<Ctx, Halt> {
    match r {
        Ok(t) => Ok(t@),
        Err(s) => Err(s@),
    }
}

impl Transformer {
    pub closed spec fn view(&self) -> Ctx {
        Ctx { strict: self.error_on_circular, root: self.root_path@, seen: texts(self.seen_paths@) }
    }

    /// A resolution of the document at `root_path`, which the documents
    /// `seen` include.
    pub(crate) fn resume(strict: bool, root_path: String, seen: &Vec<String>) -> (r: Transformer)
        ensures
            r@ == (Ctx { strict, root: root_path@, seen: texts(seen@) }),
    {
        Transformer { error_on_circular: strict, root_path, seen_paths: copy_paths(seen) }
    }

    /// Enters the document at `root_path`, with no document including it.
    pub fn new(sources: &Sources, root_path: &str, strict: bool) -> (r: Result<Transformer, Stop>)
        ensures
            ctx_result(r) == enter(*sources, root_path@, strict, Seq::empty()),
            r matches Ok(t) ==> t@.seen.contains(t@.root),
    {
        let seen: Vec<String> = Vec::new();
        assert(texts(seen@) =~= Seq::<Seq<char>>::empty());
        Self::new_node(sources, root_path, strict, seen)
    }

    /// Enters the document at `root_path`, included by the documents `seen`.
    fn new_node(w: &Sources, root_path: &str, strict: bool, seen: Vec<String>) -> (r: Result<Transformer, Stop>)
        ensures
            ctx_result(r) == enter(*w, root_path@, strict, texts(seen@)),
            r matches Ok(t) ==> t@.seen.contains(t@.root),
    {
        let info = match w.get_path(root_path) {
            None => return Err(Stop::Need(Request::Path(root_path.to_owned()))),
            Some(i) => i,
        };
        let normalized = match &info.canonical {
            Err(e) => return Err(Stop::Fail(Error::IoError(e.clone()))),
            Ok(c) => c,
        };
        if contains_path(&seen, normalized.as_str()) {
            return Err(Stop::Fail(Error::CircularReference(normalized.clone())));
        }
        let ghost s0 = seen@;
        let mut seen = seen;
        seen.push(normalized.clone());
        let t = Transformer { error_on_circular: strict, root_path: normalized.clone(), seen_paths: seen };
        assert(texts(t.seen_paths@) =~= texts(s0).push(normalized@));
        assert(t@.seen[t@.seen.len() - 1] == t@.root);
        Ok(t)
    }
}


impl Transformer {
    /// Reads the document this resolution entered and resolves it.
    pub fn parse(&self, sources: &Sources) -> (r: Result<Doc, Stop>)
        ensures
            doc_result(r) == parse(*sources, self@),
    {
        match sources.get_document(self.root_path.as_str()) {
            None => Err(Stop::Need(Request::Document(self.root_path.clone()))),
            Some(Err(e)) => Err(Stop::Fail(e.to_error())),
            Some(Ok(d)) => self.recursive_process(sources, d),
        }
    }

    /// The canonical path of a single file target.
    pub(crate) fn process_path(&self, w: &Sources, target: &str) -> (r: Result<String, Stop>)
        ensures
            path_result(r) == target_path(*w, self@, target@),
    {
        let current = if is_absolute(target) {
            target.to_owned()
        } else {
            match parent_of(self.root_path.as_str()) {
                None => return Err(Stop::Fail(Error::NoParentError(self.root_path.clone()))),
                Some(dir) => join_path(dir.as_str(), target),
            }
        };
        match w.get_path(current.as_str()) {
            None => Err(Stop::Need(Request::Path(current))),
            Some(info) => if info.is_file {
                match &info.canonical {
                    Ok(q) => Ok(q.clone()),
                    Err(e) => Err(Stop::Fail(Error::IoError(e.clone()))),
                }
            } else {
                Err(Stop::Fail(Error::IncludeError(current, "Not a file".to_owned())))
            },
        }
    }

    /// A document, with each directive in it replaced by what it names.
    fn recursive_process(&self, w: &Sources, input: &Doc) -> (r: Result<Doc, Stop>)
        ensures
            doc_result(r) == resolve(*w, self@, input@),
        decreases budget(*w, self@.seen), size(input@), 0nat,
    {
        match input {
            Doc::Sequence(items) => {
                let ghost iv = input@->List_0;
                assert(input@ == Node::List(iv));
                let mut out: Vec<Doc> = Vec::new();
                let mut i: usize = 0;
                assert(iv.take(0) =~= Seq::<Node>::empty());
                assert(doc_views(out@) =~= Seq::<Node>::empty());
                while i < items.len()
                    invariant
                        i <= items.len(),
                        iv.len() == items.len(),
                        forall|j: int| 0 <= j < iv.len() ==> #[trigger] iv[j] == items@[j]@,
                        input@ == Node::List(iv),
                        resolve_items(*w, self@, iv.take(i as int)) == Ok::<Seq<Node>, Halt>(doc_views(out@)),
                    decreases items.len() - i,
                {
                    proof {
                        lemma_list_size_bound(iv, i as int);
                        assert(iv.take(i + 1).drop_last() =~= iv.take(i as int));
                        assert(iv.take(i + 1).last() == iv[i as int]);
                    }
                    match self.recursive_process(w, &items[i]) {
                        Ok(v) => {
                            let ghost prev = out@;
                            let ghost v_v = v@;
                            out.push(v);
                            assert(doc_views(out@) =~= doc_views(prev).push(v_v));
                        },
                        Err(e) => {
                            proof {
                                lemma_items_failure(*w, self@, iv, i + 1);
                            }
                            return Err(e);
                        },
                    }
                    i = i + 1;
                }
                assert(iv.take(items.len() as int) =~= iv);
                let r = Doc::Sequence(out);
                assert(r@->List_0 =~= doc_views(out@));
                Ok(r)
            },
            Doc::Mapping(entries) => {
                let ghost ev = input@->Dict_0;
                assert(input@ == Node::Dict(ev));
                let mut out: Vec<(Doc, Doc)> = Vec::new();
                let mut i: usize = 0;
                assert(ev.take(0) =~= Seq::<(Node, Node)>::empty());
                assert(entry_views(out@) =~= Seq::<(Node, Node)>::empty());
                while i < entries.len()
                    invariant
                        i <= entries.len(),
                        ev.len() == entries.len(),
                        forall|j: int| 0 <= j < ev.len() ==> #[trigger] ev[j] == (entries@[j].0@, entries@[j].1@),
                        input@ == Node::Dict(ev),
                        resolve_entries(*w, self@, ev.take(i as int)) == Ok::<Seq<(Node, Node)>, Halt>(entry_views(out@)),
                    decreases entries.len() - i,
                {
                    proof {
                        lemma_dict_size_bound(ev, i as int);
                        assert(ev.take(i + 1).drop_last() =~= ev.take(i as int));
                        assert(ev.take(i + 1).last() == ev[i as int]);
                    }
                    match self.recursive_process(w, &entries[i].1) {
                        Ok(v) => {
                            let ghost prev = out@;
                            let k = entries[i].0.copy();
                            let ghost e_v = (k@, v@);
                            out.push((k, v));
                            assert(entry_views(out@) =~= entry_views(prev).push(e_v));
                        },
                        Err(e) => {
                            proof {
                                lemma_entries_failure(*w, self@, ev, i + 1);
                            }
                            return Err(e);
                        },
                    }
                    i = i + 1;
                }
                assert(ev.take(entries.len() as int) =~= ev);
                let r = Doc::Mapping(out);
                assert(r@->Dict_0 =~= entry_views(out@));
                Ok(r)
            },
            Doc::Tagged(tag, inner) => {
                match directive(tag.as_str()) {
                    None => Ok(input.copy()),
                    Some(d) => {
                        let target = match tagged_value_as_str(inner) {
                            Ok(t) => t,
                            Err(e) => return Err(Stop::Fail(e)),
                        };
                        match d {
                            Directive::Env => include_env(w, target.as_str()),
                            Directive::Include(mode) => self.include_pattern(w, target.as_str(), mode),
                        }
                    },
                }
            },
            _ => Ok(input.copy()),
        }
    }

    /// What an include directive names: one file, or every file that a
    /// pattern matches under the folder of this document, merged.
    fn include_pattern(&self, w: &Sources, target: &str, mode: Mode) -> (r: Result<Doc, Stop>)
        ensures
            doc_result(r) == include_target(*w, self@, target@, mode),
        decreases budget(*w, self@.seen), 0nat, 3nat,
    {
        let dir = match parent_of(self.root_path.as_str()) {
            None => return Err(Stop::Fail(Error::NoParentError(self.root_path.clone()))),
            Some(d) => d,
        };
        let glob = match Glob::new(target, dir.as_str()) {
            Err(GlobError::GlobPatternError(m)) => return Err(Stop::Fail(Error::IncludeError(target.to_owned(), m))),
            Err(g) => return Err(Stop::Fail(Error::GlobError(g))),
            Ok(g) => g,
        };
        if glob.is_fixed() {
            let path = match self.process_path(w, target) {
                Err(e) => return Err(e),
                Ok(p) => p,
            };
            return self.include_file(w, path.as_str(), mode, target);
        }
        let entries = match w.get_listing(dir.as_str()) {
            None => return Err(Stop::Need(Request::Listing(dir))),
            Some(Err(g)) => return Err(Stop::Fail(Error::GlobError(g.copy()))),
            Some(Ok(es)) => es,
        };
        let paths = glob.select(entries, self.root_path.as_str());
        let mut acc = Doc::Mapping(Vec::new());
        assert(acc@->Dict_0 =~= Seq::<(Node, Node)>::empty());
        let mut i: usize = 0;
        while i < paths.len()
            invariant
                i <= paths.len(),
                include_target(*w, self@, target@, mode)
                    == include_each(*w, self@, target@, mode, texts(paths@), i as int, acc@),
            decreases paths.len() - i,
        {
            let v = match self.include_file(w, paths[i].as_str(), mode, target) {
                Err(e) => return Err(e),
                Ok(v) => v,
            };
            let stem = match file_stem_of(paths[i].as_str()) {
                None => return Err(Stop::Fail(Error::IncludeError(paths[i].clone(), "Bad filename".to_owned()))),
                Some(s) => s,
            };
            let ghost stem_v = stem@;
            let ghost v_v = v@;
            let mut single: Vec<(Doc, Doc)> = Vec::new();
            single.push((Doc::Str(stem), v));
            let wrapped = Doc::Mapping(single);
            assert(single@[0].0@ == Node::Str(stem_v));
            assert(single@[0].1@ == v_v);
            assert(wrapped@->Dict_0 =~= seq![(Node::Str(stem_v), v_v)]);
            match merge_yaml_values_in_place(&mut acc, wrapped) {
                Ok(()) => {},
                Err(e) => return Err(Stop::Fail(e)),
            }
            i = i + 1;
        }
        Ok(acc)
    }

    /// One included file, read as `mode` says.
    fn include_file(&self, w: &Sources, path: &str, mode: Mode, target: &str) -> (r: Result<Doc, Stop>)
        ensures
            doc_result(r) == include_file(*w, self@, path@, mode, target@),
        decreases budget(*w, self@.seen), 0nat, 2nat,
    {
        let class = match mode {
            Mode::ByExtension => match extension_of(path) {
                Some(e) => Extension::from_ext(Some(e.as_str())),
                None => Extension::from_ext(None),
            },
            Mode::Yaml => Extension::Yaml,
            Mode::Text => Extension::Text,
            Mode::Binary => Extension::Binary,
        };
        match class {
            Extension::Yaml => self.include_yaml_file(w, path, target),
            Extension::Text => include_text_file(w, path),
            Extension::Binary => include_bin_file(w, path),
        }
    }

    /// An included document, resolved in a resolution that has entered it.
    fn include_yaml_file(&self, w: &Sources, path: &str, target: &str) -> (r: Result<Doc, Stop>)
        ensures
            doc_result(r) == include_yaml(*w, self@, path@, target@),
        decreases budget(*w, self@.seen), 0nat, 1nat,
    {
        let seen = copy_paths(&self.seen_paths);
        let entered = Self::new_node(w, path, self.error_on_circular, seen);
        assert(ctx_result(entered) == enter(*w, path@, self@.strict, self@.seen));
        match entered {
            Err(Stop::Fail(Error::CircularReference(p))) => {
                if self.error_on_circular {
                    Err(Stop::Fail(Error::CircularReference(p)))
                } else {
                    let tag = "!circular".to_owned();
                    let text = target.to_owned();
                    let ghost tag_v = tag@;
                    let ghost text_v = text@;
                    let marker = Doc::Str(text);
                    assert(marker@ == Node::Str(text_v));
                    let r = Doc::Tagged(tag, Box::new(marker));
                    assert(tag_v == "!circular"@ && text_v == target@);
                    assert(r@ == Node::Tagged(tag_v, Box::new(Node::Str(text_v))));
                    Ok(r)
                }
            },
            Err(s) => {
                assert(!(s@ is Fail && s@->Fail_0 is Circular));
                Err(s)
            },
            Ok(child) => match w.get_document(child.root_path.as_str()) {
                None => Err(Stop::Need(Request::Document(child.root_path.clone()))),
                Some(Err(e)) => Err(Stop::Fail(e.to_error())),
                Some(Ok(d)) => {
                    proof {
                        lemma_budget_shrinks(*w, self@.seen, child@.root);
                    }
                    child.recursive_process(w, d)
                },
            },
        }
    }
}

} // verus!
