use vstd::prelude::*;
use crate::doc::Doc;
use crate::engine::{enter, parse, target_path, Ctx};
use crate::error::{Error, Fault};
use crate::glob::texts;
use crate::sources::{Halt, Request, Sources, Stop, Want};
use crate::text::same_text;
use crate::transformer::{doc_result, path_result, Transformer};

verus! {

/// Resolves the document at `file_path` in strict mode: a circular inclusion
/// fails the whole resolution.
pub fn read(sources: &Sources, file_path: &str) -> (r: Result<Doc, Stop>)
    ensures
        doc_result(r) == match enter(*sources, file_path@, true, Seq::empty()) {
            Err(h) => Err(h),
            Ok(c) => parse(*sources, c),
        },
{
    match Transformer::new(sources, file_path, true) {
        Err(s) => Err(s),
        Ok(t) => t.parse(sources),
    }
}


/// A graceful resolution of a document, given the paths of the documents
/// that include it: a circular inclusion becomes a `!circular` marker. All
/// the paths it holds are canonical.
pub struct Flattener {
    root_path: String,
    seen_paths: Vec<String>,
}

/// The canonical form of a path.
pub open spec fn canonical_of(w: Sources, p: Seq<char>) -> Result<Seq<char>, Halt> {
    match w.path_info(p) {
        None => Err(Halt::Need(Want::Path(p))),
        Some(info) => match info.canonical {
            Ok(c) => Ok(c@),
            Err(e) => Err(Halt::Fail(Fault::Io(e@))),
        },
    }
}

/// The canonical forms of paths, taken from first to last.
pub open spec fn canonical_all(w: Sources, ps: Seq<Seq<char>>) -> Result<Seq<Seq<char>>, Halt>
    decreases ps.len(),
{
    if ps.len() == 0 {
        Ok(Seq::empty())
    } else {
        match canonical_all(w, ps.drop_last()) {
            Err(h) => Err(h),
            Ok(s) => match canonical_of(w, ps.last()) {
                Err(h) => Err(h),
                Ok(c) => Ok(s.push(c)),
            },
        }
    }
}

/// The canonical form of a path.
fn canonical(w: &Sources, p: &str) -> (r: Result<String, Stop>)
    ensures
        path_result(r) == canonical_of(*w, p@),
{
    match w.get_path(p) {
        None => Err(Stop::Need(Request::Path(p.to_owned()))),
        Some(info) => match &info.canonical {
            Ok(c) => Ok(c.clone()),
            Err(e) => Err(Stop::Fail(Error::IoError(e.clone()))),
        },
    }
}

proof fn lemma_canonical_all_failure(w: Sources, ps: Seq<Seq<char>>, i: int)
    requires
        0 <= i <= ps.len(),
        canonical_all(w, ps.take(i)) is Err,
    ensures
        canonical_all(w, ps) == canonical_all(w, ps.take(i)),
    decreases ps.len(),
{
    if i < ps.len() {
        assert(ps.drop_last().take(i) == ps.take(i));
        lemma_canonical_all_failure(w, ps.drop_last(), i);
    } else {
        assert(ps.take(i) == ps);
    }
}

impl Flattener {
    pub closed spec fn root(&self) -> Seq<char> {
        self.root_path@
    }

    pub closed spec fn seen(&self) -> Seq<Seq<char>> {
        texts(self.seen_paths@)
    }

    /// A flattener of the document at `root_path`, which the documents
    /// `seen_paths` include: the canonical paths of those documents, then the
    /// canonical path of the root.
    pub fn new(sources: &Sources, root_path: &str, seen_paths: &Vec<String>) -> (r: Result<Flattener, Stop>)
        ensures
            match canonical_of(*sources, root_path@) {
                Err(h) => r matches Err(s) && s@ == h,
                Ok(c) => match canonical_all(*sources, texts(seen_paths@)) {
                    Err(h) => r matches Err(s) && s@ == h,
                    Ok(cs) => r matches Ok(f) && f.root() == c && f.seen() == cs.push(c),
                },
            },
    {
        let root = match canonical(sources, root_path) {
            Err(s) => return Err(s),
            Ok(c) => c,
        };
        let ghost ps = texts(seen_paths@);
        let mut seen: Vec<String> = Vec::new();
        let mut i: usize = 0;
        assert(ps.take(0) =~= Seq::<Seq<char>>::empty());
        assert(texts(seen@) =~= Seq::<Seq<char>>::empty());
        while i < seen_paths.len()
            invariant
                i <= seen_paths.len(),
                ps == texts(seen_paths@),
                canonical_of(*sources, root_path@) == Ok::<Seq<char>, Halt>(root@),
                canonical_all(*sources, ps.take(i as int)) == Ok::<Seq<Seq<char>>, Halt>(texts(seen@)),
            decreases seen_paths.len() - i,
        {
            assert(ps.take(i + 1).drop_last() =~= ps.take(i as int));
            assert(ps.take(i + 1).last() == seen_paths@[i as int]@);
            match canonical(sources, seen_paths[i].as_str()) {
                Err(s) => {
                    proof {
                        lemma_canonical_all_failure(*sources, ps, i + 1);
                    }
                    return Err(s);
                },
                Ok(c) => {
                    let ghost prev = seen@;
                    let ghost cv = c@;
                    seen.push(c);
                    assert(texts(seen@) =~= texts(prev).push(cv));
                },
            }
            i = i + 1;
        }
        assert(ps.take(seen_paths.len() as int) =~= ps);
        let ghost before = seen@;
        seen.push(root.clone());
        assert(texts(seen@) =~= texts(before).push(root@));
        Ok(Flattener { root_path: root, seen_paths: seen })
    }

    /// Whether the canonical path `file_path` is this document or one that
    /// includes it.
    pub fn circular_reference_guard(&self, file_path: &str) -> (r: bool)
        ensures
            r == self.seen().contains(file_path@),
    {
        let mut i: usize = 0;
        while i < self.seen_paths.len()
            invariant
                i <= self.seen_paths.len(),
                forall|j: int| 0 <= j < i ==> self.seen()[j] != file_path@,
            decreases self.seen_paths.len() - i,
        {
            if same_text(self.seen_paths[i].as_str(), file_path) {
                assert(self.seen()[i as int] == file_path@);
                return true;
            }
            i = i + 1;
        }
        false
    }

    /// The canonical path of the regular file that a target names, a
    /// relative target taken from the folder of this document.
    pub fn process_path(&self, sources: &Sources, file_path: &str) -> (r: Result<String, Stop>)
        ensures
            path_result(r) == target_path(*sources, Ctx { strict: false, root: self.root(), seen: self.seen() }, file_path@),
    {
        let t = Transformer::resume(false, self.root_path.clone(), &self.seen_paths);
        t.process_path(sources, file_path)
    }

    /// The document resolved in graceful mode.
    pub fn parse(&self, sources: &Sources) -> (r: Result<Doc, Stop>)
        ensures
            doc_result(r) == parse(*sources, Ctx { strict: false, root: self.root(), seen: self.seen() }),
    {
        let t = Transformer::resume(false, self.root_path.clone(), &self.seen_paths);
        t.parse(sources)
    }
}

} // verus!
