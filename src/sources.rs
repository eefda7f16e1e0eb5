use vstd::prelude::*;
use crate::doc::Doc;
use crate::error::{Error, Fault, GlobError};
use crate::glob::GlobEntry;
use crate::text::same_text;

verus! {

broadcast use vstd::std_specs::vec::group_vec_axioms;

/// What the file system says of a path: whether it names a regular file, and
/// its canonical form (or the error that canonicalizing it gave).
#[derive(Debug, PartialEq)]
pub struct PathInfo {
    pub is_file: bool,
    pub canonical: Result<String, String>,
}

/// Why a document could not be had: reading it failed, or parsing it.
#[derive(Debug, PartialEq)]
pub enum LoadError {
    Io(String),
    Parse(String),
}

impl LoadError {
    /// The failure that resolution reports for it.
    pub open spec fn fault(&self) -> Fault {
        match self {
            LoadError::Io(m) => Fault::Io(m@),
            LoadError::Parse(m) => Fault::Parsing(m@),
        }
    }

    /// The failure that resolution reports for it.
    pub fn to_error(&self) -> (r: Error)
        ensures
            r@ == self.fault(),
    {
        match self {
            LoadError::Io(m) => Error::IoError(m.clone()),
            LoadError::Parse(m) => Error::ParsingError(m.clone()),
        }
    }
}

/// A fact that resolution needs and that its [`Sources`] lack.
#[derive(Debug, PartialEq)]
pub enum Request {
    /// What the file system says of this path.
    Path(String),
    /// The parsed document at this canonical path.
    Document(String),
    /// The text of the file at this canonical path.
    Text(String),
    /// The bytes of the file at this canonical path.
    Bytes(String),
    /// The value of this environment variable.
    Env(String),
    /// The files under this folder, each with its canonical path.
    Listing(String),
}

/// Why resolution stopped: it failed, or it needs a fact first.
#[derive(Debug, PartialEq)]
pub enum Stop {
    Fail(Error),
    Need(Request),
}

/// The model of a [`Request`].
pub enum Want {
    Path(Seq<char>),
    Document(Seq<char>),
    Text(Seq<char>),
    Bytes(Seq<char>),
    Env(Seq<char>),
    Listing(Seq<char>),
}

/// The model of a [`Stop`].
pub enum Halt {
    Fail(Fault),
    Need(Want),
}

impl Request {
    pub open spec fn view(&self) -> Want {
        match self {
            Request::Path(p) => Want::Path(p@),
            Request::Document(p) => Want::Document(p@),
            Request::Text(p) => Want::Text(p@),
            Request::Bytes(p) => Want::Bytes(p@),
            Request::Env(p) => Want::Env(p@),
            Request::Listing(p) => Want::Listing(p@),
        }
    }
}

impl Stop {
    pub open spec fn view(&self) -> Halt {
        match self {
            Stop::Fail(e) => Halt::Fail(e@),
            Stop::Need(q) => Halt::Need(q@),
        }
    }
}

/// The value under key `k`: the one added last.
pub open spec fn lookup<V>(s: Seq<(String, V)>, k: Seq<char>) -> Option<V>
    decreases s.len(),
{
    if s.len() == 0 {
        None
    } else if s.last().0@ == k {
        Some(s.last().1)
    } else {
        lookup(s.drop_last(), k)
    }
}

/// The keys of `s`.
pub open spec fn keys<V>(s: Seq<(String, V)>) -> Set<Seq<char>> {
    s.map_values(|e: (String, V)| e.0@).to_set()
}

/// The position of the value under key `k`.
fn position<V>(s: &Vec<(String, V)>, k: &str) -> (r: Option<usize>)
    ensures
        match r {
            Some(i) => i < s.len() && lookup(s@, k@) == Some(s@[i as int].1),
            None => lookup(s@, k@) is None,
        },
{
    let mut i: usize = s.len();
    assert(s@.take(s.len() as int) == s@);
    while i > 0
        invariant
            i <= s.len(),
            lookup(s@, k@) == lookup(s@.take(i as int), k@),
        decreases i,
    {
        assert(s@.take(i as int).drop_last() == s@.take(i - 1));
        if same_text(s[i - 1].0.as_str(), k) {
            return Some(i - 1);
        }
        i = i - 1;
    }
    None
}

proof fn lemma_lookup_in_keys<V>(s: Seq<(String, V)>, k: Seq<char>)
    ensures
        lookup(s, k) is Some ==> keys(s).contains(k),
        keys(s).finite(),
    decreases s.len(),
{
    vstd::seq_lib::seq_to_set_is_finite(s.map_values(|e: (String, V)| e.0@));
    if s.len() > 0 {
        let m = s.map_values(|e: (String, V)| e.0@);
        if s.last().0@ == k {
            assert(m[s.len() - 1] == k);
        } else {
            lemma_lookup_in_keys(s.drop_last(), k);
            if lookup(s, k) is Some {
                let md = s.drop_last().map_values(|e: (String, V)| e.0@);
                let i = choose|i: int| 0 <= i < md.len() && md[i] == k;
                assert(m[i] == k);
            }
        }
    }
}

proof fn lemma_keys_have_values<V>(s: Seq<(String, V)>, k: Seq<char>)
    ensures
        keys(s).contains(k) ==> lookup(s, k) is Some,
    decreases s.len(),
{
    if s.len() > 0 && keys(s).contains(k) && s.last().0@ != k {
        let m = s.map_values(|e: (String, V)| e.0@);
        let i = choose|i: int| 0 <= i < m.len() && m[i] == k;
        let md = s.drop_last().map_values(|e: (String, V)| e.0@);
        assert(md[i] == k);
        lemma_keys_have_values(s.drop_last(), k);
    }
}

proof fn lemma_keys_push<V>(s: Seq<(String, V)>, k: String, v: V)
    ensures
        keys(s.push((k, v))) == keys(s).insert(k@),
{
    let m = s.push((k, v)).map_values(|e: (String, V)| e.0@);
    let m0 = s.map_values(|e: (String, V)| e.0@);
    assert(m =~= m0.push(k@));
    assert forall|x: Seq<char>| m.contains(x) <==> (m0.contains(x) || x == k@) by {
        if m0.contains(x) {
            let i = choose|i: int| 0 <= i < m0.len() && m0[i] == x;
            assert(m[i] == x);
        }
        if m.contains(x) && x != k@ {
            let i = choose|i: int| 0 <= i < m.len() && m[i] == x;
            assert(m0[i] == x);
        }
        if x == k@ {
            assert(m[m0.len() as int] == x);
        }
    }
    assert(keys(s.push((k, v))) =~= keys(s).insert(k@));
}

/// What is known of the files and the environment that a resolution reads.
pub struct Sources {
    paths: Vec<(String, PathInfo)>,
    documents: Vec<(String, Result<Doc, LoadError>)>,
    texts: Vec<(String, Result<String, String>)>,
    binaries: Vec<(String, Result<Vec<u8>, String>)>,
    variables: Vec<(String, Option<String>)>,
    listings: Vec<(String, Result<Vec<GlobEntry>, GlobError>)>,
}

impl Sources {
    pub closed spec fn path_info(&self, p: Seq<char>) -> Option<PathInfo> {
        lookup(self.paths@, p)
    }

    pub closed spec fn document(&self, p: Seq<char>) -> Option<Result<Doc, LoadError>> {
        lookup(self.documents@, p)
    }

    pub closed spec fn text(&self, p: Seq<char>) -> Option<Result<String, String>> {
        lookup(self.texts@, p)
    }

    pub closed spec fn bytes(&self, p: Seq<char>) -> Option<Result<Vec<u8>, String>> {
        lookup(self.binaries@, p)
    }

    pub closed spec fn variable(&self, name: Seq<char>) -> Option<Option<String>> {
        lookup(self.variables@, name)
    }

    pub closed spec fn listing(&self, dir: Seq<char>) -> Option<Result<Vec<GlobEntry>, GlobError>> {
        lookup(self.listings@, dir)
    }

    /// The canonical paths of the documents that are known.
    pub closed spec fn document_paths(&self) -> Set<Seq<char>> {
        keys(self.documents@)
    }

    pub proof fn lemma_document_paths(&self, p: Seq<char>)
        ensures
            self.document_paths().finite(),
            self.document(p) is Some <==> self.document_paths().contains(p),
    {
        lemma_lookup_in_keys(self.documents@, p);
        lemma_keys_have_values(self.documents@, p);
    }

    /// Looks up what the file system says of a path.
    pub fn get_path(&self, k: &str) -> (r: Option<&PathInfo>)
        ensures
            match r {
                Some(x) => self.path_info(k@) == Some(*x),
                None => self.path_info(k@) is None,
            },
    {
        match position(&self.paths, k) {
            Some(i) => Some(&self.paths[i].1),
            None => None,
        }
    }

    /// Records what the file system says of a path.
    pub fn add_path(&mut self, k: String, v: PathInfo)
        ensures
            final(self).path_info(k@) == Some(v),
            forall|j: Seq<char>| j != k@ ==> #[trigger] final(self).path_info(j) == old(self).path_info(j),
            final(self).document_paths() == old(self).document_paths(),
            forall|k: Seq<char>| #[trigger] final(self).document(k) == old(self).document(k),
            forall|k: Seq<char>| #[trigger] final(self).text(k) == old(self).text(k),
            forall|k: Seq<char>| #[trigger] final(self).bytes(k) == old(self).bytes(k),
            forall|k: Seq<char>| #[trigger] final(self).variable(k) == old(self).variable(k),
            forall|k: Seq<char>| #[trigger] final(self).listing(k) == old(self).listing(k),
    {
        self.paths.push((k, v));
        proof {
            assert(self.paths@.drop_last() == old(self).paths@);
            
        }
    }

    /// Looks up the parsed document at a canonical path, or why it could not be read or parsed.
    pub fn get_document(&self, k: &str) -> (r: Option<&Result<Doc, LoadError>>)
        ensures
            match r {
                Some(x) => self.document(k@) == Some(*x),
                None => self.document(k@) is None,
            },
    {
        match position(&self.documents, k) {
            Some(i) => Some(&self.documents[i].1),
            None => None,
        }
    }

    /// Records the parsed document at a canonical path, or why it could not be read or parsed.
    pub fn add_document(&mut self, k: String, v: Result<Doc, LoadError>)
        ensures
            final(self).document(k@) == Some(v),
            forall|j: Seq<char>| j != k@ ==> #[trigger] final(self).document(j) == old(self).document(j),
            final(self).document_paths() == old(self).document_paths().insert(k@),
            forall|k: Seq<char>| #[trigger] final(self).path_info(k) == old(self).path_info(k),
            forall|k: Seq<char>| #[trigger] final(self).text(k) == old(self).text(k),
            forall|k: Seq<char>| #[trigger] final(self).bytes(k) == old(self).bytes(k),
            forall|k: Seq<char>| #[trigger] final(self).variable(k) == old(self).variable(k),
            forall|k: Seq<char>| #[trigger] final(self).listing(k) == old(self).listing(k),
    {
        self.documents.push((k, v));
        proof {
            assert(self.documents@.drop_last() == old(self).documents@);
            lemma_keys_push(old(self).documents@, k, v);
        }
    }

    /// Looks up the text of the file at a canonical path, or why it could not be read as UTF-8.
    pub fn get_text(&self, k: &str) -> (r: Option<&Result<String, String>>)
        ensures
            match r {
                Some(x) => self.text(k@) == Some(*x),
                None => self.text(k@) is None,
            },
    {
        match position(&self.texts, k) {
            Some(i) => Some(&self.texts[i].1),
            None => None,
        }
    }

    /// Records the text of the file at a canonical path, or why it could not be read as UTF-8.
    pub fn add_text(&mut self, k: String, v: Result<String, String>)
        ensures
            final(self).text(k@) == Some(v),
            forall|j: Seq<char>| j != k@ ==> #[trigger] final(self).text(j) == old(self).text(j),
            final(self).document_paths() == old(self).document_paths(),
            forall|k: Seq<char>| #[trigger] final(self).path_info(k) == old(self).path_info(k),
            forall|k: Seq<char>| #[trigger] final(self).document(k) == old(self).document(k),
            forall|k: Seq<char>| #[trigger] final(self).bytes(k) == old(self).bytes(k),
            forall|k: Seq<char>| #[trigger] final(self).variable(k) == old(self).variable(k),
            forall|k: Seq<char>| #[trigger] final(self).listing(k) == old(self).listing(k),
    {
        self.texts.push((k, v));
        proof {
            assert(self.texts@.drop_last() == old(self).texts@);
            
        }
    }

    /// Looks up the bytes of the file at a canonical path, or why they could not be read.
    pub fn get_bytes(&self, k: &str) -> (r: Option<&Result<Vec<u8>, String>>)
        ensures
            match r {
                Some(x) => self.bytes(k@) == Some(*x),
                None => self.bytes(k@) is None,
            },
    {
        match position(&self.binaries, k) {
            Some(i) => Some(&self.binaries[i].1),
            None => None,
        }
    }

    /// Records the bytes of the file at a canonical path, or why they could not be read.
    pub fn add_bytes(&mut self, k: String, v: Result<Vec<u8>, String>)
        ensures
            final(self).bytes(k@) == Some(v),
            forall|j: Seq<char>| j != k@ ==> #[trigger] final(self).bytes(j) == old(self).bytes(j),
            final(self).document_paths() == old(self).document_paths(),
            forall|k: Seq<char>| #[trigger] final(self).path_info(k) == old(self).path_info(k),
            forall|k: Seq<char>| #[trigger] final(self).document(k) == old(self).document(k),
            forall|k: Seq<char>| #[trigger] final(self).text(k) == old(self).text(k),
            forall|k: Seq<char>| #[trigger] final(self).variable(k) == old(self).variable(k),
            forall|k: Seq<char>| #[trigger] final(self).listing(k) == old(self).listing(k),
    {
        self.binaries.push((k, v));
        proof {
            assert(self.binaries@.drop_last() == old(self).binaries@);
            
        }
    }

    /// Looks up the value of an environment variable, `None` where it is unset or unreadable.
    pub fn get_variable(&self, k: &str) -> (r: Option<&Option<String>>)
        ensures
            match r {
                Some(x) => self.variable(k@) == Some(*x),
                None => self.variable(k@) is None,
            },
    {
        match position(&self.variables, k) {
            Some(i) => Some(&self.variables[i].1),
            None => None,
        }
    }

    /// Records the value of an environment variable, `None` where it is unset or unreadable.
    pub fn add_variable(&mut self, k: String, v: Option<String>)
        ensures
            final(self).variable(k@) == Some(v),
            forall|j: Seq<char>| j != k@ ==> #[trigger] final(self).variable(j) == old(self).variable(j),
            final(self).document_paths() == old(self).document_paths(),
            forall|k: Seq<char>| #[trigger] final(self).path_info(k) == old(self).path_info(k),
            forall|k: Seq<char>| #[trigger] final(self).document(k) == old(self).document(k),
            forall|k: Seq<char>| #[trigger] final(self).text(k) == old(self).text(k),
            forall|k: Seq<char>| #[trigger] final(self).bytes(k) == old(self).bytes(k),
            forall|k: Seq<char>| #[trigger] final(self).listing(k) == old(self).listing(k),
    {
        self.variables.push((k, v));
        proof {
            assert(self.variables@.drop_last() == old(self).variables@);
            
        }
    }

    /// Looks up the files under a folder, or why it could not be walked.
    pub fn get_listing(&self, k: &str) -> (r: Option<&Result<Vec<GlobEntry>, GlobError>>)
        ensures
            match r {
                Some(x) => self.listing(k@) == Some(*x),
                None => self.listing(k@) is None,
            },
    {
        match position(&self.listings, k) {
            Some(i) => Some(&self.listings[i].1),
            None => None,
        }
    }

    /// Records the files under a folder, or why it could not be walked.
    pub fn add_listing(&mut self, k: String, v: Result<Vec<GlobEntry>, GlobError>)
        ensures
            final(self).listing(k@) == Some(v),
            forall|j: Seq<char>| j != k@ ==> #[trigger] final(self).listing(j) == old(self).listing(j),
            final(self).document_paths() == old(self).document_paths(),
            forall|k: Seq<char>| #[trigger] final(self).path_info(k) == old(self).path_info(k),
            forall|k: Seq<char>| #[trigger] final(self).document(k) == old(self).document(k),
            forall|k: Seq<char>| #[trigger] final(self).text(k) == old(self).text(k),
            forall|k: Seq<char>| #[trigger] final(self).bytes(k) == old(self).bytes(k),
            forall|k: Seq<char>| #[trigger] final(self).variable(k) == old(self).variable(k),
    {
        self.listings.push((k, v));
        proof {
            assert(self.listings@.drop_last() == old(self).listings@);
            
        }
    }

    /// Nothing known yet.
    pub fn new() -> (r: Sources)
        ensures
            forall|p: Seq<char>| r.path_info(p) is None && r.document(p) is None && r.text(p) is None
                && r.bytes(p) is None && r.variable(p) is None && r.listing(p) is None,
    {
        Sources {
            paths: Vec::new(),
            documents: Vec::new(),
            texts: Vec::new(),
            binaries: Vec::new(),
            variables: Vec::new(),
            listings: Vec::new(),
        }
    }
}

} // verus!
