use vstd::prelude::*;
use vstd::relations::*;
use crate::error::GlobError;
use crate::paths::opt_text;
use crate::text::{lemma_text_le_total, lemma_text_le_total_ordering, lemma_text_le_transitive, same_text, text_le, text_leq};
use vstd::seq_lib::*;

verus! {

/// What compiling a pattern with globset, into a glob and then into a glob
/// set, says: `None` where the pattern compiles, else the text of the error.
pub uninterp spec fn glob_build_error(pattern: Seq<char>) -> Option<Seq<char>>;

/// Whether the glob set compiled from the pattern matches a path.
pub uninterp spec fn glob_matches(pattern: Seq<char>, path: Seq<char>) -> bool;

/// Relies on `globset::GlobBuilder::build` (separators matched literally,
/// case-sensitive), then `globset::GlobSetBuilder::build` on the one glob,
/// which compiles its regex and reports a failure instead of panicking; and
/// on the `Display` of their error. All depend on the pattern alone.
#[verifier::external_body]
fn glob_build(pattern: &str) -> (r: Option<String>)
    ensures
        opt_text(r) == glob_build_error(pattern@),
{
    match globset::GlobBuilder::new(pattern).literal_separator(true).case_insensitive(false).build() {
        Err(e) => Some(e.to_string()),
        Ok(g) => globset::GlobSetBuilder::new().add(g).build().err().map(|e| e.to_string()),
    }
}

/// Relies on `globset::GlobSet::is_match`, for the set that holds the one
/// glob built as above; where [`glob_build`] reports no error, both builds
/// succeed.
#[verifier::external_body]
fn glob_is_match(pattern: &str, path: &str) -> (r: bool)
    requires
        glob_build_error(pattern@) is None,
    ensures
        r == glob_matches(pattern@, path@),
{
    match globset::GlobBuilder::new(pattern).literal_separator(true).case_insensitive(false).build() {
        Err(_) => false,
        Ok(g) => match globset::GlobSetBuilder::new().add(g).build() {
            Err(_) => false,
            Ok(set) => set.is_match(path),
        },
    }
}

/// The characters that make a pattern a glob, unless a backslash escapes them.
pub open spec fn is_glob_meta(c: char) -> bool {
    c == '*' || c == '?' || c == '[' || c == ']' || c == '{' || c == '}'
}

/// Whether the rest of a pattern holds no unescaped glob character, given
/// whether its first character is escaped.
pub open spec fn fixed_from(s: Seq<char>, escaped: bool) -> bool
    decreases s.len(),
{
    if s.len() == 0 {
        true
    } else if escaped {
        fixed_from(s.drop_first(), false)
    } else if s[0] == '\\' {
        fixed_from(s.drop_first(), true)
    } else if is_glob_meta(s[0]) {
        false
    } else {
        fixed_from(s.drop_first(), false)
    }
}

/// A file found under the base folder of a glob: its canonical path and, where
/// the base folder is a prefix of it, its path relative to that folder.
#[derive(Debug, PartialEq)]
pub struct GlobEntry {
    pub full_path: String,
    pub relative: Option<String>,
}

/// The path of an entry that the pattern is tested against.
pub open spec fn entry_matches(pattern: Seq<char>, e: GlobEntry) -> bool {
    match e.relative {
        Some(rel) => glob_matches(pattern, rel@),
        None => glob_matches(pattern, e.full_path@),
    }
}

/// The canonical paths of the entries that the pattern matches, other than
/// `own`, in the order of the listing.
pub open spec fn matching_paths(pattern: Seq<char>, entries: Seq<GlobEntry>, own: Seq<char>) -> Seq<Seq<char>>
    decreases entries.len(),
{
    if entries.len() == 0 {
        Seq::empty()
    } else {
        let e = entries.last();
        let before = matching_paths(pattern, entries.drop_last(), own);
        if entry_matches(pattern, e) && e.full_path@ != own {
            before.push(e.full_path@)
        } else {
            before
        }
    }
}

/// The order in which glob results are taken.
pub open spec fn path_order() -> spec_fn(Seq<char>, Seq<char>) -> bool {
    |a: Seq<char>, b: Seq<char>| text_le(a, b)
}

/// The matches of a glob, in the order of their canonical paths.
pub open spec fn selected_paths(pattern: Seq<char>, entries: Seq<GlobEntry>, own: Seq<char>) -> Seq<Seq<char>> {
    matching_paths(pattern, entries, own).sort_by(path_order())
}

pub open spec fn texts(v: Seq<String>) -> Seq<Seq<char>> {
    v.map_values(|s: String| s@)
}

/// A compiled glob pattern, anchored at a folder.
pub struct Glob {
    pattern: String,
    context: String,
}

impl Glob {
    pub closed spec fn pattern(&self) -> Seq<char> {
        self.pattern@
    }

    pub closed spec fn context(&self) -> Seq<char> {
        self.context@
    }

    pub closed spec fn wf(&self) -> bool {
        glob_build_error(self.pattern@) is None
    }

    /// Compiles `pattern`, to be matched against paths under `context`.
    pub fn new(pattern: &str, context: &str) -> (r: Result<Glob, GlobError>)
        ensures
            glob_build_error(pattern@) is None <==> r is Ok,
            r matches Ok(g) ==> g.wf() && g.pattern() == pattern@ && g.context() == context@,
            r matches Err(e) ==> e@ == crate::error::GlobFault::Pattern(glob_build_error(pattern@)->Some_0),
    {
        match glob_build(pattern) {
            None => Ok(Glob { pattern: pattern.to_string(), context: context.to_string() }),
            Some(m) => Err(GlobError::GlobPatternError(m)),
        }
    }

    /// Whether the pattern is a plain path: it holds none of `* ? [ ] { }`
    /// but where a backslash escapes it.
    pub fn is_fixed(&self) -> (r: bool)
        ensures
            r == fixed_from(self.pattern(), false),
    {
        let p = self.pattern.as_str();
        let n = p.unicode_len();
        let mut escaped = false;
        let mut i: usize = 0;
        assert(p@.subrange(0, n as int) == p@);
        while i < n
            invariant
                n == p@.len(),
                p@ == self.pattern(),
                i <= n,
                fixed_from(self.pattern(), false) == fixed_from(p@.subrange(i as int, n as int), escaped),
            decreases n - i,
        {
            let c = p.get_char(i);
            let ghost rest = p@.subrange(i as int, n as int);
            assert(rest[0] == c);
            assert(rest.drop_first() == p@.subrange(i + 1, n as int));
            if escaped {
                escaped = false;
            } else if c == '\\' {
                escaped = true;
            } else if c == '*' || c == '?' || c == '[' || c == ']' || c == '{' || c == '}' {
                return false;
            }
            i = i + 1;
        }
        true
    }

    /// Whether the pattern matches an entry.
    pub fn matches(&self, e: &GlobEntry) -> (r: bool)
        requires
            self.wf(),
        ensures
            r == entry_matches(self.pattern(), *e),
    {
        match &e.relative {
            Some(rel) => glob_is_match(self.pattern.as_str(), rel.as_str()),
            None => glob_is_match(self.pattern.as_str(), e.full_path.as_str()),
        }
    }

    /// The canonical paths of the listed entries that the pattern matches,
    /// leaving out `own`, sorted.
    pub fn select(&self, entries: &Vec<GlobEntry>, own: &str) -> (r: Vec<String>)
        requires
            self.wf(),
        ensures
            texts(r@) == selected_paths(self.pattern(), entries@, own@),
    {
        let mut found: Vec<String> = Vec::new();
        let mut i: usize = 0;
        while i < entries.len()
            invariant
                self.wf(),
                i <= entries.len(),
                texts(found@) == matching_paths(self.pattern(), entries@.take(i as int), own@),
            decreases entries.len() - i,
        {
            assert(entries@.take(i + 1).drop_last() == entries@.take(i as int));
            let e = &entries[i];
            if self.matches(e) && !same_text(e.full_path.as_str(), own) {
                found.push(e.full_path.clone());
                assert(texts(found@) == texts(found@.drop_last()).push(e.full_path@));
            }
            i = i + 1;
        }
        assert(entries@.take(entries.len() as int) == entries@);
        sort_texts(found)
    }
}

/// `v` sorted by [`text_le`].
fn sort_texts(v: Vec<String>) -> (r: Vec<String>)
    ensures
        texts(r@) == texts(v@).sort_by(path_order()),
{
    proof {
        lemma_text_le_total_ordering();
    }
    let mut out: Vec<String> = Vec::new();
    let mut i: usize = 0;
    assert(texts(out@) =~= texts(v@).take(0));
    while i < v.len()
        invariant
            i <= v.len(),
            total_ordering(path_order()),
            sorted_by(texts(out@), path_order()),
            texts(out@).to_multiset() == texts(v@).take(i as int).to_multiset(),
        decreases v.len() - i,
    {
        let x = &v[i];
        let mut k: usize = 0;
        while k < out.len() && text_leq(out[k].as_str(), x.as_str())
            invariant
                k <= out.len(),
                forall|j: int| 0 <= j < k ==> text_le(#[trigger] texts(out@)[j], x@),
            decreases out.len() - k,
        {
            k = k + 1;
        }
        let ghost before = texts(out@);
        let ghost old_out = out@;
        out.insert(k, x.clone());
        proof {
            let after = texts(out@);
            old_out.insert_ensures(k as int, *x);
            before.insert_ensures(k as int, x@);
            assert(after =~= before.insert(k as int, x@));
            if k < before.len() {
                lemma_text_le_total(before[k as int], x@);
            }
            assert forall|a: int, b: int| 0 <= a < b < after.len() implies
                #[trigger] text_le(after[a], after[b]) by {
                let le = path_order();
                if b < k {
                    assert(le(before[a], before[b]));
                }
                if a > k {
                    assert(le(before[a - 1], before[b - 1]));
                }
                if b > k && b - 1 > k {
                    assert(le(before[k as int], before[b - 1]));
                    lemma_text_le_transitive(x@, before[k as int], before[b - 1]);
                }
                if a < k && b > k {
                    lemma_text_le_transitive(before[a], x@, before[b - 1]);
                }
            }
            assert(sorted_by(after, path_order()));
            assert(texts(v@).take(i + 1) == texts(v@).take(i as int).push(x@));
            to_multiset_insert(before, k as int, x@);
            to_multiset_build(texts(v@).take(i as int), x@);
        }
        i = i + 1;
    }
    proof {
        assert(texts(v@).take(v.len() as int) == texts(v@));
        texts(v@).lemma_sort_by_ensures(path_order());
        lemma_sorted_unique(texts(out@), texts(v@).sort_by(path_order()), path_order());
    }
    out
}

} // verus!
