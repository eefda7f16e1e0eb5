use vstd::prelude::*;
use base64::Engine;
use crate::text::same_text;

verus! {

/// What the standard base64 engine encodes bytes to.
pub uninterp spec fn base64_of(bytes: Seq<u8>) -> Seq<char>;

/// Whether base64 can encode this many bytes without its length overflowing.
pub open spec fn encodable(len: nat) -> bool {
    len / 3 < usize::MAX / 4 - 1
}

/// Relies on `base64::engine::general_purpose::STANDARD.encode`, which panics
/// only where the encoded length overflows `usize`; with padding, the text is
/// four characters for each three bytes, the last group rounded up.
#[verifier::external_body]
pub(crate) fn encode_base64(bytes: &[u8]) -> (r: String)
    requires
        encodable(bytes@.len()),
    ensures
        r@ == base64_of(bytes@),
        r@.len() == 4 * ((bytes@.len() + 2) / 3),
{
    base64::engine::general_purpose::STANDARD.encode(bytes)
}

/// How an included file is read.
#[derive(Debug, Clone, Copy, PartialEq, Eq, Structural)]
pub enum Extension {
    /// Parsed as a document and resolved in turn.
    Yaml,
    /// Taken as text.
    Text,
    /// Taken as bytes, encoded in base64.
    Binary,
}

/// The class of a file by its extension.
pub open spec fn extension_class(ext: Option<Seq<char>>) -> Extension {
    match ext {
        Some(e) => if e == "yaml"@ || e == "yml"@ || e == "json"@ {
            Extension::Yaml
        } else if e == "txt"@ || e == "markdown"@ || e == "md"@ {
            Extension::Text
        } else {
            Extension::Binary
        },
        None => Extension::Binary,
    }
}

impl Extension {
    /// The class of a file with this extension: `yaml`, `yml` and `json` are
    /// documents, `txt`, `markdown` and `md` are text, all else is binary.
    pub fn from_ext(ext: Option<&str>) -> (r: Extension)
        ensures
            r == extension_class(match ext {
                Some(e) => Some(e@),
                None => None,
            }),
    {
        match ext {
            Some(e) => if same_text(e, "yaml") || same_text(e, "yml") || same_text(e, "json") {
                Extension::Yaml
            } else if same_text(e, "txt") || same_text(e, "markdown") || same_text(e, "md") {
                Extension::Text
            } else {
                Extension::Binary
            },
            None => Extension::Binary,
        }
    }
}

} // verus!
