//! Embedding-model choices: which models are supported and their vector
//! sizes, the query cache key, and the batch size of bulk embeddings.
use vstd::prelude::*;

use crate::error::{BiError, BiResult};
use crate::text::{chars_of, is_literal};
use vstd::string::StringSliceAdditionalSpecFns;

verus! {

/// The vector size of the default model.
pub const DEFAULT_DIM: usize = 384;

/// How many texts one uncached bulk embedding call takes.
pub const EMBED_BATCH: usize = 32;

/// How many query embeddings the cache keeps.
pub const QUERY_CACHE_CAP: usize = 256;

/// The supported models, by the names they are asked for: each model's
/// canonical name and vector size.
pub open spec fn model_of(name: Seq<char>) -> Option<(Seq<char>, usize)> {
    if name == "BGE-small-en-v1.5"@ || name == "BGE-small-en"@ {
        Some(("BGE-small-en-v1.5"@, 384))
    } else if name == "BGE-base-en-v1.5"@ || name == "BGE-base-en"@ {
        Some(("BGE-base-en-v1.5"@, 768))
    } else if name == "BGE-large-en-v1.5"@ || name == "BGE-large-en"@ {
        Some(("BGE-large-en-v1.5"@, 1024))
    } else if name == "all-MiniLM-L6-v2"@ {
        Some(("all-MiniLM-L6-v2"@, 384))
    } else {
        None
    }
}

/// The canonical name and vector size of a supported model; any other name
/// is refused with the list of supported ones.
pub fn resolve_model(name: &str) -> (r: BiResult<(&'static str, usize)>)
    ensures
        match model_of(name@) {
            Some((canonical, dim)) => r matches Ok((c, d)) && c@ == canonical && d == dim,
            None => r matches Err(BiError::Embed(m)) && m@ == "unsupported model "@ + name@
                + "; supported: BGE-small-en-v1.5, BGE-base-en-v1.5, BGE-large-en-v1.5, all-MiniLM-L6-v2"@,
        },
{
    let n = chars_of(name);
    if is_literal(n.as_slice(), "BGE-small-en-v1.5") || is_literal(n.as_slice(), "BGE-small-en") {
        Ok(("BGE-small-en-v1.5", 384))
    } else if is_literal(n.as_slice(), "BGE-base-en-v1.5") || is_literal(n.as_slice(), "BGE-base-en") {
        Ok(("BGE-base-en-v1.5", 768))
    } else if is_literal(n.as_slice(), "BGE-large-en-v1.5") || is_literal(n.as_slice(), "BGE-large-en") {
        Ok(("BGE-large-en-v1.5", 1024))
    } else if is_literal(n.as_slice(), "all-MiniLM-L6-v2") {
        Ok(("all-MiniLM-L6-v2", 384))
    } else {
        let head = crate::error::concat_message("unsupported model ", name);
        Err(BiError::Embed(crate::error::concat_message(
            head.as_str(),
            "; supported: BGE-small-en-v1.5, BGE-base-en-v1.5, BGE-large-en-v1.5, all-MiniLM-L6-v2",
        )))
    }
}

/// The key a query's embedding is cached under: the hex SHA-256 of its UTF-8
/// bytes.
pub fn cache_key(text: &str) -> (k: String)
    ensures
        k@ == crate::hashing::spec_sha256_hex(text.spec_bytes()),
{
    crate::hashing::sha256_hex(text.as_bytes())
}

/// Where embeddings run, as the `BITURBO_EMBED_EP` setting asks.
#[derive(Debug, Clone, Copy, PartialEq, Eq, Structural)]
pub enum ExecutionPreference {
    Auto,
    Cpu,
    Cuda,
}

/// The preference a setting names, compared without regard to ASCII case;
/// anything else, or no setting, is `Auto`.
pub open spec fn preference_of(setting: Option<Seq<char>>) -> ExecutionPreference {
    match setting {
        Some(s) => if crate::text::ascii_lower_seq(s) == "cpu"@ {
            ExecutionPreference::Cpu
        } else if crate::text::ascii_lower_seq(s) == "cuda"@ {
            ExecutionPreference::Cuda
        } else {
            ExecutionPreference::Auto
        },
        None => ExecutionPreference::Auto,
    }
}

/// The execution preference of a setting (see `preference_of`).
pub fn execution_preference(setting: Option<&str>) -> (p: ExecutionPreference)
    ensures
        p == preference_of(match setting {
            Some(s) => Some(s@),
            None => None,
        }),
{
    match setting {
        Some(s) => {
            let l = crate::io::lower_chars(chars_of(s).as_slice());
            if is_literal(l.as_slice(), "cpu") {
                ExecutionPreference::Cpu
            } else if is_literal(l.as_slice(), "cuda") {
                ExecutionPreference::Cuda
            } else {
                ExecutionPreference::Auto
            }
        },
        None => ExecutionPreference::Auto,
    }
}

} // verus!
