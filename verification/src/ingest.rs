//! Code ingest: which files are read, how a parsed file becomes chunks, how
//! the work is planned and reported, and the code graph.
use vstd::prelude::*;

use crate::error::{BiError, BiResult};
use crate::text::{
    append_chars, byte_len, chars_of, contains_chars, contains_seq, decimal, decimal_string, is_literal,
    join, lines, split_lines, views, starts_with, starts_with_chars, string_of, trim, trim_chars, TrimSet,
};

verus! {

/// What an ingest of one project did.
pub struct IngestResult {
    pub project_id: String,
    pub files_indexed: usize,
    pub chunks_indexed: usize,
    pub bytes_processed: u64,
    /// Files read per language, each language once.
    pub languages: Vec<(String, usize)>,
    pub errors: Vec<String>,
    pub edges_created: usize,
}

impl IngestResult {
    /// The report of an ingest that has done nothing yet.
    pub fn empty(project_id: String) -> (r: Self)
        ensures
            r.project_id@ == project_id@,
            r.files_indexed == 0,
            r.chunks_indexed == 0,
            r.bytes_processed == 0,
            r.languages@.len() == 0,
            r.errors@.len() == 0,
            r.edges_created == 0,
    {
        IngestResult {
            project_id,
            files_indexed: 0,
            chunks_indexed: 0,
            bytes_processed: 0,
            languages: Vec::new(),
            errors: Vec::new(),
            edges_created: 0,
        }
    }
}

/// What an ingest of several projects did, with the totals.
pub struct MultiIngestResult {
    pub results: Vec<IngestResult>,
    pub total_files_indexed: usize,
    pub total_chunks_indexed: usize,
    pub total_bytes_processed: u64,
    pub total_errors: usize,
    pub total_edges_created: usize,
}

/// A project's outcome as the totals count it: files, chunks, bytes, errors
/// and edges; a failed project counts one error and nothing else.
pub open spec fn outcome_counts(r: Result<IngestResult, BiError>) -> (int, int, int, int, int) {
    match r {
        Ok(x) => (
            x.files_indexed as int,
            x.chunks_indexed as int,
            x.bytes_processed as int,
            x.errors@.len() as int,
            x.edges_created as int,
        ),
        Err(_) => (0, 0, 0, 1, 0),
    }
}

pub open spec fn sum_counts(rs: Seq<Result<IngestResult, BiError>>) -> (int, int, int, int, int)
    decreases rs.len(),
{
    if rs.len() == 0 {
        (0, 0, 0, 0, 0)
    } else {
        let (a, b, c, d, e) = sum_counts(rs.drop_last());
        let (a1, b1, c1, d1, e1) = outcome_counts(rs.last());
        (a + a1, b + b1, c + c1, d + d1, e + e1)
    }
}

/// The error a failed project's ingest is reported with.
pub fn project_failure(project_id: &str, e: &BiError) -> (r: BiError)
    ensures
        r matches BiError::Ingest(m) && m@ == "project "@ + project_id@ + " failed: "@
            + crate::error::error_prefix(*e) + crate::error::error_detail(*e),
{
    let mut m: Vec<char> = chars_of("project ");
    append_chars(&mut m, chars_of(project_id).as_slice());
    append_chars(&mut m, chars_of(" failed: ").as_slice());
    let msg = e.message();
    append_chars(&mut m, chars_of(msg.as_str()).as_slice());
    BiError::Ingest(string_of(m.as_slice()))
}

/// Sums the outcomes of the projects of a multi-project ingest, in order. A
/// failed project is listed under the id `unknown` with its error message.
pub fn summarize_multi_ingest(outcomes: Vec<Result<IngestResult, BiError>>) -> (m: MultiIngestResult)
    requires
        sum_counts(outcomes@).0 <= usize::MAX,
        sum_counts(outcomes@).1 <= usize::MAX,
        sum_counts(outcomes@).2 <= u64::MAX,
        sum_counts(outcomes@).3 <= usize::MAX,
        sum_counts(outcomes@).4 <= usize::MAX,
    ensures
        m.results@.len() == outcomes@.len(),
        m.total_files_indexed == sum_counts(outcomes@).0,
        m.total_chunks_indexed == sum_counts(outcomes@).1,
        m.total_bytes_processed == sum_counts(outcomes@).2,
        m.total_errors == sum_counts(outcomes@).3,
        m.total_edges_created == sum_counts(outcomes@).4,
        forall|i: int|
            0 <= i < outcomes@.len() ==> match #[trigger] outcomes@[i] {
                Ok(x) => m.results@[i] == x,
                Err(e) => m.results@[i].project_id@ == "unknown"@ && m.results@[i].errors@.len()
                    == 1 && m.results@[i].errors@[0]@ == crate::error::error_prefix(e)
                    + crate::error::error_detail(e) && m.results@[i].files_indexed == 0
                    && m.results@[i].chunks_indexed == 0 && m.results@[i].edges_created == 0,
            },
{
    let ghost all = outcomes@;
    let mut m = MultiIngestResult {
        results: Vec::new(),
        total_files_indexed: 0,
        total_chunks_indexed: 0,
        total_bytes_processed: 0,
        total_errors: 0,
        total_edges_created: 0,
    };
    let mut i: usize = 0;
    for o in it: outcomes
        invariant
            it.seq() == all,
            i == it.index(),
            i <= all.len(),
            sum_counts(all).0 <= usize::MAX,
            sum_counts(all).1 <= usize::MAX,
            sum_counts(all).2 <= u64::MAX,
            sum_counts(all).3 <= usize::MAX,
            sum_counts(all).4 <= usize::MAX,
            m.results@.len() == i,
            m.total_files_indexed == sum_counts(all.take(i as int)).0,
            m.total_chunks_indexed == sum_counts(all.take(i as int)).1,
            m.total_bytes_processed == sum_counts(all.take(i as int)).2,
            m.total_errors == sum_counts(all.take(i as int)).3,
            m.total_edges_created == sum_counts(all.take(i as int)).4,
            forall|j: int|
                0 <= j < i ==> match #[trigger] all[j] {
                    Ok(x) => m.results@[j] == x,
                    Err(e) => m.results@[j].project_id@ == "unknown"@ && m.results@[j].errors@.len()
                        == 1 && m.results@[j].errors@[0]@ == crate::error::error_prefix(e)
                        + crate::error::error_detail(e) && m.results@[j].files_indexed == 0
                        && m.results@[j].chunks_indexed == 0 && m.results@[j].edges_created == 0,
                },
    {
        proof {
            assert(all.take(i + 1).drop_last() == all.take(i as int));
            assert(all.take(i + 1).last() == all[i as int]);
            lemma_sum_counts_prefix(all, i + 1);
        }
        match o {
            Ok(r) => {
                m.total_files_indexed = m.total_files_indexed + r.files_indexed;
                m.total_chunks_indexed = m.total_chunks_indexed + r.chunks_indexed;
                m.total_bytes_processed = m.total_bytes_processed + r.bytes_processed;
                m.total_errors = m.total_errors + r.errors.len();
                m.total_edges_created = m.total_edges_created + r.edges_created;
                m.results.push(r);
            },
            Err(e) => {
                m.total_errors = m.total_errors + 1;
                let mut errors: Vec<String> = Vec::new();
                errors.push(e.message());
                let mut failed = IngestResult::empty("unknown".to_owned());
                failed.errors = errors;
                m.results.push(failed);
            },
        }
        i = m.results.len();
    }
    assert(all.take(all.len() as int) == all);
    m
}

/// The totals over a prefix never exceed the totals over the whole list.
pub proof fn lemma_sum_counts_prefix(rs: Seq<Result<IngestResult, BiError>>, n: int)
    requires
        0 <= n <= rs.len(),
    ensures
        sum_counts(rs.take(n)).0 <= sum_counts(rs).0,
        sum_counts(rs.take(n)).1 <= sum_counts(rs).1,
        sum_counts(rs.take(n)).2 <= sum_counts(rs).2,
        sum_counts(rs.take(n)).3 <= sum_counts(rs).3,
        sum_counts(rs.take(n)).4 <= sum_counts(rs).4,
    decreases rs.len(),
{
    if n < rs.len() {
        lemma_sum_counts_prefix(rs.drop_last(), n);
        assert(rs.drop_last().take(n) == rs.take(n));
    } else {
        assert(rs.take(n) == rs);
    }
}

pub open spec fn language_of_ext(ext: Seq<char>) -> Option<Seq<char>> {
    if ext == "rs"@ {
        Some("rust"@)
    } else if ext == "ts"@ {
        Some("typescript"@)
    } else if ext == "tsx"@ {
        Some("typescript"@)
    } else if ext == "js"@ {
        Some("javascript"@)
    } else if ext == "jsx"@ {
        Some("javascript"@)
    } else if ext == "mjs"@ {
        Some("javascript"@)
    } else if ext == "cjs"@ {
        Some("javascript"@)
    } else if ext == "py"@ {
        Some("python"@)
    } else if ext == "go"@ {
        Some("go"@)
    } else if ext == "swift"@ {
        Some("swift"@)
    } else if ext == "php"@ {
        Some("php"@)
    } else if ext == "rb"@ {
        Some("ruby"@)
    } else if ext == "java"@ {
        Some("java"@)
    } else if ext == "kt"@ {
        Some("kotlin"@)
    } else if ext == "kts"@ {
        Some("kotlin"@)
    } else if ext == "c"@ {
        Some("c"@)
    } else if ext == "h"@ {
        Some("c"@)
    } else if ext == "cpp"@ {
        Some("cpp"@)
    } else if ext == "cc"@ {
        Some("cpp"@)
    } else if ext == "cxx"@ {
        Some("cpp"@)
    } else if ext == "c++"@ {
        Some("cpp"@)
    } else if ext == "hpp"@ {
        Some("cpp"@)
    } else if ext == "hh"@ {
        Some("cpp"@)
    } else if ext == "hxx"@ {
        Some("cpp"@)
    } else if ext == "cs"@ {
        Some("csharp"@)
    } else if ext == "sh"@ {
        Some("bash"@)
    } else if ext == "bash"@ {
        Some("bash"@)
    } else if ext == "html"@ {
        Some("html"@)
    } else if ext == "htm"@ {
        Some("html"@)
    } else if ext == "css"@ {
        Some("css"@)
    } else {
        None
    }
}

proof fn lemma_ext_rs()
    ensures
        language_of_ext("rs"@) == Some("rust"@),
{
    reveal_strlit("rs");
    reveal_strlit("rust");
}

proof fn lemma_ext_ts()
    ensures
        language_of_ext("ts"@) == Some("typescript"@),
{
    reveal_strlit("ts");
    reveal_strlit("typescript");
    reveal_strlit("rs");
    assert("ts"@[0] != "rs"@[0]);
    assert("ts"@ != "rs"@);
}

proof fn lemma_ext_tsx()
    ensures
        language_of_ext("tsx"@) == Some("typescript"@),
{
    reveal_strlit("tsx");
    reveal_strlit("typescript");
    reveal_strlit("rs");
    assert("tsx"@.len() != "rs"@.len());
    assert("tsx"@ != "rs"@);
    reveal_strlit("ts");
    assert("tsx"@.len() != "ts"@.len());
    assert("tsx"@ != "ts"@);
}

proof fn lemma_ext_js()
    ensures
        language_of_ext("js"@) == Some("javascript"@),
{
    reveal_strlit("js");
    reveal_strlit("javascript");
    reveal_strlit("rs");
    assert("js"@[0] != "rs"@[0]);
    assert("js"@ != "rs"@);
    reveal_strlit("ts");
    assert("js"@[0] != "ts"@[0]);
    assert("js"@ != "ts"@);
    reveal_strlit("tsx");
    assert("js"@.len() != "tsx"@.len());
    assert("js"@ != "tsx"@);
}

proof fn lemma_ext_jsx()
    ensures
        language_of_ext("jsx"@) == Some("javascript"@),
{
    reveal_strlit("jsx");
    reveal_strlit("javascript");
    reveal_strlit("rs");
    assert("jsx"@.len() != "rs"@.len());
    assert("jsx"@ != "rs"@);
    reveal_strlit("ts");
    assert("jsx"@.len() != "ts"@.len());
    assert("jsx"@ != "ts"@);
    reveal_strlit("tsx");
    assert("jsx"@[0] != "tsx"@[0]);
    assert("jsx"@ != "tsx"@);
    reveal_strlit("js");
    assert("jsx"@.len() != "js"@.len());
    assert("jsx"@ != "js"@);
}

proof fn lemma_ext_mjs()
    ensures
        language_of_ext("mjs"@) == Some("javascript"@),
{
    reveal_strlit("mjs");
    reveal_strlit("javascript");
    reveal_strlit("rs");
    assert("mjs"@.len() != "rs"@.len());
    assert("mjs"@ != "rs"@);
    reveal_strlit("ts");
    assert("mjs"@.len() != "ts"@.len());
    assert("mjs"@ != "ts"@);
    reveal_strlit("tsx");
    assert("mjs"@[0] != "tsx"@[0]);
    assert("mjs"@ != "tsx"@);
    reveal_strlit("js");
    assert("mjs"@.len() != "js"@.len());
    assert("mjs"@ != "js"@);
    reveal_strlit("jsx");
    assert("mjs"@[0] != "jsx"@[0]);
    assert("mjs"@ != "jsx"@);
}

proof fn lemma_ext_cjs()
    ensures
        language_of_ext("cjs"@) == Some("javascript"@),
{
    reveal_strlit("cjs");
    reveal_strlit("javascript");
    reveal_strlit("rs");
    assert("cjs"@.len() != "rs"@.len());
    assert("cjs"@ != "rs"@);
    reveal_strlit("ts");
    assert("cjs"@.len() != "ts"@.len());
    assert("cjs"@ != "ts"@);
    reveal_strlit("tsx");
    assert("cjs"@[0] != "tsx"@[0]);
    assert("cjs"@ != "tsx"@);
    reveal_strlit("js");
    assert("cjs"@.len() != "js"@.len());
    assert("cjs"@ != "js"@);
    reveal_strlit("jsx");
    assert("cjs"@[0] != "jsx"@[0]);
    assert("cjs"@ != "jsx"@);
    reveal_strlit("mjs");
    assert("cjs"@[0] != "mjs"@[0]);
    assert("cjs"@ != "mjs"@);
}

proof fn lemma_ext_py()
    ensures
        language_of_ext("py"@) == Some("python"@),
{
    reveal_strlit("py");
    reveal_strlit("python");
    reveal_strlit("rs");
    assert("py"@[0] != "rs"@[0]);
    assert("py"@ != "rs"@);
    reveal_strlit("ts");
    assert("py"@[0] != "ts"@[0]);
    assert("py"@ != "ts"@);
    reveal_strlit("tsx");
    assert("py"@.len() != "tsx"@.len());
    assert("py"@ != "tsx"@);
    reveal_strlit("js");
    assert("py"@[0] != "js"@[0]);
    assert("py"@ != "js"@);
    reveal_strlit("jsx");
    assert("py"@.len() != "jsx"@.len());
    assert("py"@ != "jsx"@);
    reveal_strlit("mjs");
    assert("py"@.len() != "mjs"@.len());
    assert("py"@ != "mjs"@);
    reveal_strlit("cjs");
    assert("py"@.len() != "cjs"@.len());
    assert("py"@ != "cjs"@);
}

proof fn lemma_ext_go()
    ensures
        language_of_ext("go"@) == Some("go"@),
{
    reveal_strlit("go");
    reveal_strlit("go");
    reveal_strlit("rs");
    assert("go"@[0] != "rs"@[0]);
    assert("go"@ != "rs"@);
    reveal_strlit("ts");
    assert("go"@[0] != "ts"@[0]);
    assert("go"@ != "ts"@);
    reveal_strlit("tsx");
    assert("go"@.len() != "tsx"@.len());
    assert("go"@ != "tsx"@);
    reveal_strlit("js");
    assert("go"@[0] != "js"@[0]);
    assert("go"@ != "js"@);
    reveal_strlit("jsx");
    assert("go"@.len() != "jsx"@.len());
    assert("go"@ != "jsx"@);
    reveal_strlit("mjs");
    assert("go"@.len() != "mjs"@.len());
    assert("go"@ != "mjs"@);
    reveal_strlit("cjs");
    assert("go"@.len() != "cjs"@.len());
    assert("go"@ != "cjs"@);
    reveal_strlit("py");
    assert("go"@[0] != "py"@[0]);
    assert("go"@ != "py"@);
}

proof fn lemma_ext_swift()
    ensures
        language_of_ext("swift"@) == Some("swift"@),
{
    reveal_strlit("swift");
    reveal_strlit("swift");
    reveal_strlit("rs");
    assert("swift"@.len() != "rs"@.len());
    assert("swift"@ != "rs"@);
    reveal_strlit("ts");
    assert("swift"@.len() != "ts"@.len());
    assert("swift"@ != "ts"@);
    reveal_strlit("tsx");
    assert("swift"@.len() != "tsx"@.len());
    assert("swift"@ != "tsx"@);
    reveal_strlit("js");
    assert("swift"@.len() != "js"@.len());
    assert("swift"@ != "js"@);
    reveal_strlit("jsx");
    assert("swift"@.len() != "jsx"@.len());
    assert("swift"@ != "jsx"@);
    reveal_strlit("mjs");
    assert("swift"@.len() != "mjs"@.len());
    assert("swift"@ != "mjs"@);
    reveal_strlit("cjs");
    assert("swift"@.len() != "cjs"@.len());
    assert("swift"@ != "cjs"@);
    reveal_strlit("py");
    assert("swift"@.len() != "py"@.len());
    assert("swift"@ != "py"@);
    reveal_strlit("go");
    assert("swift"@.len() != "go"@.len());
    assert("swift"@ != "go"@);
}

proof fn lemma_ext_php()
    ensures
        language_of_ext("php"@) == Some("php"@),
{
    reveal_strlit("php");
    reveal_strlit("php");
    reveal_strlit("rs");
    assert("php"@.len() != "rs"@.len());
    assert("php"@ != "rs"@);
    reveal_strlit("ts");
    assert("php"@.len() != "ts"@.len());
    assert("php"@ != "ts"@);
    reveal_strlit("tsx");
    assert("php"@[0] != "tsx"@[0]);
    assert("php"@ != "tsx"@);
    reveal_strlit("js");
    assert("php"@.len() != "js"@.len());
    assert("php"@ != "js"@);
    reveal_strlit("jsx");
    assert("php"@[0] != "jsx"@[0]);
    assert("php"@ != "jsx"@);
    reveal_strlit("mjs");
    assert("php"@[0] != "mjs"@[0]);
    assert("php"@ != "mjs"@);
    reveal_strlit("cjs");
    assert("php"@[0] != "cjs"@[0]);
    assert("php"@ != "cjs"@);
    reveal_strlit("py");
    assert("php"@.len() != "py"@.len());
    assert("php"@ != "py"@);
    reveal_strlit("go");
    assert("php"@.len() != "go"@.len());
    assert("php"@ != "go"@);
    reveal_strlit("swift");
    assert("php"@.len() != "swift"@.len());
    assert("php"@ != "swift"@);
}

proof fn lemma_ext_rb()
    ensures
        language_of_ext("rb"@) == Some("ruby"@),
{
    reveal_strlit("rb");
    reveal_strlit("ruby");
    reveal_strlit("rs");
    assert("rb"@[1] != "rs"@[1]);
    assert("rb"@ != "rs"@);
    reveal_strlit("ts");
    assert("rb"@[0] != "ts"@[0]);
    assert("rb"@ != "ts"@);
    reveal_strlit("tsx");
    assert("rb"@.len() != "tsx"@.len());
    assert("rb"@ != "tsx"@);
    reveal_strlit("js");
    assert("rb"@[0] != "js"@[0]);
    assert("rb"@ != "js"@);
    reveal_strlit("jsx");
    assert("rb"@.len() != "jsx"@.len());
    assert("rb"@ != "jsx"@);
    reveal_strlit("mjs");
    assert("rb"@.len() != "mjs"@.len());
    assert("rb"@ != "mjs"@);
    reveal_strlit("cjs");
    assert("rb"@.len() != "cjs"@.len());
    assert("rb"@ != "cjs"@);
    reveal_strlit("py");
    assert("rb"@[0] != "py"@[0]);
    assert("rb"@ != "py"@);
    reveal_strlit("go");
    assert("rb"@[0] != "go"@[0]);
    assert("rb"@ != "go"@);
    reveal_strlit("swift");
    assert("rb"@.len() != "swift"@.len());
    assert("rb"@ != "swift"@);
    reveal_strlit("php");
    assert("rb"@.len() != "php"@.len());
    assert("rb"@ != "php"@);
}

proof fn lemma_ext_java()
    ensures
        language_of_ext("java"@) == Some("java"@),
{
    reveal_strlit("java");
    reveal_strlit("java");
    reveal_strlit("rs");
    assert("java"@.len() != "rs"@.len());
    assert("java"@ != "rs"@);
    reveal_strlit("ts");
    assert("java"@.len() != "ts"@.len());
    assert("java"@ != "ts"@);
    reveal_strlit("tsx");
    assert("java"@.len() != "tsx"@.len());
    assert("java"@ != "tsx"@);
    reveal_strlit("js");
    assert("java"@.len() != "js"@.len());
    assert("java"@ != "js"@);
    reveal_strlit("jsx");
    assert("java"@.len() != "jsx"@.len());
    assert("java"@ != "jsx"@);
    reveal_strlit("mjs");
    assert("java"@.len() != "mjs"@.len());
    assert("java"@ != "mjs"@);
    reveal_strlit("cjs");
    assert("java"@.len() != "cjs"@.len());
    assert("java"@ != "cjs"@);
    reveal_strlit("py");
    assert("java"@.len() != "py"@.len());
    assert("java"@ != "py"@);
    reveal_strlit("go");
    assert("java"@.len() != "go"@.len());
    assert("java"@ != "go"@);
    reveal_strlit("swift");
    assert("java"@.len() != "swift"@.len());
    assert("java"@ != "swift"@);
    reveal_strlit("php");
    assert("java"@.len() != "php"@.len());
    assert("java"@ != "php"@);
    reveal_strlit("rb");
    assert("java"@.len() != "rb"@.len());
    assert("java"@ != "rb"@);
}

proof fn lemma_ext_c()
    ensures
        language_of_ext("c"@) == Some("c"@),
{
    reveal_strlit("c");
    reveal_strlit("c");
    reveal_strlit("rs");
    assert("c"@.len() != "rs"@.len());
    assert("c"@ != "rs"@);
    reveal_strlit("ts");
    assert("c"@.len() != "ts"@.len());
    assert("c"@ != "ts"@);
    reveal_strlit("tsx");
    assert("c"@.len() != "tsx"@.len());
    assert("c"@ != "tsx"@);
    reveal_strlit("js");
    assert("c"@.len() != "js"@.len());
    assert("c"@ != "js"@);
    reveal_strlit("jsx");
    assert("c"@.len() != "jsx"@.len());
    assert("c"@ != "jsx"@);
    reveal_strlit("mjs");
    assert("c"@.len() != "mjs"@.len());
    assert("c"@ != "mjs"@);
    reveal_strlit("cjs");
    assert("c"@.len() != "cjs"@.len());
    assert("c"@ != "cjs"@);
    reveal_strlit("py");
    assert("c"@.len() != "py"@.len());
    assert("c"@ != "py"@);
    reveal_strlit("go");
    assert("c"@.len() != "go"@.len());
    assert("c"@ != "go"@);
    reveal_strlit("swift");
    assert("c"@.len() != "swift"@.len());
    assert("c"@ != "swift"@);
    reveal_strlit("php");
    assert("c"@.len() != "php"@.len());
    assert("c"@ != "php"@);
    reveal_strlit("rb");
    assert("c"@.len() != "rb"@.len());
    assert("c"@ != "rb"@);
    reveal_strlit("java");
    assert("c"@.len() != "java"@.len());
    assert("c"@ != "java"@);
    reveal_strlit("kt");
    assert("c"@.len() != "kt"@.len());
    assert("c"@ != "kt"@);
    reveal_strlit("kts");
    assert("c"@.len() != "kts"@.len());
    assert("c"@ != "kts"@);
}

proof fn lemma_ext_h()
    ensures
        language_of_ext("h"@) == Some("c"@),
{
    reveal_strlit("h");
    reveal_strlit("c");
    reveal_strlit("rs");
    assert("h"@.len() != "rs"@.len());
    assert("h"@ != "rs"@);
    reveal_strlit("ts");
    assert("h"@.len() != "ts"@.len());
    assert("h"@ != "ts"@);
    reveal_strlit("tsx");
    assert("h"@.len() != "tsx"@.len());
    assert("h"@ != "tsx"@);
    reveal_strlit("js");
    assert("h"@.len() != "js"@.len());
    assert("h"@ != "js"@);
    reveal_strlit("jsx");
    assert("h"@.len() != "jsx"@.len());
    assert("h"@ != "jsx"@);
    reveal_strlit("mjs");
    assert("h"@.len() != "mjs"@.len());
    assert("h"@ != "mjs"@);
    reveal_strlit("cjs");
    assert("h"@.len() != "cjs"@.len());
    assert("h"@ != "cjs"@);
    reveal_strlit("py");
    assert("h"@.len() != "py"@.len());
    assert("h"@ != "py"@);
    reveal_strlit("go");
    assert("h"@.len() != "go"@.len());
    assert("h"@ != "go"@);
    reveal_strlit("swift");
    assert("h"@.len() != "swift"@.len());
    assert("h"@ != "swift"@);
    reveal_strlit("php");
    assert("h"@.len() != "php"@.len());
    assert("h"@ != "php"@);
    reveal_strlit("rb");
    assert("h"@.len() != "rb"@.len());
    assert("h"@ != "rb"@);
    reveal_strlit("java");
    assert("h"@.len() != "java"@.len());
    assert("h"@ != "java"@);
    reveal_strlit("kt");
    assert("h"@.len() != "kt"@.len());
    assert("h"@ != "kt"@);
    reveal_strlit("kts");
    assert("h"@.len() != "kts"@.len());
    assert("h"@ != "kts"@);
    reveal_strlit("c");
    assert("h"@[0] != "c"@[0]);
    assert("h"@ != "c"@);
}

proof fn lemma_ext_cpp()
    ensures
        language_of_ext("cpp"@) == Some("cpp"@),
{
    reveal_strlit("cpp");
    reveal_strlit("cpp");
    reveal_strlit("rs");
    assert("cpp"@.len() != "rs"@.len());
    assert("cpp"@ != "rs"@);
    reveal_strlit("ts");
    assert("cpp"@.len() != "ts"@.len());
    assert("cpp"@ != "ts"@);
    reveal_strlit("tsx");
    assert("cpp"@[0] != "tsx"@[0]);
    assert("cpp"@ != "tsx"@);
    reveal_strlit("js");
    assert("cpp"@.len() != "js"@.len());
    assert("cpp"@ != "js"@);
    reveal_strlit("jsx");
    assert("cpp"@[0] != "jsx"@[0]);
    assert("cpp"@ != "jsx"@);
    reveal_strlit("mjs");
    assert("cpp"@[0] != "mjs"@[0]);
    assert("cpp"@ != "mjs"@);
    reveal_strlit("cjs");
    assert("cpp"@[1] != "cjs"@[1]);
    assert("cpp"@ != "cjs"@);
    reveal_strlit("py");
    assert("cpp"@.len() != "py"@.len());
    assert("cpp"@ != "py"@);
    reveal_strlit("go");
    assert("cpp"@.len() != "go"@.len());
    assert("cpp"@ != "go"@);
    reveal_strlit("swift");
    assert("cpp"@.len() != "swift"@.len());
    assert("cpp"@ != "swift"@);
    reveal_strlit("php");
    assert("cpp"@[0] != "php"@[0]);
    assert("cpp"@ != "php"@);
    reveal_strlit("rb");
    assert("cpp"@.len() != "rb"@.len());
    assert("cpp"@ != "rb"@);
    reveal_strlit("java");
    assert("cpp"@.len() != "java"@.len());
    assert("cpp"@ != "java"@);
    reveal_strlit("kt");
    assert("cpp"@.len() != "kt"@.len());
    assert("cpp"@ != "kt"@);
    reveal_strlit("kts");
    assert("cpp"@[0] != "kts"@[0]);
    assert("cpp"@ != "kts"@);
    reveal_strlit("c");
    assert("cpp"@.len() != "c"@.len());
    assert("cpp"@ != "c"@);
    reveal_strlit("h");
    assert("cpp"@.len() != "h"@.len());
    assert("cpp"@ != "h"@);
}

proof fn lemma_ext_cc()
    ensures
        language_of_ext("cc"@) == Some("cpp"@),
{
    reveal_strlit("cc");
    reveal_strlit("cpp");
    reveal_strlit("rs");
    assert("cc"@[0] != "rs"@[0]);
    assert("cc"@ != "rs"@);
    reveal_strlit("ts");
    assert("cc"@[0] != "ts"@[0]);
    assert("cc"@ != "ts"@);
    reveal_strlit("tsx");
    assert("cc"@.len() != "tsx"@.len());
    assert("cc"@ != "tsx"@);
    reveal_strlit("js");
    assert("cc"@[0] != "js"@[0]);
    assert("cc"@ != "js"@);
    reveal_strlit("jsx");
    assert("cc"@.len() != "jsx"@.len());
    assert("cc"@ != "jsx"@);
    reveal_strlit("mjs");
    assert("cc"@.len() != "mjs"@.len());
    assert("cc"@ != "mjs"@);
    reveal_strlit("cjs");
    assert("cc"@.len() != "cjs"@.len());
    assert("cc"@ != "cjs"@);
    reveal_strlit("py");
    assert("cc"@[0] != "py"@[0]);
    assert("cc"@ != "py"@);
    reveal_strlit("go");
    assert("cc"@[0] != "go"@[0]);
    assert("cc"@ != "go"@);
    reveal_strlit("swift");
    assert("cc"@.len() != "swift"@.len());
    assert("cc"@ != "swift"@);
    reveal_strlit("php");
    assert("cc"@.len() != "php"@.len());
    assert("cc"@ != "php"@);
    reveal_strlit("rb");
    assert("cc"@[0] != "rb"@[0]);
    assert("cc"@ != "rb"@);
    reveal_strlit("java");
    assert("cc"@.len() != "java"@.len());
    assert("cc"@ != "java"@);
    reveal_strlit("kt");
    assert("cc"@[0] != "kt"@[0]);
    assert("cc"@ != "kt"@);
    reveal_strlit("kts");
    assert("cc"@.len() != "kts"@.len());
    assert("cc"@ != "kts"@);
    reveal_strlit("c");
    assert("cc"@.len() != "c"@.len());
    assert("cc"@ != "c"@);
    reveal_strlit("h");
    assert("cc"@.len() != "h"@.len());
    assert("cc"@ != "h"@);
    reveal_strlit("cpp");
    assert("cc"@.len() != "cpp"@.len());
    assert("cc"@ != "cpp"@);
}

proof fn lemma_ext_cxx()
    ensures
        language_of_ext("cxx"@) == Some("cpp"@),
{
    reveal_strlit("cxx");
    reveal_strlit("cpp");
    reveal_strlit("rs");
    assert("cxx"@.len() != "rs"@.len());
    assert("cxx"@ != "rs"@);
    reveal_strlit("ts");
    assert("cxx"@.len() != "ts"@.len());
    assert("cxx"@ != "ts"@);
    reveal_strlit("tsx");
    assert("cxx"@[0] != "tsx"@[0]);
    assert("cxx"@ != "tsx"@);
    reveal_strlit("js");
    assert("cxx"@.len() != "js"@.len());
    assert("cxx"@ != "js"@);
    reveal_strlit("jsx");
    assert("cxx"@[0] != "jsx"@[0]);
    assert("cxx"@ != "jsx"@);
    reveal_strlit("mjs");
    assert("cxx"@[0] != "mjs"@[0]);
    assert("cxx"@ != "mjs"@);
    reveal_strlit("cjs");
    assert("cxx"@[1] != "cjs"@[1]);
    assert("cxx"@ != "cjs"@);
    reveal_strlit("py");
    assert("cxx"@.len() != "py"@.len());
    assert("cxx"@ != "py"@);
    reveal_strlit("go");
    assert("cxx"@.len() != "go"@.len());
    assert("cxx"@ != "go"@);
    reveal_strlit("swift");
    assert("cxx"@.len() != "swift"@.len());
    assert("cxx"@ != "swift"@);
    reveal_strlit("php");
    assert("cxx"@[0] != "php"@[0]);
    assert("cxx"@ != "php"@);
    reveal_strlit("rb");
    assert("cxx"@.len() != "rb"@.len());
    assert("cxx"@ != "rb"@);
    reveal_strlit("java");
    assert("cxx"@.len() != "java"@.len());
    assert("cxx"@ != "java"@);
    reveal_strlit("kt");
    assert("cxx"@.len() != "kt"@.len());
    assert("cxx"@ != "kt"@);
    reveal_strlit("kts");
    assert("cxx"@[0] != "kts"@[0]);
    assert("cxx"@ != "kts"@);
    reveal_strlit("c");
    assert("cxx"@.len() != "c"@.len());
    assert("cxx"@ != "c"@);
    reveal_strlit("h");
    assert("cxx"@.len() != "h"@.len());
    assert("cxx"@ != "h"@);
    reveal_strlit("cpp");
    assert("cxx"@[1] != "cpp"@[1]);
    assert("cxx"@ != "cpp"@);
    reveal_strlit("cc");
    assert("cxx"@.len() != "cc"@.len());
    assert("cxx"@ != "cc"@);
}

proof fn lemma_ext_c_plus_plus()
    ensures
        language_of_ext("c++"@) == Some("cpp"@),
{
    reveal_strlit("c++");
    reveal_strlit("cpp");
    reveal_strlit("rs");
    assert("c++"@.len() != "rs"@.len());
    assert("c++"@ != "rs"@);
    reveal_strlit("ts");
    assert("c++"@.len() != "ts"@.len());
    assert("c++"@ != "ts"@);
    reveal_strlit("tsx");
    assert("c++"@[0] != "tsx"@[0]);
    assert("c++"@ != "tsx"@);
    reveal_strlit("js");
    assert("c++"@.len() != "js"@.len());
    assert("c++"@ != "js"@);
    reveal_strlit("jsx");
    assert("c++"@[0] != "jsx"@[0]);
    assert("c++"@ != "jsx"@);
    reveal_strlit("mjs");
    assert("c++"@[0] != "mjs"@[0]);
    assert("c++"@ != "mjs"@);
    reveal_strlit("cjs");
    assert("c++"@[1] != "cjs"@[1]);
    assert("c++"@ != "cjs"@);
    reveal_strlit("py");
    assert("c++"@.len() != "py"@.len());
    assert("c++"@ != "py"@);
    reveal_strlit("go");
    assert("c++"@.len() != "go"@.len());
    assert("c++"@ != "go"@);
    reveal_strlit("swift");
    assert("c++"@.len() != "swift"@.len());
    assert("c++"@ != "swift"@);
    reveal_strlit("php");
    assert("c++"@[0] != "php"@[0]);
    assert("c++"@ != "php"@);
    reveal_strlit("rb");
    assert("c++"@.len() != "rb"@.len());
    assert("c++"@ != "rb"@);
    reveal_strlit("java");
    assert("c++"@.len() != "java"@.len());
    assert("c++"@ != "java"@);
    reveal_strlit("kt");
    assert("c++"@.len() != "kt"@.len());
    assert("c++"@ != "kt"@);
    reveal_strlit("kts");
    assert("c++"@[0] != "kts"@[0]);
    assert("c++"@ != "kts"@);
    reveal_strlit("c");
    assert("c++"@.len() != "c"@.len());
    assert("c++"@ != "c"@);
    reveal_strlit("h");
    assert("c++"@.len() != "h"@.len());
    assert("c++"@ != "h"@);
    reveal_strlit("cpp");
    assert("c++"@[1] != "cpp"@[1]);
    assert("c++"@ != "cpp"@);
    reveal_strlit("cc");
    assert("c++"@.len() != "cc"@.len());
    assert("c++"@ != "cc"@);
    reveal_strlit("cxx");
    assert("c++"@[1] != "cxx"@[1]);
    assert("c++"@ != "cxx"@);
}

proof fn lemma_ext_hpp()
    ensures
        language_of_ext("hpp"@) == Some("cpp"@),
{
    reveal_strlit("hpp");
    reveal_strlit("cpp");
    reveal_strlit("rs");
    assert("hpp"@.len() != "rs"@.len());
    assert("hpp"@ != "rs"@);
    reveal_strlit("ts");
    assert("hpp"@.len() != "ts"@.len());
    assert("hpp"@ != "ts"@);
    reveal_strlit("tsx");
    assert("hpp"@[0] != "tsx"@[0]);
    assert("hpp"@ != "tsx"@);
    reveal_strlit("js");
    assert("hpp"@.len() != "js"@.len());
    assert("hpp"@ != "js"@);
    reveal_strlit("jsx");
    assert("hpp"@[0] != "jsx"@[0]);
    assert("hpp"@ != "jsx"@);
    reveal_strlit("mjs");
    assert("hpp"@[0] != "mjs"@[0]);
    assert("hpp"@ != "mjs"@);
    reveal_strlit("cjs");
    assert("hpp"@[0] != "cjs"@[0]);
    assert("hpp"@ != "cjs"@);
    reveal_strlit("py");
    assert("hpp"@.len() != "py"@.len());
    assert("hpp"@ != "py"@);
    reveal_strlit("go");
    assert("hpp"@.len() != "go"@.len());
    assert("hpp"@ != "go"@);
    reveal_strlit("swift");
    assert("hpp"@.len() != "swift"@.len());
    assert("hpp"@ != "swift"@);
    reveal_strlit("php");
    assert("hpp"@[0] != "php"@[0]);
    assert("hpp"@ != "php"@);
    reveal_strlit("rb");
    assert("hpp"@.len() != "rb"@.len());
    assert("hpp"@ != "rb"@);
    reveal_strlit("java");
    assert("hpp"@.len() != "java"@.len());
    assert("hpp"@ != "java"@);
    reveal_strlit("kt");
    assert("hpp"@.len() != "kt"@.len());
    assert("hpp"@ != "kt"@);
    reveal_strlit("kts");
    assert("hpp"@[0] != "kts"@[0]);
    assert("hpp"@ != "kts"@);
    reveal_strlit("c");
    assert("hpp"@.len() != "c"@.len());
    assert("hpp"@ != "c"@);
    reveal_strlit("h");
    assert("hpp"@.len() != "h"@.len());
    assert("hpp"@ != "h"@);
    reveal_strlit("cpp");
    assert("hpp"@[0] != "cpp"@[0]);
    assert("hpp"@ != "cpp"@);
    reveal_strlit("cc");
    assert("hpp"@.len() != "cc"@.len());
    assert("hpp"@ != "cc"@);
    reveal_strlit("cxx");
    assert("hpp"@[0] != "cxx"@[0]);
    assert("hpp"@ != "cxx"@);
    reveal_strlit("c++");
    assert("hpp"@[0] != "c++"@[0]);
    assert("hpp"@ != "c++"@);
}

proof fn lemma_ext_hh()
    ensures
        language_of_ext("hh"@) == Some("cpp"@),
{
    reveal_strlit("hh");
    reveal_strlit("cpp");
    reveal_strlit("rs");
    assert("hh"@[0] != "rs"@[0]);
    assert("hh"@ != "rs"@);
    reveal_strlit("ts");
    assert("hh"@[0] != "ts"@[0]);
    assert("hh"@ != "ts"@);
    reveal_strlit("tsx");
    assert("hh"@.len() != "tsx"@.len());
    assert("hh"@ != "tsx"@);
    reveal_strlit("js");
    assert("hh"@[0] != "js"@[0]);
    assert("hh"@ != "js"@);
    reveal_strlit("jsx");
    assert("hh"@.len() != "jsx"@.len());
    assert("hh"@ != "jsx"@);
    reveal_strlit("mjs");
    assert("hh"@.len() != "mjs"@.len());
    assert("hh"@ != "mjs"@);
    reveal_strlit("cjs");
    assert("hh"@.len() != "cjs"@.len());
    assert("hh"@ != "cjs"@);
    reveal_strlit("py");
    assert("hh"@[0] != "py"@[0]);
    assert("hh"@ != "py"@);
    reveal_strlit("go");
    assert("hh"@[0] != "go"@[0]);
    assert("hh"@ != "go"@);
    reveal_strlit("swift");
    assert("hh"@.len() != "swift"@.len());
    assert("hh"@ != "swift"@);
    reveal_strlit("php");
    assert("hh"@.len() != "php"@.len());
    assert("hh"@ != "php"@);
    reveal_strlit("rb");
    assert("hh"@[0] != "rb"@[0]);
    assert("hh"@ != "rb"@);
    reveal_strlit("java");
    assert("hh"@.len() != "java"@.len());
    assert("hh"@ != "java"@);
    reveal_strlit("kt");
    assert("hh"@[0] != "kt"@[0]);
    assert("hh"@ != "kt"@);
    reveal_strlit("kts");
    assert("hh"@.len() != "kts"@.len());
    assert("hh"@ != "kts"@);
    reveal_strlit("c");
    assert("hh"@.len() != "c"@.len());
    assert("hh"@ != "c"@);
    reveal_strlit("h");
    assert("hh"@.len() != "h"@.len());
    assert("hh"@ != "h"@);
    reveal_strlit("cpp");
    assert("hh"@.len() != "cpp"@.len());
    assert("hh"@ != "cpp"@);
    reveal_strlit("cc");
    assert("hh"@[0] != "cc"@[0]);
    assert("hh"@ != "cc"@);
    reveal_strlit("cxx");
    assert("hh"@.len() != "cxx"@.len());
    assert("hh"@ != "cxx"@);
    reveal_strlit("c++");
    assert("hh"@.len() != "c++"@.len());
    assert("hh"@ != "c++"@);
    reveal_strlit("hpp");
    assert("hh"@.len() != "hpp"@.len());
    assert("hh"@ != "hpp"@);
}

proof fn lemma_ext_hxx()
    ensures
        language_of_ext("hxx"@) == Some("cpp"@),
{
    reveal_strlit("hxx");
    reveal_strlit("cpp");
    reveal_strlit("rs");
    assert("hxx"@.len() != "rs"@.len());
    assert("hxx"@ != "rs"@);
    reveal_strlit("ts");
    assert("hxx"@.len() != "ts"@.len());
    assert("hxx"@ != "ts"@);
    reveal_strlit("tsx");
    assert("hxx"@[0] != "tsx"@[0]);
    assert("hxx"@ != "tsx"@);
    reveal_strlit("js");
    assert("hxx"@.len() != "js"@.len());
    assert("hxx"@ != "js"@);
    reveal_strlit("jsx");
    assert("hxx"@[0] != "jsx"@[0]);
    assert("hxx"@ != "jsx"@);
    reveal_strlit("mjs");
    assert("hxx"@[0] != "mjs"@[0]);
    assert("hxx"@ != "mjs"@);
    reveal_strlit("cjs");
    assert("hxx"@[0] != "cjs"@[0]);
    assert("hxx"@ != "cjs"@);
    reveal_strlit("py");
    assert("hxx"@.len() != "py"@.len());
    assert("hxx"@ != "py"@);
    reveal_strlit("go");
    assert("hxx"@.len() != "go"@.len());
    assert("hxx"@ != "go"@);
    reveal_strlit("swift");
    assert("hxx"@.len() != "swift"@.len());
    assert("hxx"@ != "swift"@);
    reveal_strlit("php");
    assert("hxx"@[0] != "php"@[0]);
    assert("hxx"@ != "php"@);
    reveal_strlit("rb");
    assert("hxx"@.len() != "rb"@.len());
    assert("hxx"@ != "rb"@);
    reveal_strlit("java");
    assert("hxx"@.len() != "java"@.len());
    assert("hxx"@ != "java"@);
    reveal_strlit("kt");
    assert("hxx"@.len() != "kt"@.len());
    assert("hxx"@ != "kt"@);
    reveal_strlit("kts");
    assert("hxx"@[0] != "kts"@[0]);
    assert("hxx"@ != "kts"@);
    reveal_strlit("c");
    assert("hxx"@.len() != "c"@.len());
    assert("hxx"@ != "c"@);
    reveal_strlit("h");
    assert("hxx"@.len() != "h"@.len());
    assert("hxx"@ != "h"@);
    reveal_strlit("cpp");
    assert("hxx"@[0] != "cpp"@[0]);
    assert("hxx"@ != "cpp"@);
    reveal_strlit("cc");
    assert("hxx"@.len() != "cc"@.len());
    assert("hxx"@ != "cc"@);
    reveal_strlit("cxx");
    assert("hxx"@[0] != "cxx"@[0]);
    assert("hxx"@ != "cxx"@);
    reveal_strlit("c++");
    assert("hxx"@[0] != "c++"@[0]);
    assert("hxx"@ != "c++"@);
    reveal_strlit("hpp");
    assert("hxx"@[1] != "hpp"@[1]);
    assert("hxx"@ != "hpp"@);
    reveal_strlit("hh");
    assert("hxx"@.len() != "hh"@.len());
    assert("hxx"@ != "hh"@);
}

proof fn lemma_ext_cs()
    ensures
        language_of_ext("cs"@) == Some("csharp"@),
{
    reveal_strlit("cs");
    reveal_strlit("csharp");
    reveal_strlit("rs");
    assert("cs"@[0] != "rs"@[0]);
    assert("cs"@ != "rs"@);
    reveal_strlit("ts");
    assert("cs"@[0] != "ts"@[0]);
    assert("cs"@ != "ts"@);
    reveal_strlit("tsx");
    assert("cs"@.len() != "tsx"@.len());
    assert("cs"@ != "tsx"@);
    reveal_strlit("js");
    assert("cs"@[0] != "js"@[0]);
    assert("cs"@ != "js"@);
    reveal_strlit("jsx");
    assert("cs"@.len() != "jsx"@.len());
    assert("cs"@ != "jsx"@);
    reveal_strlit("mjs");
    assert("cs"@.len() != "mjs"@.len());
    assert("cs"@ != "mjs"@);
    reveal_strlit("cjs");
    assert("cs"@.len() != "cjs"@.len());
    assert("cs"@ != "cjs"@);
    reveal_strlit("py");
    assert("cs"@[0] != "py"@[0]);
    assert("cs"@ != "py"@);
    reveal_strlit("go");
    assert("cs"@[0] != "go"@[0]);
    assert("cs"@ != "go"@);
    reveal_strlit("swift");
    assert("cs"@.len() != "swift"@.len());
    assert("cs"@ != "swift"@);
    reveal_strlit("php");
    assert("cs"@.len() != "php"@.len());
    assert("cs"@ != "php"@);
    reveal_strlit("rb");
    assert("cs"@[0] != "rb"@[0]);
    assert("cs"@ != "rb"@);
    reveal_strlit("java");
    assert("cs"@.len() != "java"@.len());
    assert("cs"@ != "java"@);
    reveal_strlit("kt");
    assert("cs"@[0] != "kt"@[0]);
    assert("cs"@ != "kt"@);
    reveal_strlit("kts");
    assert("cs"@.len() != "kts"@.len());
    assert("cs"@ != "kts"@);
    reveal_strlit("c");
    assert("cs"@.len() != "c"@.len());
    assert("cs"@ != "c"@);
    reveal_strlit("h");
    assert("cs"@.len() != "h"@.len());
    assert("cs"@ != "h"@);
    reveal_strlit("cpp");
    assert("cs"@.len() != "cpp"@.len());
    assert("cs"@ != "cpp"@);
    reveal_strlit("cc");
    assert("cs"@[1] != "cc"@[1]);
    assert("cs"@ != "cc"@);
    reveal_strlit("cxx");
    assert("cs"@.len() != "cxx"@.len());
    assert("cs"@ != "cxx"@);
    reveal_strlit("c++");
    assert("cs"@.len() != "c++"@.len());
    assert("cs"@ != "c++"@);
    reveal_strlit("hpp");
    assert("cs"@.len() != "hpp"@.len());
    assert("cs"@ != "hpp"@);
    reveal_strlit("hh");
    assert("cs"@[0] != "hh"@[0]);
    assert("cs"@ != "hh"@);
    reveal_strlit("hxx");
    assert("cs"@.len() != "hxx"@.len());
    assert("cs"@ != "hxx"@);
}

proof fn lemma_ext_sh()
    ensures
        language_of_ext("sh"@) == Some("bash"@),
{
    reveal_strlit("sh");
    reveal_strlit("bash");
    reveal_strlit("rs");
    assert("sh"@[0] != "rs"@[0]);
    assert("sh"@ != "rs"@);
    reveal_strlit("ts");
    assert("sh"@[0] != "ts"@[0]);
    assert("sh"@ != "ts"@);
    reveal_strlit("tsx");
    assert("sh"@.len() != "tsx"@.len());
    assert("sh"@ != "tsx"@);
    reveal_strlit("js");
    assert("sh"@[0] != "js"@[0]);
    assert("sh"@ != "js"@);
    reveal_strlit("jsx");
    assert("sh"@.len() != "jsx"@.len());
    assert("sh"@ != "jsx"@);
    reveal_strlit("mjs");
    assert("sh"@.len() != "mjs"@.len());
    assert("sh"@ != "mjs"@);
    reveal_strlit("cjs");
    assert("sh"@.len() != "cjs"@.len());
    assert("sh"@ != "cjs"@);
    reveal_strlit("py");
    assert("sh"@[0] != "py"@[0]);
    assert("sh"@ != "py"@);
    reveal_strlit("go");
    assert("sh"@[0] != "go"@[0]);
    assert("sh"@ != "go"@);
    reveal_strlit("swift");
    assert("sh"@.len() != "swift"@.len());
    assert("sh"@ != "swift"@);
    reveal_strlit("php");
    assert("sh"@.len() != "php"@.len());
    assert("sh"@ != "php"@);
    reveal_strlit("rb");
    assert("sh"@[0] != "rb"@[0]);
    assert("sh"@ != "rb"@);
    reveal_strlit("java");
    assert("sh"@.len() != "java"@.len());
    assert("sh"@ != "java"@);
    reveal_strlit("kt");
    assert("sh"@[0] != "kt"@[0]);
    assert("sh"@ != "kt"@);
    reveal_strlit("kts");
    assert("sh"@.len() != "kts"@.len());
    assert("sh"@ != "kts"@);
    reveal_strlit("c");
    assert("sh"@.len() != "c"@.len());
    assert("sh"@ != "c"@);
    reveal_strlit("h");
    assert("sh"@.len() != "h"@.len());
    assert("sh"@ != "h"@);
    reveal_strlit("cpp");
    assert("sh"@.len() != "cpp"@.len());
    assert("sh"@ != "cpp"@);
    reveal_strlit("cc");
    assert("sh"@[0] != "cc"@[0]);
    assert("sh"@ != "cc"@);
    reveal_strlit("cxx");
    assert("sh"@.len() != "cxx"@.len());
    assert("sh"@ != "cxx"@);
    reveal_strlit("c++");
    assert("sh"@.len() != "c++"@.len());
    assert("sh"@ != "c++"@);
    reveal_strlit("hpp");
    assert("sh"@.len() != "hpp"@.len());
    assert("sh"@ != "hpp"@);
    reveal_strlit("hh");
    assert("sh"@[0] != "hh"@[0]);
    assert("sh"@ != "hh"@);
    reveal_strlit("hxx");
    assert("sh"@.len() != "hxx"@.len());
    assert("sh"@ != "hxx"@);
    reveal_strlit("cs");
    assert("sh"@[0] != "cs"@[0]);
    assert("sh"@ != "cs"@);
}

proof fn lemma_ext_bash()
    ensures
        language_of_ext("bash"@) == Some("bash"@),
{
    reveal_strlit("bash");
    reveal_strlit("bash");
    reveal_strlit("rs");
    assert("bash"@.len() != "rs"@.len());
    assert("bash"@ != "rs"@);
    reveal_strlit("ts");
    assert("bash"@.len() != "ts"@.len());
    assert("bash"@ != "ts"@);
    reveal_strlit("tsx");
    assert("bash"@.len() != "tsx"@.len());
    assert("bash"@ != "tsx"@);
    reveal_strlit("js");
    assert("bash"@.len() != "js"@.len());
    assert("bash"@ != "js"@);
    reveal_strlit("jsx");
    assert("bash"@.len() != "jsx"@.len());
    assert("bash"@ != "jsx"@);
    reveal_strlit("mjs");
    assert("bash"@.len() != "mjs"@.len());
    assert("bash"@ != "mjs"@);
    reveal_strlit("cjs");
    assert("bash"@.len() != "cjs"@.len());
    assert("bash"@ != "cjs"@);
    reveal_strlit("py");
    assert("bash"@.len() != "py"@.len());
    assert("bash"@ != "py"@);
    reveal_strlit("go");
    assert("bash"@.len() != "go"@.len());
    assert("bash"@ != "go"@);
    reveal_strlit("swift");
    assert("bash"@.len() != "swift"@.len());
    assert("bash"@ != "swift"@);
    reveal_strlit("php");
    assert("bash"@.len() != "php"@.len());
    assert("bash"@ != "php"@);
    reveal_strlit("rb");
    assert("bash"@.len() != "rb"@.len());
    assert("bash"@ != "rb"@);
    reveal_strlit("java");
    assert("bash"@[0] != "java"@[0]);
    assert("bash"@ != "java"@);
    reveal_strlit("kt");
    assert("bash"@.len() != "kt"@.len());
    assert("bash"@ != "kt"@);
    reveal_strlit("kts");
    assert("bash"@.len() != "kts"@.len());
    assert("bash"@ != "kts"@);
    reveal_strlit("c");
    assert("bash"@.len() != "c"@.len());
    assert("bash"@ != "c"@);
    reveal_strlit("h");
    assert("bash"@.len() != "h"@.len());
    assert("bash"@ != "h"@);
    reveal_strlit("cpp");
    assert("bash"@.len() != "cpp"@.len());
    assert("bash"@ != "cpp"@);
    reveal_strlit("cc");
    assert("bash"@.len() != "cc"@.len());
    assert("bash"@ != "cc"@);
    reveal_strlit("cxx");
    assert("bash"@.len() != "cxx"@.len());
    assert("bash"@ != "cxx"@);
    reveal_strlit("c++");
    assert("bash"@.len() != "c++"@.len());
    assert("bash"@ != "c++"@);
    reveal_strlit("hpp");
    assert("bash"@.len() != "hpp"@.len());
    assert("bash"@ != "hpp"@);
    reveal_strlit("hh");
    assert("bash"@.len() != "hh"@.len());
    assert("bash"@ != "hh"@);
    reveal_strlit("hxx");
    assert("bash"@.len() != "hxx"@.len());
    assert("bash"@ != "hxx"@);
    reveal_strlit("cs");
    assert("bash"@.len() != "cs"@.len());
    assert("bash"@ != "cs"@);
    reveal_strlit("sh");
    assert("bash"@.len() != "sh"@.len());
    assert("bash"@ != "sh"@);
}

proof fn lemma_ext_html()
    ensures
        language_of_ext("html"@) == Some("html"@),
{
    reveal_strlit("html");
    reveal_strlit("html");
    reveal_strlit("rs");
    assert("html"@.len() != "rs"@.len());
    assert("html"@ != "rs"@);
    reveal_strlit("ts");
    assert("html"@.len() != "ts"@.len());
    assert("html"@ != "ts"@);
    reveal_strlit("tsx");
    assert("html"@.len() != "tsx"@.len());
    assert("html"@ != "tsx"@);
    reveal_strlit("js");
    assert("html"@.len() != "js"@.len());
    assert("html"@ != "js"@);
    reveal_strlit("jsx");
    assert("html"@.len() != "jsx"@.len());
    assert("html"@ != "jsx"@);
    reveal_strlit("mjs");
    assert("html"@.len() != "mjs"@.len());
    assert("html"@ != "mjs"@);
    reveal_strlit("cjs");
    assert("html"@.len() != "cjs"@.len());
    assert("html"@ != "cjs"@);
    reveal_strlit("py");
    assert("html"@.len() != "py"@.len());
    assert("html"@ != "py"@);
    reveal_strlit("go");
    assert("html"@.len() != "go"@.len());
    assert("html"@ != "go"@);
    reveal_strlit("swift");
    assert("html"@.len() != "swift"@.len());
    assert("html"@ != "swift"@);
    reveal_strlit("php");
    assert("html"@.len() != "php"@.len());
    assert("html"@ != "php"@);
    reveal_strlit("rb");
    assert("html"@.len() != "rb"@.len());
    assert("html"@ != "rb"@);
    reveal_strlit("java");
    assert("html"@[0] != "java"@[0]);
    assert("html"@ != "java"@);
    reveal_strlit("kt");
    assert("html"@.len() != "kt"@.len());
    assert("html"@ != "kt"@);
    reveal_strlit("kts");
    assert("html"@.len() != "kts"@.len());
    assert("html"@ != "kts"@);
    reveal_strlit("c");
    assert("html"@.len() != "c"@.len());
    assert("html"@ != "c"@);
    reveal_strlit("h");
    assert("html"@.len() != "h"@.len());
    assert("html"@ != "h"@);
    reveal_strlit("cpp");
    assert("html"@.len() != "cpp"@.len());
    assert("html"@ != "cpp"@);
    reveal_strlit("cc");
    assert("html"@.len() != "cc"@.len());
    assert("html"@ != "cc"@);
    reveal_strlit("cxx");
    assert("html"@.len() != "cxx"@.len());
    assert("html"@ != "cxx"@);
    reveal_strlit("c++");
    assert("html"@.len() != "c++"@.len());
    assert("html"@ != "c++"@);
    reveal_strlit("hpp");
    assert("html"@.len() != "hpp"@.len());
    assert("html"@ != "hpp"@);
    reveal_strlit("hh");
    assert("html"@.len() != "hh"@.len());
    assert("html"@ != "hh"@);
    reveal_strlit("hxx");
    assert("html"@.len() != "hxx"@.len());
    assert("html"@ != "hxx"@);
    reveal_strlit("cs");
    assert("html"@.len() != "cs"@.len());
    assert("html"@ != "cs"@);
    reveal_strlit("sh");
    assert("html"@.len() != "sh"@.len());
    assert("html"@ != "sh"@);
    reveal_strlit("bash");
    assert("html"@[0] != "bash"@[0]);
    assert("html"@ != "bash"@);
}

proof fn lemma_ext_htm()
    ensures
        language_of_ext("htm"@) == Some("html"@),
{
    reveal_strlit("htm");
    reveal_strlit("html");
    reveal_strlit("rs");
    assert("htm"@.len() != "rs"@.len());
    assert("htm"@ != "rs"@);
    reveal_strlit("ts");
    assert("htm"@.len() != "ts"@.len());
    assert("htm"@ != "ts"@);
    reveal_strlit("tsx");
    assert("htm"@[0] != "tsx"@[0]);
    assert("htm"@ != "tsx"@);
    reveal_strlit("js");
    assert("htm"@.len() != "js"@.len());
    assert("htm"@ != "js"@);
    reveal_strlit("jsx");
    assert("htm"@[0] != "jsx"@[0]);
    assert("htm"@ != "jsx"@);
    reveal_strlit("mjs");
    assert("htm"@[0] != "mjs"@[0]);
    assert("htm"@ != "mjs"@);
    reveal_strlit("cjs");
    assert("htm"@[0] != "cjs"@[0]);
    assert("htm"@ != "cjs"@);
    reveal_strlit("py");
    assert("htm"@.len() != "py"@.len());
    assert("htm"@ != "py"@);
    reveal_strlit("go");
    assert("htm"@.len() != "go"@.len());
    assert("htm"@ != "go"@);
    reveal_strlit("swift");
    assert("htm"@.len() != "swift"@.len());
    assert("htm"@ != "swift"@);
    reveal_strlit("php");
    assert("htm"@[0] != "php"@[0]);
    assert("htm"@ != "php"@);
    reveal_strlit("rb");
    assert("htm"@.len() != "rb"@.len());
    assert("htm"@ != "rb"@);
    reveal_strlit("java");
    assert("htm"@.len() != "java"@.len());
    assert("htm"@ != "java"@);
    reveal_strlit("kt");
    assert("htm"@.len() != "kt"@.len());
    assert("htm"@ != "kt"@);
    reveal_strlit("kts");
    assert("htm"@[0] != "kts"@[0]);
    assert("htm"@ != "kts"@);
    reveal_strlit("c");
    assert("htm"@.len() != "c"@.len());
    assert("htm"@ != "c"@);
    reveal_strlit("h");
    assert("htm"@.len() != "h"@.len());
    assert("htm"@ != "h"@);
    reveal_strlit("cpp");
    assert("htm"@[0] != "cpp"@[0]);
    assert("htm"@ != "cpp"@);
    reveal_strlit("cc");
    assert("htm"@.len() != "cc"@.len());
    assert("htm"@ != "cc"@);
    reveal_strlit("cxx");
    assert("htm"@[0] != "cxx"@[0]);
    assert("htm"@ != "cxx"@);
    reveal_strlit("c++");
    assert("htm"@[0] != "c++"@[0]);
    assert("htm"@ != "c++"@);
    reveal_strlit("hpp");
    assert("htm"@[1] != "hpp"@[1]);
    assert("htm"@ != "hpp"@);
    reveal_strlit("hh");
    assert("htm"@.len() != "hh"@.len());
    assert("htm"@ != "hh"@);
    reveal_strlit("hxx");
    assert("htm"@[1] != "hxx"@[1]);
    assert("htm"@ != "hxx"@);
    reveal_strlit("cs");
    assert("htm"@.len() != "cs"@.len());
    assert("htm"@ != "cs"@);
    reveal_strlit("sh");
    assert("htm"@.len() != "sh"@.len());
    assert("htm"@ != "sh"@);
    reveal_strlit("bash");
    assert("htm"@.len() != "bash"@.len());
    assert("htm"@ != "bash"@);
    reveal_strlit("html");
    assert("htm"@.len() != "html"@.len());
    assert("htm"@ != "html"@);
}

proof fn lemma_ext_css()
    ensures
        language_of_ext("css"@) == Some("css"@),
{
    reveal_strlit("css");
    reveal_strlit("css");
    reveal_strlit("rs");
    assert("css"@.len() != "rs"@.len());
    assert("css"@ != "rs"@);
    reveal_strlit("ts");
    assert("css"@.len() != "ts"@.len());
    assert("css"@ != "ts"@);
    reveal_strlit("tsx");
    assert("css"@[0] != "tsx"@[0]);
    assert("css"@ != "tsx"@);
    reveal_strlit("js");
    assert("css"@.len() != "js"@.len());
    assert("css"@ != "js"@);
    reveal_strlit("jsx");
    assert("css"@[0] != "jsx"@[0]);
    assert("css"@ != "jsx"@);
    reveal_strlit("mjs");
    assert("css"@[0] != "mjs"@[0]);
    assert("css"@ != "mjs"@);
    reveal_strlit("cjs");
    assert("css"@[1] != "cjs"@[1]);
    assert("css"@ != "cjs"@);
    reveal_strlit("py");
    assert("css"@.len() != "py"@.len());
    assert("css"@ != "py"@);
    reveal_strlit("go");
    assert("css"@.len() != "go"@.len());
    assert("css"@ != "go"@);
    reveal_strlit("swift");
    assert("css"@.len() != "swift"@.len());
    assert("css"@ != "swift"@);
    reveal_strlit("php");
    assert("css"@[0] != "php"@[0]);
    assert("css"@ != "php"@);
    reveal_strlit("rb");
    assert("css"@.len() != "rb"@.len());
    assert("css"@ != "rb"@);
    reveal_strlit("java");
    assert("css"@.len() != "java"@.len());
    assert("css"@ != "java"@);
    reveal_strlit("kt");
    assert("css"@.len() != "kt"@.len());
    assert("css"@ != "kt"@);
    reveal_strlit("kts");
    assert("css"@[0] != "kts"@[0]);
    assert("css"@ != "kts"@);
    reveal_strlit("c");
    assert("css"@.len() != "c"@.len());
    assert("css"@ != "c"@);
    reveal_strlit("h");
    assert("css"@.len() != "h"@.len());
    assert("css"@ != "h"@);
    reveal_strlit("cpp");
    assert("css"@[1] != "cpp"@[1]);
    assert("css"@ != "cpp"@);
    reveal_strlit("cc");
    assert("css"@.len() != "cc"@.len());
    assert("css"@ != "cc"@);
    reveal_strlit("cxx");
    assert("css"@[1] != "cxx"@[1]);
    assert("css"@ != "cxx"@);
    reveal_strlit("c++");
    assert("css"@[1] != "c++"@[1]);
    assert("css"@ != "c++"@);
    reveal_strlit("hpp");
    assert("css"@[0] != "hpp"@[0]);
    assert("css"@ != "hpp"@);
    reveal_strlit("hh");
    assert("css"@.len() != "hh"@.len());
    assert("css"@ != "hh"@);
    reveal_strlit("hxx");
    assert("css"@[0] != "hxx"@[0]);
    assert("css"@ != "hxx"@);
    reveal_strlit("cs");
    assert("css"@.len() != "cs"@.len());
    assert("css"@ != "cs"@);
    reveal_strlit("sh");
    assert("css"@.len() != "sh"@.len());
    assert("css"@ != "sh"@);
    reveal_strlit("bash");
    assert("css"@.len() != "bash"@.len());
    assert("css"@ != "bash"@);
    reveal_strlit("html");
    assert("css"@.len() != "html"@.len());
    assert("css"@ != "html"@);
    reveal_strlit("htm");
    assert("css"@[0] != "htm"@[0]);
    assert("css"@ != "htm"@);
}

proof fn lemma_ext_kt()
    ensures
        language_of_ext("kt"@) == Some("kotlin"@),
{
    reveal_strlit("kt");
    reveal_strlit("kotlin");
    reveal_strlit("rs");
    assert("kt"@[0] != "rs"@[0]);
    assert("kt"@ != "rs"@);
    reveal_strlit("ts");
    assert("kt"@[0] != "ts"@[0]);
    assert("kt"@ != "ts"@);
    reveal_strlit("tsx");
    assert("kt"@.len() != "tsx"@.len());
    assert("kt"@ != "tsx"@);
    reveal_strlit("js");
    assert("kt"@[0] != "js"@[0]);
    assert("kt"@ != "js"@);
    reveal_strlit("jsx");
    assert("kt"@.len() != "jsx"@.len());
    assert("kt"@ != "jsx"@);
    reveal_strlit("mjs");
    assert("kt"@.len() != "mjs"@.len());
    assert("kt"@ != "mjs"@);
    reveal_strlit("cjs");
    assert("kt"@.len() != "cjs"@.len());
    assert("kt"@ != "cjs"@);
    reveal_strlit("py");
    assert("kt"@[0] != "py"@[0]);
    assert("kt"@ != "py"@);
    reveal_strlit("go");
    assert("kt"@[0] != "go"@[0]);
    assert("kt"@ != "go"@);
    reveal_strlit("swift");
    assert("kt"@.len() != "swift"@.len());
    assert("kt"@ != "swift"@);
    reveal_strlit("php");
    assert("kt"@.len() != "php"@.len());
    assert("kt"@ != "php"@);
    reveal_strlit("rb");
    assert("kt"@[0] != "rb"@[0]);
    assert("kt"@ != "rb"@);
    reveal_strlit("java");
    assert("kt"@.len() != "java"@.len());
    assert("kt"@ != "java"@);
}

proof fn lemma_ext_kts()
    ensures
        language_of_ext("kts"@) == Some("kotlin"@),
{
    reveal_strlit("kts");
    reveal_strlit("kotlin");
    reveal_strlit("rs");
    assert("kts"@.len() != "rs"@.len());
    assert("kts"@ != "rs"@);
    reveal_strlit("ts");
    assert("kts"@.len() != "ts"@.len());
    assert("kts"@ != "ts"@);
    reveal_strlit("tsx");
    assert("kts"@[0] != "tsx"@[0]);
    assert("kts"@ != "tsx"@);
    reveal_strlit("js");
    assert("kts"@.len() != "js"@.len());
    assert("kts"@ != "js"@);
    reveal_strlit("jsx");
    assert("kts"@[0] != "jsx"@[0]);
    assert("kts"@ != "jsx"@);
    reveal_strlit("mjs");
    assert("kts"@[0] != "mjs"@[0]);
    assert("kts"@ != "mjs"@);
    reveal_strlit("cjs");
    assert("kts"@[0] != "cjs"@[0]);
    assert("kts"@ != "cjs"@);
    reveal_strlit("py");
    assert("kts"@.len() != "py"@.len());
    assert("kts"@ != "py"@);
    reveal_strlit("go");
    assert("kts"@.len() != "go"@.len());
    assert("kts"@ != "go"@);
    reveal_strlit("swift");
    assert("kts"@.len() != "swift"@.len());
    assert("kts"@ != "swift"@);
    reveal_strlit("php");
    assert("kts"@[0] != "php"@[0]);
    assert("kts"@ != "php"@);
    reveal_strlit("rb");
    assert("kts"@.len() != "rb"@.len());
    assert("kts"@ != "rb"@);
    reveal_strlit("java");
    assert("kts"@.len() != "java"@.len());
    assert("kts"@ != "java"@);
    reveal_strlit("kt");
    assert("kts"@.len() != "kt"@.len());
    assert("kts"@ != "kt"@);
}


/// The source files the ingest reads: each extension of the fifteen
/// languages with a grammar maps to its language (`.py` to `python`, `.h`
/// to `c`, `.tsx` to `typescript`, ...), Kotlin's to `kotlin`, and any
/// language an extension maps to is one of those.
pub proof fn lemma_source_extensions(ext: Seq<char>)
    ensures
        language_of_ext("rs"@) == Some("rust"@),
        language_of_ext("ts"@) == Some("typescript"@),
        language_of_ext("tsx"@) == Some("typescript"@),
        language_of_ext("js"@) == Some("javascript"@),
        language_of_ext("jsx"@) == Some("javascript"@),
        language_of_ext("mjs"@) == Some("javascript"@),
        language_of_ext("cjs"@) == Some("javascript"@),
        language_of_ext("py"@) == Some("python"@),
        language_of_ext("go"@) == Some("go"@),
        language_of_ext("swift"@) == Some("swift"@),
        language_of_ext("php"@) == Some("php"@),
        language_of_ext("rb"@) == Some("ruby"@),
        language_of_ext("java"@) == Some("java"@),
        language_of_ext("c"@) == Some("c"@),
        language_of_ext("h"@) == Some("c"@),
        language_of_ext("cpp"@) == Some("cpp"@),
        language_of_ext("cc"@) == Some("cpp"@),
        language_of_ext("cxx"@) == Some("cpp"@),
        language_of_ext("c++"@) == Some("cpp"@),
        language_of_ext("hpp"@) == Some("cpp"@),
        language_of_ext("hh"@) == Some("cpp"@),
        language_of_ext("hxx"@) == Some("cpp"@),
        language_of_ext("cs"@) == Some("csharp"@),
        language_of_ext("sh"@) == Some("bash"@),
        language_of_ext("bash"@) == Some("bash"@),
        language_of_ext("html"@) == Some("html"@),
        language_of_ext("htm"@) == Some("html"@),
        language_of_ext("css"@) == Some("css"@),
        language_of_ext("kt"@) == Some("kotlin"@),
        language_of_ext("kts"@) == Some("kotlin"@),
        language_of_ext(ext) matches Some(l) ==> crate::parse::has_grammar(l) || l == "kotlin"@,
{
    lemma_ext_rs();
    lemma_ext_ts();
    lemma_ext_tsx();
    lemma_ext_js();
    lemma_ext_jsx();
    lemma_ext_mjs();
    lemma_ext_cjs();
    lemma_ext_py();
    lemma_ext_go();
    lemma_ext_swift();
    lemma_ext_php();
    lemma_ext_rb();
    lemma_ext_java();
    lemma_ext_c();
    lemma_ext_h();
    lemma_ext_cpp();
    lemma_ext_cc();
    lemma_ext_cxx();
    lemma_ext_c_plus_plus();
    lemma_ext_hpp();
    lemma_ext_hh();
    lemma_ext_hxx();
    lemma_ext_cs();
    lemma_ext_sh();
    lemma_ext_bash();
    lemma_ext_html();
    lemma_ext_htm();
    lemma_ext_css();
    lemma_ext_kt();
    lemma_ext_kts();
    reveal_strlit("rust");
    reveal_strlit("typescript");
    reveal_strlit("javascript");
    reveal_strlit("python");
    reveal_strlit("go");
    reveal_strlit("swift");
    reveal_strlit("php");
    reveal_strlit("ruby");
    reveal_strlit("java");
    reveal_strlit("c");
    reveal_strlit("cpp");
    reveal_strlit("csharp");
    reveal_strlit("bash");
    reveal_strlit("html");
    reveal_strlit("css");
    reveal_strlit("kotlin");
}


/// The language of a source file with this extension, if it is one the
/// ingest reads. Fifteen languages have a grammar (see `has_grammar`);
/// files in any other language are skipped.
pub fn detect_language(ext: &str) -> (r: Option<String>)
    ensures
        match language_of_ext(ext@) {
            Some(l) => r matches Some(s) && s@ == l,
            None => r is None,
        },
{
    let e = chars_of(ext);
    let lang: &str = if is_literal(e.as_slice(), "rs") {
        "rust"
    } else if is_literal(e.as_slice(), "ts") {
        "typescript"
    } else if is_literal(e.as_slice(), "tsx") {
        "typescript"
    } else if is_literal(e.as_slice(), "js") {
        "javascript"
    } else if is_literal(e.as_slice(), "jsx") {
        "javascript"
    } else if is_literal(e.as_slice(), "mjs") {
        "javascript"
    } else if is_literal(e.as_slice(), "cjs") {
        "javascript"
    } else if is_literal(e.as_slice(), "py") {
        "python"
    } else if is_literal(e.as_slice(), "go") {
        "go"
    } else if is_literal(e.as_slice(), "swift") {
        "swift"
    } else if is_literal(e.as_slice(), "php") {
        "php"
    } else if is_literal(e.as_slice(), "rb") {
        "ruby"
    } else if is_literal(e.as_slice(), "java") {
        "java"
    } else if is_literal(e.as_slice(), "kt") {
        "kotlin"
    } else if is_literal(e.as_slice(), "kts") {
        "kotlin"
    } else if is_literal(e.as_slice(), "c") {
        "c"
    } else if is_literal(e.as_slice(), "h") {
        "c"
    } else if is_literal(e.as_slice(), "cpp") {
        "cpp"
    } else if is_literal(e.as_slice(), "cc") {
        "cpp"
    } else if is_literal(e.as_slice(), "cxx") {
        "cpp"
    } else if is_literal(e.as_slice(), "c++") {
        "cpp"
    } else if is_literal(e.as_slice(), "hpp") {
        "cpp"
    } else if is_literal(e.as_slice(), "hh") {
        "cpp"
    } else if is_literal(e.as_slice(), "hxx") {
        "cpp"
    } else if is_literal(e.as_slice(), "cs") {
        "csharp"
    } else if is_literal(e.as_slice(), "sh") {
        "bash"
    } else if is_literal(e.as_slice(), "bash") {
        "bash"
    } else if is_literal(e.as_slice(), "html") {
        "html"
    } else if is_literal(e.as_slice(), "htm") {
        "html"
    } else if is_literal(e.as_slice(), "css") {
        "css"
    } else {
        return None;
    };
    Some(lang.to_owned())
}


/// The position of the last `c` in `s`, or -1.
pub open spec fn last_index_of(s: Seq<char>, c: char) -> int
    decreases s.len(),
{
    if s.len() == 0 {
        -1
    } else if s.last() == c {
        s.len() - 1
    } else {
        last_index_of(s.drop_last(), c)
    }
}

pub proof fn lemma_last_index_of(s: Seq<char>, c: char)
    ensures
        -1 <= last_index_of(s, c) < s.len(),
        last_index_of(s, c) >= 0 ==> s[last_index_of(s, c)] == c,
        forall|j: int| last_index_of(s, c) < j < s.len() ==> s[j] != c,
    decreases s.len(),
{
    if s.len() > 0 && s.last() != c {
        lemma_last_index_of(s.drop_last(), c);
        assert forall|j: int| last_index_of(s, c) < j < s.len() implies s[j] != c by {
            if j < s.len() - 1 {
                assert(s.drop_last()[j] == s[j]);
            }
        }
    }
}

/// A file name split as `Path::file_stem` and `Path::extension` split it: at
/// the last dot, unless the name is `..`, has no dot, or its only leading
/// part before the last dot is empty.
pub open spec fn stem_and_extension(name: Seq<char>) -> (Seq<char>, Option<Seq<char>>) {
    let k = last_index_of(name, '.');
    if name == ".."@ || k <= 0 {
        (name, None)
    } else {
        (name.take(k), Some(name.skip(k + 1)))
    }
}

/// The stem and the extension of a file name.
pub fn split_extension(name: &str) -> (r: (String, Option<String>))
    ensures
        r.0@ == stem_and_extension(name@).0,
        match stem_and_extension(name@).1 {
            Some(e) => r.1 matches Some(x) && x@ == e,
            None => r.1 is None,
        },
{
    let n = chars_of(name);
    if is_literal(n.as_slice(), "..") {
        return (name.to_owned(), None);
    }
    match crate::text::find_last_char(n.as_slice(), '.') {
        Some(k) => {
            if k == 0 {
                (name.to_owned(), None)
            } else {
                proof {
                    lemma_last_index_of(n@, '.');
                }
                let len = n.len();
                assert(k < len);
                let stem = crate::project::tail_take(n.as_slice(), k);
                let ext = crate::project::tail(n.as_slice(), k + 1);
                (string_of(stem.as_slice()), Some(string_of(ext.as_slice())))
            }
        },
        None => (name.to_owned(), None),
    }
}

/// Strips `p` from the front of `s` as often as it is there
/// (`str::trim_start_matches` with a text pattern).
pub open spec fn strip_all(s: Seq<char>, p: Seq<char>) -> Seq<char>
    decreases s.len(),
{
    if p.len() > 0 && starts_with(s, p) {
        strip_all(s.skip(p.len() as int), p)
    } else {
        s
    }
}

fn strip_all_chars(s: &[char], p: &[char]) -> (r: Vec<char>)
    ensures
        r@ == strip_all(s@, p@),
{
    if p.len() == 0 {
        return crate::text::copy_chars(s);
    }
    let mut k: usize = 0;
    assert(s@.skip(0) == s@);
    while p.len() <= s.len() - k && crate::text::matches_at(s, p, k)
        invariant
            k <= s@.len(),
            p@.len() > 0,
            strip_all(s@, p@) == strip_all(s@.skip(k as int), p@),
        decreases s@.len() - k,
    {
        proof {
            assert(s@.skip(k as int).take(p@.len() as int) == s@.subrange(k as int, k + p@.len()));
            assert(s@.skip(k as int).skip(p@.len() as int) == s@.skip(k + p@.len()));
        }
        k += p.len();
    }
    proof {
        if k + p@.len() <= s@.len() {
            assert(s@.skip(k as int).take(p@.len() as int) == s@.subrange(k as int, k + p@.len()));
        }
    }
    crate::project::tail(s, k)
}

/// The first `n` characters of `s`, or all of them.
pub open spec fn take_chars(s: Seq<char>, n: nat) -> Seq<char> {
    if s.len() <= n {
        s
    } else {
        s.take(n as int)
    }
}

/// The label a code node shows: the first line of the chunk's first line,
/// trimmed, without leading comment marks, at most sixty characters.
pub open spec fn label_of(hint: Seq<char>) -> Seq<char> {
    let t = trim(hint, TrimSet::Whitespace);
    if t.len() == 0 {
        "(anon)"@
    } else {
        let first = if lines(t).len() > 0 {
            lines(t)[0]
        } else {
            t
        };
        let cleaned = trim(
            strip_all(
                strip_all(
                    strip_all(strip_all(strip_all(first, "//"@), "#"@), "/*"@),
                    "*"@,
                ),
                "/**"@,
            ),
            TrimSet::Whitespace,
        );
        if cleaned.len() == 0 {
            take_chars(first, 60)
        } else {
            take_chars(cleaned, 60)
        }
    }
}

fn take_prefix(s: &[char], n: usize) -> (r: Vec<char>)
    ensures
        r@ == take_chars(s@, n as nat),
{
    if s.len() <= n {
        crate::text::copy_chars(s)
    } else {
        crate::project::tail_take(s, n)
    }
}

/// The label of a code node (see `label_of`).
pub fn derive_label(content_hint: &str) -> (r: String)
    ensures
        r@ == label_of(content_hint@),
{
    let c = chars_of(content_hint);
    let t = trim_chars(c.as_slice(), TrimSet::Whitespace);
    if t.len() == 0 {
        return "(anon)".to_owned();
    }
    let ls = split_lines(t.as_slice());
    let first: Vec<char> = if ls.len() > 0 {
        crate::text::copy_chars(ls[0].as_slice())
    } else {
        crate::text::copy_chars(t.as_slice())
    };
    let a = strip_all_chars(first.as_slice(), chars_of("//").as_slice());
    let b = strip_all_chars(a.as_slice(), chars_of("#").as_slice());
    let d = strip_all_chars(b.as_slice(), chars_of("/*").as_slice());
    let e = strip_all_chars(d.as_slice(), chars_of("*").as_slice());
    let f = strip_all_chars(e.as_slice(), chars_of("/**").as_slice());
    let cleaned = trim_chars(f.as_slice(), TrimSet::Whitespace);
    let out = if cleaned.len() == 0 {
        take_prefix(first.as_slice(), 60)
    } else {
        take_prefix(cleaned.as_slice(), 60)
    };
    string_of(out.as_slice())
}

/// The kind a code node is drawn as, guessed from its first line.
pub open spec fn node_kind(hint: Seq<char>) -> Seq<char> {
    if contains_seq(hint, "class"@) || contains_seq(hint, "Class"@) {
        "class"@
    } else if contains_seq(hint, "struct"@) || contains_seq(hint, "Struct"@) {
        "struct"@
    } else {
        "function"@
    }
}

/// The kind of a code node (see `node_kind`).
pub fn node_kind_of(hint: &str) -> (k: String)
    ensures
        k@ == node_kind(hint@),
{
    let h = chars_of(hint);
    if contains_chars(h.as_slice(), chars_of("class").as_slice()) || contains_chars(
        h.as_slice(),
        chars_of("Class").as_slice(),
    ) {
        "class".to_owned()
    } else if contains_chars(h.as_slice(), chars_of("struct").as_slice()) || contains_chars(
        h.as_slice(),
        chars_of("Struct").as_slice(),
    ) {
        "struct".to_owned()
    } else {
        "function".to_owned()
    }
}


/// A node that a grammar's query captured: its kind, its first and last
/// row (counted from zero) and its text.
pub struct Capture {
    pub kind: String,
    pub start_row: usize,
    pub end_row: usize,
    pub text: String,
}

/// A stretch of a file that becomes one memory.
pub struct Chunk {
    pub code: String,
    pub start_line: usize,
    pub end_line: usize,
}

/// The longest a chunk runs past its first line.
pub const MAX_CHUNK_ROWS: usize = 200;

/// The node kinds that make a chunk: functions, types, classes, methods and
/// the like, in the grammars the ingest knows.
pub open spec fn is_chunk_kind(k: Seq<char>) -> bool {
    k == "function_item"@ || k == "struct_item"@ || k == "enum_item"@ || k == "trait_item"@ || k == "impl_item"@ || k == "function_declaration"@ || k == "class_declaration"@ || k == "method_definition"@ || k == "interface_declaration"@ || k == "type_alias_declaration"@ || k == "export_statement"@ || k == "function_definition"@ || k == "class_definition"@ || k == "method_declaration"@ || k == "type_declaration"@
}

pub fn chunk_kind_exec(k: &[char]) -> (b: bool)
    ensures
        b == is_chunk_kind(k@),
{
    is_literal(k, "function_item") || is_literal(k, "struct_item") || is_literal(k, "enum_item") || is_literal(k, "trait_item") || is_literal(k, "impl_item") || is_literal(k, "function_declaration") || is_literal(k, "class_declaration") || is_literal(k, "method_definition") || is_literal(k, "interface_declaration") || is_literal(k, "type_alias_declaration") || is_literal(k, "export_statement") || is_literal(k, "function_definition") || is_literal(k, "class_definition") || is_literal(k, "method_declaration") || is_literal(k, "type_declaration")
}

/// The last row a captured node's chunk covers: its own last row, at most
/// two hundred rows after its first, and not past the file's last line.
pub open spec fn chunk_end(c: Capture, n_lines: int) -> int {
    let a = if c.end_row - c.start_row > MAX_CHUNK_ROWS {
        c.start_row + MAX_CHUNK_ROWS
    } else {
        c.end_row as int
    };
    if a > n_lines - 1 {
        n_lines - 1
    } else {
        a
    }
}

/// The chunks made from the captures in order: captures of other kinds are
/// passed over, and a capture whose line span was already taken is dropped.
pub open spec fn chunk_state(ls: Seq<Seq<char>>, caps: Seq<Capture>) -> Seq<(Seq<char>, int, int)>
    decreases caps.len(),
{
    if caps.len() == 0 {
        Seq::empty()
    } else {
        let prev = chunk_state(ls, caps.drop_last());
        let c = caps.last();
        if !is_chunk_kind(c.kind@) {
            prev
        } else {
            let s = c.start_row as int;
            let e = chunk_end(c, ls.len() as int);
            if exists|j: int| 0 <= j < prev.len() && #[trigger] prev[j].1 == s + 1 && prev[j].2 == e + 1 {
                prev
            } else {
                prev.push((join(ls.subrange(s, e + 1), "\n"@), s + 1, e + 1))
            }
        }
    }
}

/// The chunks of a source file: those of its captures, or, when none is
/// made, the file's first two hundred and one lines; none for a file with no
/// lines.
pub open spec fn file_chunks(source: Seq<char>, caps: Seq<Capture>) -> Seq<(Seq<char>, int, int)> {
    let ls = lines(source);
    if ls.len() == 0 {
        Seq::empty()
    } else {
        let found = chunk_state(ls, caps);
        if found.len() > 0 {
            found
        } else {
            let cap = if ls.len() - 1 > MAX_CHUNK_ROWS {
                MAX_CHUNK_ROWS as int
            } else {
                ls.len() - 1
            };
            seq![(join(ls.subrange(0, cap + 1), "\n"@), 1, cap + 1)]
        }
    }
}

/// The definitions a chunk is cut for, by their node kinds in the shipped
/// grammars: Rust items, JavaScript/TypeScript declarations, methods and
/// exports, Python/C/C++ function and class definitions, Go and Java
/// declarations.
pub open spec fn definition_kind(k: Seq<char>) -> bool {
    seq![
        "function_item"@,
        "struct_item"@,
        "enum_item"@,
        "trait_item"@,
        "impl_item"@,
        "function_declaration"@,
        "class_declaration"@,
        "method_definition"@,
        "interface_declaration"@,
        "type_alias_declaration"@,
        "export_statement"@,
        "function_definition"@,
        "class_definition"@,
        "method_declaration"@,
        "type_declaration"@,
    ].contains(k)
}

/// A definition captured on lines the chunks do not cover yet becomes a
/// chunk of its own, appended after the others: its text is its lines
/// (at most two hundred after its first, and not past the file's end) and it
/// runs from its first line to its last, counted from one. In particular one
/// `function_definition` capture of a Python function gives exactly that
/// function's chunk.
pub proof fn lemma_definitions_make_chunks(source: Seq<char>, caps: Seq<Capture>, c: Capture)
    requires
        definition_kind(c.kind@),
        c.start_row < lines(source).len(),
        c.start_row <= c.end_row,
        forall|j: int|
            0 <= j < chunk_state(lines(source), caps).len() ==> !(
            #[trigger] chunk_state(lines(source), caps)[j].1 == c.start_row + 1
                && chunk_state(lines(source), caps)[j].2 == chunk_end(c, lines(source).len() as int) + 1),
    ensures
        ({
            let ls = lines(source);
            let e = chunk_end(c, ls.len() as int);
            &&& c.start_row <= e < ls.len()
            &&& chunk_state(ls, caps.push(c)) == chunk_state(ls, caps).push(
                (join(ls.subrange(c.start_row as int, e + 1), "\n"@), c.start_row + 1, e + 1),
            )
            &&& file_chunks(source, seq![c]) == seq![
                (join(ls.subrange(c.start_row as int, e + 1), "\n"@), c.start_row + 1, e + 1),
            ]
        }),
{
    let ls = lines(source);
    assert(is_chunk_kind(c.kind@));
    assert(caps.push(c).drop_last() == caps);
    assert(caps.push(c).last() == c);
    let one = seq![c];
    assert(one.drop_last() =~= Seq::<Capture>::empty());
    assert(one.last() == c);
    assert(chunk_state(ls, Seq::<Capture>::empty()).len() == 0);
}

/// Captures that the chunking can read: each node of a chunk kind starts on
/// a line of the file and does not end before it starts.
pub open spec fn captures_fit(source: Seq<char>, caps: Seq<Capture>) -> bool {
    forall|i: int|
        0 <= i < caps.len() && is_chunk_kind(#[trigger] caps[i].kind@) ==> caps[i].start_row
            < lines(source).len() && caps[i].start_row <= caps[i].end_row
}

fn copy_rows(ls: &Vec<Vec<char>>, from: usize, to: usize) -> (r: Vec<Vec<char>>)
    requires
        from <= to <= ls@.len(),
    ensures
        views(r@) == views(ls@).subrange(from as int, to as int),
{
    let mut r: Vec<Vec<char>> = Vec::new();
    let mut i: usize = from;
    while i < to
        invariant
            from <= i <= to <= ls@.len(),
            views(r@) == views(ls@).subrange(from as int, i as int),
        decreases to - i,
    {
        let ghost before = r@;
        r.push(crate::text::copy_chars(ls[i].as_slice()));
        assert(views(r@) =~= views(before).push(ls@[i as int]@));
        assert(views(ls@).subrange(from as int, i + 1) =~= views(ls@).subrange(from as int, i as int).push(ls@[i as int]@));
        i += 1;
    }
    r
}

/// Cuts a parsed source file into chunks (see `file_chunks`).
pub fn collect_chunks(captures: &Vec<Capture>, source: &str) -> (chunks: Vec<Chunk>)
    requires
        captures_fit(source@, captures@),
    ensures
        chunks@.len() == file_chunks(source@, captures@).len(),
        forall|i: int|
            0 <= i < chunks@.len() ==> (#[trigger] chunks@[i]).code@ == file_chunks(
                source@,
                captures@,
            )[i].0 && chunks@[i].start_line == file_chunks(source@, captures@)[i].1
                && chunks@[i].end_line == file_chunks(source@, captures@)[i].2,
{
    let c = chars_of(source);
    let ls = split_lines(c.as_slice());
    let ghost lv = lines(source@);
    proof {
        assert(views(ls@) =~= lv);
    }
    let mut chunks: Vec<Chunk> = Vec::new();
    if ls.len() == 0 {
        return chunks;
    }
    let nl = chars_of("\n");
    let n = ls.len();
    let mut i: usize = 0;
    while i < captures.len()
        invariant
            i <= captures@.len(),
            n == ls@.len() == lv.len(),
            n > 0,
            views(ls@) == lv,
            lv == lines(source@),
            nl@ == "\n"@,
            captures_fit(source@, captures@),
            chunks@.len() == chunk_state(lv, captures@.take(i as int)).len(),
            forall|j: int|
                0 <= j < chunks@.len() ==> (#[trigger] chunks@[j]).code@ == chunk_state(
                    lv,
                    captures@.take(i as int),
                )[j].0 && chunks@[j].start_line == chunk_state(lv, captures@.take(i as int))[j].1
                    && chunks@[j].end_line == chunk_state(lv, captures@.take(i as int))[j].2,
        decreases captures@.len() - i,
    {
        let ghost prev = chunk_state(lv, captures@.take(i as int));
        assert(captures@.take(i + 1).drop_last() == captures@.take(i as int));
        assert(captures@.take(i + 1).last() == captures@[i as int]);
        let cap = &captures[i];
        let k = chars_of(cap.kind.as_str());
        if chunk_kind_exec(k.as_slice()) {
            assert(is_chunk_kind(captures@[i as int].kind@));
            let start = cap.start_row;
            let a: usize = if cap.end_row - start > MAX_CHUNK_ROWS {
                start + MAX_CHUNK_ROWS
            } else {
                cap.end_row
            };
            let end: usize = if a > n - 1 {
                n - 1
            } else {
                a
            };
            assert(end == chunk_end(*cap, n as int));
            assert(start < n);
            let mut seen = false;
            let mut j: usize = 0;
            while j < chunks.len()
                invariant
                    j <= chunks@.len(),
                    start <= end < n,
                    chunks@.len() == prev.len(),
                    forall|q: int|
                        0 <= q < chunks@.len() ==> #[trigger] chunks@[q].start_line == prev[q].1
                            && chunks@[q].end_line == prev[q].2,
                    seen == exists|q: int|
                        0 <= q < j && #[trigger] prev[q].1 == start + 1 && prev[q].2 == end + 1,
                decreases chunks@.len() - j,
            {
                if chunks[j].start_line == start + 1 && chunks[j].end_line == end + 1 {
                    seen = true;
                }
                proof {
                    if seen && !(exists|q: int|
                        0 <= q < j && #[trigger] prev[q].1 == start + 1 && prev[q].2 == end + 1) {
                        assert(prev[j as int].1 == start + 1 && prev[j as int].2 == end + 1);
                    }
                }
                j += 1;
            }
            if !seen {
                let rows = copy_rows(&ls, start, end + 1);
                let code = crate::text::join_chars(&rows, nl.as_slice());
                chunks.push(Chunk { code: string_of(code.as_slice()), start_line: start + 1, end_line: end + 1 });
            }
        }
        i += 1;
    }
    assert(captures@.take(captures@.len() as int) == captures@);
    if chunks.len() == 0 {
        let cap: usize = if n - 1 > MAX_CHUNK_ROWS {
            MAX_CHUNK_ROWS
        } else {
            n - 1
        };
        let rows = copy_rows(&ls, 0, cap + 1);
        let code = crate::text::join_chars(&rows, nl.as_slice());
        chunks.push(Chunk { code: string_of(code.as_slice()), start_line: 1, end_line: cap + 1 });
    }
    chunks
}


/// What a captured import node contributes: a string literal without its
/// quotes, or a name as written; nothing when that is empty or the node is of
/// another kind.
pub open spec fn import_of(c: Capture) -> Option<Seq<char>> {
    let k = c.kind@;
    if k == "string"@ || k == "interpreted_string_literal"@ {
        let cleaned = trim(c.text@, TrimSet::Quotes);
        if cleaned.len() > 0 {
            Some(cleaned)
        } else {
            None
        }
    } else if k == "identifier"@ || k == "dotted_name"@ || k == "scoped_identifier"@ {
        if c.text@.len() > 0 {
            Some(c.text@)
        } else {
            None
        }
    } else {
        None
    }
}

/// The imports of a file, in capture order.
pub open spec fn imports_of(caps: Seq<Capture>) -> Seq<Seq<char>>
    decreases caps.len(),
{
    if caps.len() == 0 {
        Seq::empty()
    } else {
        match import_of(caps.last()) {
            Some(i) => imports_of(caps.drop_last()).push(i),
            None => imports_of(caps.drop_last()),
        }
    }
}

/// The imports named by a file's import captures (see `imports_of`).
pub fn collect_imports(captures: &Vec<Capture>) -> (imports: Vec<String>)
    ensures
        imports@.len() == imports_of(captures@).len(),
        forall|i: int|
            0 <= i < imports@.len() ==> #[trigger] imports@[i]@ == imports_of(captures@)[i],
{
    let mut imports: Vec<String> = Vec::new();
    let mut i: usize = 0;
    while i < captures.len()
        invariant
            i <= captures@.len(),
            imports@.len() == imports_of(captures@.take(i as int)).len(),
            forall|j: int|
                0 <= j < imports@.len() ==> #[trigger] imports@[j]@ == imports_of(
                    captures@.take(i as int),
                )[j],
        decreases captures@.len() - i,
    {
        assert(captures@.take(i + 1).drop_last() == captures@.take(i as int));
        assert(captures@.take(i + 1).last() == captures@[i as int]);
        let cap = &captures[i];
        let k = chars_of(cap.kind.as_str());
        let t = chars_of(cap.text.as_str());
        if is_literal(k.as_slice(), "string") || is_literal(k.as_slice(), "interpreted_string_literal") {
            let cleaned = trim_chars(t.as_slice(), TrimSet::Quotes);
            if cleaned.len() > 0 {
                imports.push(string_of(cleaned.as_slice()));
            }
        } else if is_literal(k.as_slice(), "identifier") || is_literal(k.as_slice(), "dotted_name")
            || is_literal(k.as_slice(), "scoped_identifier") {
            if t.len() > 0 {
                imports.push(string_of(t.as_slice()));
            }
        }
        i += 1;
    }
    assert(captures@.take(captures@.len() as int) == captures@);
    imports
}

/// The most characters a chunk's stored or embedded text keeps once its
/// UTF-8 form passes this many bytes.
pub const MAX_CHUNK_TEXT: usize = 4000;

/// A chunk ready to be embedded and stored.
pub struct PendingChunk {
    pub uid: String,
    pub code: String,
    pub file_path: String,
    pub start_line: usize,
    pub end_line: usize,
    pub language: String,
    pub file_uid: String,
}

/// A text cut to its first four thousand characters when its UTF-8 form is
/// longer than four thousand bytes.
pub open spec fn capped(t: Seq<char>) -> Seq<char> {
    if byte_len(t) > MAX_CHUNK_TEXT {
        take_chars(t, MAX_CHUNK_TEXT as nat)
    } else {
        t
    }
}

/// The location line of a chunk: `// path:start-end`.
pub open spec fn location(c: PendingChunk) -> Seq<char> {
    "// "@ + c.file_path@ + ":"@ + decimal(c.start_line as nat) + "-"@ + decimal(
        c.end_line as nat,
    )
}

/// The text a chunk is embedded from: the code fenced with its language, led
/// by its location, then the language once more.
pub open spec fn embed_text_of(c: PendingChunk) -> Seq<char> {
    capped(
        "```"@ + c.language@ + "\n"@ + location(c) + "\n"@ + c.code@ + "```\n"@ + c.language@,
    )
}

/// The text a chunk is stored as: its location line, then its code.
pub open spec fn db_content_of(c: PendingChunk) -> Seq<char> {
    capped(location(c) + "\n"@ + c.code@)
}

fn cap_text(t: Vec<char>) -> (r: Vec<char>)
    ensures
        r@ == capped(t@),
{
    let n = crate::text::utf8_len(t.as_slice());
    if n > MAX_CHUNK_TEXT {
        proof {
            crate::text::lemma_byte_len_ge_len(t@);
        }
        take_prefix(t.as_slice(), MAX_CHUNK_TEXT)
    } else {
        t
    }
}

fn push_location(out: &mut Vec<char>, c: &PendingChunk)
    ensures
        final(out)@ == old(out)@ + location(*c),
{
    append_chars(out, chars_of("// ").as_slice());
    append_chars(out, chars_of(c.file_path.as_str()).as_slice());
    out.push(':');
    append_chars(out, decimal_string(c.start_line as u64).as_slice());
    out.push('-');
    append_chars(out, decimal_string(c.end_line as u64).as_slice());
    proof {
        reveal_strlit(":");
        reveal_strlit("-");
    }
}

impl PendingChunk {
    /// The text this chunk is embedded from (see `embed_text_of`).
    pub fn embed_text(&self) -> (t: String)
        ensures
            t@ == embed_text_of(*self),
    {
        proof {
            reveal_strlit("\n");
        }
        let mut out: Vec<char> = chars_of("```");
        append_chars(&mut out, chars_of(self.language.as_str()).as_slice());
        out.push('\n');
        push_location(&mut out, self);
        out.push('\n');
        append_chars(&mut out, chars_of(self.code.as_str()).as_slice());
        append_chars(&mut out, chars_of("```\n").as_slice());
        append_chars(&mut out, chars_of(self.language.as_str()).as_slice());
        assert(out@ =~= "```"@ + self.language@ + "\n"@ + location(*self) + "\n"@ + self.code@
            + "```\n"@ + self.language@);
        let r = cap_text(out);
        string_of(r.as_slice())
    }

    /// The text this chunk is stored as (see `db_content_of`).
    pub fn db_content(&self) -> (t: String)
        ensures
            t@ == db_content_of(*self),
    {
        proof {
            reveal_strlit("\n");
        }
        let mut out: Vec<char> = Vec::new();
        push_location(&mut out, self);
        out.push('\n');
        append_chars(&mut out, chars_of(self.code.as_str()).as_slice());
        assert(out@ =~= location(*self) + "\n"@ + self.code@);
        let r = cap_text(out);
        string_of(r.as_slice())
    }
}

/// The id of a file's node: `project::file::path`.
pub open spec fn file_uid_of(project_id: Seq<char>, rel: Seq<char>) -> Seq<char> {
    project_id + "::file::"@ + rel
}

/// The id of a file's node (see `file_uid_of`).
pub fn file_uid(project_id: &str, rel: &str) -> (u: String)
    ensures
        u@ == file_uid_of(project_id@, rel@),
{
    let mut out: Vec<char> = chars_of(project_id);
    append_chars(&mut out, chars_of("::file::").as_slice());
    append_chars(&mut out, chars_of(rel).as_slice());
    string_of(out.as_slice())
}

/// The id of a chunk: `project::path::first line`.
pub open spec fn chunk_uid_of(project_id: Seq<char>, rel: Seq<char>, start_line: nat) -> Seq<char> {
    project_id + "::"@ + rel + "::"@ + decimal(start_line)
}

/// The chunks of one parsed file, ready to embed, with their ids.
pub fn pending_chunks(
    project_id: &str,
    rel: &str,
    file_path: &str,
    language: &str,
    chunks: Vec<Chunk>,
) -> (out: Vec<PendingChunk>)
    ensures
        out@.len() == chunks@.len(),
        forall|i: int|
            0 <= i < out@.len() ==> {
                let p = #[trigger] out@[i];
                &&& p.uid@ == chunk_uid_of(project_id@, rel@, chunks@[i].start_line as nat)
                &&& p.code@ == chunks@[i].code@
                &&& p.file_path@ == file_path@
                &&& p.start_line == chunks@[i].start_line
                &&& p.end_line == chunks@[i].end_line
                &&& p.language@ == language@
                &&& p.file_uid@ == file_uid_of(project_id@, rel@)
            },
{
    let ghost all = chunks@;
    let fuid = file_uid(project_id, rel);
    let mut out: Vec<PendingChunk> = Vec::new();
    let mut i: usize = 0;
    for c in it: chunks
        invariant
            it.seq() == all,
            i == it.index(),
            out@.len() == i,
            fuid@ == file_uid_of(project_id@, rel@),
            forall|j: int|
                0 <= j < i ==> {
                    let p = #[trigger] out@[j];
                    &&& p.uid@ == chunk_uid_of(project_id@, rel@, all[j].start_line as nat)
                    &&& p.code@ == all[j].code@
                    &&& p.file_path@ == file_path@
                    &&& p.start_line == all[j].start_line
                    &&& p.end_line == all[j].end_line
                    &&& p.language@ == language@
                    &&& p.file_uid@ == file_uid_of(project_id@, rel@)
                },
    {
        let mut uid: Vec<char> = chars_of(project_id);
        append_chars(&mut uid, chars_of("::").as_slice());
        append_chars(&mut uid, chars_of(rel).as_slice());
        append_chars(&mut uid, chars_of("::").as_slice());
        append_chars(&mut uid, decimal_string(c.start_line as u64).as_slice());
        out.push(PendingChunk {
            uid: string_of(uid.as_slice()),
            code: c.code,
            file_path: file_path.to_owned(),
            start_line: c.start_line,
            end_line: c.end_line,
            language: language.to_owned(),
            file_uid: string_of(chars_of(fuid.as_str()).as_slice()),
        });
        i = out.len();
    }
    out
}


/// The line of the structure listing for a folder entry at `depth` (one for
/// the root's own entries): two spaces per level below the first, the name,
/// and a slash after a folder.
pub open spec fn structure_line(depth: nat, name: Seq<char>, is_dir: bool) -> Seq<char> {
    let indent = Seq::new((2 * (depth - 1)) as nat, |i: int| ' ');
    if is_dir {
        indent + name + "/"@
    } else {
        indent + name
    }
}

/// A line of the structure listing (see `structure_line`).
pub fn structure_entry(depth: usize, name: &str, is_dir: bool) -> (l: String)
    requires
        1 <= depth,
    ensures
        l@ == structure_line(depth as nat, name@, is_dir),
{
    let mut out: Vec<char> = Vec::new();
    let mut i: usize = 1;
    while i < depth
        invariant
            1 <= i <= depth,
            out@ == Seq::new((2 * (i - 1)) as nat, |k: int| ' '),
        decreases depth - i,
    {
        out.push(' ');
        out.push(' ');
        assert(out@ =~= Seq::new((2 * i) as nat, |k: int| ' '));
        i += 1;
    }
    append_chars(&mut out, chars_of(name).as_slice());
    if is_dir {
        out.push('/');
        proof {
            reveal_strlit("/");
        }
    }
    string_of(out.as_slice())
}

/// How many listing lines are kept at each end of a long listing.
pub const STRUCTURE_HALF: usize = 100;

/// The listing kept for a project's structure: all lines when there are at
/// most two hundred, else the first and last hundred around a line that
/// counts the ones left out.
pub open spec fn structure_lines(ls: Seq<Seq<char>>) -> Seq<Seq<char>> {
    if ls.len() > 2 * STRUCTURE_HALF {
        ls.take(STRUCTURE_HALF as int).push(
            "\u{2026} ("@ + decimal((ls.len() - 2 * STRUCTURE_HALF) as nat) + " more entries) \u{2026}"@,
        ) + ls.skip(ls.len() - STRUCTURE_HALF)
    } else {
        ls
    }
}

/// The text of a project's structure memory.
pub open spec fn structure_text(root_name: Seq<char>, ls: Seq<Seq<char>>) -> Seq<char> {
    "Project structure ("@ + root_name + "):\n"@ + join(structure_lines(ls), "\n"@)
}

fn string_rows(v: &Vec<String>, from: usize, to: usize, out: &mut Vec<Vec<char>>)
    requires
        from <= to <= v@.len(),
    ensures
        views(final(out)@) == views(old(out)@) + v@.map_values(|s: String| s@).subrange(
            from as int,
            to as int,
        ),
{
    let mut i: usize = from;
    while i < to
        invariant
            from <= i <= to <= v@.len(),
            views(out@) == views(old(out)@) + v@.map_values(|s: String| s@).subrange(
                from as int,
                i as int,
            ),
        decreases to - i,
    {
        let ghost before = out@;
        out.push(chars_of(v[i].as_str()));
        assert(views(out@) =~= views(before).push(v@[i as int]@));
        assert(v@.map_values(|s: String| s@).subrange(from as int, i + 1) =~= v@.map_values(
            |s: String| s@,
        ).subrange(from as int, i as int).push(v@[i as int]@));
        i += 1;
    }
}

/// The text of a project's structure memory, from its listing lines.
pub fn structure_summary(root_name: &str, entries: &Vec<String>) -> (t: String)
    ensures
        t@ == structure_text(root_name@, entries@.map_values(|s: String| s@)),
{
    let ghost ls = entries@.map_values(|s: String| s@);
    let n = entries.len();
    let mut rows: Vec<Vec<char>> = Vec::new();
    if n > 2 * STRUCTURE_HALF {
        string_rows(entries, 0, STRUCTURE_HALF, &mut rows);
        let mut mid: Vec<char> = chars_of("\u{2026} (");
        append_chars(&mut mid, decimal_string((n - 2 * STRUCTURE_HALF) as u64).as_slice());
        append_chars(&mut mid, chars_of(" more entries) \u{2026}").as_slice());
        let ghost r0 = rows@;
        rows.push(mid);
        assert(views(rows@) =~= views(r0).push(rows@.last()@));
        string_rows(entries, n - STRUCTURE_HALF, n, &mut rows);
        assert(views(rows@) =~= structure_lines(ls));
    } else {
        string_rows(entries, 0, n, &mut rows);
        assert(views(rows@) =~= structure_lines(ls));
    }
    let body = crate::text::join_chars(&rows, chars_of("\n").as_slice());
    let mut out: Vec<char> = chars_of("Project structure (");
    append_chars(&mut out, chars_of(root_name).as_slice());
    append_chars(&mut out, chars_of("):\n").as_slice());
    append_chars(&mut out, body.as_slice());
    string_of(out.as_slice())
}

/// The id of a project's structure memory.
pub fn structure_uid(project_id: &str) -> (u: String)
    ensures
        u@ == project_id@ + "::structure"@,
{
    let mut out: Vec<char> = chars_of(project_id);
    append_chars(&mut out, chars_of("::structure").as_slice());
    string_of(out.as_slice())
}

/// The most chunks one insert statement carries, so that its bound values
/// stay under the database's limit.
pub const SQL_INSERT_CHUNK_LIMIT: usize = 2000;

/// The groups of consecutive files written by one insert each, as ranges of
/// positions, and the open group's start and chunk count, after reading the
/// chunk counts `ns`: a file joins the open group unless that would pass the
/// limit and the group already holds a chunk, in which case the group is
/// written first.
pub open spec fn group_state(ns: Seq<usize>) -> (Seq<(int, int)>, int, int)
    decreases ns.len(),
{
    if ns.len() == 0 {
        (Seq::empty(), 0, 0)
    } else {
        let (done, start, count) = group_state(ns.drop_last());
        let n = ns.last() as int;
        let k = ns.len() - 1;
        if count + n > SQL_INSERT_CHUNK_LIMIT && count > 0 {
            (done.push((start, k)), k, n)
        } else {
            (done, start, count + n)
        }
    }
}

/// The inserts that write the chunks of files with these chunk counts, each
/// a range of file positions: the groups written along the way, then the
/// open group if it holds a chunk.
pub open spec fn insert_groups(ns: Seq<usize>) -> Seq<(int, int)> {
    let (done, start, count) = group_state(ns);
    if count > 0 {
        done.push((start, ns.len() as int))
    } else {
        done
    }
}

/// Splits the files' chunks into inserts (see `insert_groups`).
pub fn plan_insert_groups(chunk_counts: &Vec<usize>) -> (groups: Vec<(usize, usize)>)
    ensures
        groups@.len() == insert_groups(chunk_counts@).len(),
        forall|i: int|
            0 <= i < groups@.len() ==> (#[trigger] groups@[i]).0 == insert_groups(
                chunk_counts@,
            )[i].0 && groups@[i].1 == insert_groups(chunk_counts@)[i].1,
{
    let ghost ns = chunk_counts@;
    let mut groups: Vec<(usize, usize)> = Vec::new();
    let mut start: usize = 0;
    let mut count: usize = 0;
    let mut i: usize = 0;
    while i < chunk_counts.len()
        invariant
            i <= ns.len(),
            ns == chunk_counts@,
            groups@.len() == group_state(ns.take(i as int)).0.len(),
            forall|j: int|
                0 <= j < groups@.len() ==> (#[trigger] groups@[j]).0 == group_state(
                    ns.take(i as int),
                ).0[j].0 && groups@[j].1 == group_state(ns.take(i as int)).0[j].1,
            start == group_state(ns.take(i as int)).1,
            count == group_state(ns.take(i as int)).2,
            start <= i,
        decreases ns.len() - i,
    {
        assert(ns.take(i + 1).drop_last() == ns.take(i as int));
        let n = chunk_counts[i];
        if count > 0 && (count > SQL_INSERT_CHUNK_LIMIT || n > SQL_INSERT_CHUNK_LIMIT - count) {
            groups.push((start, i));
            start = i;
            count = n;
        } else {
            count = count + n;
        }
        i += 1;
    }
    assert(ns.take(ns.len() as int) == ns);
    if count > 0 {
        groups.push((start, chunk_counts.len()));
    }
    groups
}


/// A source file after the parse step: its path below the root, its node id,
/// language, size, content hash, chunks and imports, or the error that
/// stopped it.
pub struct ParsedFile {
    pub rel: String,
    pub file_uid: String,
    pub lang: String,
    pub bytes: u64,
    pub file_hash: String,
    pub chunks: Vec<PendingChunk>,
    pub imports: Vec<String>,
    pub error: Option<String>,
}

/// What the store remembers of a file indexed before: its path below the
/// root, content hash and imports.
pub struct ExistingFile {
    pub rel: String,
    pub file_hash: String,
    pub imports: Vec<String>,
}

/// The record kept of the file at `rel`, if any (the first, paths being
/// unique).
pub open spec fn existing_of(ex: Seq<ExistingFile>, rel: Seq<char>) -> Option<ExistingFile>
    decreases ex.len(),
{
    if ex.len() == 0 {
        None
    } else if ex[0].rel@ == rel {
        Some(ex[0])
    } else {
        existing_of(ex.drop_first(), rel)
    }
}

/// A file read without error whose content hash is the one recorded.
pub open spec fn is_unchanged(pf: ParsedFile, ex: Seq<ExistingFile>) -> bool {
    &&& pf.error is None
    &&& existing_of(ex, pf.rel@) matches Some(e)
    &&& e.file_hash@ == pf.file_hash@
}

/// The imports a file's edges come from: the recorded ones for an unchanged
/// file, else those just parsed.
pub open spec fn edge_imports_of(pf: ParsedFile, ex: Seq<ExistingFile>) -> Seq<Seq<char>> {
    if is_unchanged(pf, ex) {
        existing_of(ex, pf.rel@).unwrap().imports@.map_values(|s: String| s@)
    } else {
        pf.imports@.map_values(|s: String| s@)
    }
}

fn find_existing(ex: &Vec<ExistingFile>, rel: &str) -> (r: Option<usize>)
    ensures
        match r {
            Some(k) => k < ex@.len() && existing_of(ex@, rel@) == Some(ex@[k as int]),
            None => existing_of(ex@, rel@) is None,
        },
{
    let target = chars_of(rel);
    let mut k: usize = 0;
    assert(ex@.skip(0) == ex@);
    while k < ex.len()
        invariant
            k <= ex@.len(),
            target@ == rel@,
            existing_of(ex@, rel@) == existing_of(ex@.skip(k as int), rel@),
        decreases ex@.len() - k,
    {
        assert(ex@.skip(k as int).drop_first() == ex@.skip(k + 1));
        assert(ex@.skip(k as int)[0] == ex@[k as int]);
        if crate::text::chars_eq(chars_of(ex[k].rel.as_str()).as_slice(), target.as_slice()) {
            return Some(k);
        }
        k += 1;
    }
    None
}

fn copy_strings(v: &Vec<String>) -> (r: Vec<String>)
    ensures
        r@.map_values(|s: String| s@) == v@.map_values(|s: String| s@),
{
    let mut r: Vec<String> = Vec::new();
    let mut i: usize = 0;
    while i < v.len()
        invariant
            i <= v@.len(),
            r@.map_values(|s: String| s@) == v@.map_values(|s: String| s@).take(i as int),
        decreases v@.len() - i,
    {
        let ghost before = r@;
        r.push(string_of(chars_of(v[i].as_str()).as_slice()));
        assert(r@.map_values(|s: String| s@) =~= before.map_values(|s: String| s@).push(v@[i as int]@));
        assert(v@.map_values(|s: String| s@).take(i + 1) =~= v@.map_values(|s: String| s@).take(
            i as int,
        ).push(v@[i as int]@));
        i += 1;
    }
    assert(v@.map_values(|s: String| s@).take(v@.len() as int) == v@.map_values(|s: String| s@));
    r
}

/// Whether a parsed file is unchanged since the last ingest.
pub fn unchanged(pf: &ParsedFile, existing: &Vec<ExistingFile>) -> (b: bool)
    ensures
        b == is_unchanged(*pf, existing@),
{
    if pf.error.is_some() {
        return false;
    }
    match find_existing(existing, pf.rel.as_str()) {
        Some(k) => crate::text::chars_eq(
            chars_of(existing[k].file_hash.as_str()).as_slice(),
            chars_of(pf.file_hash.as_str()).as_slice(),
        ),
        None => false,
    }
}

/// The imports a file's edges are drawn from (see `edge_imports_of`).
pub fn edge_imports(pf: &ParsedFile, existing: &Vec<ExistingFile>) -> (r: Vec<String>)
    ensures
        r@.map_values(|s: String| s@) == edge_imports_of(*pf, existing@),
{
    if unchanged(pf, existing) {
        let k = find_existing(existing, pf.rel.as_str());
        match k {
            Some(k) => copy_strings(&existing[k].imports),
            None => copy_strings(&pf.imports),
        }
    } else {
        copy_strings(&pf.imports)
    }
}

/// The lists the plan keeps, in file order: paths of changed files read
/// without error, node ids of all files written again, and the paths, node
/// ids and messages of the files that failed.
pub open spec fn file_lists(ps: Seq<ParsedFile>, ex: Seq<ExistingFile>) -> (
    Seq<Seq<char>>,
    Seq<Seq<char>>,
    Seq<Seq<char>>,
    Seq<Seq<char>>,
    Seq<Seq<char>>,
)
    decreases ps.len(),
{
    if ps.len() == 0 {
        (Seq::empty(), Seq::empty(), Seq::empty(), Seq::empty(), Seq::empty())
    } else {
        let (a, b, c, d, e) = file_lists(ps.drop_last(), ex);
        let pf = ps.last();
        match pf.error {
            Some(m) => (a, b.push(pf.file_uid@), c.push(pf.rel@), d.push(pf.file_uid@), e.push(m@)),
            None => if is_unchanged(pf, ex) {
                (a, b, c, d, e)
            } else {
                (a.push(pf.rel@), b.push(pf.file_uid@), c, d, e)
            },
        }
    }
}

/// The positions of the files that must be written again: those that failed
/// and those that changed.
pub open spec fn changed_positions(ps: Seq<ParsedFile>, ex: Seq<ExistingFile>) -> Seq<int>
    decreases ps.len(),
{
    if ps.len() == 0 {
        Seq::empty()
    } else if !is_unchanged(ps.last(), ex) {
        changed_positions(ps.drop_last(), ex).push(ps.len() - 1)
    } else {
        changed_positions(ps.drop_last(), ex)
    }
}

/// How many files read without error have language `l`.
pub open spec fn language_count(ps: Seq<ParsedFile>, l: Seq<char>) -> nat
    decreases ps.len(),
{
    if ps.len() == 0 {
        0
    } else if ps.last().error is None && ps.last().lang@ == l {
        language_count(ps.drop_last(), l) + 1
    } else {
        language_count(ps.drop_last(), l)
    }
}

pub open spec fn ok_count(ps: Seq<ParsedFile>) -> nat
    decreases ps.len(),
{
    if ps.len() == 0 {
        0
    } else if ps.last().error is None {
        ok_count(ps.drop_last()) + 1
    } else {
        ok_count(ps.drop_last())
    }
}

pub open spec fn bytes_sum(ps: Seq<ParsedFile>) -> nat
    decreases ps.len(),
{
    if ps.len() == 0 {
        0
    } else {
        bytes_sum(ps.drop_last()) + ps.last().bytes as nat
    }
}

/// The recorded files that the walk did not find again: they were deleted.
pub open spec fn deleted_rels(ex: Seq<ExistingFile>, ps: Seq<ParsedFile>) -> Seq<Seq<char>>
    decreases ex.len(),
{
    if ex.len() == 0 {
        Seq::empty()
    } else if exists|j: int| 0 <= j < ps.len() && #[trigger] ps[j].rel@ == ex.last().rel@ {
        deleted_rels(ex.drop_last(), ps)
    } else {
        deleted_rels(ex.drop_last(), ps).push(ex.last().rel@)
    }
}

/// How the parsed files sort out: which are written again, which failed,
/// which were deleted, and the counts the report shows.
pub struct FilePlan {
    /// Positions of the files written again (failed or changed).
    pub changed: Vec<usize>,
    /// Paths of the changed files read without error.
    pub changed_rels: Vec<String>,
    /// Node ids of all the files written again.
    pub changed_file_uids: Vec<String>,
    /// Paths of the files that failed.
    pub parse_error_rels: Vec<String>,
    /// Node ids of the files that failed.
    pub stale_file_uids: Vec<String>,
    /// Paths recorded before and not found again.
    pub deleted_rels: Vec<String>,
    /// Node ids of the deleted files.
    pub deleted_file_uids: Vec<String>,
    pub files_indexed: usize,
    pub bytes_processed: u64,
    /// Files read per language, each language once.
    pub languages: Vec<(String, usize)>,
    /// The errors, in file order.
    pub errors: Vec<String>,
}

pub open spec fn views_of(v: Seq<String>) -> Seq<Seq<char>> {
    v.map_values(|s: String| s@)
}

/// The plan's parts as the parsed files and the records determine them.
pub open spec fn plan_matches(
    p: FilePlan,
    project_id: Seq<char>,
    ps: Seq<ParsedFile>,
    ex: Seq<ExistingFile>,
) -> bool {
    &&& p.changed@.len() == changed_positions(ps, ex).len()
    &&& forall|i: int| 0 <= i < p.changed@.len() ==> #[trigger] p.changed@[i] == changed_positions(ps, ex)[i]
    &&& views_of(p.changed_rels@) == file_lists(ps, ex).0
    &&& views_of(p.changed_file_uids@) == file_lists(ps, ex).1
    &&& views_of(p.parse_error_rels@) == file_lists(ps, ex).2
    &&& views_of(p.stale_file_uids@) == file_lists(ps, ex).3
    &&& views_of(p.errors@) == file_lists(ps, ex).4
    &&& views_of(p.deleted_rels@) == deleted_rels(ex, ps)
    &&& views_of(p.deleted_file_uids@) == deleted_rels(ex, ps).map_values(|r: Seq<char>| file_uid_of(project_id, r))
    &&& p.files_indexed == ok_count(ps)
    &&& p.bytes_processed == bytes_sum(ps)
    &&& forall|i: int| 0 <= i < p.languages@.len() ==> (#[trigger] p.languages@[i]).1 == language_count(ps, p.languages@[i].0@)
    &&& forall|i: int| 0 <= i < p.languages@.len() ==> (#[trigger] p.languages@[i]).1 > 0
    &&& forall|i: int, j: int| 0 <= i < j < p.languages@.len() ==> (#[trigger] p.languages@[i]).0@ != (#[trigger] p.languages@[j]).0@
    &&& forall|i: int, j: int| 0 <= i < j < p.languages@.len() ==> crate::text::str_lt((#[trigger] p.languages@[i]).0@, (#[trigger] p.languages@[j]).0@)
    &&& forall|i: int| 0 <= i < ps.len() && (#[trigger] ps[i]).error is None ==> exists|j: int| 0 <= j < p.languages@.len() && #[trigger] p.languages@[j].0@ == ps[i].lang@
}


fn push_view(v: &mut Vec<String>, s: &String)
    ensures
        views_of(final(v)@) == views_of(old(v)@).push(s@),
{
    let ghost before = v@;
    v.push(string_of(chars_of(s.as_str()).as_slice()));
    assert(views_of(v@) =~= views_of(before).push(s@));
}

pub proof fn lemma_language_count_bound(ps: Seq<ParsedFile>, l: Seq<char>)
    ensures
        language_count(ps, l) <= ps.len(),
    decreases ps.len(),
{
    if ps.len() > 0 {
        lemma_language_count_bound(ps.drop_last(), l);
    }
}

#[verifier::loop_isolation(false)]
fn count_language(languages: &mut Vec<(String, usize)>, lang: &String, Ghost(ps): Ghost<Seq<ParsedFile>>)
    requires
        ps.len() > 0,
        ps.last().error is None,
        ps.last().lang@ == lang@,
        ps.len() <= usize::MAX,
        forall|i: int| 0 <= i < old(languages)@.len() ==> (#[trigger] old(languages)@[i]).1 == language_count(ps.drop_last(), old(languages)@[i].0@),
        forall|i: int| 0 <= i < old(languages)@.len() ==> (#[trigger] old(languages)@[i]).1 > 0,
        forall|i: int, j: int| 0 <= i < j < old(languages)@.len() ==> (#[trigger] old(languages)@[i]).0@ != (#[trigger] old(languages)@[j]).0@,
        forall|i: int, j: int| 0 <= i < j < old(languages)@.len() ==> crate::text::str_lt((#[trigger] old(languages)@[i]).0@, (#[trigger] old(languages)@[j]).0@),
        forall|i: int| 0 <= i < ps.len() - 1 && (#[trigger] ps[i]).error is None ==> exists|j: int| 0 <= j < old(languages)@.len() && #[trigger] old(languages)@[j].0@ == ps[i].lang@,
    ensures
        forall|i: int| 0 <= i < final(languages)@.len() ==> (#[trigger] final(languages)@[i]).1 == language_count(ps, final(languages)@[i].0@),
        forall|i: int| 0 <= i < final(languages)@.len() ==> (#[trigger] final(languages)@[i]).1 > 0,
        forall|i: int, j: int| 0 <= i < j < final(languages)@.len() ==> (#[trigger] final(languages)@[i]).0@ != (#[trigger] final(languages)@[j]).0@,
        forall|i: int, j: int| 0 <= i < j < final(languages)@.len() ==> crate::text::str_lt((#[trigger] final(languages)@[i]).0@, (#[trigger] final(languages)@[j]).0@),
        forall|i: int| 0 <= i < ps.len() && (#[trigger] ps[i]).error is None ==> exists|j: int| 0 <= j < final(languages)@.len() && #[trigger] final(languages)@[j].0@ == ps[i].lang@,
{
    let target = chars_of(lang.as_str());
    let mut k: usize = 0;
    while k < languages.len()
        invariant
            k <= languages@.len(),
            languages@ == old(languages)@,
            target@ == lang@,
            forall|j: int| 0 <= j < k ==> (#[trigger] languages@[j]).0@ != lang@,
        decreases languages@.len() - k,
    {
        if crate::text::chars_eq(chars_of(languages[k].0.as_str()).as_slice(), target.as_slice()) {
            let ghost old_l = languages@;
            proof {
                lemma_language_count_bound(ps, lang@);
            }
            let n = languages[k].1;
            let name = string_of(chars_of(languages[k].0.as_str()).as_slice());
            languages.set(k, (name, n + 1));
            proof {
                assert forall|i: int| 0 <= i < languages@.len() implies (#[trigger] languages@[i]).1 == language_count(ps, languages@[i].0@) by {
                    if i != k {
                        assert(old_l[i].0@ != old_l[k as int].0@);
                    }
                }
                assert forall|i: int, j: int| 0 <= i < j < languages@.len() implies (#[trigger] languages@[i]).0@ != (#[trigger] languages@[j]).0@ by {
                    assert(old_l[i].0@ != old_l[j].0@);
                }
                assert forall|i: int| 0 <= i < ps.len() && (#[trigger] ps[i]).error is None implies exists|j: int| 0 <= j < languages@.len() && #[trigger] languages@[j].0@ == ps[i].lang@ by {
                    if i == ps.len() - 1 {
                        assert(languages@[k as int].0@ == ps[i].lang@);
                    } else {
                        let j = choose|j: int| 0 <= j < old_l.len() && #[trigger] old_l[j].0@ == ps[i].lang@;
                        assert(languages@[j].0@ == ps[i].lang@);
                    }
                }
            }
            return;
        }
        k += 1;
    }
    let ghost old_l = languages@;
    let mut q: usize = 0;
    while q < languages.len() && !crate::text::chars_lt(target.as_slice(), chars_of(languages[q].0.as_str()).as_slice())
        invariant
            q <= languages@.len(),
            languages@ == old_l,
            target@ == lang@,
            forall|j: int| 0 <= j < q ==> !crate::text::str_lt(lang@, #[trigger] languages@[j].0@),
        decreases languages@.len() - q,
    {
        q += 1;
    }
    languages.insert(q, (string_of(target.as_slice()), 1));
    proof {
        let x = languages@[q as int];
        assert(x.0@ == lang@);
        assert forall|j: int| 0 <= j < q implies crate::text::str_lt(#[trigger] old_l[j].0@, lang@) by {
            crate::text::lemma_str_lt_total(old_l[j].0@, lang@);
        }
        assert(language_count(ps.drop_last(), lang@) == 0) by {
            if language_count(ps.drop_last(), lang@) > 0 {
                lemma_language_present(ps.drop_last(), lang@);
                let i = choose|i: int| 0 <= i < ps.drop_last().len() && ps.drop_last()[i].error is None && ps.drop_last()[i].lang@ == lang@;
                assert(ps[i].error is None);
                let j = choose|j: int| 0 <= j < old_l.len() && #[trigger] old_l[j].0@ == ps[i].lang@;
            }
        }
        assert forall|i: int| 0 <= i < languages@.len() implies (#[trigger] languages@[i]).1 == language_count(ps, languages@[i].0@) && languages@[i].1 > 0 by {
            if i < q {
                assert(languages@[i] == old_l[i]);
                assert(old_l[i].0@ != lang@);
            } else if i > q {
                assert(languages@[i] == old_l[i - 1]);
                assert(old_l[i - 1].0@ != lang@);
            }
        }
        assert forall|i: int, j: int| 0 <= i < j < languages@.len() implies crate::text::str_lt(
            (#[trigger] languages@[i]).0@,
            (#[trigger] languages@[j]).0@,
        ) by {
            if j < q {
                assert(languages@[i] == old_l[i] && languages@[j] == old_l[j]);
            } else if j == q {
                assert(languages@[i] == old_l[i]);
            } else if i < q {
                assert(languages@[i] == old_l[i] && languages@[j] == old_l[j - 1]);
                assert(crate::text::str_lt(lang@, old_l[q as int].0@)) ;
                if j - 1 > q {
                    crate::text::lemma_str_lt_transitive(lang@, old_l[q as int].0@, old_l[j - 1].0@);
                }
                crate::text::lemma_str_lt_transitive(old_l[i].0@, lang@, old_l[j - 1].0@);
            } else if i == q {
                assert(languages@[j] == old_l[j - 1]);
                if j - 1 > q {
                    crate::text::lemma_str_lt_transitive(lang@, old_l[q as int].0@, old_l[j - 1].0@);
                }
            } else {
                assert(languages@[i] == old_l[i - 1] && languages@[j] == old_l[j - 1]);
            }
        }
        assert forall|i: int, j: int| 0 <= i < j < languages@.len() implies (#[trigger] languages@[i]).0@ != (#[trigger] languages@[j]).0@ by {
            crate::text::lemma_str_lt_irreflexive(languages@[i].0@);
            assert(crate::text::str_lt(languages@[i].0@, languages@[j].0@));
        }
        assert forall|i: int| 0 <= i < ps.len() && (#[trigger] ps[i]).error is None implies exists|j: int| 0 <= j < languages@.len() && #[trigger] languages@[j].0@ == ps[i].lang@ by {
            if i == ps.len() - 1 {
                assert(languages@[q as int].0@ == ps[i].lang@);
            } else {
                let j = choose|j: int| 0 <= j < old_l.len() && #[trigger] old_l[j].0@ == ps[i].lang@;
                if j < q {
                    assert(languages@[j].0@ == ps[i].lang@);
                } else {
                    assert(languages@[j + 1].0@ == ps[i].lang@);
                }
            }
        }
    }
}

pub proof fn lemma_language_present(ps: Seq<ParsedFile>, l: Seq<char>)
    requires
        language_count(ps, l) > 0,
    ensures
        exists|i: int| 0 <= i < ps.len() && ps[i].error is None && ps[i].lang@ == l,
    decreases ps.len(),
{
    if ps.last().error is None && ps.last().lang@ == l {
        assert(ps[ps.len() - 1].lang@ == l);
    } else {
        lemma_language_present(ps.drop_last(), l);
        let i = choose|i: int| 0 <= i < ps.drop_last().len() && ps.drop_last()[i].error is None && ps.drop_last()[i].lang@ == l;
        assert(ps[i] == ps.drop_last()[i]);
    }
}

/// Each language a plan lists is the language of some file that parsed,
/// and each file that parsed has its language listed.
pub proof fn lemma_plan_languages(p: FilePlan, project_id: Seq<char>, ps: Seq<ParsedFile>, ex: Seq<ExistingFile>)
    requires
        plan_matches(p, project_id, ps, ex),
    ensures
        forall|i: int|
            0 <= i < p.languages@.len() ==> exists|k: int|
                0 <= k < ps.len() && ps[k].error is None && #[trigger] ps[k].lang@ == (#[trigger] p.languages@[i]).0@,
        forall|k: int|
            0 <= k < ps.len() && (#[trigger] ps[k]).error is None ==> exists|i: int|
                0 <= i < p.languages@.len() && #[trigger] p.languages@[i].0@ == ps[k].lang@,
{
    assert forall|i: int| 0 <= i < p.languages@.len() implies exists|k: int|
        0 <= k < ps.len() && ps[k].error is None && #[trigger] ps[k].lang@ == (#[trigger] p.languages@[i]).0@ by {
        lemma_language_present(ps, p.languages@[i].0@);
    }
}

pub proof fn lemma_bytes_sum_prefix(ps: Seq<ParsedFile>, n: int)
    requires
        0 <= n <= ps.len(),
    ensures
        bytes_sum(ps.take(n)) <= bytes_sum(ps),
    decreases ps.len(),
{
    if n < ps.len() {
        lemma_bytes_sum_prefix(ps.drop_last(), n);
        assert(ps.drop_last().take(n) == ps.take(n));
    } else {
        assert(ps.take(n) == ps);
    }
}

/// Sorts the parsed files out against what was recorded before (see
/// `plan_matches`).
pub fn plan_files(project_id: &str, parsed: &Vec<ParsedFile>, existing: &Vec<ExistingFile>) -> (p: FilePlan)
    requires
        bytes_sum(parsed@) <= u64::MAX,
    ensures
        plan_matches(p, project_id@, parsed@, existing@),
{
    let ghost ps = parsed@;
    let ghost ex = existing@;
    let mut p = FilePlan {
        changed: Vec::new(),
        changed_rels: Vec::new(),
        changed_file_uids: Vec::new(),
        parse_error_rels: Vec::new(),
        stale_file_uids: Vec::new(),
        deleted_rels: Vec::new(),
        deleted_file_uids: Vec::new(),
        files_indexed: 0,
        bytes_processed: 0,
        languages: Vec::new(),
        errors: Vec::new(),
    };
    let mut i: usize = 0;
    while i < parsed.len()
        invariant
            i <= ps.len(),
            ps == parsed@,
            ex == existing@,
            bytes_sum(ps) <= u64::MAX,
            p.changed@.len() == changed_positions(ps.take(i as int), ex).len(),
            forall|k: int| 0 <= k < p.changed@.len() ==> #[trigger] p.changed@[k] == changed_positions(ps.take(i as int), ex)[k],
            views_of(p.changed_rels@) == file_lists(ps.take(i as int), ex).0,
            views_of(p.changed_file_uids@) == file_lists(ps.take(i as int), ex).1,
            views_of(p.parse_error_rels@) == file_lists(ps.take(i as int), ex).2,
            views_of(p.stale_file_uids@) == file_lists(ps.take(i as int), ex).3,
            views_of(p.errors@) == file_lists(ps.take(i as int), ex).4,
            p.files_indexed == ok_count(ps.take(i as int)),
            p.files_indexed <= i,
            p.deleted_rels@.len() == 0,
            p.deleted_file_uids@.len() == 0,
            p.bytes_processed == bytes_sum(ps.take(i as int)),
            forall|k: int| 0 <= k < p.languages@.len() ==> (#[trigger] p.languages@[k]).1 == language_count(ps.take(i as int), p.languages@[k].0@),
            forall|k: int| 0 <= k < p.languages@.len() ==> (#[trigger] p.languages@[k]).1 > 0,
            forall|k: int, j: int| 0 <= k < j < p.languages@.len() ==> (#[trigger] p.languages@[k]).0@ != (#[trigger] p.languages@[j]).0@,
            forall|k: int, j: int| 0 <= k < j < p.languages@.len() ==> crate::text::str_lt((#[trigger] p.languages@[k]).0@, (#[trigger] p.languages@[j]).0@),
            forall|k: int| 0 <= k < i && (#[trigger] ps[k]).error is None ==> exists|j: int| 0 <= j < p.languages@.len() && #[trigger] p.languages@[j].0@ == ps[k].lang@,
        decreases ps.len() - i,
    {
        let ghost pre = ps.take(i as int);
        let ghost cur = ps.take(i + 1);
        assert(cur.drop_last() == pre);
        assert(cur.last() == ps[i as int]);
        proof {
            lemma_bytes_sum_prefix(ps, i + 1);
        }
        let pf = &parsed[i];
        p.bytes_processed = p.bytes_processed + pf.bytes;
        match &pf.error {
            Some(e) => {
                push_view(&mut p.errors, e);
                push_view(&mut p.parse_error_rels, &pf.rel);
                push_view(&mut p.stale_file_uids, &pf.file_uid);
                push_view(&mut p.changed_file_uids, &pf.file_uid);
                p.changed.push(i);
                proof {
                    assert forall|k: int| 0 <= k < p.languages@.len() implies (#[trigger] p.languages@[k]).1 == language_count(cur, p.languages@[k].0@) by {}
                    assert forall|k: int| 0 <= k < i + 1 && (#[trigger] ps[k]).error is None implies exists|j: int| 0 <= j < p.languages@.len() && #[trigger] p.languages@[j].0@ == ps[k].lang@ by {
                        if k < i {
                            let j = choose|j: int| 0 <= j < p.languages@.len() && #[trigger] p.languages@[j].0@ == ps[k].lang@;
                            assert(p.languages@[j].0@ == ps[k].lang@);
                        }
                    }
                }
            },
            None => {
                p.files_indexed = p.files_indexed + 1;
                proof {
                    assert forall|k: int| 0 <= k < cur.len() - 1 && (#[trigger] cur[k]).error is None implies exists|j: int| 0 <= j < p.languages@.len() && #[trigger] p.languages@[j].0@ == cur[k].lang@ by {
                        assert(cur[k] == ps[k]);
                        let j = choose|j: int| 0 <= j < p.languages@.len() && #[trigger] p.languages@[j].0@ == ps[k].lang@;
                        assert(p.languages@[j].0@ == cur[k].lang@);
                    }
                }
                count_language(&mut p.languages, &pf.lang, Ghost(cur));
                let ghost langs = p.languages@;
                if !unchanged(pf, existing) {
                    push_view(&mut p.changed_rels, &pf.rel);
                    push_view(&mut p.changed_file_uids, &pf.file_uid);
                    p.changed.push(i);
                }
                assert(p.languages@ == langs);
                proof {
                    assert forall|k: int| 0 <= k < i + 1 && (#[trigger] ps[k]).error is None implies exists|j: int| 0 <= j < p.languages@.len() && #[trigger] p.languages@[j].0@ == ps[k].lang@ by {
                        assert(cur[k] == ps[k]);
                        assert(cur[k].error is None);
                        let j = choose|j: int| 0 <= j < p.languages@.len() && #[trigger] p.languages@[j].0@ == cur[k].lang@;
                        assert(p.languages@[j].0@ == ps[k].lang@);
                    }
                }
            },
        }
        assert(forall|k: int| 0 <= k < i + 1 && (#[trigger] ps[k]).error is None ==> exists|j: int| 0 <= j < p.languages@.len() && #[trigger] p.languages@[j].0@ == ps[k].lang@);
        i += 1;
    }
    assert(ps.take(ps.len() as int) == ps);
    assert forall|k: int| 0 <= k < ps.len() && (#[trigger] ps[k]).error is None implies exists|j: int| 0 <= j < p.languages@.len() && #[trigger] p.languages@[j].0@ == ps[k].lang@ by {
        assert(k < i);
    }
    let ghost langs = p.languages@;
    let mut deleted: Vec<String> = Vec::new();
    let mut deleted_uids: Vec<String> = Vec::new();
    assert(views_of(deleted@) =~= Seq::<Seq<char>>::empty());
    assert(views_of(deleted_uids@) =~= Seq::<Seq<char>>::empty());
    assert(ex.take(0) =~= Seq::<ExistingFile>::empty());
    let mut j: usize = 0;
    while j < existing.len()
        invariant
            j <= ex.len(),
            ps == parsed@,
            ex == existing@,
            views_of(deleted@) == deleted_rels(ex.take(j as int), ps),
            views_of(deleted_uids@) == deleted_rels(ex.take(j as int), ps).map_values(|r: Seq<char>| file_uid_of(project_id@, r)),
        decreases ex.len() - j,
    {
        assert(ex.take(j + 1).drop_last() == ex.take(j as int));
        assert(ex.take(j + 1).last() == ex[j as int]);
        let rel = chars_of(existing[j].rel.as_str());
        let mut found = false;
        let mut q: usize = 0;
        while q < parsed.len()
            invariant
                q <= ps.len(),
                ps == parsed@,
                rel@ == ex[j as int].rel@,
                found == exists|t: int| 0 <= t < q && #[trigger] ps[t].rel@ == rel@,
            decreases ps.len() - q,
        {
            if crate::text::chars_eq(chars_of(parsed[q].rel.as_str()).as_slice(), rel.as_slice()) {
                found = true;
            }
            proof {
                if found && !(exists|t: int| 0 <= t < q && #[trigger] ps[t].rel@ == rel@) {
                    assert(ps[q as int].rel@ == rel@);
                }
            }
            q += 1;
        }
        if !found {
            let ghost d0 = deleted_rels(ex.take(j as int), ps);
            push_view(&mut deleted, &existing[j].rel);
            let u = file_uid(project_id, existing[j].rel.as_str());
            push_view(&mut deleted_uids, &u);
            assert(d0.push(rel@).map_values(|r: Seq<char>| file_uid_of(project_id@, r)) =~= d0.map_values(|r: Seq<char>| file_uid_of(project_id@, r)).push(file_uid_of(project_id@, rel@)));
        }
        j += 1;
    }
    assert(ex.take(ex.len() as int) == ex);
    p.deleted_rels = deleted;
    p.deleted_file_uids = deleted_uids;
    assert(p.languages@ == langs);
    assert forall|k: int| 0 <= k < ps.len() && (#[trigger] ps[k]).error is None implies exists|j: int| 0 <= j < p.languages@.len() && #[trigger] p.languages@[j].0@ == ps[k].lang@ by {
        let j = choose|j: int| 0 <= j < langs.len() && #[trigger] langs[j].0@ == ps[k].lang@;
        assert(p.languages@[j].0@ == ps[k].lang@);
    }
    p
}


/// An edge of the code graph.
pub struct Edge {
    pub from: String,
    pub to: String,
    pub edge_type: String,
}

pub open spec fn edge_view(e: Edge) -> (Seq<char>, Seq<char>, Seq<char>) {
    (e.from@, e.to@, e.edge_type@)
}

pub open spec fn edge_views(es: Seq<Edge>) -> Seq<(Seq<char>, Seq<char>, Seq<char>)> {
    es.map_values(|e: Edge| edge_view(e))
}

/// Each edge once, at its first occurrence.
pub open spec fn dedup(es: Seq<(Seq<char>, Seq<char>, Seq<char>)>) -> Seq<(Seq<char>, Seq<char>, Seq<char>)>
    decreases es.len(),
{
    if es.len() == 0 {
        Seq::empty()
    } else {
        let d = dedup(es.drop_last());
        if d.contains(es.last()) {
            d
        } else {
            d.push(es.last())
        }
    }
}

fn same_edge(a: &Edge, b: &Edge) -> (r: bool)
    ensures
        r == (edge_view(*a) == edge_view(*b)),
{
    crate::text::chars_eq(chars_of(a.from.as_str()).as_slice(), chars_of(b.from.as_str()).as_slice())
        && crate::text::chars_eq(chars_of(a.to.as_str()).as_slice(), chars_of(b.to.as_str()).as_slice())
        && crate::text::chars_eq(chars_of(a.edge_type.as_str()).as_slice(), chars_of(b.edge_type.as_str()).as_slice())
}

/// Drops repeated edges, keeping the first of each.
pub fn dedup_edges(cands: Vec<Edge>) -> (out: Vec<Edge>)
    ensures
        edge_views(out@) == dedup(edge_views(cands@)),
{
    let ghost all = edge_views(cands@);
    let mut out: Vec<Edge> = Vec::new();
    for e in it: cands
        invariant
            all == edge_views(it.seq()),
            it.index() <= it.seq().len(),
            edge_views(out@) == dedup(all.take(it.index() as int)),
    {
        let ghost n = it.index();
        assert(all.take(n + 1).drop_last() == all.take(n as int));
        assert(all.take(n + 1).last() == edge_view(e));
        let mut seen = false;
        let mut k: usize = 0;
        while k < out.len()
            invariant
                k <= out@.len(),
                seen == exists|q: int| 0 <= q < k && #[trigger] edge_view(out@[q]) == edge_view(e),
            decreases out@.len() - k,
        {
            if same_edge(&out[k], &e) {
                seen = true;
            }
            proof {
                if seen && !(exists|q: int| 0 <= q < k && #[trigger] edge_view(out@[q]) == edge_view(e)) {
                    assert(edge_view(out@[k as int]) == edge_view(e));
                }
            }
            k += 1;
        }
        proof {
            let d = dedup(all.take(n as int));
            if seen {
                let q = choose|q: int| 0 <= q < out@.len() && #[trigger] edge_view(out@[q]) == edge_view(e);
                assert(d[q] == edge_view(e));
                assert(d.contains(edge_view(e)));
            } else {
                if d.contains(edge_view(e)) {
                    let q = choose|q: int| 0 <= q < d.len() && d[q] == edge_view(e);
                    assert(edge_view(out@[q]) == edge_view(e));
                }
            }
        }
        if !seen {
            let ghost before = out@;
            out.push(e);
            assert(edge_views(out@) =~= edge_views(before).push(edge_view(out@.last())));
        }
    }
    proof {
        assert(all.take(all.len() as int) == all);
    }
    out
}

/// The node id of the file at `rel` among the files read without error (the
/// last such file, as a map insert keeps it).
pub open spec fn file_uid_for(ps: Seq<ParsedFile>, rel: Seq<char>) -> Option<Seq<char>>
    decreases ps.len(),
{
    if ps.len() == 0 {
        None
    } else if ps.last().error is None && ps.last().rel@ == rel {
        Some(ps.last().file_uid@)
    } else {
        file_uid_for(ps.drop_last(), rel)
    }
}

fn file_uid_lookup(ps: &Vec<ParsedFile>, rel: &[char]) -> (r: Option<String>)
    ensures
        match file_uid_for(ps@, rel@) {
            Some(u) => r matches Some(x) && x@ == u,
            None => r is None,
        },
{
    let mut k: usize = ps.len();
    assert(ps@.take(k as int) == ps@);
    while k > 0
        invariant
            k <= ps@.len(),
            file_uid_for(ps@, rel@) == file_uid_for(ps@.take(k as int), rel@),
        decreases k,
    {
        assert(ps@.take(k as int).drop_last() == ps@.take(k - 1));
        assert(ps@.take(k as int).last() == ps@[k - 1]);
        let pf = &ps[k - 1];
        if pf.error.is_none() && crate::text::chars_eq(chars_of(pf.rel.as_str()).as_slice(), rel) {
            return Some(string_of(chars_of(pf.file_uid.as_str()).as_slice()));
        }
        k -= 1;
    }
    None
}

pub open spec fn opt_views(v: Seq<Option<String>>) -> Seq<Option<Seq<char>>> {
    v.map_values(|o: Option<String>| match o {
        Some(s) => Some(s@),
        None => None,
    })
}

/// Whether file `i` imports `t`, by its resolved imports.
pub open spec fn imports_target(targets: Seq<Option<Seq<char>>>, t: Seq<char>) -> bool {
    exists|j: int| 0 <= j < targets.len() && #[trigger] targets[j] == Some(t)
}

/// The node ids of the files, read without error, that import the file at
/// `t` (not counting itself), each once, in file order.
pub open spec fn sources_for(ps: Seq<ParsedFile>, rs: Seq<Seq<Option<Seq<char>>>>, t: Seq<char>) -> Seq<Seq<char>>
    decreases ps.len(),
{
    if ps.len() == 0 {
        Seq::empty()
    } else {
        let prev = sources_for(ps.drop_last(), rs, t);
        let i = ps.len() - 1;
        let pf = ps.last();
        if pf.error is None && pf.rel@ != t && imports_target(rs[i], t) && !prev.contains(pf.file_uid@) {
            prev.push(pf.file_uid@)
        } else {
            prev
        }
    }
}

fn imports_target_exec(targets: &Vec<Option<String>>, t: &[char]) -> (b: bool)
    ensures
        b == imports_target(opt_views(targets@), t@),
{
    let ghost tv = opt_views(targets@);
    let mut j: usize = 0;
    while j < targets.len()
        invariant
            j <= targets@.len(),
            tv == opt_views(targets@),
            forall|q: int| 0 <= q < j ==> #[trigger] tv[q] != Some(t@),
        decreases targets@.len() - j,
    {
        match &targets[j] {
            Some(x) => {
                if crate::text::chars_eq(chars_of(x.as_str()).as_slice(), t) {
                    assert(tv[j as int] == Some(t@));
                    return true;
                }
            },
            None => {},
        }
        j += 1;
    }
    false
}

fn contains_string(v: &Vec<String>, s: &String) -> (b: bool)
    ensures
        b == views_of(v@).contains(s@),
{
    let mut k: usize = 0;
    while k < v.len()
        invariant
            k <= v@.len(),
            forall|q: int| 0 <= q < k ==> v@[q]@ != s@,
        decreases v@.len() - k,
    {
        if crate::text::chars_eq(chars_of(v[k].as_str()).as_slice(), chars_of(s.as_str()).as_slice()) {
            assert(views_of(v@)[k as int] == s@);
            return true;
        }
        k += 1;
    }
    proof {
        if views_of(v@).contains(s@) {
            let q = choose|q: int| 0 <= q < views_of(v@).len() && views_of(v@)[q] == s@;
            assert(v@[q]@ == s@);
        }
    }
    false
}

pub open spec fn all_opt_views(rs: Seq<Vec<Option<String>>>) -> Seq<Seq<Option<Seq<char>>>> {
    rs.map_values(|v: Vec<Option<String>>| opt_views(v@))
}

fn sources_for_target(ps: &Vec<ParsedFile>, rs: &Vec<Vec<Option<String>>>, t: &[char]) -> (out: Vec<String>)
    requires
        rs@.len() == ps@.len(),
    ensures
        views_of(out@) == sources_for(ps@, all_opt_views(rs@), t@),
{
    let ghost rv = all_opt_views(rs@);
    let mut out: Vec<String> = Vec::new();
    let mut i: usize = 0;
    while i < ps.len()
        invariant
            i <= ps@.len(),
            rs@.len() == ps@.len(),
            rv == all_opt_views(rs@),
            views_of(out@) == sources_for(ps@.take(i as int), rv, t@),
        decreases ps@.len() - i,
    {
        assert(ps@.take(i + 1).drop_last() == ps@.take(i as int));
        assert(ps@.take(i + 1).last() == ps@[i as int]);
        assert(rv[i as int] == opt_views(rs@[i as int]@));
        let pf = &ps[i];
        if pf.error.is_none() && !crate::text::chars_eq(chars_of(pf.rel.as_str()).as_slice(), t)
            && imports_target_exec(&rs[i], t) && !contains_string(&out, &pf.file_uid) {
            push_view(&mut out, &pf.file_uid);
        }
        i += 1;
    }
    assert(ps@.take(ps@.len() as int) == ps@);
    out
}


pub open spec fn member_edge(c: PendingChunk) -> (Seq<char>, Seq<char>, Seq<char>) {
    (c.uid@, c.file_uid@, "member_of"@)
}

/// The `member_of` edges of the chunks of the files at positions `pos`.
pub open spec fn member_candidates(ps: Seq<ParsedFile>, pos: Seq<usize>) -> Seq<(Seq<char>, Seq<char>, Seq<char>)>
    decreases pos.len(),
{
    if pos.len() == 0 {
        Seq::empty()
    } else {
        member_candidates(ps, pos.drop_last()) + ps[pos.last() as int].chunks@.map_values(|c: PendingChunk| member_edge(c))
    }
}

/// The `imports` edges from file `pf` to the files its resolved imports name,
/// where such a file was read without error and is not `pf` itself.
pub open spec fn file_import_edges(ps: Seq<ParsedFile>, targets: Seq<Option<Seq<char>>>, pf: ParsedFile) -> Seq<(Seq<char>, Seq<char>, Seq<char>)>
    decreases targets.len(),
{
    if targets.len() == 0 {
        Seq::empty()
    } else {
        let prev = file_import_edges(ps, targets.drop_last(), pf);
        match targets.last() {
            Some(t) => if t != pf.rel@ && file_uid_for(ps, t) is Some {
                prev.push((pf.file_uid@, file_uid_for(ps, t).unwrap(), "imports"@))
            } else {
                prev
            },
            None => prev,
        }
    }
}

/// The `imports` edges out of the files at positions `pos` read without
/// error.
pub open spec fn import_candidates(ps: Seq<ParsedFile>, rs: Seq<Seq<Option<Seq<char>>>>, pos: Seq<usize>) -> Seq<(Seq<char>, Seq<char>, Seq<char>)>
    decreases pos.len(),
{
    if pos.len() == 0 {
        Seq::empty()
    } else {
        let p = pos.last() as int;
        let prev = import_candidates(ps, rs, pos.drop_last());
        if ps[p].error is None {
            prev + file_import_edges(ps, rs[p], ps[p])
        } else {
            prev
        }
    }
}

/// The `imports` edges into the file with node id `target` from the files
/// `srcs`, but for the file itself.
pub open spec fn incoming_edges(srcs: Seq<Seq<char>>, target: Seq<char>) -> Seq<(Seq<char>, Seq<char>, Seq<char>)>
    decreases srcs.len(),
{
    if srcs.len() == 0 {
        Seq::empty()
    } else {
        let prev = incoming_edges(srcs.drop_last(), target);
        if srcs.last() != target {
            prev.push((srcs.last(), target, "imports"@))
        } else {
            prev
        }
    }
}

/// The `imports` edges into the changed files at positions `pos` read
/// without error, from every file that imports them.
pub open spec fn reverse_candidates(ps: Seq<ParsedFile>, rs: Seq<Seq<Option<Seq<char>>>>, pos: Seq<usize>) -> Seq<(Seq<char>, Seq<char>, Seq<char>)>
    decreases pos.len(),
{
    if pos.len() == 0 {
        Seq::empty()
    } else {
        let p = pos.last() as int;
        let prev = reverse_candidates(ps, rs, pos.drop_last());
        let rel = ps[p].rel@;
        if ps[p].error is None && file_uid_for(ps, rel) is Some {
            prev + incoming_edges(sources_for(ps, rs, rel), file_uid_for(ps, rel).unwrap())
        } else {
            prev
        }
    }
}

/// The edges an ingest writes for the changed files at positions `pos`: the
/// chunks' `member_of` edges, the changed files' own imports, and the imports
/// of every file into them, each edge once.
pub open spec fn planned_edges(ps: Seq<ParsedFile>, rs: Seq<Seq<Option<Seq<char>>>>, pos: Seq<usize>) -> Seq<(Seq<char>, Seq<char>, Seq<char>)> {
    dedup(member_candidates(ps, pos) + import_candidates(ps, rs, pos) + reverse_candidates(ps, rs, pos))
}

fn push_edge(out: &mut Vec<Edge>, from: &String, to: &String, edge_type: &str)
    ensures
        edge_views(final(out)@) == edge_views(old(out)@).push((from@, to@, edge_type@)),
{
    let ghost before = out@;
    out.push(Edge {
        from: string_of(chars_of(from.as_str()).as_slice()),
        to: string_of(chars_of(to.as_str()).as_slice()),
        edge_type: edge_type.to_owned(),
    });
    assert(edge_views(out@) =~= edge_views(before).push((from@, to@, edge_type@)));
}

fn push_member_edges(out: &mut Vec<Edge>, pf: &ParsedFile)
    ensures
        edge_views(final(out)@) == edge_views(old(out)@) + pf.chunks@.map_values(|c: PendingChunk| member_edge(c)),
{
    let ghost start = edge_views(out@);
    let mut i: usize = 0;
    while i < pf.chunks.len()
        invariant
            i <= pf.chunks@.len(),
            edge_views(out@) == start + pf.chunks@.map_values(|c: PendingChunk| member_edge(c)).take(i as int),
        decreases pf.chunks@.len() - i,
    {
        let c = &pf.chunks[i];
        push_edge(out, &c.uid, &c.file_uid, "member_of");
        assert(pf.chunks@.map_values(|c: PendingChunk| member_edge(c)).take(i + 1) =~= pf.chunks@.map_values(|c: PendingChunk| member_edge(c)).take(i as int).push(member_edge(pf.chunks@[i as int])));
        i += 1;
    }
    assert(pf.chunks@.map_values(|c: PendingChunk| member_edge(c)).take(pf.chunks@.len() as int) == pf.chunks@.map_values(|c: PendingChunk| member_edge(c)));
}

fn push_import_edges(out: &mut Vec<Edge>, ps: &Vec<ParsedFile>, targets: &Vec<Option<String>>, pf: &ParsedFile)
    ensures
        edge_views(final(out)@) == edge_views(old(out)@) + file_import_edges(ps@, opt_views(targets@), *pf),
{
    let ghost start = edge_views(out@);
    let ghost tv = opt_views(targets@);
    let rel = chars_of(pf.rel.as_str());
    let mut j: usize = 0;
    while j < targets.len()
        invariant
            j <= targets@.len(),
            tv == opt_views(targets@),
            rel@ == pf.rel@,
            edge_views(out@) == start + file_import_edges(ps@, tv.take(j as int), *pf),
        decreases targets@.len() - j,
    {
        assert(tv.take(j + 1).drop_last() == tv.take(j as int));
        assert(tv.take(j + 1).last() == tv[j as int]);
        match &targets[j] {
            Some(t) => {
                let tc = chars_of(t.as_str());
                if !crate::text::chars_eq(tc.as_slice(), rel.as_slice()) {
                    match file_uid_lookup(ps, tc.as_slice()) {
                        Some(u) => {
                            push_edge(out, &pf.file_uid, &u, "imports");
                        },
                        None => {},
                    }
                }
            },
            None => {},
        }
        j += 1;
    }
    assert(tv.take(tv.len() as int) == tv);
}

fn push_incoming_edges(out: &mut Vec<Edge>, srcs: &Vec<String>, target: &String)
    ensures
        edge_views(final(out)@) == edge_views(old(out)@) + incoming_edges(views_of(srcs@), target@),
{
    let ghost start = edge_views(out@);
    let ghost sv = views_of(srcs@);
    let mut j: usize = 0;
    while j < srcs.len()
        invariant
            j <= srcs@.len(),
            sv == views_of(srcs@),
            edge_views(out@) == start + incoming_edges(sv.take(j as int), target@),
        decreases srcs@.len() - j,
    {
        assert(sv.take(j + 1).drop_last() == sv.take(j as int));
        assert(sv.take(j + 1).last() == srcs@[j as int]@);
        if !crate::text::chars_eq(chars_of(srcs[j].as_str()).as_slice(), chars_of(target.as_str()).as_slice()) {
            push_edge(out, &srcs[j], target, "imports");
        }
        j += 1;
    }
    assert(sv.take(sv.len() as int) == sv);
}

/// The edges an ingest writes (see `planned_edges`), given each file's
/// resolved imports and the positions of the changed files.
pub fn plan_edges(ps: &Vec<ParsedFile>, rs: &Vec<Vec<Option<String>>>, changed: &Vec<usize>) -> (edges: Vec<Edge>)
    requires
        rs@.len() == ps@.len(),
        forall|i: int| 0 <= i < changed@.len() ==> #[trigger] changed@[i] < ps@.len(),
    ensures
        edge_views(edges@) == planned_edges(ps@, all_opt_views(rs@), changed@),
{
    let ghost rv = all_opt_views(rs@);
    let ghost pos = changed@;
    let mut cands: Vec<Edge> = Vec::new();
    let mut i: usize = 0;
    while i < changed.len()
        invariant
            i <= pos.len(),
            pos == changed@,
            forall|q: int| 0 <= q < pos.len() ==> #[trigger] pos[q] < ps@.len(),
            edge_views(cands@) == member_candidates(ps@, pos.take(i as int)),
        decreases pos.len() - i,
    {
        assert(pos.take(i + 1).drop_last() == pos.take(i as int));
        assert(pos.take(i + 1).last() == pos[i as int]);
        push_member_edges(&mut cands, &ps[changed[i]]);
        i += 1;
    }
    assert(pos.take(pos.len() as int) == pos);
    let ghost m = edge_views(cands@);
    let mut i: usize = 0;
    while i < changed.len()
        invariant
            i <= pos.len(),
            pos == changed@,
            rs@.len() == ps@.len(),
            rv == all_opt_views(rs@),
            forall|q: int| 0 <= q < pos.len() ==> #[trigger] pos[q] < ps@.len(),
            edge_views(cands@) == m + import_candidates(ps@, rv, pos.take(i as int)),
        decreases pos.len() - i,
    {
        assert(pos.take(i + 1).drop_last() == pos.take(i as int));
        assert(pos.take(i + 1).last() == pos[i as int]);
        let p = changed[i];
        assert(rv[p as int] == opt_views(rs@[p as int]@));
        if ps[p].error.is_none() {
            let ghost before = edge_views(cands@);
            push_import_edges(&mut cands, ps, &rs[p], &ps[p]);
            assert(edge_views(cands@) =~= m + import_candidates(ps@, rv, pos.take(i + 1)));
        }
        i += 1;
    }
    assert(pos.take(pos.len() as int) == pos);
    let ghost mi = edge_views(cands@);
    let mut i: usize = 0;
    while i < changed.len()
        invariant
            i <= pos.len(),
            pos == changed@,
            rs@.len() == ps@.len(),
            rv == all_opt_views(rs@),
            forall|q: int| 0 <= q < pos.len() ==> #[trigger] pos[q] < ps@.len(),
            edge_views(cands@) == mi + reverse_candidates(ps@, rv, pos.take(i as int)),
        decreases pos.len() - i,
    {
        assert(pos.take(i + 1).drop_last() == pos.take(i as int));
        assert(pos.take(i + 1).last() == pos[i as int]);
        let p = changed[i];
        if ps[p].error.is_none() {
            let rel = chars_of(ps[p].rel.as_str());
            match file_uid_lookup(ps, rel.as_slice()) {
                Some(target) => {
                    let srcs = sources_for_target(ps, rs, rel.as_slice());
                    push_incoming_edges(&mut cands, &srcs, &target);
                    assert(edge_views(cands@) =~= mi + reverse_candidates(ps@, rv, pos.take(i + 1)));
                },
                None => {},
            }
        }
        i += 1;
    }
    assert(pos.take(pos.len() as int) == pos);
    dedup_edges(cands)
}


/// A stored code chunk as the graph reads it: its id, first line, file,
/// line range and language.
pub struct ChunkRow {
    pub uid: String,
    pub first_line: String,
    pub file_path: Option<String>,
    pub start_line: Option<i64>,
    pub end_line: Option<i64>,
    pub language: Option<String>,
}

/// A node of the code graph: a file or a chunk.
pub struct GraphNode {
    pub uid: String,
    pub label: String,
    pub kind: String,
    pub file_path: Option<String>,
    pub start_line: Option<i64>,
    pub end_line: Option<i64>,
    pub language: Option<String>,
    pub size: usize,
}

pub open spec fn opt_view(o: Option<String>) -> Option<Seq<char>> {
    match o {
        Some(s) => Some(s@),
        None => None,
    }
}

pub type NodeView = (Seq<char>, Seq<char>, Seq<char>, Option<Seq<char>>, Option<i64>, Option<i64>, Option<Seq<char>>, usize);

pub open spec fn node_view(n: GraphNode) -> NodeView {
    (n.uid@, n.label@, n.kind@, opt_view(n.file_path), n.start_line, n.end_line, opt_view(n.language), n.size)
}

pub open spec fn node_views(ns: Seq<GraphNode>) -> Seq<NodeView> {
    ns.map_values(|n: GraphNode| node_view(n))
}

/// The files of the chunks that have one, in chunk order.
pub open spec fn row_paths(rows: Seq<ChunkRow>) -> Seq<Seq<char>>
    decreases rows.len(),
{
    if rows.len() == 0 {
        Seq::empty()
    } else {
        match rows.last().file_path {
            Some(f) => row_paths(rows.drop_last()).push(f@),
            None => row_paths(rows.drop_last()),
        }
    }
}

/// The files the chunks belong to, each once, in `str` order.
pub open spec fn sorted_paths_of(rows: Seq<ChunkRow>, paths: Seq<Seq<char>>) -> bool {
    &&& forall|i: int, j: int| 0 <= i < j < paths.len() ==> crate::text::str_lt(#[trigger] paths[i], #[trigger] paths[j])
    &&& forall|p: Seq<char>| #[trigger] paths.contains(p) <==> row_paths(rows).contains(p)
}

/// The chunks of the file at `path`, in order.
pub open spec fn members_of(rows: Seq<ChunkRow>, path: Seq<char>) -> Seq<ChunkRow>
    decreases rows.len(),
{
    if rows.len() == 0 {
        Seq::empty()
    } else if opt_view(rows.last().file_path) == Some(path) {
        members_of(rows.drop_last(), path).push(rows.last())
    } else {
        members_of(rows.drop_last(), path)
    }
}

/// The last part of a path, after its last slash.
pub open spec fn short_name(path: Seq<char>) -> Seq<char> {
    path.skip(last_index_of(path, '/') + 1)
}

/// The node of a file: its id, short name, the file's path, the language of
/// its first chunk and its number of chunks.
pub open spec fn file_node(project_id: Seq<char>, path: Seq<char>, members: Seq<ChunkRow>) -> NodeView {
    (
        file_uid_of(project_id, strip_all(path, "/"@)),
        short_name(path),
        "file"@,
        Some(path),
        None,
        None,
        if members.len() > 0 { opt_view(members[0].language) } else { None },
        members.len() as usize,
    )
}

/// The number of lines a chunk spans, at least one, as the node's size.
pub open spec fn span_size(r: ChunkRow) -> int {
    let s = match r.start_line { Some(v) => v as int, None => 0 };
    let e = match r.end_line { Some(v) => v as int, None => 0 };
    if e - s + 1 < 1 { 1 } else { e - s + 1 }
}

/// The node of a chunk of the file at `path`.
pub open spec fn chunk_node(r: ChunkRow, path: Seq<char>) -> NodeView {
    (
        r.uid@,
        label_of(r.first_line@),
        node_kind(r.first_line@),
        Some(path),
        r.start_line,
        r.end_line,
        opt_view(r.language),
        span_size(r) as usize,
    )
}

/// The nodes of the files `paths` and of their chunks: each file's node, then
/// its chunks' nodes.
pub open spec fn graph_nodes_of(project_id: Seq<char>, rows: Seq<ChunkRow>, paths: Seq<Seq<char>>) -> Seq<NodeView>
    decreases paths.len(),
{
    if paths.len() == 0 {
        Seq::empty()
    } else {
        let p = paths.last();
        let ms = members_of(rows, p);
        graph_nodes_of(project_id, rows, paths.drop_last()).push(file_node(project_id, p, ms))
            + ms.map_values(|r: ChunkRow| chunk_node(r, p))
    }
}

/// The paths of the file nodes among `ns`, in order.
pub open spec fn file_node_paths(ns: Seq<NodeView>) -> Seq<Seq<char>>
    decreases ns.len(),
{
    if ns.len() == 0 {
        Seq::empty()
    } else {
        let prev = file_node_paths(ns.drop_last());
        let n = ns.last();
        if n.2 == "file"@ && n.3 is Some {
            prev.push(n.3.unwrap())
        } else {
            prev
        }
    }
}

proof fn lemma_file_node_paths_append(a: Seq<NodeView>, b: Seq<NodeView>)
    ensures
        file_node_paths(a + b) == file_node_paths(a) + file_node_paths(b),
    decreases b.len(),
{
    if b.len() == 0 {
        assert(a + b == a);
        assert(file_node_paths(a) + file_node_paths(b) == file_node_paths(a));
    } else {
        lemma_file_node_paths_append(a, b.drop_last());
        assert((a + b).drop_last() == a + b.drop_last());
        assert((a + b).last() == b.last());
    }
}

proof fn lemma_node_kind_not_file(hint: Seq<char>)
    ensures
        node_kind(hint) != "file"@,
{
    reveal_strlit("file");
    reveal_strlit("class");
    reveal_strlit("struct");
    reveal_strlit("function");
    assert("file"@.len() == 4);
    assert("class"@.len() == 5);
    assert("struct"@.len() == 6);
    assert("function"@.len() == 8);
}

proof fn lemma_chunk_nodes_no_file(ms: Seq<ChunkRow>, p: Seq<char>)
    ensures
        file_node_paths(ms.map_values(|r: ChunkRow| chunk_node(r, p))).len() == 0,
    decreases ms.len(),
{
    if ms.len() > 0 {
        lemma_chunk_nodes_no_file(ms.drop_last(), p);
        assert(ms.map_values(|r: ChunkRow| chunk_node(r, p)).drop_last() == ms.drop_last().map_values(
            |r: ChunkRow| chunk_node(r, p),
        ));
        lemma_node_kind_not_file(ms.last().first_line@);
    }
}

proof fn lemma_graph_file_node_paths(project_id: Seq<char>, rows: Seq<ChunkRow>, paths: Seq<Seq<char>>)
    ensures
        file_node_paths(graph_nodes_of(project_id, rows, paths)) == paths,
    decreases paths.len(),
{
    reveal_strlit("file");
    if paths.len() > 0 {
        let init = paths.drop_last();
        let p = paths.last();
        let ms = members_of(rows, p);
        lemma_graph_file_node_paths(project_id, rows, init);
        let a = graph_nodes_of(project_id, rows, init).push(file_node(project_id, p, ms));
        let c = ms.map_values(|r: ChunkRow| chunk_node(r, p));
        lemma_file_node_paths_append(a, c);
        lemma_chunk_nodes_no_file(ms, p);
        assert(a.drop_last() == graph_nodes_of(project_id, rows, init));
        assert(file_node_paths(a) == init.push(p));
        assert(file_node_paths(c) =~= Seq::<Seq<char>>::empty());
        assert(init.push(p) =~= paths);
        assert(file_node_paths(a) + file_node_paths(c) =~= paths);
    }
}

/// A project graph has one file node for each file its chunks name, in
/// `str` order of the paths; no two file nodes share a path.
pub proof fn lemma_graph_file_nodes(project_id: Seq<char>, rows: Seq<ChunkRow>, paths: Seq<Seq<char>>)
    requires
        sorted_paths_of(rows, paths),
    ensures
        file_node_paths(graph_nodes_of(project_id, rows, paths)) == paths,
        forall|p: Seq<char>|
            #[trigger] file_node_paths(graph_nodes_of(project_id, rows, paths)).contains(p) <==> row_paths(rows).contains(p),
        forall|i: int, j: int|
            0 <= i < j < paths.len() ==> crate::text::str_lt(
                #[trigger] file_node_paths(graph_nodes_of(project_id, rows, paths))[i],
                #[trigger] file_node_paths(graph_nodes_of(project_id, rows, paths))[j],
            ) && file_node_paths(graph_nodes_of(project_id, rows, paths))[i] != file_node_paths(
                graph_nodes_of(project_id, rows, paths),
            )[j],
{
    lemma_graph_file_node_paths(project_id, rows, paths);
    assert forall|i: int, j: int| 0 <= i < j < paths.len() implies paths[i] != paths[j] by {
        crate::text::lemma_str_lt_irreflexive(paths[i]);
        assert(crate::text::str_lt(paths[i], paths[j]));
    }
}

/// Chunk rows whose line spans can be measured in 64 bits.
pub open spec fn rows_fit(rows: Seq<ChunkRow>) -> bool {
    forall|i: int| 0 <= i < rows.len() ==> {
        let r = #[trigger] rows[i];
        let s = match r.start_line { Some(v) => v as int, None => 0 };
        let e = match r.end_line { Some(v) => v as int, None => 0 };
        i64::MIN <= e - s && e - s + 1 <= i64::MAX
    }
}

fn sorted_paths(rows: &Vec<ChunkRow>) -> (paths: Vec<String>)
    ensures
        sorted_paths_of(rows@, views_of(paths@)),
{
    let mut paths: Vec<String> = Vec::new();
    let mut i: usize = 0;
    while i < rows.len()
        invariant
            i <= rows@.len(),
            forall|a: int, b: int| 0 <= a < b < paths@.len() ==> crate::text::str_lt(#[trigger] views_of(paths@)[a], #[trigger] views_of(paths@)[b]),
            forall|p: Seq<char>| #[trigger] views_of(paths@).contains(p) <==> row_paths(rows@.take(i as int)).contains(p),
        decreases rows@.len() - i,
    {
        assert(rows@.take(i + 1).drop_last() == rows@.take(i as int));
        assert(rows@.take(i + 1).last() == rows@[i as int]);
        let ghost before = row_paths(rows@.take(i as int));
        match &rows[i].file_path {
            Some(fp) => {
                let x = chars_of(fp.as_str());
                let ghost pv = views_of(paths@);
                assert(row_paths(rows@.take(i + 1)) == before.push(x@));
                let mut p: usize = 0;
                while p < paths.len() && crate::text::chars_lt(chars_of(paths[p].as_str()).as_slice(), x.as_slice())
                    invariant
                        p <= paths@.len(),
                        pv == views_of(paths@),
                        forall|q: int| 0 <= q < p ==> crate::text::str_lt(#[trigger] pv[q], x@),
                    decreases paths@.len() - p,
                {
                    p += 1;
                }
                let present = p < paths.len() && crate::text::chars_eq(chars_of(paths[p].as_str()).as_slice(), x.as_slice());
                if !present {
                    proof {
                        if p < pv.len() {
                            crate::text::lemma_str_lt_total(pv[p as int], x@);
                            assert(crate::text::str_lt(x@, pv[p as int]));
                            assert forall|q: int| p <= q < pv.len() implies crate::text::str_lt(x@, #[trigger] pv[q]) by {
                                if q > p {
                                    crate::text::lemma_str_lt_transitive(x@, pv[p as int], pv[q]);
                                }
                            }
                        }
                    }
                    paths.insert(p, string_of(x.as_slice()));
                    proof {
                        broadcast use vstd::seq_lib::lemma_seq_contains_after_push;
                        let nv = views_of(paths@);
                        assert(nv =~= pv.take(p as int).push(x@) + pv.skip(p as int));
                        assert forall|a: int, b: int| 0 <= a < b < nv.len() implies crate::text::str_lt(#[trigger] nv[a], #[trigger] nv[b]) by {
                            if b < p {
                            } else if b == p {
                            } else if a < p {
                                assert(nv[b] == pv[b - 1]);
                                crate::text::lemma_str_lt_transitive(nv[a], x@, nv[b]);
                            } else if a == p {
                                assert(nv[b] == pv[b - 1]);
                            } else {
                                assert(nv[a] == pv[a - 1]);
                                assert(nv[b] == pv[b - 1]);
                            }
                        }
                        assert forall|y: Seq<char>| #[trigger] nv.contains(y) <==> before.push(x@).contains(y) by {
                            if nv.contains(y) {
                                let a = choose|a: int| 0 <= a < nv.len() && nv[a] == y;
                                if a < p {
                                    assert(pv[a] == y);
                                    assert(pv.contains(y));
                                } else if a > p {
                                    assert(pv[a - 1] == y);
                                    assert(pv.contains(y));
                                }
                            }
                            if before.push(x@).contains(y) {
                                if y == x@ {
                                    assert(nv[p as int] == y);
                                } else {
                                    assert(before.contains(y)) by {
                                        let a = choose|a: int| 0 <= a < before.push(x@).len() && before.push(x@)[a] == y;
                                        assert(before[a] == y);
                                    }
                                    assert(pv.contains(y));
                                    let a = choose|a: int| 0 <= a < pv.len() && pv[a] == y;
                                    if a < p {
                                        assert(nv[a] == y);
                                    } else {
                                        assert(nv[a + 1] == y);
                                    }
                                }
                            }
                        }
                    }
                } else {
                    proof {
                        broadcast use vstd::seq_lib::lemma_seq_contains_after_push;
                        assert(pv[p as int] == x@);
                        assert forall|y: Seq<char>| #[trigger] pv.contains(y) <==> before.push(x@).contains(y) by {
                            if before.push(x@).contains(y) && y != x@ {
                                let a = choose|a: int| 0 <= a < before.push(x@).len() && before.push(x@)[a] == y;
                                assert(before[a] == y);
                                assert(before.contains(y));
                            }
                            if pv.contains(y) {
                                assert(before.contains(y));
                                let a = choose|a: int| 0 <= a < before.len() && before[a] == y;
                                assert(before.push(x@)[a] == y);
                            }
                        }
                    }
                }
            },
            None => {
                assert(row_paths(rows@.take(i + 1)) == before);
            },
        }
        i += 1;
    }
    assert(rows@.take(rows@.len() as int) == rows@);
    paths
}

fn members(rows: &Vec<ChunkRow>, path: &[char]) -> (ms: Vec<usize>)
    ensures
        ms@.map_values(|k: usize| rows@[k as int]) == members_of(rows@, path@),
        forall|q: int| 0 <= q < ms@.len() ==> #[trigger] ms@[q] < rows@.len(),
{
    let mut ms: Vec<usize> = Vec::new();
    let mut i: usize = 0;
    while i < rows.len()
        invariant
            i <= rows@.len(),
            ms@.map_values(|k: usize| rows@[k as int]) == members_of(rows@.take(i as int), path@),
            forall|q: int| 0 <= q < ms@.len() ==> #[trigger] ms@[q] < i,
        decreases rows@.len() - i,
    {
        assert(rows@.take(i + 1).drop_last() == rows@.take(i as int));
        assert(rows@.take(i + 1).last() == rows@[i as int]);
        let hit = match &rows[i].file_path {
            Some(fp) => crate::text::chars_eq(chars_of(fp.as_str()).as_slice(), path),
            None => false,
        };
        if hit {
            let ghost before = ms@;
            ms.push(i);
            assert(ms@.map_values(|k: usize| rows@[k as int]) =~= before.map_values(|k: usize| rows@[k as int]).push(rows@[i as int]));
        }
        i += 1;
    }
    assert(rows@.take(rows@.len() as int) == rows@);
    ms
}

fn copy_opt(o: &Option<String>) -> (r: Option<String>)
    ensures
        opt_view(r) == opt_view(*o),
{
    match o {
        Some(s) => Some(string_of(chars_of(s.as_str()).as_slice())),
        None => None,
    }
}

fn chunk_node_of(r: &ChunkRow, path: &String) -> (n: GraphNode)
    requires
        rows_fit(seq![*r]),
    ensures
        node_view(n) == chunk_node(*r, path@),
{
    assert(seq![*r][0] == *r);
    let s: i64 = match r.start_line { Some(v) => v, None => 0 };
    let e: i64 = match r.end_line { Some(v) => v, None => 0 };
    let d0: i64 = e - s;
    let d: i64 = d0 + 1;
    let size: i64 = if d < 1 { 1 } else { d };
    GraphNode {
        uid: string_of(chars_of(r.uid.as_str()).as_slice()),
        label: derive_label(r.first_line.as_str()),
        kind: node_kind_of(r.first_line.as_str()),
        file_path: Some(string_of(chars_of(path.as_str()).as_slice())),
        start_line: r.start_line,
        end_line: r.end_line,
        language: copy_opt(&r.language),
        size: #[verifier::truncate] (size as usize),
    }
}

/// The nodes of a project's code graph, from its stored chunks (see
/// `graph_nodes_of`): the files in `str` order, each followed by its chunks.
pub fn graph_nodes(project_id: &str, rows: &Vec<ChunkRow>) -> (nodes: Vec<GraphNode>)
    requires
        rows_fit(rows@),
    ensures
        exists|paths: Seq<Seq<char>>| sorted_paths_of(rows@, paths) && node_views(nodes@) == graph_nodes_of(project_id@, rows@, paths),
{
    let paths = sorted_paths(rows);
    let ghost pv = views_of(paths@);
    let mut nodes: Vec<GraphNode> = Vec::new();
    let mut i: usize = 0;
    while i < paths.len()
        invariant
            i <= paths@.len(),
            pv == views_of(paths@),
            rows_fit(rows@),
            node_views(nodes@) == graph_nodes_of(project_id@, rows@, pv.take(i as int)),
        decreases paths@.len() - i,
    {
        assert(pv.take(i + 1).drop_last() == pv.take(i as int));
        assert(pv.take(i + 1).last() == paths@[i as int]@);
        let path = &paths[i];
        let pc = chars_of(path.as_str());
        let ms = members(rows, pc.as_slice());
        let ghost mv = members_of(rows@, path@);
        let stripped = strip_all_chars(pc.as_slice(), chars_of("/").as_slice());
        proof {
            lemma_last_index_of(pc@, '/');
        }
        let plen = pc.len();
        let k: usize = match crate::text::find_last_char(pc.as_slice(), '/') {
            Some(j) => {
                assert(j < plen);
                j + 1
            },
            None => 0,
        };
        let short = crate::project::tail(pc.as_slice(), k);
        let language = if ms.len() > 0 {
            assert(mv[0] == rows@[ms@[0] as int]);
            copy_opt(&rows[ms[0]].language)
        } else {
            None
        };
        let ghost before = node_views(nodes@);
        nodes.push(GraphNode {
            uid: file_uid(project_id, string_of(stripped.as_slice()).as_str()),
            label: string_of(short.as_slice()),
            kind: "file".to_owned(),
            file_path: Some(string_of(pc.as_slice())),
            start_line: None,
            end_line: None,
            language,
            size: ms.len(),
        });
        assert(node_views(nodes@) =~= before.push(file_node(project_id@, path@, mv)));
        let ghost mid = node_views(nodes@);
        let mut q: usize = 0;
        while q < ms.len()
            invariant
                q <= ms@.len(),
                rows_fit(rows@),
                forall|t: int| 0 <= t < ms@.len() ==> #[trigger] ms@[t] < rows@.len(),
                ms@.map_values(|k: usize| rows@[k as int]) == mv,
                node_views(nodes@) == mid + mv.take(q as int).map_values(|r: ChunkRow| chunk_node(r, path@)),
            decreases ms@.len() - q,
        {
            let r = &rows[ms[q]];
            assert(mv[q as int] == rows@[ms@[q as int] as int]);
            assert(rows_fit(seq![*r])) by {
                assert(seq![*r][0] == rows@[ms@[q as int] as int]);
            }
            let ghost b2 = node_views(nodes@);
            let node = chunk_node_of(r, path);
            nodes.push(node);
            assert(node_views(nodes@) =~= b2.push(chunk_node(mv[q as int], path@)));
            assert(mv.take(q + 1).map_values(|r: ChunkRow| chunk_node(r, path@)) =~= mv.take(q as int).map_values(|r: ChunkRow| chunk_node(r, path@)).push(chunk_node(mv[q as int], path@)));
            q += 1;
        }
        assert(mv.take(mv.len() as int) == mv);
        i += 1;
    }
    assert(pv.take(pv.len() as int) == pv);
    nodes
}


/// How an import names the file it brings in: a path relative to the
/// importing file's folder or to the project root, with its leading dots and
/// slashes removed, or a module name to look up by file stem.
pub enum ImportKey {
    Relative { from_root: bool, rest: String },
    Stem(String),
}

/// The part of `s` before the first occurrence of `sep` (all of `s` when it
/// does not occur), as `split(sep).next()` gives it.
pub open spec fn before_first(s: Seq<char>, sep: Seq<char>) -> Seq<char>
    decreases s.len(),
{
    if sep.len() == 0 || s.len() < sep.len() {
        s
    } else if starts_with(s, sep) {
        Seq::empty()
    } else {
        seq![s[0]] + before_first(s.drop_first(), sep)
    }
}

/// The key of an import: after dropping leading `crate::`, `self::` and
/// `super::`, an import that starts with `./`, `../` or `/` is a path;
/// anything else is looked up by its first `::` segment's part before a dot.
pub open spec fn import_key_of(import: Seq<char>) -> (bool, bool, Seq<char>) {
    let s = strip_all(strip_all(strip_all(import, "crate::"@), "self::"@), "super::"@);
    if starts_with(s, "./"@) || starts_with(s, "../"@) || starts_with(s, "/"@) {
        (true, starts_with(s, "/"@), strip_all(strip_all(s, "."@), "/"@))
    } else {
        (false, false, before_first(before_first(s, "::"@), "."@))
    }
}

proof fn lemma_strip_all_prefix(p: Seq<char>, x: Seq<char>)
    requires
        p.len() > 0,
    ensures
        strip_all(p + x, p) == strip_all(x, p),
{
    assert((p + x).take(p.len() as int) =~= p);
    assert((p + x).skip(p.len() as int) =~= x);
}

/// The leading `crate::`, `self::` and `super::` of a Rust path do not
/// change what it resolves to: `crate::x` has the key of `x` for every `x`,
/// and so do `super::x` and `self::x` when `x` does not itself start with
/// `crate::` (nor, for `super::x`, with `self::`), as the prefixes are
/// dropped in that order. So `super::db::Conn` is looked up as `db`.
pub proof fn lemma_import_prefixes_dropped(x: Seq<char>)
    ensures
        import_key_of("crate::"@ + x) == import_key_of(x),
        !starts_with(x, "crate::"@) ==> import_key_of("self::"@ + x) == import_key_of(x),
        !starts_with(x, "crate::"@) && !starts_with(x, "self::"@) ==> import_key_of("super::"@ + x)
            == import_key_of(x),
{
    reveal_strlit("crate::");
    reveal_strlit("self::");
    reveal_strlit("super::");
    let c = "crate::"@;
    let sf = "self::"@;
    let sp = "super::"@;
    lemma_strip_all_prefix(c, x);
    let sx = sf + x;
    assert(!starts_with(sx, c)) by {
        if starts_with(sx, c) {
            assert(sx.take(7)[0] == c[0]);
        }
    }
    lemma_strip_all_prefix(sf, x);
    let px = sp + x;
    assert(!starts_with(px, c)) by {
        if starts_with(px, c) {
            assert(px.take(7)[0] == c[0]);
        }
    }
    assert(!starts_with(px, sf)) by {
        if starts_with(px, sf) {
            assert(px.take(6)[1] == sf[1]);
        }
    }
    lemma_strip_all_prefix(sp, x);
}

fn before_first_chars(s: &[char], sep: &[char]) -> (r: Vec<char>)
    ensures
        r@ == before_first(s@, sep@),
{
    if sep.len() == 0 {
        return crate::text::copy_chars(s);
    }
    let mut k: usize = 0;
    assert(s@.skip(0) == s@);
    while sep.len() <= s.len() - k && !crate::text::matches_at(s, sep, k)
        invariant
            k <= s@.len(),
            sep@.len() > 0,
            before_first(s@, sep@) == s@.take(k as int) + before_first(s@.skip(k as int), sep@),
        decreases s@.len() - k,
    {
        proof {
            let t = s@.skip(k as int);
            assert(t.take(sep@.len() as int) == s@.subrange(k as int, k + sep@.len()));
            assert(t.drop_first() == s@.skip(k + 1));
            assert(s@.take(k + 1) == s@.take(k as int) + seq![t[0]]);
        }
        k += 1;
    }
    proof {
        let t = s@.skip(k as int);
        if sep@.len() <= s@.len() - k {
            assert(t.take(sep@.len() as int) == s@.subrange(k as int, k + sep@.len()));
        } else {
            assert(s@.take(k as int) + t == s@);
        }
    }
    crate::project::tail_take(s, if sep.len() <= s.len() - k { k } else { s.len() })
}

/// The key an import is resolved by (see `import_key_of`).
pub fn import_key(import: &str) -> (k: ImportKey)
    ensures
        match k {
            ImportKey::Relative { from_root, rest } => import_key_of(import@) == (true, from_root, rest@),
            ImportKey::Stem(s) => import_key_of(import@) == (false, false, s@),
        },
{
    let a = strip_all_chars(chars_of(import).as_slice(), chars_of("crate::").as_slice());
    let b = strip_all_chars(a.as_slice(), chars_of("self::").as_slice());
    let s = strip_all_chars(b.as_slice(), chars_of("super::").as_slice());
    let rooted = starts_with_chars(s.as_slice(), chars_of("/").as_slice());
    if starts_with_chars(s.as_slice(), chars_of("./").as_slice()) || starts_with_chars(
        s.as_slice(),
        chars_of("../").as_slice(),
    ) || rooted {
        let d = strip_all_chars(s.as_slice(), chars_of(".").as_slice());
        let rest = strip_all_chars(d.as_slice(), chars_of("/").as_slice());
        ImportKey::Relative { from_root: rooted, rest: string_of(rest.as_slice()) }
    } else {
        let first = before_first_chars(s.as_slice(), chars_of("::").as_slice());
        let stem = before_first_chars(first.as_slice(), chars_of(".").as_slice());
        ImportKey::Stem(string_of(stem.as_slice()))
    }
}

/// The extensions tried, in order, for a path import without one, and for
/// an `index` file inside a folder.
pub open spec fn candidate_exts() -> Seq<Seq<char>> {
    seq!["ts"@, "tsx"@, "js"@, "jsx"@, "mjs"@, "cjs"@, "rs"@, "py"@, "go"@]
}

/// The extensions tried for a path import (see `candidate_exts`).
pub fn candidate_extensions() -> (v: Vec<&'static str>)
    ensures
        v@.map_values(|s: &'static str| s@) == candidate_exts(),
{
    let v: Vec<&'static str> = vec!["ts", "tsx", "js", "jsx", "mjs", "cjs", "rs", "py", "go"];
    assert(v@.map_values(|s: &'static str| s@) =~= candidate_exts());
    v
}

/// The first file, among the walked files given as (stem, path below the
/// root) in walk order, whose stem is `stem`.
pub open spec fn first_with_stem(files: Seq<(Seq<char>, Seq<char>)>, stem: Seq<char>) -> Option<Seq<char>>
    decreases files.len(),
{
    if files.len() == 0 {
        None
    } else if files[0].0 == stem {
        Some(files[0].1)
    } else {
        first_with_stem(files.drop_first(), stem)
    }
}

pub open spec fn pair_views(v: Seq<(String, String)>) -> Seq<(Seq<char>, Seq<char>)> {
    v.map_values(|p: (String, String)| (p.0@, p.1@))
}

/// The file an import names by stem (see `first_with_stem`).
pub fn find_by_stem(files: &Vec<(String, String)>, stem: &str) -> (r: Option<String>)
    ensures
        match first_with_stem(pair_views(files@), stem@) {
            Some(p) => r matches Some(x) && x@ == p,
            None => r is None,
        },
{
    let ghost fv = pair_views(files@);
    let target = chars_of(stem);
    let mut k: usize = 0;
    assert(fv.skip(0) == fv);
    while k < files.len()
        invariant
            k <= files@.len(),
            fv == pair_views(files@),
            target@ == stem@,
            first_with_stem(fv, stem@) == first_with_stem(fv.skip(k as int), stem@),
        decreases files@.len() - k,
    {
        assert(fv.skip(k as int).drop_first() == fv.skip(k + 1));
        assert(fv.skip(k as int)[0] == (files@[k as int].0@, files@[k as int].1@));
        if crate::text::chars_eq(chars_of(files[k].0.as_str()).as_slice(), target.as_slice()) {
            return Some(string_of(chars_of(files[k].1.as_str()).as_slice()));
        }
        k += 1;
    }
    None
}


/// The edges written hold each edge once, and exactly the edges planned.
pub proof fn lemma_dedup(es: Seq<(Seq<char>, Seq<char>, Seq<char>)>)
    ensures
        forall|i: int, j: int| 0 <= i < j < dedup(es).len() ==> #[trigger] dedup(es)[i] != #[trigger] dedup(es)[j],
        forall|e: (Seq<char>, Seq<char>, Seq<char>)| #[trigger] dedup(es).contains(e) <==> es.contains(e),
    decreases es.len(),
{
    broadcast use vstd::seq_lib::lemma_seq_contains_after_push;
    if es.len() > 0 {
        lemma_dedup(es.drop_last());
        let d = dedup(es.drop_last());
        assert forall|e: (Seq<char>, Seq<char>, Seq<char>)| #[trigger] dedup(es).contains(e) <==> es.contains(e) by {
            assert(es == es.drop_last().push(es.last()));
        }
        if !d.contains(es.last()) {
            assert forall|i: int, j: int| 0 <= i < j < dedup(es).len() implies #[trigger] dedup(es)[i] != #[trigger] dedup(es)[j] by {
                if j == d.len() {
                    assert(dedup(es)[i] == d[i]);
                } else {
                    assert(dedup(es)[i] == d[i]);
                    assert(dedup(es)[j] == d[j]);
                }
            }
        }
    }
}

/// Every chunk of a file covers its own span of lines: its first line comes
/// no later than its last, runs at most two hundred lines further, and no two
/// chunks cover the same span.
pub proof fn lemma_chunk_spans(ls: Seq<Seq<char>>, caps: Seq<Capture>)
    requires
        forall|i: int| 0 <= i < caps.len() && is_chunk_kind(#[trigger] caps[i].kind@) ==> caps[i].start_row < ls.len() && caps[i].start_row <= caps[i].end_row,
    ensures
        forall|i: int| 0 <= i < chunk_state(ls, caps).len() ==> {
            let c = #[trigger] chunk_state(ls, caps)[i];
            1 <= c.1 <= c.2 <= c.1 + MAX_CHUNK_ROWS
        },
        forall|i: int, j: int| 0 <= i < j < chunk_state(ls, caps).len() ==> !(#[trigger] chunk_state(ls, caps)[i].1 == #[trigger] chunk_state(ls, caps)[j].1 && chunk_state(ls, caps)[i].2 == chunk_state(ls, caps)[j].2),
    decreases caps.len(),
{
    if caps.len() > 0 {
        assert forall|i: int| 0 <= i < caps.drop_last().len() && is_chunk_kind(#[trigger] caps.drop_last()[i].kind@) implies caps.drop_last()[i].start_row < ls.len() && caps.drop_last()[i].start_row <= caps.drop_last()[i].end_row by {
            assert(caps.drop_last()[i] == caps[i]);
        }
        lemma_chunk_spans(ls, caps.drop_last());
        let prev = chunk_state(ls, caps.drop_last());
        let c = caps.last();
        assert(c == caps[caps.len() - 1]);
        let cur = chunk_state(ls, caps);
        assert forall|i: int| 0 <= i < cur.len() implies {
            let x = #[trigger] cur[i];
            1 <= x.1 <= x.2 <= x.1 + MAX_CHUNK_ROWS
        } by {
            if i < prev.len() {
                assert(cur[i] == prev[i]);
            }
        }
        assert forall|i: int, j: int| 0 <= i < j < cur.len() implies !(#[trigger] cur[i].1 == #[trigger] cur[j].1 && cur[i].2 == cur[j].2) by {
            if j < prev.len() {
                assert(cur[i] == prev[i]);
                assert(cur[j] == prev[j]);
            } else {
                assert(cur[i] == prev[i]);
            }
        }
    }
}

/// A group of files `a..b` that one insert may carry: not empty, and at most
/// the limit of chunks unless only one of its files has any.
pub open spec fn group_ok(ns: Seq<usize>, a: int, b: int) -> bool {
    &&& 0 <= a < b <= ns.len()
    &&& (sum_range(ns, a, b) <= SQL_INSERT_CHUNK_LIMIT || nonzero_count(ns, a, b) <= 1)
}

/// The groups written so far and the open group, after reading `ns`: each
/// written group is one an insert may carry, they follow each other from the
/// first file without gap, and the open group starts where they end and
/// holds its files' chunks, within the limit unless only one of its files has
/// any.
pub open spec fn groups_wf(ns: Seq<usize>, done: Seq<(int, int)>, start: int, count: int) -> bool {
    &&& 0 <= start <= ns.len()
    &&& count == sum_range(ns, start, ns.len() as int)
    &&& (count <= SQL_INSERT_CHUNK_LIMIT || nonzero_count(ns, start, ns.len() as int) <= 1)
    &&& forall|i: int| 0 <= i < done.len() ==> group_ok(ns, (#[trigger] done[i]).0, done[i].1)
    &&& forall|i: int| 0 <= i < done.len() - 1 ==> (#[trigger] done[i]).1 == done[i + 1].0
    &&& (done.len() > 0 ==> done[0].0 == 0 && done.last().1 == start)
    &&& (done.len() == 0 ==> start == 0)
}

/// Every insert carries at most the limit of chunks, unless one file alone
/// has more; the inserts cover the files in order, without gap or overlap.
pub proof fn lemma_insert_groups(ns: Seq<usize>)
    ensures
        groups_wf(ns, group_state(ns).0, group_state(ns).1, group_state(ns).2),
    decreases ns.len(),
{
    if ns.len() > 0 {
        let p = ns.drop_last();
        lemma_insert_groups(p);
        let (done0, start0, count0) = group_state(p);
        let k = ns.len() - 1;
        let n = ns.last() as int;
        assert(ns[k] == ns.last());
        lemma_sum_range_prefix(ns, start0, k);
        lemma_nonzero_prefix(ns, start0, k);
        assert forall|i: int| 0 <= i < done0.len() implies group_ok(ns, (#[trigger] done0[i]).0, done0[i].1) by {
            assert(group_ok(p, done0[i].0, done0[i].1));
            lemma_sum_range_prefix(ns, done0[i].0, done0[i].1);
            lemma_nonzero_prefix(ns, done0[i].0, done0[i].1);
        }
        lemma_sum_range_extend(ns, start0, k);
        lemma_nonzero_extend(ns, start0, k);
        if count0 + n > SQL_INSERT_CHUNK_LIMIT && count0 > 0 {
            let done = done0.push((start0, k));
            lemma_sum_nonneg(ns, start0, start0);
            if start0 == k {
                assert(sum_range(ns, start0, k) == 0);
            }
            assert(group_ok(ns, start0, k));
            lemma_sum_range_extend(ns, k, k);
            lemma_nonzero_extend(ns, k, k);
            assert forall|i: int| 0 <= i < done.len() implies group_ok(ns, (#[trigger] done[i]).0, done[i].1) by {
                if i < done0.len() {
                    assert(done[i] == done0[i]);
                }
            }
            assert forall|i: int| 0 <= i < done.len() - 1 implies (#[trigger] done[i]).1 == done[i + 1].0 by {
                assert(done[i] == done0[i]);
                if i + 1 < done0.len() {
                    assert(done[i + 1] == done0[i + 1]);
                }
            }
            assert(groups_wf(ns, done, k, n));
        } else {
            lemma_sum_nonneg(ns, start0, k);
            if count0 == 0 {
                lemma_sum_zero(ns, start0, k);
            }
            assert(count0 == sum_range(ns, start0, k));
            assert(count0 + n == sum_range(ns, start0, ns.len() as int));
            assert(count0 + n <= SQL_INSERT_CHUNK_LIMIT || nonzero_count(ns, start0, ns.len() as int) <= 1);
            assert(forall|i: int| 0 <= i < done0.len() - 1 ==> (#[trigger] done0[i]).1 == done0[i + 1].0);
            assert(groups_wf(ns, done0, start0, count0 + n));
        }
    }
}

/// The sum of `ns` over positions `a..b`.
pub open spec fn sum_range(ns: Seq<usize>, a: int, b: int) -> int
    decreases b - a,
{
    if b <= a {
        0
    } else {
        sum_range(ns, a, b - 1) + ns[b - 1]
    }
}

/// How many of the positions `a..b` of `ns` are not zero.
pub open spec fn nonzero_count(ns: Seq<usize>, a: int, b: int) -> int
    decreases b - a,
{
    if b <= a {
        0
    } else {
        nonzero_count(ns, a, b - 1) + if ns[b - 1] != 0 { 1int } else { 0int }
    }
}

proof fn lemma_sum_range_prefix(ns: Seq<usize>, a: int, b: int)
    requires
        0 <= a <= b < ns.len(),
    ensures
        sum_range(ns, a, b) == sum_range(ns.drop_last(), a, b),
    decreases b - a,
{
    if b > a {
        lemma_sum_range_prefix(ns, a, b - 1);
    }
}

proof fn lemma_nonzero_prefix(ns: Seq<usize>, a: int, b: int)
    requires
        0 <= a <= b < ns.len(),
    ensures
        nonzero_count(ns, a, b) == nonzero_count(ns.drop_last(), a, b),
    decreases b - a,
{
    if b > a {
        lemma_nonzero_prefix(ns, a, b - 1);
    }
}

proof fn lemma_sum_range_extend(ns: Seq<usize>, a: int, b: int)
    requires
        0 <= a <= b < ns.len(),
    ensures
        sum_range(ns, a, b + 1) == sum_range(ns, a, b) + ns[b],
{
}

proof fn lemma_nonzero_extend(ns: Seq<usize>, a: int, b: int)
    requires
        0 <= a <= b < ns.len(),
    ensures
        nonzero_count(ns, a, b + 1) == nonzero_count(ns, a, b) + if ns[b] != 0 { 1int } else { 0int },
{
}

proof fn lemma_nonzero_pos(ns: Seq<usize>, a: int, b: int)
    requires
        0 <= a <= b <= ns.len(),
        sum_range(ns, a, b) > 0,
    ensures
        nonzero_count(ns, a, b) >= 1,
    decreases b - a,
{
    if b > a && ns[b - 1] == 0 {
        lemma_nonzero_pos(ns, a, b - 1);
    } else if b > a {
        lemma_nonzero_nonneg(ns, a, b - 1);
    }
}

proof fn lemma_nonzero_nonneg(ns: Seq<usize>, a: int, b: int)
    ensures
        nonzero_count(ns, a, b) >= 0,
    decreases b - a,
{
    if b > a {
        lemma_nonzero_nonneg(ns, a, b - 1);
    }
}

proof fn lemma_sum_zero(ns: Seq<usize>, a: int, b: int)
    requires
        0 <= a <= b <= ns.len(),
        sum_range(ns, a, b) == 0,
    ensures
        nonzero_count(ns, a, b) == 0,
    decreases b - a,
{
    if b > a {
        lemma_sum_nonneg(ns, a, b - 1);
        lemma_sum_zero(ns, a, b - 1);
    }
}

proof fn lemma_sum_nonneg(ns: Seq<usize>, a: int, b: int)
    requires
        0 <= a <= b <= ns.len(),
    ensures
        sum_range(ns, a, b) >= 0,
    decreases b - a,
{
    if b > a {
        lemma_sum_nonneg(ns, a, b - 1);
    }
}

} // verus!
