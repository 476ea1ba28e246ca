//! The arguments and answers of the desktop commands, and the logic of the
//! commands that install the memory server into an agent's configuration.
use vstd::prelude::*;

use crate::error::{BiError, BiResult};
use crate::text::{
    append_chars, chars_of, ends_with_two_newlines, is_literal, is_ws, line_state,
    lines, split_lines, starts_with, starts_with_chars, string_of, strip_cr, trim, trim_chars,
    trim_start, TrimSet,
};

verus! {

/// Arguments of a memory search.
pub struct SearchArgs {
    pub project_id: Option<String>,
    pub query: String,
    pub k: Option<usize>,
    pub mem_type: Option<String>,
}

/// How many results a search returns when the caller names no number.
pub const DEFAULT_SEARCH_K: usize = 10;

impl SearchArgs {
    /// The number of results asked for, ten when none is named.
    pub fn k_or_default(&self) -> (k: usize)
        ensures
            k == match self.k {
                Some(n) => n,
                None => DEFAULT_SEARCH_K,
            },
    {
        match self.k {
            Some(n) => n,
            None => DEFAULT_SEARCH_K,
        }
    }

    /// The project searched; an absent one is the empty id.
    pub fn project_or_empty(&self) -> (p: String)
        ensures
            p@ == match self.project_id {
                Some(q) => q@,
                None => Seq::<char>::empty(),
            },
    {
        match &self.project_id {
            Some(q) => q.clone(),
            None => String::new(),
        }
    }
}

/// Feedback on one recalled memory.
pub struct RecallFeedbackArgs {
    pub recall_id: String,
    pub memory_uid: String,
    pub value: i8,
    pub source: Option<String>,
}

impl RecallFeedbackArgs {
    /// Where the feedback came from; `explicit` unless the caller says.
    pub fn source_or_default(&self) -> (s: String)
        ensures
            s@ == match self.source {
                Some(q) => q@,
                None => "explicit"@,
            },
    {
        match &self.source {
            Some(q) => q.clone(),
            None => "explicit".to_owned(),
        }
    }
}

/// Arguments of a code ingest.
pub struct IngestArgs {
    pub project_id: String,
    pub root_path: String,
}

/// Arguments of an ingest of several projects: pairs of project id and root.
pub struct MultiIngestArgs {
    pub projects: Vec<(String, String)>,
}

/// What starting an ingest answers.
pub struct IngestJobResponse {
    pub job_id: String,
    pub project_id: String,
}

impl IngestJobResponse {
    /// The answer for an ingest of one project.
    pub fn single(job_id: String, project_id: String) -> (r: Self)
        ensures
            r.job_id@ == job_id@,
            r.project_id@ == project_id@,
    {
        IngestJobResponse { job_id, project_id }
    }

    /// The answer for an ingest of several projects, reported under the id
    /// `multiple`.
    pub fn multiple(job_id: String) -> (r: Self)
        ensures
            r.job_id@ == job_id@,
            r.project_id@ == "multiple"@,
    {
        IngestJobResponse { job_id, project_id: "multiple".to_owned() }
    }
}

/// The event sent when an ingest ended well.
pub struct IngestDone {
    pub job_id: String,
    pub project_id: String,
    pub files_indexed: usize,
    pub chunks_indexed: usize,
    pub edges_created: usize,
    pub elapsed_ms: u64,
}

/// The event sent when an ingest failed.
pub struct IngestError {
    pub job_id: String,
    pub project_id: String,
    pub error: String,
}

/// The event sent when an ingest of several projects ended.
pub struct MultiIngestDone {
    pub job_id: String,
    pub total_files_indexed: usize,
    pub total_chunks_indexed: usize,
    pub total_edges_created: usize,
    pub elapsed_ms: u64,
    pub results: Vec<crate::ingest::IngestResult>,
}

/// Arguments of a code graph request.
pub struct GraphArgs {
    pub project_id: String,
}

/// Arguments of a folder import.
pub struct ImportArgs {
    pub project_id: String,
    pub root_path: String,
}

/// The refusal of an import into a project that does not exist.
pub fn import_missing_project(project_id: &str) -> (e: BiError)
    ensures
        e matches BiError::Invalid(m) && m@ == "project '"@ + project_id@
            + "' does not exist \u{2014} create it first"@,
{
    let mut m: Vec<char> = chars_of("project '");
    append_chars(&mut m, chars_of(project_id).as_slice());
    append_chars(&mut m, chars_of("' does not exist \u{2014} create it first").as_slice());
    BiError::Invalid(string_of(m.as_slice()))
}

/// The refusal of an import from a folder that is not on disk.
pub fn import_missing_root(root_path: &str) -> (e: BiError)
    ensures
        e matches BiError::Invalid(m) && m@ == "root_path '"@ + root_path@
            + "' does not exist on disk"@,
{
    let mut m: Vec<char> = chars_of("root_path '");
    append_chars(&mut m, chars_of(root_path).as_slice());
    append_chars(&mut m, chars_of("' does not exist on disk").as_slice());
    BiError::Invalid(string_of(m.as_slice()))
}

/// Arguments of an export.
pub struct ExportArgs {
    pub project_id: Option<String>,
    pub output_path: String,
}

/// Arguments of turning a folder watch on or off.
pub struct WatchArgs {
    pub project_id: String,
    pub root_path: Option<String>,
    pub enabled: bool,
}

/// Arguments of setting a project's embedding model.
pub struct SetModelArgs {
    pub project_id: String,
    pub model: Option<String>,
}

/// Where the memory server's program was found.
pub struct ResolveMcpBinaryResult {
    pub path: String,
    pub is_absolute: bool,
}

/// The file name of the memory server's program.
pub fn mcp_binary_name(windows: bool) -> (name: &'static str)
    ensures
        name@ == if windows {
            "biturbo-mcp.exe"@
        } else {
            "biturbo-mcp"@
        },
{
    if windows {
        "biturbo-mcp.exe"
    } else {
        "biturbo-mcp"
    }
}

impl ResolveMcpBinaryResult {
    /// A program found at an absolute path.
    pub fn found(path: String) -> (r: Self)
        ensures
            r.path@ == path@,
            r.is_absolute,
    {
        ResolveMcpBinaryResult { path, is_absolute: true }
    }

    /// No program found: the bare name, left to the search path.
    pub fn fallback() -> (r: Self)
        ensures
            r.path@ == "biturbo-mcp"@,
            !r.is_absolute,
    {
        ResolveMcpBinaryResult { path: "biturbo-mcp".to_owned(), is_absolute: false }
    }
}

/// Arguments of installing the memory server into an agent's configuration.
pub struct InstallMcpConfigArgs {
    pub target: String,
}

/// What installing the memory server did.
pub struct InstallMcpConfigResult {
    pub target: String,
    pub path: String,
    pub created: bool,
    pub merged: bool,
}

impl InstallMcpConfigResult {
    /// The report for a configuration file that existed before or not.
    pub fn new(target: String, path: String, existed: bool) -> (r: Self)
        ensures
            r.target@ == target@,
            r.path@ == path@,
            r.created == !existed,
            r.merged == existed,
    {
        InstallMcpConfigResult { target, path, created: !existed, merged: existed }
    }
}

/// The shape of an agent's configuration file.
#[derive(Clone, Copy, PartialEq, Eq, Structural)]
pub enum ConfigFormat {
    /// `{"mcpServers": {"biturbo": {...}}}` (Cursor, Windsurf)
    JsonCursor,
    /// `{"mcp": {"biturbo": {...}}}`
    JsonOpencode,
    /// A `[mcp_servers.biturbo]` table.
    TomlCodex,
}

/// Where an agent keeps its configuration: the path below the home folder,
/// one component per entry, and the file's shape.
pub open spec fn install_location(target: Seq<char>, macos: bool) -> Option<
    (Seq<Seq<char>>, ConfigFormat),
> {
    if target == "cursor"@ {
        Some((seq![".cursor"@, "mcp.json"@], ConfigFormat::JsonCursor))
    } else if target == "windsurf"@ {
        Some((seq![".codeium"@, "windsurf"@, "mcp_config.json"@], ConfigFormat::JsonCursor))
    } else if target == "opencode"@ {
        if macos {
            Some(
                (
                    seq!["Library"@, "Application Support"@, "opencode"@, "opencode.json"@],
                    ConfigFormat::JsonOpencode,
                ),
            )
        } else {
            Some((seq![".config"@, "opencode"@, "opencode.json"@], ConfigFormat::JsonOpencode))
        }
    } else if target == "codex"@ {
        Some((seq![".codex"@, "config.toml"@], ConfigFormat::TomlCodex))
    } else {
        None
    }
}

pub open spec fn string_views(v: Seq<String>) -> Seq<Seq<char>> {
    v.map_values(|s: String| s@)
}

fn strings_of(parts: &[&str]) -> (r: Vec<String>)
    ensures
        r@.len() == parts@.len(),
        forall|i: int| 0 <= i < parts@.len() ==> #[trigger] r@[i]@ == parts@[i]@,
{
    let mut r: Vec<String> = Vec::new();
    let mut i: usize = 0;
    while i < parts.len()
        invariant
            i <= parts@.len(),
            r@.len() == i,
            forall|j: int| 0 <= j < i ==> #[trigger] r@[j]@ == parts@[j]@,
        decreases parts@.len() - i,
    {
        r.push(parts[i].to_owned());
        i += 1;
    }
    r
}

/// Where the configuration of `target` lives and its shape; an unknown target
/// is refused with `unknown target: ` and its name.
pub fn install_target(target: &str, macos: bool) -> (r: BiResult<(Vec<String>, ConfigFormat)>)
    ensures
        match install_location(target@, macos) {
            Some((parts, format)) => r matches Ok((p, f)) && string_views(p@) == parts && f
                == format,
            None => r matches Err(BiError::Invalid(m)) && m@ == "unknown target: "@ + target@,
        },
{
    let t = chars_of(target);
    let res: (Vec<String>, ConfigFormat) = if is_literal(t.as_slice(), "cursor") {
        (strings_of(&[".cursor", "mcp.json"]), ConfigFormat::JsonCursor)
    } else if is_literal(t.as_slice(), "windsurf") {
        (strings_of(&[".codeium", "windsurf", "mcp_config.json"]), ConfigFormat::JsonCursor)
    } else if is_literal(t.as_slice(), "opencode") {
        if macos {
            (
                strings_of(&["Library", "Application Support", "opencode", "opencode.json"]),
                ConfigFormat::JsonOpencode,
            )
        } else {
            (strings_of(&[".config", "opencode", "opencode.json"]), ConfigFormat::JsonOpencode)
        }
    } else if is_literal(t.as_slice(), "codex") {
        (strings_of(&[".codex", "config.toml"]), ConfigFormat::TomlCodex)
    } else {
        let mut m: Vec<char> = chars_of("unknown target: ");
        append_chars(&mut m, t.as_slice());
        return Err(BiError::Invalid(string_of(m.as_slice())));
    };
    proof {
        let (p, f) = res;
        assert(string_views(p@) =~= install_location(target@, macos).unwrap().0);
    }
    Ok(res)
}

/// The header of the memory server's table in a Codex configuration.
pub open spec fn codex_header() -> Seq<char> {
    "[mcp_servers.biturbo]"@
}

/// The kept text and whether the lines read are inside the old table, after
/// reading `ls`: a table header other than ours ends the skipped part, our own
/// header starts it, and kept lines keep their text with a newline.
pub open spec fn codex_state(ls: Seq<Seq<char>>) -> (Seq<char>, bool)
    decreases ls.len(),
{
    if ls.len() == 0 {
        (Seq::empty(), false)
    } else {
        let (out, skip0) = codex_state(ls.drop_last());
        let line = ls.last();
        let t = trim(line, TrimSet::Whitespace);
        let skip1 = if starts_with(t, "["@) && !starts_with(t, "[mcp_servers.biturbo"@) {
            false
        } else {
            skip0
        };
        if starts_with(t, codex_header()) {
            (out, true)
        } else if !skip1 {
            (out + line + seq!['\n'], skip1)
        } else {
            (out, skip1)
        }
    }
}

/// The memory server's table for a Codex configuration.
pub open spec fn codex_block(bin_path: Seq<char>) -> Seq<char> {
    codex_header() + "\ncommand = \""@ + bin_path + "\"\nargs = []\n"@
}

/// A Codex configuration with the memory server's table replaced: the old
/// table is dropped, a blank line separates the rest, and the new table ends
/// the file.
pub open spec fn codex_config(content: Seq<char>, bin_path: Seq<char>) -> Seq<char> {
    let kept = codex_state(lines(content)).0;
    let sep = if kept.len() > 0 && !(kept.len() >= 2 && kept.subrange(
        kept.len() - 2,
        kept.len() as int,
    ) == seq!['\n', '\n']) {
        kept.push('\n')
    } else {
        kept
    };
    sep + codex_block(bin_path)
}

/// Rewrites a Codex configuration so that it holds the memory server's table
/// once (see `codex_config`).
pub fn rewrite_codex_config(content: &str, bin_path: &str) -> (r: String)
    ensures
        r@ == codex_config(content@, bin_path@),
{
    let c = chars_of(content);
    let ls = split_lines(c.as_slice());
    let ghost lv = lines(content@);
    let open = chars_of("[");
    let ours = chars_of("[mcp_servers.biturbo");
    let header = chars_of("[mcp_servers.biturbo]");
    let mut out: Vec<char> = Vec::new();
    let mut skip = false;
    let mut i: usize = 0;
    while i < ls.len()
        invariant
            i <= ls@.len(),
            ls@.len() == lv.len(),
            lv == lines(content@),
            forall|j: int| 0 <= j < ls@.len() ==> #[trigger] ls@[j]@ == lv[j],
            open@ == "["@,
            ours@ == "[mcp_servers.biturbo"@,
            header@ == codex_header(),
            out@ == codex_state(lv.take(i as int)).0,
            skip == codex_state(lv.take(i as int)).1,
        decreases ls@.len() - i,
    {
        assert(lv.take(i + 1).drop_last() == lv.take(i as int));
        let line = &ls[i];
        let t = trim_chars(line.as_slice(), TrimSet::Whitespace);
        if starts_with_chars(t.as_slice(), open.as_slice()) && !starts_with_chars(
            t.as_slice(),
            ours.as_slice(),
        ) {
            skip = false;
        }
        if starts_with_chars(t.as_slice(), header.as_slice()) {
            skip = true;
        } else if !skip {
            append_chars(&mut out, line.as_slice());
            out.push('\n');
        }
        i += 1;
    }
    assert(lv.take(lv.len() as int) == lv);
    if out.len() > 0 && !ends_with_two_newlines(out.as_slice()) {
        out.push('\n');
    }
    append_chars(&mut out, header.as_slice());
    append_chars(&mut out, chars_of("\ncommand = \"").as_slice());
    append_chars(&mut out, chars_of(bin_path).as_slice());
    append_chars(&mut out, chars_of("\"\nargs = []\n").as_slice());
    string_of(out.as_slice())
}

/// Whether an update is offered, as the update check reports it.
pub struct UpdateInfo {
    pub version: String,
    pub body: String,
    pub available: bool,
}

impl UpdateInfo {
    /// No update is offered.
    pub fn none() -> (u: Self)
        ensures
            u.version@.len() == 0,
            u.body@.len() == 0,
            !u.available,
    {
        UpdateInfo { version: String::new(), body: String::new(), available: false }
    }

    /// An update to `version` is offered; a missing release note is empty.
    pub fn offered(version: String, body: Option<String>) -> (u: Self)
        ensures
            u.version@ == version@,
            u.body@ == match body {
                Some(b) => b@,
                None => Seq::<char>::empty(),
            },
            u.available,
    {
        let b = match body {
            Some(b) => b,
            None => String::new(),
        };
        UpdateInfo { version, body: b, available: true }
    }
}


// ---------------------------------------------------------------------------
// Installing into a Codex configuration twice changes nothing more
// ---------------------------------------------------------------------------
/// A line without line breaks or carriage returns.
spec fn plain(l: Seq<char>) -> bool {
    forall|j: int| 0 <= j < l.len() ==> #[trigger] l[j] != '\n' && l[j] != '\r'
}

/// Lines, each followed by a newline.
spec fn nl_join(ls: Seq<Seq<char>>) -> Seq<char>
    decreases ls.len(),
{
    if ls.len() == 0 {
        Seq::empty()
    } else {
        nl_join(ls.drop_last()) + ls.last() + seq!['\n']
    }
}

/// The lines `codex_state` keeps.
spec fn codex_kept(ls: Seq<Seq<char>>) -> Seq<Seq<char>>
    decreases ls.len(),
{
    if ls.len() == 0 {
        Seq::empty()
    } else {
        let prev = codex_kept(ls.drop_last());
        let skip0 = codex_state(ls.drop_last()).1;
        let t = trim(ls.last(), TrimSet::Whitespace);
        let skip1 = if starts_with(t, "["@) && !starts_with(t, "[mcp_servers.biturbo"@) {
            false
        } else {
            skip0
        };
        if starts_with(t, codex_header()) {
            prev
        } else if !skip1 {
            prev.push(ls.last())
        } else {
            prev
        }
    }
}

proof fn lemma_line_state_append(a: Seq<char>, b: Seq<char>)
    requires
        line_state(a).1.len() == 0,
    ensures
        line_state(a + b) == (line_state(a).0 + line_state(b).0, line_state(b).1),
    decreases b.len(),
{
    if b.len() == 0 {
        assert(a + b == a);
        assert(line_state(a).0 + line_state(b).0 == line_state(a).0);
        assert(line_state(a).1 =~= line_state(b).1);
    } else {
        lemma_line_state_append(a, b.drop_last());
        assert((a + b).drop_last() == a + b.drop_last());
        assert((a + b).last() == b.last());
        let (d, c) = line_state(b.drop_last());
        assert((line_state(a).0 + d).push(strip_cr(c)) == line_state(a).0 + d.push(strip_cr(c)));
    }
}

proof fn lemma_line_state_plain(l: Seq<char>)
    requires
        plain(l),
    ensures
        line_state(l) == (Seq::<Seq<char>>::empty(), l),
    decreases l.len(),
{
    if l.len() > 0 {
        let d = l.drop_last();
        assert forall|j: int| 0 <= j < d.len() implies #[trigger] d[j] != '\n' && d[j] != '\r' by {
            assert(d[j] == l[j]);
        }
        lemma_line_state_plain(d);
        assert(l[l.len() - 1] != '\n');
        assert(d.push(l.last()) == l);
    }
}

proof fn lemma_line_state_nl_join(ls: Seq<Seq<char>>)
    requires
        forall|i: int| 0 <= i < ls.len() ==> plain(#[trigger] ls[i]),
    ensures
        line_state(nl_join(ls)) == (ls, Seq::<char>::empty()),
    decreases ls.len(),
{
    if ls.len() == 0 {
        assert(ls =~= Seq::<Seq<char>>::empty());
    } else {
        let init = ls.drop_last();
        let last = ls.last();
        assert forall|i: int| 0 <= i < init.len() implies plain(#[trigger] init[i]) by {
            assert(init[i] == ls[i]);
        }
        lemma_line_state_nl_join(init);
        assert(plain(ls[ls.len() - 1]));
        lemma_line_state_plain(last);
        let b = last.push('\n');
        assert(b.drop_last() == last);
        assert(strip_cr(last) == last) by {
            if last.len() > 0 {
                assert(last[last.len() - 1] != '\r');
            }
        }
        assert(line_state(b) == (seq![last], Seq::<char>::empty()));
        lemma_line_state_append(nl_join(init), b);
        assert(nl_join(ls) == nl_join(init) + b);
        assert(init + seq![last] =~= ls);
    }
}

proof fn lemma_nl_join_concat(a: Seq<Seq<char>>, b: Seq<Seq<char>>)
    ensures
        nl_join(a + b) == nl_join(a) + nl_join(b),
    decreases b.len(),
{
    if b.len() == 0 {
        assert(a + b =~= a);
        assert(nl_join(a) + nl_join(b) =~= nl_join(a));
    } else {
        lemma_nl_join_concat(a, b.drop_last());
        assert((a + b).drop_last() =~= a + b.drop_last());
        assert((a + b).last() == b.last());
        assert(nl_join(a) + nl_join(b.drop_last()) + b.last() + seq!['\n'] =~= nl_join(a) + (nl_join(b.drop_last()) + b.last() + seq!['\n']));
    }
}

proof fn lemma_line_state_plain_parts(s: Seq<char>)
    requires
        forall|j: int| 0 <= j < s.len() ==> #[trigger] s[j] != '\r',
    ensures
        forall|i: int| 0 <= i < line_state(s).0.len() ==> plain(#[trigger] line_state(s).0[i]),
        plain(line_state(s).1),
    decreases s.len(),
{
    if s.len() > 0 {
        let d = s.drop_last();
        assert forall|j: int| 0 <= j < d.len() implies #[trigger] d[j] != '\r' by {
            assert(d[j] == s[j]);
        }
        lemma_line_state_plain_parts(d);
        let (done, cur) = line_state(d);
        let c = s.last();
        assert(s[s.len() - 1] != '\r');
        if c == '\n' {
            assert(plain(strip_cr(cur))) by {
                let x = strip_cr(cur);
                assert forall|j: int| 0 <= j < x.len() implies #[trigger] x[j] != '\n' && x[j] != '\r' by {
                    assert(x[j] == cur[j]);
                }
            }
            assert forall|i: int| 0 <= i < done.push(strip_cr(cur)).len() implies plain(#[trigger] done.push(strip_cr(cur))[i]) by {
                if i < done.len() {
                    assert(done.push(strip_cr(cur))[i] == done[i]);
                }
            }
            assert(plain(Seq::<char>::empty()));
        } else {
            assert forall|j: int| 0 <= j < cur.push(c).len() implies #[trigger] cur.push(c)[j] != '\n' && cur.push(c)[j] != '\r' by {
                if j < cur.len() {
                    assert(cur.push(c)[j] == cur[j]);
                }
            }
        }
    }
}

proof fn lemma_lines_plain(s: Seq<char>)
    requires
        forall|j: int| 0 <= j < s.len() ==> #[trigger] s[j] != '\r',
    ensures
        forall|i: int| 0 <= i < lines(s).len() ==> plain(#[trigger] lines(s)[i]),
{
    lemma_line_state_plain_parts(s);
    let (done, cur) = line_state(s);
    assert forall|i: int| 0 <= i < lines(s).len() implies plain(#[trigger] lines(s)[i]) by {
        if cur.len() > 0 && i == done.len() {
            assert(lines(s)[i] == cur);
        } else {
            assert(lines(s)[i] == done[i]);
        }
    }
}

/// Not our table's header line.
spec fn keepable(l: Seq<char>) -> bool {
    !starts_with(trim(l, TrimSet::Whitespace), codex_header())
}

proof fn lemma_codex_kept(ls: Seq<Seq<char>>)
    requires
        forall|i: int| 0 <= i < ls.len() ==> plain(#[trigger] ls[i]),
    ensures
        codex_state(ls).0 == nl_join(codex_kept(ls)),
        forall|k: int| 0 <= k < codex_kept(ls).len() ==> plain(#[trigger] codex_kept(ls)[k]) && keepable(codex_kept(ls)[k]),
    decreases ls.len(),
{
    if ls.len() > 0 {
        let init = ls.drop_last();
        assert forall|i: int| 0 <= i < init.len() implies plain(#[trigger] init[i]) by {
            assert(init[i] == ls[i]);
        }
        lemma_codex_kept(init);
        assert(plain(ls[ls.len() - 1]));
        let prev = codex_kept(init);
        let k = codex_kept(ls);
        assert(prev.push(ls.last()).drop_last() == prev);
        assert forall|q: int| 0 <= q < k.len() implies plain(#[trigger] k[q]) && keepable(k[q]) by {
            if q < prev.len() {
                assert(k[q] == prev[q]);
            }
        }
    }
}

proof fn lemma_codex_state_keepable(ls: Seq<Seq<char>>)
    requires
        forall|i: int| 0 <= i < ls.len() ==> keepable(#[trigger] ls[i]),
    ensures
        codex_state(ls) == (nl_join(ls), false),
    decreases ls.len(),
{
    if ls.len() > 0 {
        let init = ls.drop_last();
        assert forall|i: int| 0 <= i < init.len() implies keepable(#[trigger] init[i]) by {
            assert(init[i] == ls[i]);
        }
        lemma_codex_state_keepable(init);
        assert(keepable(ls[ls.len() - 1]));
    }
}

proof fn lemma_trim_unchanged(l: Seq<char>)
    requires
        l.len() > 0,
        !is_ws(l[0]),
        !is_ws(l.last()),
    ensures
        trim(l, TrimSet::Whitespace) == l,
{
    assert(trim_start(l, TrimSet::Whitespace) == l);
}

/// The command line of the memory server's table.
spec fn codex_cmd(bin_path: Seq<char>) -> Seq<char> {
    "command = \""@ + bin_path + "\""@
}

proof fn lemma_block_lines(bin_path: Seq<char>)
    requires
        plain(bin_path),
    ensures
        codex_block(bin_path) == nl_join(seq![codex_header(), codex_cmd(bin_path), "args = []"@]),
        plain(codex_header()),
        plain(codex_cmd(bin_path)),
        plain("args = []"@),
        trim(codex_header(), TrimSet::Whitespace) == codex_header(),
        trim(codex_cmd(bin_path), TrimSet::Whitespace) == codex_cmd(bin_path),
        trim("args = []"@, TrimSet::Whitespace) == "args = []"@,
        codex_cmd(bin_path)[0] == 'c',
        codex_cmd(bin_path).len() > 1,
{
    reveal_strlit("[mcp_servers.biturbo]");
    reveal_strlit("\ncommand = \"");
    reveal_strlit("\"\nargs = []\n");
    reveal_strlit("command = \"");
    reveal_strlit("\"");
    reveal_strlit("args = []");
    let h = codex_header();
    let c = codex_cmd(bin_path);
    let a = "args = []"@;
    let b3 = seq![h, c, a];
    assert(b3.drop_last() =~= seq![h, c]);
    assert(seq![h, c].drop_last() =~= seq![h]);
    assert(seq![h].drop_last() =~= Seq::<Seq<char>>::empty());
    assert(nl_join(Seq::<Seq<char>>::empty()) == Seq::<char>::empty());
    assert(nl_join(seq![h]) == Seq::<char>::empty() + h + seq!['\n']);
    assert(nl_join(seq![h]) =~= h + seq!['\n']);
    assert(nl_join(seq![h, c]) == nl_join(seq![h]) + c + seq!['\n']);
    assert(nl_join(b3) == nl_join(seq![h, c]) + a + seq!['\n']);
    assert(nl_join(b3) =~= codex_block(bin_path));
    assert forall|j: int| 0 <= j < c.len() implies #[trigger] c[j] != '\n' && c[j] != '\r' by {
        if 11 <= j < 11 + bin_path.len() {
            assert(c[j] == bin_path[j - 11]);
        }
    }
    assert(!is_ws('['));
    assert(!is_ws(']'));
    assert(!is_ws('c'));
    assert(!is_ws('"'));
    assert(!is_ws('a'));
    lemma_trim_unchanged(h);
    lemma_trim_unchanged(c);
    lemma_trim_unchanged(a);
}

/// Installing into a Codex configuration a second time gives the same
/// file as installing once, for a configuration without carriage returns
/// and a program path without line breaks.
pub proof fn lemma_codex_rewrite_idempotent(content: Seq<char>, bin_path: Seq<char>)
    requires
        forall|j: int| 0 <= j < content.len() ==> #[trigger] content[j] != '\r',
        forall|j: int| 0 <= j < bin_path.len() ==> #[trigger] bin_path[j] != '\n' && bin_path[j] != '\r',
    ensures
        codex_config(codex_config(content, bin_path), bin_path) == codex_config(content, bin_path),
{
    reveal_strlit("[");
    reveal_strlit("[mcp_servers.biturbo");
    reveal_strlit("[mcp_servers.biturbo]");
    reveal_strlit("args = []");
    assert(plain(bin_path));
    let ls = lines(content);
    lemma_lines_plain(content);
    lemma_codex_kept(ls);
    let k = codex_kept(ls);
    let kept = codex_state(ls).0;
    let add = kept.len() > 0 && !(kept.len() >= 2 && kept.subrange(kept.len() - 2, kept.len() as int) == seq!['\n', '\n']);
    let k2 = if add { k.push(Seq::<char>::empty()) } else { k };
    let sep = if add { kept.push('\n') } else { kept };
    if add {
        assert(k.push(Seq::<char>::empty()).drop_last() == k);
        assert(nl_join(k) + Seq::<char>::empty() + seq!['\n'] =~= kept.push('\n'));
    }
    assert(nl_join(k2) == sep);
    assert(codex_config(content, bin_path) == sep + codex_block(bin_path));
    lemma_block_lines(bin_path);
    let h = codex_header();
    let c = codex_cmd(bin_path);
    let a = "args = []"@;
    let b3 = seq![h, c, a];
    lemma_nl_join_concat(k2, b3);
    let all = k2 + b3;
    assert(plain(Seq::<char>::empty()));
    assert forall|i: int| 0 <= i < all.len() implies plain(#[trigger] all[i]) by {
        if i < k2.len() {
            assert(all[i] == k2[i]);
            if i < k.len() {
                assert(k2[i] == k[i]);
            }
        } else {
            assert(all[i] == b3[i - k2.len()]);
        }
    }
    lemma_line_state_nl_join(all);
    assert(lines(sep + codex_block(bin_path)) == all);
    assert(trim(Seq::<char>::empty(), TrimSet::Whitespace) == Seq::<char>::empty());
    assert forall|i: int| 0 <= i < k2.len() implies keepable(#[trigger] k2[i]) by {
        if i < k.len() {
            assert(k2[i] == k[i]);
        } else {
            assert(k2[i] == Seq::<char>::empty());
        }
    }
    lemma_codex_state_keepable(k2);
    assert(all == k2.push(h).push(c).push(a));
    assert(k2.push(h).drop_last() == k2);
    assert(k2.push(h).push(c).drop_last() == k2.push(h));
    assert(k2.push(h).push(c).push(a).drop_last() == k2.push(h).push(c));
    assert(h.take(h.len() as int) =~= h);
    assert(starts_with(h, codex_header()));
    assert(codex_state(k2.push(h)) == (sep, true));
    assert(!starts_with(c, "["@)) by {
        assert(c.take(1)[0] == c[0]);
    }
    assert(codex_header()[0] == '[');
    assert(!starts_with(c, codex_header())) by {
        if c.len() >= 21 {
            assert(c.take(21)[0] == c[0]);
        }
    }
    assert(codex_state(k2.push(h).push(c)) == (sep, true));
    assert(!starts_with(a, "["@)) by {
        assert(a.take(1)[0] == 'a');
    }
    assert(!starts_with(a, codex_header())) by {
        if a.len() >= 21 {
            assert(a.take(21)[0] == a[0]);
        }
    }
    assert(codex_state(all) == (sep, true));
    if add {
        assert(k.len() > 0);
        assert(kept.last() == '\n');
        assert(sep.subrange(sep.len() - 2, sep.len() as int) =~= seq!['\n', '\n']);
    }
}

} // verus!
