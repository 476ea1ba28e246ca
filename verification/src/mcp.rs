//! The memory server's decisions: which tool a call names, how its
//! arguments default, and how recalled memories become a context block.
use vstd::prelude::*;

use crate::error::{concat_message, BiError, BiResult};
use crate::text::{
    append_chars, chars_of, decimal, decimal_i64, decimal_int, decimal_string, is_literal, join,
    join_chars, split_whitespace, string_of, trim, trim_chars, views, words, TrimSet,
};

verus! {

/// The tools the memory server offers.
#[derive(Debug, Clone, Copy, PartialEq, Eq, Structural)]
pub enum Tool {
    Remember,
    Forget,
    Update,
    GetMemory,
    Search,
    List,
    ListTags,
    RecallForContext,
    RecallExplain,
    SubmitRecallFeedback,
    ListProjects,
    GetProject,
    CreateProject,
    DeleteProject,
    IngestProject,
    StartIngest,
    OperationStatus,
    ListOperations,
    CancelOperation,
    GetProjectGraph,
    Consolidate,
    ConsolidateStatus,
    ImportFolder,
    ExportMemories,
    EnableWatch,
    DisableWatch,
    WatchStatus,
    SetProjectEmbedModel,
    Stats,
    Bootstrap,
    RecentActivity,
    RegisterAgent,
    GetProjectNameFromFile,
}

/// The tool a call names, if the server has it.
pub open spec fn tool_named(name: Seq<char>) -> Option<Tool> {
    if name == "remember"@ {
        Some(Tool::Remember)
    } else if name == "forget"@ {
        Some(Tool::Forget)
    } else if name == "update"@ {
        Some(Tool::Update)
    } else if name == "get_memory"@ {
        Some(Tool::GetMemory)
    } else if name == "search"@ {
        Some(Tool::Search)
    } else if name == "list"@ {
        Some(Tool::List)
    } else if name == "list_tags"@ {
        Some(Tool::ListTags)
    } else if name == "recall_for_context"@ {
        Some(Tool::RecallForContext)
    } else if name == "recall_explain"@ {
        Some(Tool::RecallExplain)
    } else if name == "submit_recall_feedback"@ {
        Some(Tool::SubmitRecallFeedback)
    } else if name == "list_projects"@ {
        Some(Tool::ListProjects)
    } else if name == "get_project"@ {
        Some(Tool::GetProject)
    } else if name == "create_project"@ {
        Some(Tool::CreateProject)
    } else if name == "delete_project"@ {
        Some(Tool::DeleteProject)
    } else if name == "ingest_project"@ {
        Some(Tool::IngestProject)
    } else if name == "start_ingest"@ {
        Some(Tool::StartIngest)
    } else if name == "operation_status"@ {
        Some(Tool::OperationStatus)
    } else if name == "list_operations"@ {
        Some(Tool::ListOperations)
    } else if name == "cancel_operation"@ {
        Some(Tool::CancelOperation)
    } else if name == "get_project_graph"@ {
        Some(Tool::GetProjectGraph)
    } else if name == "consolidate"@ {
        Some(Tool::Consolidate)
    } else if name == "consolidate_status"@ {
        Some(Tool::ConsolidateStatus)
    } else if name == "import_folder"@ {
        Some(Tool::ImportFolder)
    } else if name == "export_memories"@ {
        Some(Tool::ExportMemories)
    } else if name == "enable_watch"@ {
        Some(Tool::EnableWatch)
    } else if name == "disable_watch"@ {
        Some(Tool::DisableWatch)
    } else if name == "watch_status"@ {
        Some(Tool::WatchStatus)
    } else if name == "set_project_embed_model"@ {
        Some(Tool::SetProjectEmbedModel)
    } else if name == "stats"@ {
        Some(Tool::Stats)
    } else if name == "bootstrap"@ {
        Some(Tool::Bootstrap)
    } else if name == "recent_activity"@ {
        Some(Tool::RecentActivity)
    } else if name == "register_agent"@ {
        Some(Tool::RegisterAgent)
    } else if name == "get_project_name_from_file"@ {
        Some(Tool::GetProjectNameFromFile)
    } else {
        None
    }
}

/// The tool a call names; an unknown name is refused with `unknown tool: `
/// and the name.
pub fn parse_tool(name: &str) -> (r: BiResult<Tool>)
    ensures
        match tool_named(name@) {
            Some(t) => r == Ok::<Tool, BiError>(t),
            None => r matches Err(BiError::Invalid(m)) && m@ == "unknown tool: "@ + name@,
        },
{
    let n = chars_of(name);
    let t = if is_literal(n.as_slice(), "remember") {
        Tool::Remember
    } else if is_literal(n.as_slice(), "forget") {
        Tool::Forget
    } else if is_literal(n.as_slice(), "update") {
        Tool::Update
    } else if is_literal(n.as_slice(), "get_memory") {
        Tool::GetMemory
    } else if is_literal(n.as_slice(), "search") {
        Tool::Search
    } else if is_literal(n.as_slice(), "list") {
        Tool::List
    } else if is_literal(n.as_slice(), "list_tags") {
        Tool::ListTags
    } else if is_literal(n.as_slice(), "recall_for_context") {
        Tool::RecallForContext
    } else if is_literal(n.as_slice(), "recall_explain") {
        Tool::RecallExplain
    } else if is_literal(n.as_slice(), "submit_recall_feedback") {
        Tool::SubmitRecallFeedback
    } else if is_literal(n.as_slice(), "list_projects") {
        Tool::ListProjects
    } else if is_literal(n.as_slice(), "get_project") {
        Tool::GetProject
    } else if is_literal(n.as_slice(), "create_project") {
        Tool::CreateProject
    } else if is_literal(n.as_slice(), "delete_project") {
        Tool::DeleteProject
    } else if is_literal(n.as_slice(), "ingest_project") {
        Tool::IngestProject
    } else if is_literal(n.as_slice(), "start_ingest") {
        Tool::StartIngest
    } else if is_literal(n.as_slice(), "operation_status") {
        Tool::OperationStatus
    } else if is_literal(n.as_slice(), "list_operations") {
        Tool::ListOperations
    } else if is_literal(n.as_slice(), "cancel_operation") {
        Tool::CancelOperation
    } else if is_literal(n.as_slice(), "get_project_graph") {
        Tool::GetProjectGraph
    } else if is_literal(n.as_slice(), "consolidate") {
        Tool::Consolidate
    } else if is_literal(n.as_slice(), "consolidate_status") {
        Tool::ConsolidateStatus
    } else if is_literal(n.as_slice(), "import_folder") {
        Tool::ImportFolder
    } else if is_literal(n.as_slice(), "export_memories") {
        Tool::ExportMemories
    } else if is_literal(n.as_slice(), "enable_watch") {
        Tool::EnableWatch
    } else if is_literal(n.as_slice(), "disable_watch") {
        Tool::DisableWatch
    } else if is_literal(n.as_slice(), "watch_status") {
        Tool::WatchStatus
    } else if is_literal(n.as_slice(), "set_project_embed_model") {
        Tool::SetProjectEmbedModel
    } else if is_literal(n.as_slice(), "stats") {
        Tool::Stats
    } else if is_literal(n.as_slice(), "bootstrap") {
        Tool::Bootstrap
    } else if is_literal(n.as_slice(), "recent_activity") {
        Tool::RecentActivity
    } else if is_literal(n.as_slice(), "register_agent") {
        Tool::RegisterAgent
    } else if is_literal(n.as_slice(), "get_project_name_from_file") {
        Tool::GetProjectNameFromFile
    } else {
        return Err(BiError::Invalid(concat_message("unknown tool: ", name)));
    };
    Ok(t)
}

/// The refusal of a call that lacks a required text argument.
pub fn missing_arg(key: &str) -> (e: BiError)
    ensures
        e matches BiError::Invalid(m) && m@ == "missing string arg: "@ + key@,
{
    BiError::Invalid(concat_message("missing string arg: ", key))
}

/// The refusal of a call on a project that does not exist.
pub fn project_required(pid: &str) -> (e: BiError)
    ensures
        e matches BiError::Invalid(m) && m@ == "project '"@ + pid@
            + "' does not exist \u{2014} create it first with create_project"@,
{
    let mut out: Vec<char> = chars_of("project '");
    append_chars(&mut out, chars_of(pid).as_slice());
    append_chars(
        &mut out,
        chars_of("' does not exist \u{2014} create it first with create_project").as_slice(),
    );
    BiError::Invalid(string_of(out.as_slice()))
}

/// The refusal of a call on a path that is not on disk.
pub fn path_required(path: &str, label: &str) -> (e: BiError)
    ensures
        e matches BiError::Invalid(m) && m@ == label@ + " '"@ + path@ + "' does not exist on disk"@,
{
    let mut out: Vec<char> = chars_of(label);
    append_chars(&mut out, chars_of(" '").as_slice());
    append_chars(&mut out, chars_of(path).as_slice());
    append_chars(&mut out, chars_of("' does not exist on disk").as_slice());
    BiError::Invalid(string_of(out.as_slice()))
}

/// The number of results a search call asks for: `k` when given, else the
/// default, raised to one and capped at `max`.
pub fn bounded_k(k: Option<u64>, default: u64, max: u64) -> (n: usize)
    requires
        1 <= max <= usize::MAX,
    ensures
        n == ({
            let v = match k {
                Some(x) => x,
                None => default,
            };
            if v < 1 {
                1
            } else if v > max {
                max
            } else {
                v
            }
        }),
{
    let v = match k {
        Some(x) => x,
        None => default,
    };
    let c = if v < 1 {
        1
    } else if v > max {
        max
    } else {
        v
    };
    c as usize
}

/// The feedback value of a call: the number given, else one, cut to a byte
/// as a cast does.
pub fn feedback_value(v: Option<i64>) -> (f: i8)
    ensures
        f == match v {
            Some(x) => x as i8,
            None => 1i8,
        },
{
    match v {
        Some(x) => x as i8,
        None => 1,
    }
}

/// The one-letter code of a memory type in the context block.
pub open spec fn type_letter(t: Seq<char>) -> char {
    if t == "fact"@ {
        'f'
    } else if t == "decision"@ {
        'd'
    } else if t == "preference"@ {
        'p'
    } else if t == "pattern"@ {
        'P'
    } else if t == "episode"@ {
        'e'
    } else if t == "reflection"@ {
        'r'
    } else if t == "code"@ {
        'c'
    } else {
        '?'
    }
}

/// The one-letter code of a memory type (see `type_letter`).
pub fn type_code(mem_type: &str) -> (c: char)
    ensures
        c == type_letter(mem_type@),
{
    let t = chars_of(mem_type);
    if is_literal(t.as_slice(), "fact") {
        'f'
    } else if is_literal(t.as_slice(), "decision") {
        'd'
    } else if is_literal(t.as_slice(), "preference") {
        'p'
    } else if is_literal(t.as_slice(), "pattern") {
        'P'
    } else if is_literal(t.as_slice(), "episode") {
        'e'
    } else if is_literal(t.as_slice(), "reflection") {
        'r'
    } else if is_literal(t.as_slice(), "code") {
        'c'
    } else {
        '?'
    }
}

pub open spec fn ends_sentence(c: char) -> bool {
    c == '.' || c == '!' || c == '?' || c == '\n'
}

/// The last position in `lo..hi` of `t` that ends a sentence, or -1.
pub open spec fn last_boundary(t: Seq<char>, lo: int, hi: int) -> int
    decreases hi - lo,
{
    if hi <= lo {
        -1
    } else if ends_sentence(t[hi - 1]) {
        hi - 1
    } else {
        last_boundary(t, lo, hi - 1)
    }
}

/// A memory's text fitted to `max` characters: trimmed, and when still too
/// long cut after the last sentence end among the final third of the first
/// `max` characters (else at `max`), with an ellipsis after the cut.
pub open spec fn fitted(text: Seq<char>, max: nat) -> Seq<char> {
    let t = trim(text, TrimSet::Whitespace);
    if t.len() <= max {
        t
    } else {
        let b = last_boundary(t, max - max / 3, max as int);
        let cut = if b >= 0 {
            b + 1
        } else {
            max as int
        };
        t.take(cut) + "\u{2026}"@
    }
}

/// Fits a memory's text into the context block (see `fitted`).
pub fn trim_for_context(text: &str, max_chars: usize) -> (r: String)
    ensures
        r@ == fitted(text@, max_chars as nat),
{
    let c = chars_of(text);
    let t = trim_chars(c.as_slice(), TrimSet::Whitespace);
    if t.len() <= max_chars {
        return string_of(t.as_slice());
    }
    let lo = max_chars - max_chars / 3;
    let mut i = max_chars;
    while i > lo && !(t[i - 1] == '.' || t[i - 1] == '!' || t[i - 1] == '?' || t[i - 1] == '\n')
        invariant
            lo <= i <= max_chars < t@.len(),
            last_boundary(t@, lo as int, max_chars as int) == last_boundary(t@, lo as int, i as int),
        decreases i,
    {
        i -= 1;
    }
    let cut = if i > lo {
        i
    } else {
        max_chars
    };
    let mut out = crate::project::tail_take(t.as_slice(), cut);
    append_chars(&mut out, chars_of("\u{2026}").as_slice());
    string_of(out.as_slice())
}

/// Each word once, at its first occurrence.
pub open spec fn distinct(ws: Seq<Seq<char>>) -> Seq<Seq<char>>
    decreases ws.len(),
{
    if ws.len() == 0 {
        Seq::empty()
    } else {
        let d = distinct(ws.drop_last());
        if d.contains(ws.last()) {
            d
        } else {
            d.push(ws.last())
        }
    }
}

/// How many of the words `ds` occur in `ws`.
pub open spec fn common_count(ds: Seq<Seq<char>>, ws: Seq<Seq<char>>) -> nat
    decreases ds.len(),
{
    if ds.len() == 0 {
        0
    } else if ws.contains(ds.last()) {
        common_count(ds.drop_last(), ws) + 1
    } else {
        common_count(ds.drop_last(), ws)
    }
}

/// Whether two texts share so many words that only one of them is worth the
/// context: their distinct words' Jaccard similarity (shared words over all
/// words) is above 0.55. Two texts without words count as alike.
pub open spec fn near_duplicate(a: Seq<char>, b: Seq<char>) -> bool {
    let da = distinct(words(a));
    let db = distinct(words(b));
    let inter = common_count(da, words(b));
    let union = da.len() + db.len() - inter;
    union == 0 || 100 * inter > 55 * union
}

fn contains_word(ws: &Vec<Vec<char>>, w: &[char]) -> (b: bool)
    ensures
        b == views(ws@).contains(w@),
{
    let mut k: usize = 0;
    while k < ws.len()
        invariant
            k <= ws@.len(),
            forall|j: int| 0 <= j < k ==> ws@[j]@ != w@,
        decreases ws@.len() - k,
    {
        if crate::text::chars_eq(ws[k].as_slice(), w) {
            assert(views(ws@)[k as int] == w@);
            return true;
        }
        k += 1;
    }
    proof {
        if views(ws@).contains(w@) {
            let j = choose|j: int| 0 <= j < views(ws@).len() && views(ws@)[j] == w@;
            assert(ws@[j]@ == w@);
        }
    }
    false
}

fn distinct_words(ws: &Vec<Vec<char>>) -> (d: Vec<Vec<char>>)
    ensures
        views(d@) == distinct(views(ws@)),
{
    let mut d: Vec<Vec<char>> = Vec::new();
    let mut i: usize = 0;
    while i < ws.len()
        invariant
            i <= ws@.len(),
            views(d@) == distinct(views(ws@).take(i as int)),
        decreases ws@.len() - i,
    {
        assert(views(ws@).take(i + 1).drop_last() == views(ws@).take(i as int));
        assert(views(ws@).take(i + 1).last() == ws@[i as int]@);
        if !contains_word(&d, ws[i].as_slice()) {
            let ghost before = d@;
            d.push(crate::text::copy_chars(ws[i].as_slice()));
            assert(views(d@) =~= views(before).push(ws@[i as int]@));
        }
        i += 1;
    }
    assert(views(ws@).take(ws@.len() as int) == views(ws@));
    d
}

pub proof fn lemma_common_count_bound(ds: Seq<Seq<char>>, ws: Seq<Seq<char>>)
    ensures
        common_count(ds, ws) <= ds.len(),
    decreases ds.len(),
{
    if ds.len() > 0 {
        lemma_common_count_bound(ds.drop_last(), ws);
    }
}

/// Whether two texts are near duplicates (see `near_duplicate`).
pub fn is_near_duplicate(a: &str, b: &str) -> (r: bool)
    ensures
        r == near_duplicate(a@, b@),
{
    let wa = split_whitespace(chars_of(a).as_slice());
    let wb = split_whitespace(chars_of(b).as_slice());
    assert(views(wa@) =~= words(a@));
    assert(views(wb@) =~= words(b@));
    let da = distinct_words(&wa);
    let db = distinct_words(&wb);
    let mut inter: usize = 0;
    let mut i: usize = 0;
    while i < da.len()
        invariant
            i <= da@.len(),
            inter == common_count(views(da@).take(i as int), views(wb@)),
            inter <= i,
        decreases da@.len() - i,
    {
        assert(views(da@).take(i + 1).drop_last() == views(da@).take(i as int));
        assert(views(da@).take(i + 1).last() == da@[i as int]@);
        if contains_word(&wb, da[i].as_slice()) {
            inter = inter + 1;
        }
        i += 1;
    }
    assert(views(da@).take(da@.len() as int) == views(da@));
    proof {
        lemma_common_count_bound(views(da@), views(wb@));
    }
    let union: u128 = (da.len() as u128) + (db.len() as u128) - (inter as u128);
    union == 0 || (inter as u128) * 100 > union * 55
}

/// A recalled memory as the context block shows it. Its score and
/// importance come already written with two decimals.
pub struct ContextHit {
    pub mem_type: String,
    pub score_text: String,
    pub importance_text: String,
    pub tags: Vec<String>,
    pub file_path: Option<String>,
    pub start_line: Option<i64>,
    pub end_line: Option<i64>,
    pub language: Option<String>,
    pub content: String,
}

/// The hits kept in the context block: in order, each one that is not a near
/// duplicate of a hit kept before it.
pub open spec fn kept_hits(hs: Seq<ContextHit>) -> Seq<ContextHit>
    decreases hs.len(),
{
    if hs.len() == 0 {
        Seq::empty()
    } else {
        let prev = kept_hits(hs.drop_last());
        if exists|k: int| 0 <= k < prev.len() && near_duplicate(#[trigger] prev[k].content@, hs.last().content@) {
            prev
        } else {
            prev.push(hs.last())
        }
    }
}

/// Drops the near duplicates from the hits (see `kept_hits`).
pub fn deduplicate_hits(hits: Vec<ContextHit>) -> (kept: Vec<ContextHit>)
    ensures
        kept@ == kept_hits(hits@),
{
    let ghost all = hits@;
    let mut kept: Vec<ContextHit> = Vec::new();
    for h in it: hits
        invariant
            it.seq() == all,
            it.index() <= all.len(),
            kept@ == kept_hits(all.take(it.index() as int)),
    {
        let ghost n = it.index();
        assert(all.take(n + 1).drop_last() == all.take(n as int));
        assert(all.take(n + 1).last() == all[n as int]);
        let mut dup = false;
        let mut k: usize = 0;
        while k < kept.len()
            invariant
                k <= kept@.len(),
                dup == exists|q: int| 0 <= q < k && near_duplicate(#[trigger] kept@[q].content@, h.content@),
            decreases kept@.len() - k,
        {
            if is_near_duplicate(kept[k].content.as_str(), h.content.as_str()) {
                dup = true;
            }
            proof {
                if dup && !(exists|q: int| 0 <= q < k && near_duplicate(#[trigger] kept@[q].content@, h.content@)) {
                    assert(near_duplicate(kept@[k as int].content@, h.content@));
                }
            }
            k += 1;
        }
        if !dup {
            kept.push(h);
        }
    }
    assert(all.take(all.len() as int) == all);
    kept
}

/// How long each memory's text may be in the context block.
pub const RECALL_ITEM_MAX_CHARS: usize = 1200;

/// The length at which the context block stops taking memories.
pub const RECALL_CONTEXT_MAX_CHARS: usize = 12000;

/// The location line of a memory that has a file: the path, the line range
/// when both ends are known, and the language.
pub open spec fn location_line(h: ContextHit) -> Seq<char> {
    match h.file_path {
        Some(p) => {
            let range = match (h.start_line, h.end_line) {
                (Some(s), Some(e)) => ":"@ + decimal_int(s as int) + "-"@ + decimal_int(e as int),
                _ => Seq::empty(),
            };
            let lang = match h.language {
                Some(l) => l@,
                None => Seq::empty(),
            };
            "> "@ + p@ + range + " "@ + lang + "\n"@
        },
        None => Seq::empty(),
    }
}

/// The lines of the `n`-th memory of the context block: `[n] type|score|
/// importance|tags`, the location line, and its fitted text.
pub open spec fn hit_entry(n: nat, h: ContextHit) -> Seq<char> {
    header_line(n, h) + location_line(h) + fitted(h.content@, RECALL_ITEM_MAX_CHARS as nat) + "\n"@
}

/// The first line of the `n`-th memory of the context block.
pub open spec fn header_line(n: nat, h: ContextHit) -> Seq<char> {
    "["@ + decimal(n) + "] "@ + seq![type_letter(h.mem_type@)] + "|"@ + h.score_text@ + "|"@
        + h.importance_text@ + "|"@ + join(views_of_strings(h.tags@), ","@) + "\n"@
}

pub open spec fn views_of_strings(v: Seq<String>) -> Seq<Seq<char>> {
    v.map_values(|s: String| s@)
}

/// The block after `s` with the memories `hs` numbered from `n`: each is
/// added in turn, and none after the block reaches its length limit.
pub open spec fn ctx_from(s: Seq<char>, hs: Seq<ContextHit>, n: nat) -> Seq<char>
    decreases hs.len(),
{
    if hs.len() == 0 {
        s
    } else {
        let s2 = s + hit_entry(n, hs[0]);
        if s2.len() >= RECALL_CONTEXT_MAX_CHARS {
            s2
        } else {
            ctx_from(s2, hs.drop_first(), n + 1)
        }
    }
}

/// The context block handed to an agent for the recalled memories.
pub open spec fn context_block(hs: Seq<ContextHit>) -> Seq<char> {
    if hs.len() == 0 {
        "<biTurboContext>no relevant memories</biTurboContext>"@
    } else {
        ctx_from("<biTurboContext>\n"@, kept_hits(hs), 1) + "</biTurboContext>"@
    }
}

fn push_str(out: &mut Vec<char>, s: &str)
    ensures
        final(out)@ == old(out)@ + s@,
{
    append_chars(out, chars_of(s).as_slice());
}

fn push_header(out: &mut Vec<char>, n: usize, h: &ContextHit)
    ensures
        final(out)@ == old(out)@ + header_line(n as nat, *h),
{
    let ghost start = out@;
    let mut tags: Vec<Vec<char>> = Vec::new();
    let mut i: usize = 0;
    while i < h.tags.len()
        invariant
            i <= h.tags@.len(),
            views(tags@) == views_of_strings(h.tags@).take(i as int),
        decreases h.tags@.len() - i,
    {
        let ghost before = tags@;
        tags.push(chars_of(h.tags[i].as_str()));
        assert(views(tags@) =~= views(before).push(h.tags@[i as int]@));
        assert(views_of_strings(h.tags@).take(i + 1) =~= views_of_strings(h.tags@).take(i as int).push(h.tags@[i as int]@));
        i += 1;
    }
    assert(views_of_strings(h.tags@).take(h.tags@.len() as int) == views_of_strings(h.tags@));
    let joined = join_chars(&tags, chars_of(",").as_slice());
    push_str(out, "[");
    append_chars(out, decimal_string(n as u64).as_slice());
    push_str(out, "] ");
    out.push(type_code(h.mem_type.as_str()));
    push_str(out, "|");
    push_str(out, h.score_text.as_str());
    push_str(out, "|");
    push_str(out, h.importance_text.as_str());
    push_str(out, "|");
    append_chars(out, joined.as_slice());
    push_str(out, "\n");
    assert(out@ =~= start + header_line(n as nat, *h));
}

fn push_location_line(out: &mut Vec<char>, h: &ContextHit)
    ensures
        final(out)@ == old(out)@ + location_line(*h),
{
    let ghost start = out@;
    match &h.file_path {
        Some(p) => {
            push_str(out, "> ");
            push_str(out, p.as_str());
            let ghost mid = out@;
            match (h.start_line, h.end_line) {
                (Some(s), Some(e)) => {
                    push_str(out, ":");
                    append_chars(out, decimal_i64(s).as_slice());
                    push_str(out, "-");
                    append_chars(out, decimal_i64(e).as_slice());
                },
                _ => {},
            }
            let ghost mid2 = out@;
            push_str(out, " ");
            match &h.language {
                Some(l) => push_str(out, l.as_str()),
                None => {},
            }
            push_str(out, "\n");
            assert(out@ =~= start + location_line(*h));
        },
        None => {
            assert(out@ =~= start + location_line(*h));
        },
    }
}

fn push_entry(out: &mut Vec<char>, n: usize, h: &ContextHit)
    ensures
        final(out)@ == old(out)@ + hit_entry(n as nat, *h),
{
    let ghost start = out@;
    push_header(out, n, h);
    push_location_line(out, h);
    let t = trim_for_context(h.content.as_str(), RECALL_ITEM_MAX_CHARS);
    push_str(out, t.as_str());
    push_str(out, "\n");
    assert(out@ =~= start + hit_entry(n as nat, *h));
}

/// The context block for the recalled memories (see `context_block`).
pub fn format_context_block(hits: Vec<ContextHit>) -> (s: String)
    ensures
        s@ == context_block(hits@),
{
    if hits.len() == 0 {
        return "<biTurboContext>no relevant memories</biTurboContext>".to_owned();
    }
    let ghost hs = hits@;
    let kept = deduplicate_hits(hits);
    let ghost ks = kept@;
    let ghost result = ctx_from("<biTurboContext>\n"@, ks, 1);
    let mut out: Vec<char> = chars_of("<biTurboContext>\n");
    let mut i: usize = 0;
    let mut done = false;
    assert(ks.skip(0) == ks);
    while i < kept.len() && !done
        invariant
            i <= ks.len(),
            ks == kept@,
            !done ==> ctx_from(out@, ks.skip(i as int), (i + 1) as nat) == result,
            done ==> out@ == result,
        decreases ks.len() - i,
    {
        assert(ks.skip(i as int)[0] == ks[i as int]);
        assert(ks.skip(i as int).drop_first() == ks.skip(i + 1));
        push_entry(&mut out, i + 1, &kept[i]);
        if out.len() >= RECALL_CONTEXT_MAX_CHARS {
            done = true;
        }
        i += 1;
    }
    push_str(&mut out, "</biTurboContext>");
    string_of(out.as_slice())
}


/// No two memories of a context block are near duplicates: of any two hits
/// kept, the later one shares too few words with the earlier.
pub proof fn lemma_kept_hits_distinct(hs: Seq<ContextHit>)
    ensures
        forall|i: int, j: int|
            0 <= i < j < kept_hits(hs).len() ==> !near_duplicate(
                #[trigger] kept_hits(hs)[i].content@,
                #[trigger] kept_hits(hs)[j].content@,
            ),
        kept_hits(hs).len() <= hs.len(),
    decreases hs.len(),
{
    if hs.len() > 0 {
        lemma_kept_hits_distinct(hs.drop_last());
        let prev = kept_hits(hs.drop_last());
        let k = kept_hits(hs);
        if !(exists|q: int| 0 <= q < prev.len() && near_duplicate(#[trigger] prev[q].content@, hs.last().content@)) {
            assert forall|i: int, j: int| 0 <= i < j < k.len() implies !near_duplicate(
                #[trigger] k[i].content@,
                #[trigger] k[j].content@,
            ) by {
                if j == k.len() - 1 {
                    assert(k[i] == prev[i]);
                    assert(k[j] == hs.last());
                } else {
                    assert(k[i] == prev[i]);
                    assert(k[j] == prev[j]);
                }
            }
        }
    }
}

/// The positions among `hs` of the hits that `kept_hits` keeps.
pub open spec fn kept_positions(hs: Seq<ContextHit>) -> Seq<int>
    decreases hs.len(),
{
    if hs.len() == 0 {
        Seq::empty()
    } else {
        let prev = kept_positions(hs.drop_last());
        if exists|k: int| 0 <= k < prev.len() && near_duplicate(hs[#[trigger] prev[k]].content@, hs.last().content@) {
            prev
        } else {
            prev.push(hs.len() - 1)
        }
    }
}

/// Deduplication keeps the hits in order, as a subsequence: the first hit
/// is always kept, and each hit dropped is a near duplicate of a hit kept
/// before it.
pub proof fn lemma_kept_hits_order(hs: Seq<ContextHit>)
    ensures
        kept_positions(hs).len() == kept_hits(hs).len(),
        forall|k: int|
            0 <= k < kept_positions(hs).len() ==> 0 <= #[trigger] kept_positions(hs)[k] < hs.len()
                && kept_hits(hs)[k] == hs[kept_positions(hs)[k]],
        forall|a: int, b: int|
            0 <= a < b < kept_positions(hs).len() ==> #[trigger] kept_positions(hs)[a] < #[trigger] kept_positions(hs)[b],
        hs.len() > 0 ==> kept_positions(hs).len() > 0 && kept_positions(hs)[0] == 0 && kept_hits(hs)[0] == hs[0],
        forall|i: int|
            0 <= i < hs.len() && !kept_positions(hs).contains(i) ==> exists|k: int|
                0 <= k < kept_positions(hs).len() && kept_positions(hs)[k] < i && near_duplicate(
                    hs[#[trigger] kept_positions(hs)[k]].content@,
                    hs[i].content@,
                ),
    decreases hs.len(),
{
    if hs.len() > 0 {
        let init = hs.drop_last();
        lemma_kept_hits_order(init);
        let prev = kept_positions(init);
        let prevh = kept_hits(init);
        let pos = kept_positions(hs);
        let last = hs.last();
        assert forall|k: int| 0 <= k < prev.len() implies prevh[k] == hs[#[trigger] prev[k]] by {
            assert(init[prev[k]] == hs[prev[k]]);
        }
        let dup_h = exists|k: int| 0 <= k < prevh.len() && near_duplicate(#[trigger] prevh[k].content@, last.content@);
        let dup_p = exists|k: int| 0 <= k < prev.len() && near_duplicate(hs[#[trigger] prev[k]].content@, last.content@);
        assert(dup_h == dup_p) by {
            if dup_h {
                let k = choose|k: int| 0 <= k < prevh.len() && near_duplicate(#[trigger] prevh[k].content@, last.content@);
                assert(prevh[k] == hs[prev[k]]);
            }
            if dup_p {
                let k = choose|k: int| 0 <= k < prev.len() && near_duplicate(hs[#[trigger] prev[k]].content@, last.content@);
                assert(prevh[k] == hs[prev[k]]);
            }
        }
        if init.len() == 0 {
            assert(prev.len() == 0);
            assert(pos == prev.push(0));
        }
        assert forall|i: int| 0 <= i < hs.len() && !pos.contains(i) implies exists|k: int|
            0 <= k < pos.len() && pos[k] < i && near_duplicate(hs[#[trigger] pos[k]].content@, hs[i].content@) by {
            if i == hs.len() - 1 {
                if !dup_p {
                    assert(pos[pos.len() - 1] == i);
                }
                let k = choose|k: int| 0 <= k < prev.len() && near_duplicate(hs[#[trigger] prev[k]].content@, last.content@);
                assert(pos[k] == prev[k]);
            } else {
                assert(!prev.contains(i)) by {
                    if prev.contains(i) {
                        let j = choose|j: int| 0 <= j < prev.len() && prev[j] == i;
                        assert(pos[j] == prev[j]);
                    }
                }
                assert(init[i] == hs[i]);
                let k = choose|k: int| 0 <= k < prev.len() && prev[k] < i && near_duplicate(init[#[trigger] prev[k]].content@, init[i].content@);
                assert(pos[k] == prev[k]);
                assert(init[prev[k]] == hs[prev[k]]);
            }
        }
    }
}

/// The entries of the first `m` of `hs`, numbered from `n`, one after another.
pub open spec fn entries_from(hs: Seq<ContextHit>, n: nat, m: nat) -> Seq<char>
    decreases m,
{
    if m == 0 || hs.len() == 0 {
        Seq::empty()
    } else {
        hit_entry(n, hs[0]) + entries_from(hs.drop_first(), n + 1, (m - 1) as nat)
    }
}

/// How many of `hs` `ctx_from` adds after `s`.
spec fn ctx_count(s: Seq<char>, hs: Seq<ContextHit>, n: nat) -> nat
    decreases hs.len(),
{
    if hs.len() == 0 {
        0
    } else {
        let s2 = s + hit_entry(n, hs[0]);
        if s2.len() >= RECALL_CONTEXT_MAX_CHARS {
            1
        } else {
            1 + ctx_count(s2, hs.drop_first(), n + 1)
        }
    }
}

proof fn lemma_ctx_from(s: Seq<char>, hs: Seq<ContextHit>, n: nat)
    ensures
        ctx_count(s, hs, n) <= hs.len(),
        hs.len() > 0 ==> ctx_count(s, hs, n) >= 1,
        ctx_from(s, hs, n) == s + entries_from(hs, n, ctx_count(s, hs, n)),
        ctx_count(s, hs, n) < hs.len() ==> (s + entries_from(hs, n, ctx_count(s, hs, n))).len()
            >= RECALL_CONTEXT_MAX_CHARS,
        forall|j: nat|
            1 <= j < ctx_count(s, hs, n) ==> (s + #[trigger] entries_from(hs, n, j)).len()
                < RECALL_CONTEXT_MAX_CHARS,
    decreases hs.len(),
{
    if hs.len() == 0 {
        assert(s + entries_from(hs, n, 0) =~= s);
    } else {
        let e = hit_entry(n, hs[0]);
        let s2 = s + e;
        let rest = hs.drop_first();
        assert(entries_from(rest, n + 1, 0) == Seq::<char>::empty());
        assert(entries_from(hs, n, 1) == e + entries_from(rest, n + 1, 0));
        assert(s + entries_from(hs, n, 1) =~= s2);
        if s2.len() < RECALL_CONTEXT_MAX_CHARS {
            lemma_ctx_from(s2, rest, n + 1);
            let m = ctx_count(s2, rest, n + 1);
            assert forall|j: nat| 1 <= j <= m + 1 implies s + #[trigger] entries_from(hs, n, j) == s2
                + entries_from(rest, n + 1, (j - 1) as nat) by {
                assert(entries_from(hs, n, j) == e + entries_from(rest, n + 1, (j - 1) as nat));
                assert(s + (e + entries_from(rest, n + 1, (j - 1) as nat)) =~= s2 + entries_from(
                    rest,
                    n + 1,
                    (j - 1) as nat,
                ));
            }
            assert(s + entries_from(hs, n, m + 1) == s2 + entries_from(rest, n + 1, m));
            assert forall|j: nat| 1 <= j < m + 1 implies (s + #[trigger] entries_from(hs, n, j)).len()
                < RECALL_CONTEXT_MAX_CHARS by {
                assert(s + entries_from(hs, n, j) == s2 + entries_from(rest, n + 1, (j - 1) as nat));
                if j > 1 {
                    assert((s2 + entries_from(rest, n + 1, (j - 1) as nat)).len() < RECALL_CONTEXT_MAX_CHARS);
                } else {
                    assert(entries_from(rest, n + 1, 0) == Seq::<char>::empty());
                    assert(s2 + entries_from(rest, n + 1, 0) =~= s2);
                }
            }
        }
    }
}

/// A context block: with no hits, the fixed note; otherwise the opening
/// tag, then the entries of the first `m` hits kept by deduplication,
/// numbered from one, then the closing tag, where `m` is at least one and
/// stops short of all kept hits only once the block has reached its length
/// limit, and not before.
pub proof fn lemma_context_block_shape(hs: Seq<ContextHit>)
    ensures
        hs.len() == 0 ==> context_block(hs) == "<biTurboContext>no relevant memories</biTurboContext>"@,
        hs.len() > 0 ==> exists|m: nat|
            1 <= m <= kept_hits(hs).len() && context_block(hs) == "<biTurboContext>\n"@
                + entries_from(kept_hits(hs), 1, m) + "</biTurboContext>"@ && (m < kept_hits(hs).len()
                ==> ("<biTurboContext>\n"@ + entries_from(kept_hits(hs), 1, m)).len()
                >= RECALL_CONTEXT_MAX_CHARS) && forall|j: nat|
                1 <= j < m ==> ("<biTurboContext>\n"@ + #[trigger] entries_from(kept_hits(hs), 1, j)).len()
                    < RECALL_CONTEXT_MAX_CHARS,
{
    if hs.len() > 0 {
        let k = kept_hits(hs);
        lemma_kept_hits_order(hs);
        lemma_ctx_from("<biTurboContext>\n"@, k, 1);
        let m = ctx_count("<biTurboContext>\n"@, k, 1);
        assert(1 <= m <= k.len());
    }
}

/// The text of a context block's memory is at most one character longer
/// than the limit: the cut text and its ellipsis.
pub proof fn lemma_fitted_length(text: Seq<char>, max: nat)
    ensures
        fitted(text, max).len() <= max + 1,
{
    let t = trim(text, TrimSet::Whitespace);
    if t.len() > max {
        lemma_last_boundary(t, max - max / 3, max as int);
        reveal_strlit("\u{2026}");
    }
}

proof fn lemma_last_boundary(t: Seq<char>, lo: int, hi: int)
    ensures
        last_boundary(t, lo, hi) == -1 || lo <= last_boundary(t, lo, hi) < hi,
    decreases hi - lo,
{
    if hi > lo && !ends_sentence(t[hi - 1]) {
        lemma_last_boundary(t, lo, hi - 1);
    }
}

} // verus!
