//! Importing notes from a folder, exporting memories, and watching folders.
use vstd::prelude::*;

use crate::text::{
    append_chars, ascii_lower, ascii_lower_seq, byte_len, chars_eq, chars_of, decimal, decimal_string, lines,
    lemma_trim_idempotent, split_lines, starts_with, starts_with_chars, string_of, to_ascii_lower, trim, trim_chars,
    utf8_len, TrimSet,
};

verus! {

/// What importing a folder did.
pub struct ImportResult {
    pub files_imported: usize,
    pub memories_created: usize,
    pub errors: Vec<String>,
}

impl Default for ImportResult {
    fn default() -> (r: Self)
        ensures
            r.files_imported == 0,
            r.memories_created == 0,
            r.errors@.len() == 0,
    {
        ImportResult { files_imported: 0, memories_created: 0, errors: Vec::new() }
    }
}

/// What exporting memories wrote.
pub struct ExportResult {
    pub memories_written: usize,
    pub output_path: String,
}

impl Default for ExportResult {
    fn default() -> (r: Self)
        ensures
            r.memories_written == 0,
            r.output_path@.len() == 0,
    {
        ExportResult { memories_written: 0, output_path: String::new() }
    }
}

/// The file extensions whose files a folder import reads, compared without
/// regard to ASCII case.
pub open spec fn importable_ext(ext: Seq<char>) -> bool {
    let e = ascii_lower_seq(ext);
    e == "md"@ || e == "markdown"@ || e == "txt"@ || e == "org"@
}

pub(crate) fn lower_chars(s: &[char]) -> (r: Vec<char>)
    ensures
        r@ == ascii_lower_seq(s@),
{
    let mut r: Vec<char> = Vec::new();
    let mut i: usize = 0;
    while i < s.len()
        invariant
            i <= s@.len(),
            r@ == ascii_lower_seq(s@.take(i as int)),
        decreases s@.len() - i,
    {
        r.push(to_ascii_lower(s[i]));
        assert(ascii_lower_seq(s@.take(i + 1)) =~= ascii_lower_seq(s@.take(i as int)).push(
            ascii_lower(s@[i as int]),
        ));
        i += 1;
    }
    assert(s@.take(s@.len() as int) == s@);
    r
}

/// Whether a file with this extension is imported as notes.
pub fn is_importable_ext(ext: &str) -> (b: bool)
    ensures
        b == importable_ext(ext@),
{
    let e = chars_of(ext);
    let l = lower_chars(e.as_slice());
    let md = chars_of("md");
    let markdown = chars_of("markdown");
    let txt = chars_of("txt");
    let org = chars_of("org");
    chars_eq(l.as_slice(), md.as_slice()) || chars_eq(l.as_slice(), markdown.as_slice())
        || chars_eq(l.as_slice(), txt.as_slice()) || chars_eq(l.as_slice(), org.as_slice())
}

/// The longest a markdown chunk grows, in UTF-8 bytes, before it is cut.
pub const MAX_MARKDOWN_CHUNK: usize = 1500;

/// Whether a line opens a heading of level one to three.
pub open spec fn is_heading(line: Seq<char>) -> bool {
    starts_with(line, "# "@) || starts_with(line, "## "@) || starts_with(line, "### "@)
}

/// The chunks closed so far and the chunk being filled, after reading `ls`.
pub open spec fn markdown_state(ls: Seq<Seq<char>>) -> (Seq<Seq<char>>, Seq<char>)
    decreases ls.len(),
{
    if ls.len() == 0 {
        (Seq::empty(), Seq::empty())
    } else {
        let (done0, cur0) = markdown_state(ls.drop_last());
        let line = ls.last();
        let (done1, cur1) = if is_heading(line) && trim(cur0, TrimSet::Whitespace).len() > 0 {
            (done0.push(trim(cur0, TrimSet::Whitespace)), Seq::<char>::empty())
        } else {
            (done0, cur0)
        };
        let cur2 = cur1 + line + seq!['\n'];
        if byte_len(cur2) > MAX_MARKDOWN_CHUNK {
            (done1.push(trim(cur2, TrimSet::Whitespace)), Seq::<char>::empty())
        } else {
            (done1, cur2)
        }
    }
}

/// How a note file is cut into chunks: a heading of level one to three starts
/// a new chunk when the current one holds more than whitespace, a chunk is
/// closed once it exceeds the size limit, each chunk is trimmed, and a file
/// that gives no chunk at all but is not empty is kept whole.
pub open spec fn markdown_chunks(content: Seq<char>) -> Seq<Seq<char>> {
    let (done, cur) = markdown_state(lines(content));
    let all = if trim(cur, TrimSet::Whitespace).len() > 0 {
        done.push(trim(cur, TrimSet::Whitespace))
    } else {
        done
    };
    if all.len() == 0 && content.len() > 0 {
        seq![content]
    } else {
        all
    }
}

proof fn lemma_heading_literals()
    ensures
        "# "@ == seq!['#', ' '],
        "## "@ == seq!['#', '#', ' '],
        "### "@ == seq!['#', '#', '#', ' '],
{
    reveal_strlit("# ");
    reveal_strlit("## ");
    reveal_strlit("### ");
}

/// Cuts a note file into chunks (see `markdown_chunks`).
pub fn chunk_markdown(content: &str) -> (chunks: Vec<String>)
    ensures
        chunks@.len() == markdown_chunks(content@).len(),
        forall|i: int|
            0 <= i < chunks@.len() ==> #[trigger] chunks@[i]@ == markdown_chunks(content@)[i],
{
    proof {
        lemma_heading_literals();
    }
    let c = chars_of(content);
    let ls = split_lines(c.as_slice());
    let ghost lv = lines(content@);
    let h1 = chars_of("# ");
    let h2 = chars_of("## ");
    let h3 = chars_of("### ");
    let mut chunks: Vec<String> = Vec::new();
    let mut current: Vec<char> = Vec::new();
    let mut current_len: usize = 0;
    let mut i: usize = 0;
    while i < ls.len()
        invariant
            i <= ls@.len(),
            ls@.len() == lv.len(),
            lv == lines(content@),
            forall|j: int| 0 <= j < ls@.len() ==> #[trigger] ls@[j]@ == lv[j],
            h1@ == "# "@,
            h2@ == "## "@,
            h3@ == "### "@,
            chunks@.len() == markdown_state(lv.take(i as int)).0.len(),
            forall|j: int|
                0 <= j < chunks@.len() ==> #[trigger] chunks@[j]@ == markdown_state(
                    lv.take(i as int),
                ).0[j],
            current@ == markdown_state(lv.take(i as int)).1,
            current_len == byte_len(current@),
            current_len <= MAX_MARKDOWN_CHUNK,
        decreases ls@.len() - i,
    {
        assert(lv.take(i + 1).drop_last() == lv.take(i as int));
        let line = &ls[i];
        let heading = starts_with_chars(line.as_slice(), h1.as_slice()) || starts_with_chars(
            line.as_slice(),
            h2.as_slice(),
        ) || starts_with_chars(line.as_slice(), h3.as_slice());
        if heading {
            let t = trim_chars(current.as_slice(), TrimSet::Whitespace);
            if t.len() > 0 {
                chunks.push(string_of(t.as_slice()));
                current = Vec::new();
                current_len = 0;
            }
        }
        let ghost before = current@;
        append_chars(&mut current, line.as_slice());
        current.push('\n');
        proof {
            lemma_byte_len_append(before, line@);
            lemma_byte_len_append(before + line@, seq!['\n']);
            assert(before + line@ + seq!['\n'] == current@);
            assert(byte_len(seq!['\n']) == 1) by {
                assert(seq!['\n'].drop_last() == Seq::<char>::empty());
                assert(seq!['\n'].last() == '\n');
                assert(('\n' as u32) == 10);
                assert(byte_len(Seq::<char>::empty()) == 0);
            }
        }
        let n = utf8_len(line.as_slice());
        current_len = current_len.saturating_add(n).saturating_add(1);
        if current_len > MAX_MARKDOWN_CHUNK {
            let t = trim_chars(current.as_slice(), TrimSet::Whitespace);
            chunks.push(string_of(t.as_slice()));
            current = Vec::new();
            current_len = 0;
        }
        i += 1;
    }
    assert(lv.take(lv.len() as int) == lv);
    let t = trim_chars(current.as_slice(), TrimSet::Whitespace);
    if t.len() > 0 {
        chunks.push(string_of(t.as_slice()));
    }
    if chunks.len() == 0 && c.len() > 0 {
        chunks.push(content.to_owned());
    }
    chunks
}

/// The UTF-8 length of a concatenation is the sum of the lengths.
pub proof fn lemma_byte_len_append(a: Seq<char>, b: Seq<char>)
    ensures
        byte_len(a + b) == byte_len(a) + byte_len(b),
    decreases b.len(),
{
    if b.len() == 0 {
        assert(a + b == a);
    } else {
        lemma_byte_len_append(a, b.drop_last());
        assert((a + b).drop_last() == a + b.drop_last());
        assert((a + b).last() == b.last());
    }
}

/// The tags an imported chunk carries: `imported` and `md:` with the file's
/// extension.
pub fn import_tags(ext: &str) -> (tags: Vec<String>)
    ensures
        tags@.len() == 2,
        tags@[0]@ == "imported"@,
        tags@[1]@ == "md:"@ + ext@,
{
    let mut tag: Vec<char> = chars_of("md:");
    let e = chars_of(ext);
    append_chars(&mut tag, e.as_slice());
    let mut tags: Vec<String> = Vec::new();
    tags.push("imported".to_owned());
    tags.push(string_of(tag.as_slice()));
    tags
}

/// The message recorded when storing chunk `index` of file `rel` failed.
pub fn import_error(rel: &str, index: usize, error: &str) -> (m: String)
    ensures
        m@ == rel@ + " chunk "@ + decimal(index as nat) + ": "@ + error@,
{
    let mut out: Vec<char> = chars_of(rel);
    let sep = chars_of(" chunk ");
    append_chars(&mut out, sep.as_slice());
    let d = decimal_string(index as u64);
    append_chars(&mut out, d.as_slice());
    let colon = chars_of(": ");
    append_chars(&mut out, colon.as_slice());
    let e = chars_of(error);
    append_chars(&mut out, e.as_slice());
    string_of(out.as_slice())
}

/// Folders being watched, and how many.
pub struct WatchStatus {
    pub enabled_projects: usize,
    pub watching: Vec<String>,
}

/// The projects whose folders are watched; each appears once.
pub struct WatchRegistry {
    pub watching: Vec<String>,
}

impl WatchRegistry {
    pub open spec fn ids(&self) -> Seq<Seq<char>> {
        self.watching@.map_values(|s: String| s@)
    }

    /// No project is watched twice.
    pub open spec fn wf(&self) -> bool {
        forall|i: int, j: int|
            0 <= i < j < self.watching@.len() ==> #[trigger] self.watching@[i]@
                != #[trigger] self.watching@[j]@
    }

    pub fn new() -> (r: Self)
        ensures
            r.wf(),
            r.ids().len() == 0,
    {
        WatchRegistry { watching: Vec::new() }
    }

    fn position(&self, id: &str) -> (r: Option<usize>)
        ensures
            match r {
                Some(k) => k < self.watching@.len() && self.watching@[k as int]@ == id@,
                None => forall|k: int|
                    0 <= k < self.watching@.len() ==> #[trigger] self.watching@[k]@ != id@,
            },
    {
        let target = chars_of(id);
        let mut k: usize = 0;
        while k < self.watching.len()
            invariant
                k <= self.watching@.len(),
                target@ == id@,
                forall|j: int| 0 <= j < k ==> #[trigger] self.watching@[j]@ != id@,
            decreases self.watching@.len() - k,
        {
            let w = chars_of(self.watching[k].as_str());
            if chars_eq(w.as_slice(), target.as_slice()) {
                return Some(k);
            }
            k += 1;
        }
        None
    }

    /// Whether the project's folder is watched.
    pub fn contains(&self, id: &str) -> (b: bool)
        ensures
            b == self.ids().contains(id@),
    {
        let r = self.position(id);
        proof {
            match r {
                Some(k) => {
                    assert(self.ids()[k as int] == id@);
                },
                None => {
                    if self.ids().contains(id@) {
                        let k = choose|k: int| 0 <= k < self.ids().len() && self.ids()[k] == id@;
                        assert(self.watching@[k]@ == id@);
                    }
                },
            }
        }
        r.is_some()
    }

    /// Starts watching a project; a project already watched is watched once.
    pub fn add(&mut self, id: &str)
        requires
            old(self).wf(),
        ensures
            final(self).wf(),
            final(self).ids().to_set() == old(self).ids().to_set().insert(id@),
    {
        let r = self.position(id);
        let ghost before = self.ids();
        match r {
            Some(k) => {
                proof {
                    assert(before[k as int] == id@);
                    assert(before.to_set().insert(id@) =~= before.to_set());
                }
            },
            None => {
                self.watching.push(id.to_owned());
                proof {
                    assert(self.ids() =~= before.push(id@));
                    before.lemma_push_to_set_commute(id@);
                    assert(before.push(id@).to_set() =~= before.to_set().insert(id@));
                }
            },
        }
    }

    /// Stops watching a project.
    pub fn remove(&mut self, id: &str)
        requires
            old(self).wf(),
        ensures
            final(self).wf(),
            final(self).ids().to_set() == old(self).ids().to_set().remove(id@),
    {
        let r = self.position(id);
        let ghost before = self.ids();
        match r {
            Some(k) => {
                let ghost old_w = self.watching@;
                self.watching.remove(k);
                proof {
                    assert(self.ids() =~= before.remove(k as int));
                    assert forall|x: Seq<char>|
                        self.ids().to_set().contains(x) == before.to_set().remove(id@).contains(
                            x,
                        ) by {
                        if self.ids().to_set().contains(x) {
                            let j = choose|j: int| 0 <= j < self.ids().len() && self.ids()[j] == x;
                            if j < k {
                                assert(before[j] == x);
                                assert(old_w[j]@ != old_w[k as int]@);
                            } else {
                                assert(before[j + 1] == x);
                                assert(old_w[k as int]@ != old_w[j + 1]@);
                            }
                        }
                        if before.to_set().remove(id@).contains(x) {
                            let j = choose|j: int| 0 <= j < before.len() && before[j] == x;
                            if j < k {
                                assert(self.ids()[j] == x);
                            } else if j > k {
                                assert(self.ids()[j - 1] == x);
                            }
                        }
                    }
                    assert(self.ids().to_set() =~= before.to_set().remove(id@));
                }
            },
            None => {
                proof {
                    assert forall|x: Seq<char>| before.to_set().contains(x) implies x != id@ by {
                        let j = choose|j: int| 0 <= j < before.len() && before[j] == x;
                        assert(self.watching@[j]@ == x);
                    }
                    assert(before.to_set().remove(id@) =~= before.to_set());
                }
            },
        }
    }
}

/// The folders being watched, as the status call reports them.
pub fn watch_status(registry: &WatchRegistry) -> (st: WatchStatus)
    ensures
        st.enabled_projects == registry.watching@.len(),
        registry.wf() ==> forall|i: int, j: int|
            0 <= i < j < st.watching@.len() ==> #[trigger] st.watching@[i]@ != #[trigger] st.watching@[j]@,
        st.watching@.len() == registry.watching@.len(),
        forall|i: int|
            0 <= i < st.watching@.len() ==> #[trigger] st.watching@[i]@
                == registry.watching@[i]@,
{
    let mut watching: Vec<String> = Vec::new();
    let mut i: usize = 0;
    while i < registry.watching.len()
        invariant
            i <= registry.watching@.len(),
            watching@.len() == i,
            forall|j: int| 0 <= j < i ==> #[trigger] watching@[j]@ == registry.watching@[j]@,
        decreases registry.watching@.len() - i,
    {
        let w = chars_of(registry.watching[i].as_str());
        watching.push(string_of(w.as_slice()));
        i += 1;
    }
    WatchStatus { enabled_projects: watching.len(), watching }
}

/// Whether the last request about `id` among `ops` (each a start, `true`,
/// or a stop, `false`, of watching a project) was a start.
pub open spec fn last_started(ops: Seq<(bool, Seq<char>)>, id: Seq<char>) -> bool
    decreases ops.len(),
{
    if ops.len() == 0 {
        false
    } else if ops.last().1 == id {
        ops.last().0
    } else {
        last_started(ops.drop_last(), id)
    }
}

/// The registry after one request, as `add` and `remove` leave it.
pub open spec fn watch_step(before: WatchRegistry, op: (bool, Seq<char>), after: WatchRegistry) -> bool {
    &&& after.wf()
    &&& if op.0 {
        after.ids().to_set() == before.ids().to_set().insert(op.1)
    } else {
        after.ids().to_set() == before.ids().to_set().remove(op.1)
    }
}

/// Starting from no watched project, after any sequence of starts and stops
/// (`add` and `remove`) a project is watched exactly when the last request
/// about it was a start, and none is watched twice.
pub proof fn lemma_watch_history(regs: Seq<WatchRegistry>, ops: Seq<(bool, Seq<char>)>)
    requires
        regs.len() == ops.len() + 1,
        regs[0].ids().len() == 0,
        forall|i: int| 0 <= i < ops.len() ==> watch_step(regs[i], #[trigger] ops[i], regs[i + 1]),
    ensures
        forall|id: Seq<char>| #[trigger] regs.last().ids().contains(id) <==> last_started(ops, id),
        ops.len() > 0 ==> regs.last().wf(),
    decreases ops.len(),
{
    if ops.len() == 0 {
        assert forall|id: Seq<char>| #[trigger] regs.last().ids().contains(id) <==> last_started(ops, id) by {
            assert(regs.last() == regs[0]);
        }
    } else {
        let n = ops.len() - 1;
        let prev = regs.drop_last();
        let pops = ops.drop_last();
        assert forall|i: int| 0 <= i < pops.len() implies watch_step(prev[i], #[trigger] pops[i], prev[i + 1]) by {
            assert(pops[i] == ops[i] && prev[i] == regs[i] && prev[i + 1] == regs[i + 1]);
        }
        assert(prev[0] == regs[0]);
        lemma_watch_history(prev, pops);
        assert(watch_step(regs[n], ops[n], regs[n + 1]));
        assert(prev.last() == regs[n]);
        assert(regs.last() == regs[n + 1]);
        assert forall|id: Seq<char>| #[trigger] regs.last().ids().contains(id) <==> last_started(ops, id) by {
            assert(regs.last().ids().contains(id) == regs.last().ids().to_set().contains(id));
            assert(regs[n].ids().contains(id) == regs[n].ids().to_set().contains(id));
        }
    }
}

/// Whether a re-ingest of a watched folder is running, and whether another
/// change arrived while it ran.
pub struct WatchJob {
    pub running: bool,
    pub queued: bool,
}

/// A change arrives: a re-ingest starts unless one runs, in which case the
/// change is remembered.
pub open spec fn change_step(j: WatchJob) -> (WatchJob, bool) {
    if j.running {
        (WatchJob { running: true, queued: true }, false)
    } else {
        (WatchJob { running: true, queued: j.queued }, true)
    }
}

/// The running re-ingest ends: one more starts if a change was remembered.
pub open spec fn finish_step(j: WatchJob) -> (WatchJob, bool) {
    if j.queued {
        (WatchJob { running: true, queued: false }, true)
    } else {
        (WatchJob { running: false, queued: false }, false)
    }
}

impl WatchJob {
    pub fn new() -> (j: Self)
        ensures
            !j.running,
            !j.queued,
    {
        WatchJob { running: false, queued: false }
    }

    /// A file changed: returns whether a re-ingest starts now. While one runs,
    /// the change is remembered instead.
    pub fn on_change(&mut self) -> (start: bool)
        ensures
            (*final(self), start) == change_step(*old(self)),
    {
        if self.running {
            self.queued = true;
            false
        } else {
            self.running = true;
            true
        }
    }

    /// The running re-ingest ended: returns whether one more runs now,
    /// covering every change that arrived meanwhile.
    pub fn on_finish(&mut self) -> (again: bool)
        ensures
            (*final(self), again) == finish_step(*old(self)),
    {
        self.running = false;
        if self.queued {
            self.queued = false;
            self.running = true;
            true
        } else {
            false
        }
    }

    /// The extra re-ingest ended.
    pub fn on_rerun_finish(&mut self)
        ensures
            !final(self).running,
            final(self).queued == old(self).queued,
    {
        self.running = false;
    }
}

/// The job after `k` changes.
pub open spec fn after_changes(j: WatchJob, k: nat) -> WatchJob
    decreases k,
{
    if k == 0 {
        j
    } else {
        change_step(after_changes(j, (k - 1) as nat)).0
    }
}

/// While a re-ingest runs, any number of changes starts nothing, and when it
/// ends exactly one more re-ingest runs if at least one change arrived, none
/// otherwise.
pub proof fn lemma_watch_changes_coalesce(j: WatchJob, k: nat)
    requires
        j.running,
        !j.queued,
    ensures
        after_changes(j, k).running,
        after_changes(j, k).queued == (k > 0),
        forall|i: nat| i < k ==> !(#[trigger] change_step(after_changes(j, i))).1,
        finish_step(after_changes(j, k)).1 == (k > 0),
    decreases k,
{
    if k > 0 {
        lemma_watch_changes_coalesce(j, (k - 1) as nat);
    }
}

/// The chunks of a note file that hold more than whitespace, each with its
/// position among all the chunks, in order.
pub open spec fn kept_chunks(cs: Seq<Seq<char>>) -> Seq<(int, Seq<char>)>
    decreases cs.len(),
{
    if cs.len() == 0 {
        Seq::empty()
    } else {
        let prev = kept_chunks(cs.drop_last());
        if trim(cs.last(), TrimSet::Whitespace).len() > 0 {
            prev.push((cs.len() - 1, cs.last()))
        } else {
            prev
        }
    }
}

/// The chunks of a note file that become memories (see `kept_chunks`),
/// each with its position among all of the file's chunks.
pub fn note_chunks(content: &str) -> (r: Vec<(usize, String)>)
    ensures
        r@.len() == kept_chunks(markdown_chunks(content@)).len(),
        forall|k: int|
            0 <= k < r@.len() ==> (#[trigger] r@[k]).0 == kept_chunks(markdown_chunks(content@))[k].0
                && r@[k].1@ == kept_chunks(markdown_chunks(content@))[k].1,
{
    let chunks = chunk_markdown(content);
    let ghost cs = markdown_chunks(content@);
    assert(chunks@.map_values(|c: String| c@) =~= cs);
    let mut r: Vec<(usize, String)> = Vec::new();
    let mut i: usize = 0;
    while i < chunks.len()
        invariant
            i <= chunks@.len(),
            chunks@.len() == cs.len(),
            forall|j: int| 0 <= j < chunks@.len() ==> #[trigger] chunks@[j]@ == cs[j],
            r@.len() == kept_chunks(cs.take(i as int)).len(),
            forall|k: int|
                0 <= k < r@.len() ==> (#[trigger] r@[k]).0 == kept_chunks(cs.take(i as int))[k].0
                    && r@[k].1@ == kept_chunks(cs.take(i as int))[k].1,
        decreases chunks@.len() - i,
    {
        assert(cs.take(i + 1).drop_last() == cs.take(i as int));
        assert(cs.take(i + 1).last() == cs[i as int]);
        let t = trim_chars(chars_of(chunks[i].as_str()).as_slice(), TrimSet::Whitespace);
        if t.len() > 0 {
            r.push((i, string_of(chars_of(chunks[i].as_str()).as_slice())));
        }
        i += 1;
    }
    assert(cs.take(cs.len() as int) == cs);
    r
}

proof fn lemma_markdown_state_trimmed(ls: Seq<Seq<char>>)
    ensures
        forall|i: int|
            0 <= i < markdown_state(ls).0.len() ==> trim(#[trigger] markdown_state(ls).0[i], TrimSet::Whitespace)
                == markdown_state(ls).0[i],
    decreases ls.len(),
{
    if ls.len() > 0 {
        lemma_markdown_state_trimmed(ls.drop_last());
        let (done0, cur0) = markdown_state(ls.drop_last());
        let line = ls.last();
        lemma_trim_idempotent(cur0, TrimSet::Whitespace);
        let (done1, cur1) = if is_heading(line) && trim(cur0, TrimSet::Whitespace).len() > 0 {
            (done0.push(trim(cur0, TrimSet::Whitespace)), Seq::<char>::empty())
        } else {
            (done0, cur0)
        };
        let cur2 = cur1 + line + seq!['\n'];
        lemma_trim_idempotent(cur2, TrimSet::Whitespace);
        assert forall|i: int| 0 <= i < done1.len() implies trim(#[trigger] done1[i], TrimSet::Whitespace)
            == done1[i] by {
            if i < done0.len() {
                assert(done1[i] == done0[i]);
            }
        }
        let d = markdown_state(ls).0;
        assert forall|i: int| 0 <= i < d.len() implies trim(#[trigger] d[i], TrimSet::Whitespace)
            == d[i] by {
            if i < done1.len() {
                assert(d[i] == done1[i]);
            }
        }
    }
}

/// The characters of `s` that are not whitespace, in order.
pub open spec fn non_ws(s: Seq<char>) -> Seq<char>
    decreases s.len(),
{
    if s.len() == 0 {
        Seq::empty()
    } else if crate::text::is_ws(s.last()) {
        non_ws(s.drop_last())
    } else {
        non_ws(s.drop_last()).push(s.last())
    }
}

/// The pieces one after another.
pub open spec fn concat_all(cs: Seq<Seq<char>>) -> Seq<char>
    decreases cs.len(),
{
    if cs.len() == 0 {
        Seq::empty()
    } else {
        concat_all(cs.drop_last()) + cs.last()
    }
}

proof fn lemma_non_ws_append(a: Seq<char>, b: Seq<char>)
    ensures
        non_ws(a + b) == non_ws(a) + non_ws(b),
    decreases b.len(),
{
    if b.len() == 0 {
        assert(a + b == a);
        assert(non_ws(a) + non_ws(b) == non_ws(a));
    } else {
        lemma_non_ws_append(a, b.drop_last());
        assert((a + b).drop_last() == a + b.drop_last());
        assert((a + b).last() == b.last());
        if !crate::text::is_ws(b.last()) {
            assert((non_ws(a) + non_ws(b.drop_last())).push(b.last()) == non_ws(a) + non_ws(
                b.drop_last(),
            ).push(b.last()));
        }
    }
}

proof fn lemma_non_ws_trim(s: Seq<char>)
    ensures
        non_ws(crate::text::trim_start(s, TrimSet::Whitespace)) == non_ws(s),
        non_ws(crate::text::trim_end(s, TrimSet::Whitespace)) == non_ws(s),
        non_ws(trim(s, TrimSet::Whitespace)) == non_ws(s),
    decreases s.len(),
{
    if s.len() > 0 {
        lemma_non_ws_trim(s.drop_first());
        lemma_non_ws_trim(s.drop_last());
        if crate::text::is_ws(s[0]) {
            assert(s == seq![s[0]] + s.drop_first());
            lemma_non_ws_append(seq![s[0]], s.drop_first());
            assert(seq![s[0]].drop_last() =~= Seq::<char>::empty());
            assert(seq![s[0]].last() == s[0]);
            assert(non_ws(Seq::<char>::empty()) == Seq::<char>::empty());
            assert(non_ws(seq![s[0]]) == Seq::<char>::empty());
        }
        let u = crate::text::trim_start(s, TrimSet::Whitespace);
        lemma_non_ws_trim_end_only(u);
    }
}

proof fn lemma_non_ws_trim_end_only(s: Seq<char>)
    ensures
        non_ws(crate::text::trim_end(s, TrimSet::Whitespace)) == non_ws(s),
    decreases s.len(),
{
    if s.len() > 0 {
        lemma_non_ws_trim_end_only(s.drop_last());
    }
}

proof fn lemma_non_ws_lines(s: Seq<char>)
    ensures
        non_ws(concat_all(crate::text::line_state(s).0)) + non_ws(crate::text::line_state(s).1)
            == non_ws(s),
        non_ws(concat_all(lines(s))) == non_ws(s),
    decreases s.len(),
{
    let (done, cur) = crate::text::line_state(s);
    if s.len() == 0 {
        assert(non_ws(concat_all(done)) + non_ws(cur) =~= Seq::<char>::empty());
    } else {
        lemma_non_ws_lines(s.drop_last());
        let (done0, cur0) = crate::text::line_state(s.drop_last());
        let c = s.last();
        if c == '\n' {
            assert(crate::text::is_ws(c));
            let x = crate::text::strip_cr(cur0);
            assert(non_ws(x) == non_ws(cur0)) by {
                if cur0.len() > 0 && cur0.last() == '\r' {
                    assert(crate::text::is_ws(cur0.last()));
                }
            }
            assert(done0.push(x).drop_last() == done0);
            lemma_non_ws_append(concat_all(done0), x);
            assert(non_ws(concat_all(done)) + non_ws(cur) =~= non_ws(concat_all(done0)) + non_ws(x));
        } else {
            assert(cur0.push(c).drop_last() == cur0);
            assert(non_ws(concat_all(done)) + non_ws(cur) =~= non_ws(s));
        }
    }
    let ls = lines(s);
    if cur.len() > 0 {
        assert(done.push(cur).drop_last() == done);
        lemma_non_ws_append(concat_all(done), cur);
    }
}

proof fn lemma_non_ws_markdown_state(ls: Seq<Seq<char>>)
    ensures
        non_ws(concat_all(markdown_state(ls).0)) + non_ws(markdown_state(ls).1) == non_ws(
            concat_all(ls),
        ),
    decreases ls.len(),
{
    if ls.len() == 0 {
        assert(non_ws(concat_all(markdown_state(ls).0)) + non_ws(markdown_state(ls).1) =~= Seq::<char>::empty());
    } else {
        lemma_non_ws_markdown_state(ls.drop_last());
        let (done0, cur0) = markdown_state(ls.drop_last());
        let line = ls.last();
        let t0 = trim(cur0, TrimSet::Whitespace);
        lemma_non_ws_trim(cur0);
        let (done1, cur1) = if is_heading(line) && t0.len() > 0 {
            (done0.push(t0), Seq::<char>::empty())
        } else {
            (done0, cur0)
        };
        assert(non_ws(concat_all(done1)) + non_ws(cur1) == non_ws(concat_all(done0)) + non_ws(cur0)) by {
            if is_heading(line) && t0.len() > 0 {
                assert(done0.push(t0).drop_last() == done0);
                lemma_non_ws_append(concat_all(done0), t0);
                assert(non_ws(cur1) =~= Seq::<char>::empty());
                assert(non_ws(concat_all(done1)) + non_ws(cur1) =~= non_ws(concat_all(done1)));
            }
        }
        let cur2 = cur1 + line + seq!['\n'];
        lemma_non_ws_append(cur1 + line, seq!['\n']);
        lemma_non_ws_append(cur1, line);
        assert(crate::text::is_ws('\n'));
        assert(seq!['\n'].drop_last() =~= Seq::<char>::empty());
        assert(seq!['\n'].last() == '\n');
        assert(non_ws(Seq::<char>::empty()) == Seq::<char>::empty());
        assert(non_ws(seq!['\n']) =~= Seq::<char>::empty());
        assert(non_ws(cur2) =~= non_ws(cur1) + non_ws(line));
        lemma_non_ws_append(concat_all(ls.drop_last()), line);
        let target = non_ws(concat_all(ls));
        assert(target == non_ws(concat_all(ls.drop_last())) + non_ws(line));
        assert(non_ws(concat_all(done1)) + non_ws(cur2) =~= target);
        if crate::text::byte_len(cur2) > MAX_MARKDOWN_CHUNK {
            let t2 = trim(cur2, TrimSet::Whitespace);
            lemma_non_ws_trim(cur2);
            assert(done1.push(t2).drop_last() == done1);
            lemma_non_ws_append(concat_all(done1), t2);
            assert(non_ws(concat_all(markdown_state(ls).0)) + non_ws(markdown_state(ls).1) =~= target);
        }
    }
}

/// Cutting a note file into chunks keeps all of its text but whitespace:
/// the chunks, one after another, hold the file's non-whitespace
/// characters in order.
pub proof fn lemma_markdown_chunks_keep_text(content: Seq<char>)
    ensures
        non_ws(concat_all(markdown_chunks(content))) == non_ws(content),
{
    let ls = lines(content);
    let (done, cur) = markdown_state(ls);
    lemma_non_ws_markdown_state(ls);
    lemma_non_ws_lines(content);
    let t = trim(cur, TrimSet::Whitespace);
    lemma_non_ws_trim(cur);
    let all = if t.len() > 0 {
        done.push(t)
    } else {
        done
    };
    assert(non_ws(concat_all(all)) == non_ws(content)) by {
        if t.len() > 0 {
            assert(done.push(t).drop_last() == done);
            lemma_non_ws_append(concat_all(done), t);
        } else {
            assert(t =~= Seq::<char>::empty());
            assert(non_ws(t) =~= Seq::<char>::empty());
            assert(non_ws(concat_all(done)) + non_ws(cur) =~= non_ws(concat_all(done)));
        }
    }
    if all.len() == 0 && content.len() > 0 {
        assert(seq![content].drop_last() =~= Seq::<Seq<char>>::empty());
        assert(seq![content].last() == content);
        assert(concat_all(Seq::<Seq<char>>::empty()) == Seq::<char>::empty());
        assert(concat_all(seq![content]) =~= content);
    }
}

/// A note file gives no chunk exactly when it is empty, and each chunk is
/// trimmed, except where a file that gives no other chunk is kept whole.
pub proof fn lemma_markdown_chunks_shape(content: Seq<char>)
    ensures
        markdown_chunks(content).len() == 0 <==> content.len() == 0,
        markdown_chunks(content) == seq![content] || forall|i: int|
            0 <= i < markdown_chunks(content).len() ==> trim(
                #[trigger] markdown_chunks(content)[i],
                TrimSet::Whitespace,
            ) == markdown_chunks(content)[i],
{
    let ls = lines(content);
    let (done, cur) = markdown_state(ls);
    lemma_markdown_state_trimmed(ls);
    lemma_trim_idempotent(cur, TrimSet::Whitespace);
    let all = if trim(cur, TrimSet::Whitespace).len() > 0 {
        done.push(trim(cur, TrimSet::Whitespace))
    } else {
        done
    };
    assert forall|i: int| 0 <= i < all.len() implies trim(#[trigger] all[i], TrimSet::Whitespace)
        == all[i] by {
        if i < done.len() {
            assert(all[i] == done[i]);
        }
    }
    if content.len() == 0 {
        assert(content =~= Seq::<char>::empty());
        assert(crate::text::line_state(content) == (Seq::<Seq<char>>::empty(), Seq::<char>::empty()));
        assert(ls.len() == 0);
        assert(markdown_state(ls) == (Seq::<Seq<char>>::empty(), Seq::<char>::empty()));
    }
}

} // verus!
