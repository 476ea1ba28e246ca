//! Project identifiers: slugs and the `.biTurbo` marker file.
use vstd::prelude::*;

use crate::error::{BiError, BiResult};
use crate::text::{
    ascii_lower, chars_of, is_ascii_alnum, is_ascii_alphanumeric, join, join_chars, lines,
    runs, sep_state, split_lines, split_runs, starts_with, starts_with_chars, string_of, to_ascii_lower,
    trim, trim_chars, views, TrimSet,
};

verus! {

/// Each ASCII letter or digit lowercased, anything else a dash.
pub open spec fn slug_char(c: char) -> char {
    if is_ascii_alnum(c) {
        ascii_lower(c)
    } else {
        '-'
    }
}

/// The slug of a name: lowercase ASCII letters and digits, runs of any other
/// characters collapsed into single dashes, no dash at either end.
pub open spec fn slug(s: Seq<char>) -> Seq<char> {
    join(runs(s.map_values(|c: char| slug_char(c)), '-'), "-"@)
}

pub fn slugify(s: &str) -> (r: String)
    ensures
        r@ == slug(s@),
{
    let c = chars_of(s);
    let mut mapped: Vec<char> = Vec::new();
    let mut i: usize = 0;
    while i < c.len()
        invariant
            i <= c@.len(),
            c@ == s@,
            mapped@ == s@.take(i as int).map_values(|x: char| slug_char(x)),
        decreases c@.len() - i,
    {
        let x = c[i];
        let y = if is_ascii_alphanumeric(x) {
            to_ascii_lower(x)
        } else {
            '-'
        };
        mapped.push(y);
        assert(s@.take(i + 1).map_values(|x: char| slug_char(x)) =~= s@.take(
            i as int,
        ).map_values(|x: char| slug_char(x)).push(slug_char(x)));
        i += 1;
    }
    assert(s@.take(s@.len() as int) == s@);
    let parts = split_runs(mapped.as_slice(), '-');
    let dash = chars_of("-");
    let joined = join_chars(&parts, dash.as_slice());
    string_of(joined.as_slice())
}

/// The names that a marker file's `projectName=` lines give, trimmed, in
/// order, empty ones skipped.
pub open spec fn marker_names(ls: Seq<Seq<char>>) -> Seq<Seq<char>>
    decreases ls.len(),
{
    if ls.len() == 0 {
        Seq::empty()
    } else {
        let prev = marker_names(ls.drop_last());
        let l = ls.last();
        if starts_with(l, "projectName="@) {
            let name = trim(l.skip(12), TrimSet::Whitespace);
            if name.len() > 0 {
                prev.push(name)
            } else {
                prev
            }
        } else {
            prev
        }
    }
}

/// The project names a `.biTurbo` marker file declares, in the order the
/// lookup tries them.
pub fn project_names_in_marker(content: &str) -> (names: Vec<String>)
    ensures
        names@.len() == marker_names(lines(content@)).len(),
        forall|i: int|
            0 <= i < names@.len() ==> #[trigger] names@[i]@ == marker_names(lines(content@))[i],
{
    proof {
        reveal_strlit("projectName=");
    }
    let c = chars_of(content);
    let ls = split_lines(c.as_slice());
    let ghost lv = lines(content@);
    let key = chars_of("projectName=");
    let mut out: Vec<String> = Vec::new();
    let mut i: usize = 0;
    while i < ls.len()
        invariant
            i <= ls@.len(),
            ls@.len() == lv.len(),
            lv == lines(content@),
            key@ == "projectName="@,
            key@.len() == 12,
            forall|j: int| 0 <= j < ls@.len() ==> #[trigger] ls@[j]@ == lv[j],
            out@.len() == marker_names(lv.take(i as int)).len(),
            forall|j: int|
                0 <= j < out@.len() ==> #[trigger] out@[j]@ == marker_names(lv.take(i as int))[j],
        decreases ls@.len() - i,
    {
        assert(lv.take(i + 1).drop_last() == lv.take(i as int));
        let l = &ls[i];
        if starts_with_chars(l.as_slice(), key.as_slice()) {
            let rest = tail(l.as_slice(), 12);
            let name = trim_chars(rest.as_slice(), TrimSet::Whitespace);
            if name.len() > 0 {
                out.push(string_of(name.as_slice()));
            }
        }
        i += 1;
    }
    assert(lv.take(lv.len() as int) == lv);
    out
}

/// The characters of `s` from position `from` on.
pub fn tail(s: &[char], from: usize) -> (r: Vec<char>)
    requires
        from <= s@.len(),
    ensures
        r@ == s@.skip(from as int),
{
    let mut r: Vec<char> = Vec::new();
    let mut i: usize = from;
    while i < s.len()
        invariant
            from <= i <= s@.len(),
            r@ == s@.subrange(from as int, i as int),
        decreases s@.len() - i,
    {
        r.push(s[i]);
        assert(s@.subrange(from as int, i + 1) == s@.subrange(from as int, i as int).push(
            s@[i as int],
        ));
        i += 1;
    }
    r
}

/// The first `n` characters of `s`.
pub fn tail_take(s: &[char], n: usize) -> (r: Vec<char>)
    requires
        n <= s@.len(),
    ensures
        r@ == s@.take(n as int),
{
    let mut r: Vec<char> = Vec::new();
    let mut i: usize = 0;
    while i < n
        invariant
            i <= n <= s@.len(),
            r@ == s@.take(i as int),
        decreases n - i,
    {
        r.push(s[i]);
        assert(s@.take(i + 1) == s@.take(i as int).push(s@[i as int]));
        i += 1;
    }
    r
}

/// The first `projectName=` value of a marker file, untrimmed, if any line
/// declares one.
pub open spec fn first_marker_value(ls: Seq<Seq<char>>) -> Option<Seq<char>>
    decreases ls.len(),
{
    if ls.len() == 0 {
        None
    } else if starts_with(ls[0], "projectName="@) {
        Some(ls[0].skip(12))
    } else {
        first_marker_value(ls.drop_first())
    }
}

/// What the marker file names as the project, as the `get_project_name_from_file`
/// tool reports it.
pub fn project_name_from_marker(content: &str) -> (r: Option<String>)
    ensures
        match r {
            Some(n) => first_marker_value(lines(content@)) == Some(n@),
            None => first_marker_value(lines(content@)) is None,
        },
{
    proof {
        reveal_strlit("projectName=");
    }
    let c = chars_of(content);
    let ls = split_lines(c.as_slice());
    let ghost lv = lines(content@);
    let key = chars_of("projectName=");
    let mut i: usize = 0;
    assert(lv.skip(0) == lv);
    while i < ls.len()
        invariant
            i <= ls@.len(),
            ls@.len() == lv.len(),
            lv == lines(content@),
            key@ == "projectName="@,
            key@.len() == 12,
            forall|j: int| 0 <= j < ls@.len() ==> #[trigger] ls@[j]@ == lv[j],
            first_marker_value(lv) == first_marker_value(lv.skip(i as int)),
        decreases ls@.len() - i,
    {
        assert(lv.skip(i as int).drop_first() == lv.skip(i + 1));
        assert(lv.skip(i as int)[0] == lv[i as int]);
        if starts_with_chars(ls[i].as_slice(), key.as_slice()) {
            let rest = tail(ls[i].as_slice(), 12);
            return Some(string_of(rest.as_slice()));
        }
        i += 1;
    }
    None
}

/// The project an explicit id names, if it is given and not empty.
pub fn explicit_project_id(project_id: Option<&str>) -> (r: Option<String>)
    ensures
        match project_id {
            Some(p) => if p@.len() > 0 {
                r matches Some(q) && q@ == p@
            } else {
                r is None
            },
            None => r is None,
        },
{
    match project_id {
        Some(p) => if p.is_empty() {
            None
        } else {
            Some(p.to_owned())
        },
        None => None,
    }
}


/// A project: an isolated set of memories with its own vector index.
pub struct Project {
    pub id: String,
    pub name: String,
    pub description: Option<String>,
    pub root_path: Option<String>,
    pub bit_width: i64,
    pub dim: i64,
    pub memory_count: i64,
    pub indexed_count: i64,
    pub embed_model: Option<String>,
    pub watch_enabled: bool,
    pub created_at: i64,
    pub updated_at: i64,
}

/// What creating a project asks for.
pub struct CreateProjectInput {
    pub id: Option<String>,
    pub name: String,
    pub description: Option<String>,
    pub root_path: Option<String>,
    pub bit_width: Option<u8>,
}

/// The quantisation width a project gets when none is asked for.
pub const DEFAULT_BIT_WIDTH: u8 = 4;

impl CreateProjectInput {
    /// The id the new project gets: the one asked for, else the slug of its
    /// name.
    pub fn project_id(&self) -> (id: String)
        ensures
            id@ == match self.id {
                Some(i) => i@,
                None => slug(self.name@),
            },
    {
        match &self.id {
            Some(i) => i.clone(),
            None => slugify(self.name.as_str()),
        }
    }

    /// The quantisation width the new project gets: the one asked for, else
    /// four.
    pub fn bit_width_or_default(&self) -> (w: i64)
        ensures
            w == match self.bit_width {
                Some(b) => b as i64,
                None => DEFAULT_BIT_WIDTH as i64,
            },
    {
        match self.bit_width {
            Some(b) => b as i64,
            None => DEFAULT_BIT_WIDTH as i64,
        }
    }
}

/// The text of the `.biTurbo` marker file written into a new project's root.
pub fn marker_content(name: &str) -> (c: String)
    ensures
        c@ == "projectName="@ + name@,
{
    let mut out: Vec<char> = chars_of("projectName=");
    crate::text::append_chars(&mut out, chars_of(name).as_slice());
    string_of(out.as_slice())
}

/// Whether a project may be deleted: the default project may not.
pub fn check_deletable(id: &str, default_id: &str) -> (r: BiResult<()>)
    ensures
        id@ == default_id@ <==> r is Err,
        r matches Err(e) ==> e matches BiError::Invalid(m) && m@ == "cannot delete default project"@,
{
    if crate::text::chars_eq(chars_of(id).as_slice(), chars_of(default_id).as_slice()) {
        Err(BiError::Invalid("cannot delete default project".to_owned()))
    } else {
        Ok(())
    }
}

/// The error for a project that does not exist.
pub fn project_not_found(id: &str) -> (e: BiError)
    ensures
        e matches BiError::NotFound(m) && m@ == "project "@ + id@,
{
    let mut out: Vec<char> = chars_of("project ");
    crate::text::append_chars(&mut out, chars_of(id).as_slice());
    BiError::NotFound(string_of(out.as_slice()))
}


// ---------------------------------------------------------------------------
// Slugs are fixed points of slugify
// ---------------------------------------------------------------------------
proof fn lemma_slug_char_fixed(c: char)
    ensures
        slug_char(slug_char(c)) == slug_char(c),
{
    if 'A' <= c <= 'Z' {
        assert((c as u32) as int == c as int);
    }
}

/// A part of a slug: not empty, no dash, every character its own slug.
spec fn slug_part(p: Seq<char>) -> bool {
    &&& p.len() > 0
    &&& forall|j: int| 0 <= j < p.len() ==> p[j] != '-' && slug_char(#[trigger] p[j]) == p[j]
}

proof fn lemma_sep_state_slug_parts(s: Seq<char>)
    requires
        forall|j: int| 0 <= j < s.len() ==> slug_char(#[trigger] s[j]) == s[j],
    ensures
        forall|i: int| 0 <= i < sep_state(s, '-').0.len() ==> slug_part(#[trigger] sep_state(s, '-').0[i]),
        forall|j: int| 0 <= j < sep_state(s, '-').1.len() ==> (#[trigger] sep_state(s, '-').1[j]) != '-'
            && slug_char(sep_state(s, '-').1[j]) == sep_state(s, '-').1[j],
    decreases s.len(),
{
    if s.len() > 0 {
        let t = s.drop_last();
        assert forall|j: int| 0 <= j < t.len() implies slug_char(#[trigger] t[j]) == t[j] by {
            assert(t[j] == s[j]);
        }
        lemma_sep_state_slug_parts(t);
        let (done, cur) = sep_state(t, '-');
        let c = s.last();
        assert(slug_char(s[s.len() - 1]) == s[s.len() - 1]);
        if c == '-' {
            if cur.len() > 0 {
                assert forall|i: int| 0 <= i < done.push(cur).len() implies slug_part(#[trigger] done.push(cur)[i]) by {
                    if i < done.len() {
                        assert(done.push(cur)[i] == done[i]);
                    } else {
                        assert(done.push(cur)[i] == cur);
                    }
                }
            }
        } else {
            assert forall|j: int| 0 <= j < cur.push(c).len() implies (#[trigger] cur.push(c)[j]) != '-'
                && slug_char(cur.push(c)[j]) == cur.push(c)[j] by {
                if j < cur.len() {
                    assert(cur.push(c)[j] == cur[j]);
                }
            }
        }
    }
}

proof fn lemma_sep_state_append(a: Seq<char>, b: Seq<char>)
    requires
        forall|j: int| 0 <= j < b.len() ==> #[trigger] b[j] != '-',
    ensures
        sep_state(a + b, '-') == (sep_state(a, '-').0, sep_state(a, '-').1 + b),
    decreases b.len(),
{
    if b.len() == 0 {
        assert(a + b == a);
        assert(sep_state(a, '-').1 + b == sep_state(a, '-').1);
    } else {
        let bd = b.drop_last();
        assert forall|j: int| 0 <= j < bd.len() implies #[trigger] bd[j] != '-' by {
            assert(bd[j] == b[j]);
        }
        lemma_sep_state_append(a, bd);
        assert((a + b).drop_last() == a + bd);
        assert((a + b).last() == b.last());
        assert(b[b.len() - 1] != '-');
        assert((sep_state(a, '-').1 + bd).push(b.last()) == sep_state(a, '-').1 + b);
    }
}

proof fn lemma_runs_of_join(ps: Seq<Seq<char>>)
    requires
        forall|i: int| 0 <= i < ps.len() ==> slug_part(#[trigger] ps[i]),
    ensures
        ps.len() > 0 ==> sep_state(join(ps, "-"@), '-') == (ps.drop_last(), ps.last()),
        runs(join(ps, "-"@), '-') == ps,
    decreases ps.len(),
{
    reveal_strlit("-");
    if ps.len() == 0 {
        assert(join(ps, "-"@) == Seq::<char>::empty());
        assert(runs(join(ps, "-"@), '-') =~= ps);
    } else {
        let last = ps.last();
        assert(slug_part(ps[ps.len() - 1]));
        assert forall|j: int| 0 <= j < last.len() implies #[trigger] last[j] != '-' by {
            assert(slug_part(last));
        }
        if ps.len() == 1 {
            lemma_sep_state_append(Seq::empty(), last);
            assert(Seq::<char>::empty() + last == last);
            assert(join(ps, "-"@) == last);
            assert(ps.drop_last() =~= Seq::<Seq<char>>::empty());
        } else {
            let init = ps.drop_last();
            assert forall|i: int| 0 <= i < init.len() implies slug_part(#[trigger] init[i]) by {
                assert(init[i] == ps[i]);
            }
            lemma_runs_of_join(init);
            let j0 = join(init, "-"@);
            assert(init.last() == ps[ps.len() - 2]);
            assert(slug_part(ps[ps.len() - 2]));
            let with_dash = j0.push('-');
            assert(j0 + "-"@ == with_dash);
            assert(with_dash.drop_last() == j0);
            assert(sep_state(with_dash, '-') == (init.drop_last().push(init.last()), Seq::<char>::empty()));
            assert(init.drop_last().push(init.last()) =~= init);
            lemma_sep_state_append(with_dash, last);
            assert(Seq::<char>::empty() + last == last);
            assert(join(ps, "-"@) == with_dash + last);
        }
        assert(slug_part(ps.last()));
        assert(ps.drop_last().push(ps.last()) =~= ps);
    }
}

proof fn lemma_join_fixed(ps: Seq<Seq<char>>)
    requires
        forall|i: int| 0 <= i < ps.len() ==> slug_part(#[trigger] ps[i]),
    ensures
        forall|j: int| 0 <= j < join(ps, "-"@).len() ==> slug_char(#[trigger] join(ps, "-"@)[j]) == join(ps, "-"@)[j],
    decreases ps.len(),
{
    reveal_strlit("-");
    if ps.len() == 1 {
        assert(slug_part(ps[0]));
    } else if ps.len() > 1 {
        let init = ps.drop_last();
        assert forall|i: int| 0 <= i < init.len() implies slug_part(#[trigger] init[i]) by {
            assert(init[i] == ps[i]);
        }
        lemma_join_fixed(init);
        let j0 = join(init, "-"@);
        let last = ps.last();
        assert(slug_part(ps[ps.len() - 1]));
        let whole = j0 + "-"@ + last;
        assert(join(ps, "-"@) == whole);
        assert forall|j: int| 0 <= j < whole.len() implies slug_char(#[trigger] whole[j]) == whole[j] by {
            if j < j0.len() {
                assert(whole[j] == j0[j]);
            } else if j == j0.len() {
                assert(whole[j] == '-');
            } else {
                assert(whole[j] == last[j - j0.len() - 1]);
            }
        }
    }
}

/// Slugifying a slug gives it back unchanged: a project id made from a name
/// is already in the form that slugify produces.
pub proof fn lemma_slug_idempotent(s: Seq<char>)
    ensures
        slug(slug(s)) == slug(s),
{
    let t = s.map_values(|c: char| slug_char(c));
    assert forall|j: int| 0 <= j < t.len() implies slug_char(#[trigger] t[j]) == t[j] by {
        lemma_slug_char_fixed(s[j]);
    }
    lemma_sep_state_slug_parts(t);
    let ps = runs(t, '-');
    let (done, cur) = sep_state(t, '-');
    assert forall|i: int| 0 <= i < ps.len() implies slug_part(#[trigger] ps[i]) by {
        if cur.len() > 0 && i == done.len() {
            assert(ps[i] == cur);
        } else {
            assert(ps[i] == done[i]);
        }
    }
    let u = join(ps, "-"@);
    assert(slug(s) == u);
    lemma_join_fixed(ps);
    assert(u.map_values(|c: char| slug_char(c)) =~= u);
    lemma_runs_of_join(ps);
}

proof fn lemma_join_shape(ps: Seq<Seq<char>>)
    requires
        forall|i: int| 0 <= i < ps.len() ==> slug_part(#[trigger] ps[i]),
    ensures
        ps.len() > 0 ==> join(ps, "-"@).len() > 0 && join(ps, "-"@)[0] != '-'
            && join(ps, "-"@).last() != '-',
        forall|j: int|
            0 <= j < join(ps, "-"@).len() - 1 ==> #[trigger] join(ps, "-"@)[j] != '-' || join(
                ps,
                "-"@,
            )[j + 1] != '-',
    decreases ps.len(),
{
    reveal_strlit("-");
    if ps.len() == 1 {
        assert(slug_part(ps[0]));
    } else if ps.len() > 1 {
        let init = ps.drop_last();
        assert forall|i: int| 0 <= i < init.len() implies slug_part(#[trigger] init[i]) by {
            assert(init[i] == ps[i]);
        }
        lemma_join_shape(init);
        let j0 = join(init, "-"@);
        let last = ps.last();
        assert(slug_part(ps[ps.len() - 1]));
        let whole = j0 + "-"@ + last;
        assert(join(ps, "-"@) == whole);
        assert(whole[0] == j0[0]);
        assert(whole.last() == last[last.len() - 1]);
        assert forall|j: int| 0 <= j < whole.len() - 1 implies #[trigger] whole[j] != '-' || whole[j
            + 1] != '-' by {
            if j < j0.len() - 1 {
                assert(whole[j] == j0[j] && whole[j + 1] == j0[j + 1]);
            } else if j == j0.len() - 1 {
                assert(whole[j] == j0[j0.len() - 1]);
            } else if j == j0.len() {
                assert(whole[j + 1] == last[0]);
            } else {
                assert(whole[j] == last[j - j0.len() - 1]);
            }
        }
    }
}

/// A slug is made of lowercase ASCII letters, digits and dashes; it neither
/// starts nor ends with a dash and never holds two dashes in a row.
pub proof fn lemma_slug_shape(s: Seq<char>)
    ensures
        forall|j: int| 0 <= j < slug(s).len() ==> slug_char(#[trigger] slug(s)[j]) == slug(s)[j],
        slug(s).len() > 0 ==> slug(s)[0] != '-' && slug(s).last() != '-',
        forall|j: int|
            0 <= j < slug(s).len() - 1 ==> #[trigger] slug(s)[j] != '-' || slug(s)[j + 1] != '-',
{
    let t = s.map_values(|c: char| slug_char(c));
    assert forall|j: int| 0 <= j < t.len() implies slug_char(#[trigger] t[j]) == t[j] by {
        lemma_slug_char_fixed(s[j]);
    }
    lemma_sep_state_slug_parts(t);
    let ps = runs(t, '-');
    let (done, cur) = sep_state(t, '-');
    assert forall|i: int| 0 <= i < ps.len() implies slug_part(#[trigger] ps[i]) by {
        if cur.len() > 0 && i == done.len() {
            assert(ps[i] == cur);
        } else {
            assert(ps[i] == done[i]);
        }
    }
    assert(slug(s) == join(ps, "-"@));
    lemma_join_fixed(ps);
    lemma_join_shape(ps);
    if ps.len() == 0 {
        assert(join(ps, "-"@).len() == 0);
    }
}

/// The ASCII letters and digits of `s`, lowercased, in order.
pub open spec fn slug_letters(s: Seq<char>) -> Seq<char>
    decreases s.len(),
{
    if s.len() == 0 {
        Seq::empty()
    } else if is_ascii_alnum(s.last()) {
        slug_letters(s.drop_last()).push(ascii_lower(s.last()))
    } else {
        slug_letters(s.drop_last())
    }
}

/// `s` without its dashes.
pub open spec fn without_dashes(s: Seq<char>) -> Seq<char>
    decreases s.len(),
{
    if s.len() == 0 {
        Seq::empty()
    } else if s.last() == '-' {
        without_dashes(s.drop_last())
    } else {
        without_dashes(s.drop_last()).push(s.last())
    }
}

proof fn lemma_without_dashes_append(a: Seq<char>, b: Seq<char>)
    ensures
        without_dashes(a + b) == without_dashes(a) + without_dashes(b),
    decreases b.len(),
{
    if b.len() == 0 {
        assert(a + b == a);
        assert(without_dashes(a) + without_dashes(b) == without_dashes(a));
    } else {
        lemma_without_dashes_append(a, b.drop_last());
        assert((a + b).drop_last() == a + b.drop_last());
        assert((a + b).last() == b.last());
        if b.last() != '-' {
            assert((without_dashes(a) + without_dashes(b.drop_last())).push(b.last()) == without_dashes(a)
                + without_dashes(b.drop_last()).push(b.last()));
        }
    }
}

proof fn lemma_without_dashes_slug_chars(s: Seq<char>)
    ensures
        without_dashes(s.map_values(|c: char| slug_char(c))) == slug_letters(s),
    decreases s.len(),
{
    if s.len() > 0 {
        lemma_without_dashes_slug_chars(s.drop_last());
        let t = s.map_values(|c: char| slug_char(c));
        assert(t.drop_last() == s.drop_last().map_values(|c: char| slug_char(c)));
        assert(t.last() == slug_char(s.last()));
        if is_ascii_alnum(s.last()) {
            assert(ascii_lower(s.last()) != '-') by {
                if 'A' <= s.last() <= 'Z' {
                    assert((s.last() as u32) + 32 >= 97);
                }
            }
        }
    }
}

proof fn lemma_without_dashes_runs(t: Seq<char>)
    ensures
        without_dashes(crate::io::concat_all(sep_state(t, '-').0)) + sep_state(t, '-').1 == without_dashes(t),
        forall|j: int| 0 <= j < sep_state(t, '-').1.len() ==> #[trigger] sep_state(t, '-').1[j] != '-',
        crate::io::concat_all(runs(t, '-')) == crate::io::concat_all(sep_state(t, '-').0) + sep_state(t, '-').1,
    decreases t.len(),
{
    let (done, cur) = sep_state(t, '-');
    if t.len() == 0 {
        assert(without_dashes(crate::io::concat_all(done)) + cur =~= Seq::<char>::empty());
        assert(crate::io::concat_all(done) + cur =~= Seq::<char>::empty());
    } else {
        lemma_without_dashes_runs(t.drop_last());
        let (done0, cur0) = sep_state(t.drop_last(), '-');
        let c = t.last();
        lemma_without_dashes_none(cur0);
        if c == '-' {
            if cur0.len() > 0 {
                assert(done0.push(cur0).drop_last() == done0);
                lemma_without_dashes_append(crate::io::concat_all(done0), cur0);
                assert(without_dashes(crate::io::concat_all(done)) + cur =~= without_dashes(crate::io::concat_all(done0)) + cur0);
            }
        } else {
            assert(cur0.push(c).drop_last() == cur0);
            assert forall|j: int| 0 <= j < cur.len() implies #[trigger] cur[j] != '-' by {
                if j < cur0.len() {
                    assert(cur[j] == cur0[j]);
                }
            }
            assert(without_dashes(crate::io::concat_all(done)) + cur =~= (without_dashes(crate::io::concat_all(done0)) + cur0).push(c));
        }
    }
    if cur.len() > 0 {
        assert(done.push(cur).drop_last() == done);
        assert(runs(t, '-') == done.push(cur));
    } else {
        assert(crate::io::concat_all(done) + cur =~= crate::io::concat_all(done));
    }
}

proof fn lemma_without_dashes_none(s: Seq<char>)
    requires
        forall|j: int| 0 <= j < s.len() ==> #[trigger] s[j] != '-',
    ensures
        without_dashes(s) == s,
    decreases s.len(),
{
    if s.len() > 0 {
        assert forall|j: int| 0 <= j < s.drop_last().len() implies #[trigger] s.drop_last()[j] != '-' by {
            assert(s.drop_last()[j] == s[j]);
        }
        lemma_without_dashes_none(s.drop_last());
        assert(s[s.len() - 1] != '-');
        assert(s.drop_last().push(s.last()) =~= s);
    }
}

proof fn lemma_without_dashes_join(ps: Seq<Seq<char>>)
    requires
        forall|i: int| 0 <= i < ps.len() ==> slug_part(#[trigger] ps[i]),
    ensures
        without_dashes(join(ps, "-"@)) == crate::io::concat_all(ps),
    decreases ps.len(),
{
    reveal_strlit("-");
    if ps.len() > 0 {
        let init = ps.drop_last();
        assert forall|i: int| 0 <= i < init.len() implies slug_part(#[trigger] init[i]) by {
            assert(init[i] == ps[i]);
        }
        lemma_without_dashes_join(init);
        let last = ps.last();
        assert(slug_part(ps[ps.len() - 1]));
        lemma_without_dashes_none(last);
        if ps.len() == 1 {
            assert(init =~= Seq::<Seq<char>>::empty());
            assert(crate::io::concat_all(init) == Seq::<char>::empty());
            assert(crate::io::concat_all(ps) =~= last);
        } else {
            let j0 = join(init, "-"@);
            lemma_without_dashes_append(j0 + "-"@, last);
            lemma_without_dashes_append(j0, "-"@);
            assert("-"@.drop_last() =~= Seq::<char>::empty());
            assert("-"@.last() == '-');
            assert(without_dashes(Seq::<char>::empty()) == Seq::<char>::empty());
            assert(without_dashes("-"@) =~= Seq::<char>::empty());
            assert(join(ps, "-"@) == j0 + "-"@ + last);
        }
    }
}

/// The slug of a name holds exactly the name's ASCII letters and digits,
/// lowercased and in order, once its dashes are taken out.
pub proof fn lemma_slug_letters(s: Seq<char>)
    ensures
        without_dashes(slug(s)) == slug_letters(s),
{
    let t = s.map_values(|c: char| slug_char(c));
    assert forall|j: int| 0 <= j < t.len() implies slug_char(#[trigger] t[j]) == t[j] by {
        lemma_slug_char_fixed(s[j]);
    }
    lemma_sep_state_slug_parts(t);
    let ps = runs(t, '-');
    let (done, cur) = sep_state(t, '-');
    assert forall|i: int| 0 <= i < ps.len() implies slug_part(#[trigger] ps[i]) by {
        if cur.len() > 0 && i == done.len() {
            assert(ps[i] == cur);
        } else {
            assert(ps[i] == done[i]);
        }
    }
    lemma_without_dashes_join(ps);
    lemma_without_dashes_runs(t);
    lemma_sep_state_done_no_dash(t);
    lemma_concat_no_dash(done);
    lemma_without_dashes_slug_chars(s);
}

proof fn lemma_sep_state_done_no_dash(t: Seq<char>)
    ensures
        forall|i: int, j: int|
            0 <= i < sep_state(t, '-').0.len() && 0 <= j < sep_state(t, '-').0[i].len() ==> #[trigger] sep_state(t, '-').0[i][j] != '-',
    decreases t.len(),
{
    if t.len() > 0 {
        lemma_sep_state_done_no_dash(t.drop_last());
        lemma_without_dashes_runs(t.drop_last());
        let (done0, cur0) = sep_state(t.drop_last(), '-');
        let (done, cur) = sep_state(t, '-');
        assert forall|i: int, j: int| 0 <= i < done.len() && 0 <= j < done[i].len() implies #[trigger] done[i][j] != '-' by {
            if i < done0.len() {
                assert(done[i] == done0[i]);
            } else {
                assert(done[i] == cur0);
            }
        }
    }
}

proof fn lemma_concat_no_dash(ps: Seq<Seq<char>>)
    requires
        forall|i: int, j: int| 0 <= i < ps.len() && 0 <= j < ps[i].len() ==> #[trigger] ps[i][j] != '-',
    ensures
        without_dashes(crate::io::concat_all(ps)) == crate::io::concat_all(ps),
    decreases ps.len(),
{
    if ps.len() > 0 {
        let init = ps.drop_last();
        assert forall|i: int, j: int| 0 <= i < init.len() && 0 <= j < init[i].len() implies #[trigger] init[i][j] != '-' by {
            assert(init[i] == ps[i]);
        }
        lemma_concat_no_dash(init);
        assert forall|j: int| 0 <= j < ps.last().len() implies #[trigger] ps.last()[j] != '-' by {
            assert(ps[ps.len() - 1][j] != '-');
        }
        lemma_without_dashes_none(ps.last());
        lemma_without_dashes_append(crate::io::concat_all(init), ps.last());
    }
}

} // verus!
