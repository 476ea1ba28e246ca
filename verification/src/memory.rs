//! Memory types and the text side of memory search: full-text query building,
//! query tokenization, stopword filtering and the term matches that the
//! second-stage reranker counts.
use vstd::prelude::*;

use crate::error::{concat_message, BiError, BiResult};
use crate::text::{
    append_chars, byte_len, chars_eq, chars_of, contains_seq, has_two_bytes, join, join_chars, remove_char,
    remove_char_chars, spec_to_lowercase, split_whitespace, string_of, to_lowercase, trim,
    trim_chars, views, words, TrimSet,
};

verus! {

/// The kinds of memory.
#[derive(Debug, Clone, Copy, PartialEq, Eq, Structural)]
pub enum MemType {
    Fact,
    Decision,
    Preference,
    Pattern,
    Episode,
    Reflection,
    Code,
}

/// The stored name of each kind.
pub open spec fn mem_type_name(t: MemType) -> Seq<char> {
    match t {
        MemType::Fact => "fact"@,
        MemType::Decision => "decision"@,
        MemType::Preference => "preference"@,
        MemType::Pattern => "pattern"@,
        MemType::Episode => "episode"@,
        MemType::Reflection => "reflection"@,
        MemType::Code => "code"@,
    }
}

/// The kind whose stored name is `s`, if any.
pub open spec fn parse_mem_type(s: Seq<char>) -> Option<MemType> {
    if s == "fact"@ {
        Some(MemType::Fact)
    } else if s == "decision"@ {
        Some(MemType::Decision)
    } else if s == "preference"@ {
        Some(MemType::Preference)
    } else if s == "pattern"@ {
        Some(MemType::Pattern)
    } else if s == "episode"@ {
        Some(MemType::Episode)
    } else if s == "reflection"@ {
        Some(MemType::Reflection)
    } else if s == "code"@ {
        Some(MemType::Code)
    } else {
        None
    }
}

fn str_is(s: &[char], lit: &str) -> (b: bool)
    ensures
        b == (s@ == lit@),
{
    let l = chars_of(lit);
    chars_eq(s, l.as_slice())
}

impl MemType {
    pub fn as_str(&self) -> (s: &'static str)
        ensures
            s@ == mem_type_name(*self),
    {
        match self {
            MemType::Fact => "fact",
            MemType::Decision => "decision",
            MemType::Preference => "preference",
            MemType::Pattern => "pattern",
            MemType::Episode => "episode",
            MemType::Reflection => "reflection",
            MemType::Code => "code",
        }
    }

    /// Parses a stored name; any other text is refused as invalid input.
    pub fn from_str(s: &str) -> (r: BiResult<Self>)
        ensures
            parse_mem_type(s@) matches Some(t) ==> r == Ok::<MemType, BiError>(t),
            parse_mem_type(s@) is None ==> (r matches Err(BiError::Invalid(m)) && m@
                == "unknown mem_type "@ + s@),
    {
        let c = chars_of(s);
        if str_is(c.as_slice(), "fact") {
            Ok(MemType::Fact)
        } else if str_is(c.as_slice(), "decision") {
            Ok(MemType::Decision)
        } else if str_is(c.as_slice(), "preference") {
            Ok(MemType::Preference)
        } else if str_is(c.as_slice(), "pattern") {
            Ok(MemType::Pattern)
        } else if str_is(c.as_slice(), "episode") {
            Ok(MemType::Episode)
        } else if str_is(c.as_slice(), "reflection") {
            Ok(MemType::Reflection)
        } else if str_is(c.as_slice(), "code") {
            Ok(MemType::Code)
        } else {
            Err(BiError::Invalid(concat_message("unknown mem_type ", s)))
        }
    }
}

// ---------------------------------------------------------------------------
// Full-text (FTS5) query building
// ---------------------------------------------------------------------------
/// How query tokens are combined.
#[derive(Debug, Clone, Copy, PartialEq, Eq, Structural)]
pub enum FtsCombine {
    And,
    Or,
}

pub open spec fn fts_separator(c: FtsCombine) -> Seq<char> {
    match c {
        FtsCombine::And => " "@,
        FtsCombine::Or => " OR "@,
    }
}

/// A word as a quoted prefix term: `"word"*`, without inner double quotes.
pub open spec fn fts_term(t: Seq<char>) -> Seq<char> {
    seq!['"'] + remove_char(t, '"') + seq!['"', '*']
}

/// The terms made of `ws`: each word loses leading and trailing characters
/// that are neither alphanumeric nor `_` nor `-`, words shorter than two
/// UTF-8 bytes are dropped, and the rest become quoted prefix terms.
pub open spec fn fts_terms(ws: Seq<Seq<char>>) -> Seq<Seq<char>>
    decreases ws.len(),
{
    if ws.len() == 0 {
        Seq::empty()
    } else {
        let prev = fts_terms(ws.drop_last());
        let t = trim(ws.last(), TrimSet::NotWordOrDash);
        if byte_len(t) >= 2 {
            prev.push(fts_term(t))
        } else {
            prev
        }
    }
}

/// The full-text query for `q`: its terms joined by the separator of `combine`.
pub open spec fn fts_query(q: Seq<char>, combine: FtsCombine) -> Seq<char> {
    join(fts_terms(words(q)), fts_separator(combine))
}

/// Builds a safe FTS5 query from free text; empty when no usable term is left.
pub fn sanitize_fts_query(q: &str, combine: FtsCombine) -> (r: String)
    ensures
        r@ == fts_query(q@, combine),
{
    let qc = chars_of(q);
    let ws = split_whitespace(qc.as_slice());
    let ghost wv = words(q@);
    let mut terms: Vec<Vec<char>> = Vec::new();
    let mut i: usize = 0;
    while i < ws.len()
        invariant
            i <= ws@.len(),
            ws@.len() == wv.len(),
            wv == words(q@),
            forall|j: int| 0 <= j < ws@.len() ==> #[trigger] ws@[j]@ == wv[j],
            views(terms@) == fts_terms(wv.take(i as int)),
        decreases ws@.len() - i,
    {
        assert(wv.take(i + 1).drop_last() == wv.take(i as int));
        let t = trim_chars(ws[i].as_slice(), TrimSet::NotWordOrDash);
        if has_two_bytes(t.as_slice()) {
            let inner = remove_char_chars(t.as_slice(), '"');
            let mut term: Vec<char> = Vec::new();
            term.push('"');
            append_chars(&mut term, inner.as_slice());
            term.push('"');
            term.push('*');
            assert(term@ == fts_term(t@));
            let ghost before = terms@;
            terms.push(term);
            assert(views(terms@) =~= views(before).push(terms@.last()@));
        }
        i += 1;
    }
    assert(wv.take(wv.len() as int) == wv);
    let sep = match combine {
        FtsCombine::And => chars_of(" "),
        FtsCombine::Or => chars_of(" OR "),
    };
    let joined = join_chars(&terms, sep.as_slice());
    string_of(joined.as_slice())
}

// ---------------------------------------------------------------------------
// Query terms for reranking
// ---------------------------------------------------------------------------
/// The lowercased words of a query that are at least two UTF-8 bytes long.
pub open spec fn query_terms(ws: Seq<Seq<char>>) -> Seq<Seq<char>>
    decreases ws.len(),
{
    if ws.len() == 0 {
        Seq::empty()
    } else {
        let prev = query_terms(ws.drop_last());
        let t = spec_to_lowercase(ws.last());
        if byte_len(t) >= 2 {
            prev.push(t)
        } else {
            prev
        }
    }
}

/// Splits a query on whitespace, lowercases each word and keeps those of at
/// least two bytes.
pub fn tokenize_query(query: &str) -> (r: Vec<String>)
    ensures
        r@.len() == query_terms(words(query@)).len(),
        forall|i: int| 0 <= i < r@.len() ==> #[trigger] r@[i]@ == query_terms(words(query@))[i],
{
    let qc = chars_of(query);
    let ws = split_whitespace(qc.as_slice());
    let ghost wv = words(query@);
    let mut out: Vec<String> = Vec::new();
    let mut i: usize = 0;
    while i < ws.len()
        invariant
            i <= ws@.len(),
            ws@.len() == wv.len(),
            wv == words(query@),
            forall|j: int| 0 <= j < ws@.len() ==> #[trigger] ws@[j]@ == wv[j],
            out@.len() == query_terms(wv.take(i as int)).len(),
            forall|j: int|
                0 <= j < out@.len() ==> #[trigger] out@[j]@ == query_terms(wv.take(i as int))[j],
        decreases ws@.len() - i,
    {
        assert(wv.take(i + 1).drop_last() == wv.take(i as int));
        let t = to_lowercase(ws[i].as_slice());
        if has_two_bytes(t.as_slice()) {
            out.push(string_of(t.as_slice()));
        }
        i += 1;
    }
    assert(wv.take(wv.len() as int) == wv);
    out
}

/// The words that the reranker ignores.
pub open spec fn stopwords() -> Seq<&'static str> {
    seq![
        "the", "a", "an", "and", "or", "but", "in", "on", "at", "to", "for", "of", "with",
        "by", "from", "up", "about", "into", "through", "during", "before", "after", "above",
        "below", "between", "among", "is", "was", "are", "were", "been", "be", "have", "has",
        "had", "do", "does", "did", "will", "would", "could", "should", "may", "might", "must",
        "shall", "can", "need", "dare", "ought", "used", "how", "what", "when", "where", "why",
        "which", "who", "whom", "whose", "this", "that", "these", "those", "i", "you", "he",
        "she", "it", "we", "they", "me", "him", "her", "us", "them", "my", "your", "his", "its",
        "our", "their", "myself", "yourself", "himself", "herself", "itself", "ourselves",
        "themselves", "all", "each", "every", "both", "few", "more", "most", "other", "some",
        "such", "no", "nor", "not", "only", "own", "same", "so", "than", "too", "very",
    ]
}

pub open spec fn is_stopword(t: Seq<char>) -> bool {
    exists|i: int| 0 <= i < stopwords().len() && (#[trigger] stopwords()[i])@ == t
}

fn stopword_list() -> (v: Vec<&'static str>)
    ensures
        v@ == stopwords(),
{
    let v: Vec<&'static str> = vec![
        "the", "a", "an", "and", "or", "but", "in", "on", "at", "to", "for", "of", "with",
        "by", "from", "up", "about", "into", "through", "during", "before", "after", "above",
        "below", "between", "among", "is", "was", "are", "were", "been", "be", "have", "has",
        "had", "do", "does", "did", "will", "would", "could", "should", "may", "might", "must",
        "shall", "can", "need", "dare", "ought", "used", "how", "what", "when", "where", "why",
        "which", "who", "whom", "whose", "this", "that", "these", "those", "i", "you", "he",
        "she", "it", "we", "they", "me", "him", "her", "us", "them", "my", "your", "his", "its",
        "our", "their", "myself", "yourself", "himself", "herself", "itself", "ourselves",
        "themselves", "all", "each", "every", "both", "few", "more", "most", "other", "some",
        "such", "no", "nor", "not", "only", "own", "same", "so", "than", "too", "very",
    ];
    assert(v@ =~= stopwords());
    v
}

pub fn is_stopword_chars(t: &[char]) -> (b: bool)
    ensures
        b == is_stopword(t@),
{
    let list = stopword_list();
    let mut i: usize = 0;
    while i < list.len()
        invariant
            i <= list@.len(),
            list@ == stopwords(),
            forall|j: int| 0 <= j < i ==> (#[trigger] stopwords()[j])@ != t@,
        decreases list@.len() - i,
    {
        if str_is(t, list[i]) {
            return true;
        }
        i += 1;
    }
    false
}

/// The terms that are not stopwords, in order.
pub open spec fn without_stopwords(terms: Seq<Seq<char>>) -> Seq<Seq<char>>
    decreases terms.len(),
{
    if terms.len() == 0 {
        Seq::empty()
    } else {
        let prev = without_stopwords(terms.drop_last());
        if is_stopword(terms.last()) {
            prev
        } else {
            prev.push(terms.last())
        }
    }
}

pub open spec fn string_views(v: Seq<String>) -> Seq<Seq<char>> {
    v.map_values(|s: String| s@)
}

pub fn filter_stopwords(terms: &[String]) -> (r: Vec<String>)
    ensures
        string_views(r@) == without_stopwords(string_views(terms@)),
{
    let ghost tv = string_views(terms@);
    let mut out: Vec<String> = Vec::new();
    let mut i: usize = 0;
    while i < terms.len()
        invariant
            i <= terms@.len(),
            tv == string_views(terms@),
            string_views(out@) == without_stopwords(tv.take(i as int)),
        decreases terms@.len() - i,
    {
        assert(tv.take(i + 1).drop_last() == tv.take(i as int));
        let c = chars_of(terms[i].as_str());
        if !is_stopword_chars(c.as_slice()) {
            out.push(terms[i].clone());
            assert(string_views(out@) =~= string_views(out@.drop_last()).push(out@.last()@));
        }
        i += 1;
    }
    assert(tv.take(tv.len() as int) == tv);
    out
}


// ---------------------------------------------------------------------------
// Term matches counted by the reranker
// ---------------------------------------------------------------------------
/// How many of the terms occur in `hay`.
pub open spec fn count_in(hay: Seq<char>, terms: Seq<Seq<char>>) -> nat
    decreases terms.len(),
{
    if terms.len() == 0 {
        0
    } else if contains_seq(hay, terms.last()) {
        count_in(hay, terms.drop_last()) + 1
    } else {
        count_in(hay, terms.drop_last())
    }
}

/// Whether a term meets one of the tags: it occurs in the tag's lowercase
/// form, or that form occurs in it.
pub open spec fn meets_tag(term: Seq<char>, tags: Seq<Seq<char>>) -> bool {
    exists|i: int|
        0 <= i < tags.len() && (contains_seq(spec_to_lowercase(#[trigger] tags[i]), term)
            || contains_seq(term, spec_to_lowercase(tags[i])))
}

/// How many of the terms meet a tag.
pub open spec fn count_tag_matches(terms: Seq<Seq<char>>, tags: Seq<Seq<char>>) -> nat
    decreases terms.len(),
{
    if terms.len() == 0 {
        0
    } else if meets_tag(terms.last(), tags) {
        count_tag_matches(terms.drop_last(), tags) + 1
    } else {
        count_tag_matches(terms.drop_last(), tags)
    }
}

/// How the query terms that are not stopwords meet a memory: in its
/// content, its tags, its file path, and its language; all compared in
/// lowercase.
pub struct MatchCounts {
    pub content_matches: usize,
    pub tag_matches: usize,
    pub path_matches: usize,
    pub language_match: bool,
}

pub open spec fn counts_match(
    m: MatchCounts,
    content: Seq<char>,
    tags: Seq<Seq<char>>,
    file_path: Option<Seq<char>>,
    language: Option<Seq<char>>,
    terms: Seq<Seq<char>>,
) -> bool {
    let ts = without_stopwords(terms);
    &&& m.content_matches == count_in(spec_to_lowercase(content), ts)
    &&& m.tag_matches == count_tag_matches(ts, tags)
    &&& m.path_matches == match file_path {
        Some(p) => count_in(spec_to_lowercase(p), ts),
        None => 0,
    }
    &&& m.language_match == match language {
        Some(l) => count_in(spec_to_lowercase(l), ts) > 0,
        None => false,
    }
}

fn count_in_chars(hay: &[char], terms: &Vec<String>) -> (n: usize)
    ensures
        n == count_in(hay@, string_views(terms@)),
{
    let ghost tv = string_views(terms@);
    let mut n: usize = 0;
    let mut i: usize = 0;
    while i < terms.len()
        invariant
            i <= terms@.len(),
            tv == string_views(terms@),
            n == count_in(hay@, tv.take(i as int)),
            n <= i,
        decreases terms@.len() - i,
    {
        assert(tv.take(i + 1).drop_last() == tv.take(i as int));
        assert(tv.take(i + 1).last() == terms@[i as int]@);
        if crate::text::contains_chars(hay, chars_of(terms[i].as_str()).as_slice()) {
            n = n + 1;
        }
        i += 1;
    }
    assert(tv.take(tv.len() as int) == tv);
    n
}

fn meets_any_tag(term: &[char], tags: &Vec<String>) -> (b: bool)
    ensures
        b == meets_tag(term@, string_views(tags@)),
{
    let ghost tv = string_views(tags@);
    let mut i: usize = 0;
    while i < tags.len()
        invariant
            i <= tags@.len(),
            tv == string_views(tags@),
            forall|j: int| 0 <= j < i ==> !(contains_seq(spec_to_lowercase(#[trigger] tv[j]), term@)
                || contains_seq(term@, spec_to_lowercase(tv[j]))),
        decreases tags@.len() - i,
    {
        let lower = to_lowercase(chars_of(tags[i].as_str()).as_slice());
        assert(tv[i as int] == tags@[i as int]@);
        if crate::text::contains_chars(lower.as_slice(), term) || crate::text::contains_chars(term, lower.as_slice()) {
            return true;
        }
        i += 1;
    }
    false
}

/// Tags match a query term both ways: a term that is not a stopword counts
/// as a tag match exactly when some tag, lowercased, occurs inside it or it
/// occurs inside some lowercased tag (so `authentication` meets the tag
/// `Auth`, and `auth` meets `Authentication`).
pub proof fn lemma_tag_match_both_ways(
    m: MatchCounts,
    content: Seq<char>,
    tags: Seq<Seq<char>>,
    file_path: Option<Seq<char>>,
    language: Option<Seq<char>>,
    t: Seq<char>,
)
    requires
        counts_match(m, content, tags, file_path, language, seq![t]),
        !is_stopword(t),
    ensures
        m.tag_matches <= 1,
        m.tag_matches == 1 <==> exists|i: int|
            0 <= i < tags.len() && (contains_seq(t, spec_to_lowercase(#[trigger] tags[i]))
                || contains_seq(spec_to_lowercase(tags[i]), t)),
{
    let ts = seq![t];
    assert(ts.drop_last() =~= Seq::<Seq<char>>::empty());
    assert(ts.last() == t);
    assert(without_stopwords(Seq::<Seq<char>>::empty()) == Seq::<Seq<char>>::empty());
    assert(without_stopwords(ts) =~= ts);
    assert(count_tag_matches(Seq::<Seq<char>>::empty(), tags) == 0);
    if exists|i: int|
        0 <= i < tags.len() && (contains_seq(t, spec_to_lowercase(#[trigger] tags[i]))
            || contains_seq(spec_to_lowercase(tags[i]), t)) {
        let i = choose|i: int|
            0 <= i < tags.len() && (contains_seq(t, spec_to_lowercase(#[trigger] tags[i]))
                || contains_seq(spec_to_lowercase(tags[i]), t));
        assert(meets_tag(t, tags));
    }
}

/// One query term meets a memory's content, path and language when it
/// occurs in their lowercase form, and a stopword meets nothing.
pub proof fn lemma_single_term_matches(
    m: MatchCounts,
    content: Seq<char>,
    tags: Seq<Seq<char>>,
    file_path: Option<Seq<char>>,
    language: Option<Seq<char>>,
    t: Seq<char>,
)
    requires
        counts_match(m, content, tags, file_path, language, seq![t]),
    ensures
        is_stopword(t) ==> m.content_matches == 0 && m.tag_matches == 0 && m.path_matches == 0
            && !m.language_match,
        !is_stopword(t) ==> {
            &&& (m.content_matches == 1 <==> contains_seq(spec_to_lowercase(content), t))
            &&& m.content_matches <= 1
            &&& (m.path_matches == 1 <==> (file_path matches Some(p) && contains_seq(spec_to_lowercase(p), t)))
            &&& m.path_matches <= 1
            &&& (m.language_match <==> (language matches Some(l) && contains_seq(spec_to_lowercase(l), t)))
        },
{
    let ts = seq![t];
    let e = Seq::<Seq<char>>::empty();
    assert(ts.drop_last() =~= e);
    assert(ts.last() == t);
    assert(without_stopwords(e) == e);
    if is_stopword(t) {
        assert(without_stopwords(ts) =~= e);
    } else {
        assert(without_stopwords(ts) =~= ts);
    }
    assert(count_in(spec_to_lowercase(content), e) == 0);
    assert(count_tag_matches(e, tags) == 0);
    if let Some(p) = file_path {
        assert(count_in(spec_to_lowercase(p), e) == 0);
    }
    if let Some(l) = language {
        assert(count_in(spec_to_lowercase(l), e) == 0);
    }
}

/// Counts how the query terms meet a memory (see `counts_match`).
pub fn match_counts(
    content: &str,
    tags: &Vec<String>,
    file_path: Option<&str>,
    language: Option<&str>,
    terms: &[String],
) -> (m: MatchCounts)
    ensures
        counts_match(m, content@, string_views(tags@), match file_path {
            Some(p) => Some(p@),
            None => None,
        }, match language {
            Some(l) => Some(l@),
            None => None,
        }, string_views(terms@)),
{
    let ts = filter_stopwords(terms);
    let ghost tv = string_views(ts@);
    let lower = to_lowercase(chars_of(content).as_slice());
    let content_matches = count_in_chars(lower.as_slice(), &ts);
    let mut tag_matches: usize = 0;
    let mut i: usize = 0;
    while i < ts.len()
        invariant
            i <= ts@.len(),
            tv == string_views(ts@),
            tag_matches == count_tag_matches(tv.take(i as int), string_views(tags@)),
            tag_matches <= i,
        decreases ts@.len() - i,
    {
        assert(tv.take(i + 1).drop_last() == tv.take(i as int));
        assert(tv.take(i + 1).last() == ts@[i as int]@);
        if meets_any_tag(chars_of(ts[i].as_str()).as_slice(), tags) {
            tag_matches = tag_matches + 1;
        }
        i += 1;
    }
    assert(tv.take(tv.len() as int) == tv);
    let path_matches = match file_path {
        Some(p) => count_in_chars(to_lowercase(chars_of(p).as_slice()).as_slice(), &ts),
        None => 0,
    };
    let language_match = match language {
        Some(l) => count_in_chars(to_lowercase(chars_of(l).as_slice()).as_slice(), &ts) > 0,
        None => false,
    };
    MatchCounts { content_matches, tag_matches, path_matches, language_match }
}

/// The most results a search returns.
pub const MAX_SEARCH_K: usize = 100;

/// How a search for `k` results sizes its stages: the number of results
/// (`k` raised to one and capped at a hundred), the candidates taken from
/// each ranking (three times that, at least thirty), and the candidates kept
/// for reranking (four times it).
pub fn search_limits(k: usize) -> (r: (usize, usize, usize))
    ensures
        r.0 == if k < 1 {
            1
        } else if k > MAX_SEARCH_K {
            MAX_SEARCH_K as int
        } else {
            k as int
        },
        r.1 == if 3 * r.0 < 30 {
            30
        } else {
            3 * r.0
        },
        r.2 == 4 * r.0,
{
    let k = if k < 1 {
        1
    } else if k > MAX_SEARCH_K {
        MAX_SEARCH_K
    } else {
        k
    };
    let kk = if k * 3 < 30 {
        30
    } else {
        k * 3
    };
    (k, kk, k * 4)
}

/// What `remember` checks before storing, in this order: the content holds
/// more than whitespace, the project exists, and the type, `fact` when none
/// is given, is a known one.
pub fn check_remember(
    content: &str,
    project_id: &str,
    project_exists: bool,
    mem_type: Option<&str>,
) -> (r: BiResult<MemType>)
    ensures
        trim(content@, TrimSet::Whitespace).len() == 0 ==> (r matches Err(BiError::Invalid(m)) && m@
            == "content is empty"@),
        trim(content@, TrimSet::Whitespace).len() > 0 && !project_exists ==> (r matches Err(
            BiError::Invalid(m),
        ) && m@ == "project '"@ + project_id@
            + "' does not exist \u{2014} create it first with create_project"@),
        trim(content@, TrimSet::Whitespace).len() > 0 && project_exists ==> {
            let name = match mem_type {
                Some(t) => t@,
                None => "fact"@,
            };
            match parse_mem_type(name) {
                Some(t) => r == Ok::<MemType, BiError>(t),
                None => (r matches Err(BiError::Invalid(m)) && m@ == "unknown mem_type "@ + name),
            }
        },
{
    let t = trim_chars(chars_of(content).as_slice(), TrimSet::Whitespace);
    if t.len() == 0 {
        return Err(BiError::Invalid("content is empty".to_owned()));
    }
    if !project_exists {
        return Err(crate::mcp::project_required(project_id));
    }
    match mem_type {
        Some(m) => MemType::from_str(m),
        None => MemType::from_str("fact"),
    }
}

/// Every memory type is read back from its stored name, and only a stored
/// name is read as a type.
pub proof fn lemma_mem_type_round_trip(t: MemType, s: Seq<char>)
    ensures
        parse_mem_type(mem_type_name(t)) == Some(t),
        parse_mem_type(s) matches Some(u) ==> mem_type_name(u) == s,
{
    reveal_strlit("fact");
    reveal_strlit("decision");
    reveal_strlit("preference");
    reveal_strlit("pattern");
    reveal_strlit("episode");
    reveal_strlit("reflection");
    reveal_strlit("code");
    match t {
        MemType::Fact => {},
        MemType::Decision => {
            assert("decision"@ != "fact"@) by {
                assert("decision"@.len() != "fact"@.len());
            }
        },
        MemType::Preference => {
            assert("preference"@.len() != "fact"@.len());
            assert("preference"@.len() != "decision"@.len());
        },
        MemType::Pattern => {
            assert("pattern"@.len() != "fact"@.len());
            assert("pattern"@.len() != "decision"@.len());
            assert("pattern"@.len() != "preference"@.len());
        },
        MemType::Episode => {
            assert("episode"@.len() != "fact"@.len());
            assert("episode"@.len() != "decision"@.len());
            assert("episode"@.len() != "preference"@.len());
            assert("episode"@[0] != "pattern"@[0]);
        },
        MemType::Reflection => {
            assert("reflection"@.len() != "fact"@.len());
            assert("reflection"@.len() != "decision"@.len());
            assert("reflection"@[0] != "preference"@[0]);
            assert("reflection"@.len() != "pattern"@.len());
            assert("reflection"@.len() != "episode"@.len());
        },
        MemType::Code => {
            assert("code"@[0] != "fact"@[0]);
            assert("code"@.len() != "decision"@.len());
            assert("code"@.len() != "preference"@.len());
            assert("code"@.len() != "pattern"@.len());
            assert("code"@.len() != "episode"@.len());
            assert("code"@.len() != "reflection"@.len());
        },
    }
}


// ---------------------------------------------------------------------------
// Tag usage counts
// ---------------------------------------------------------------------------
/// How many times `t` occurs in the list.
pub open spec fn occurrences(l: Seq<Seq<char>>, t: Seq<char>) -> nat
    decreases l.len(),
{
    if l.len() == 0 {
        0
    } else {
        occurrences(l.drop_last(), t) + if l.last() == t { 1nat } else { 0nat }
    }
}

/// How many times `t` occurs in the tag lists.
pub open spec fn tag_count(lists: Seq<Seq<Seq<char>>>, t: Seq<char>) -> nat
    decreases lists.len(),
{
    if lists.len() == 0 {
        0
    } else {
        tag_count(lists.drop_last(), t) + occurrences(lists.last(), t)
    }
}

/// Tag counts in the order the tag list shows them: more uses first, then
/// by name.
pub open spec fn tag_before(a: (Seq<char>, int), b: (Seq<char>, int)) -> bool {
    a.1 > b.1 || (a.1 == b.1 && crate::text::str_lt(a.0, b.0))
}

pub open spec fn entry_view(e: (String, i64)) -> (Seq<char>, int) {
    (e.0@, e.1 as int)
}

pub open spec fn list_views(v: Seq<Vec<String>>) -> Seq<Seq<Seq<char>>> {
    v.map_values(|l: Vec<String>| l@.map_values(|s: String| s@))
}

proof fn lemma_tag_before_trans(a: (Seq<char>, int), b: (Seq<char>, int), c: (Seq<char>, int))
    requires
        tag_before(a, b),
        tag_before(b, c),
    ensures
        tag_before(a, c),
{
    if a.1 == b.1 && b.1 == c.1 {
        crate::text::lemma_str_lt_transitive(a.0, b.0, c.0);
    }
}

proof fn lemma_tag_before_total(a: (Seq<char>, int), b: (Seq<char>, int))
    requires
        a.0 != b.0,
    ensures
        tag_before(a, b) || tag_before(b, a),
{
    crate::text::lemma_str_lt_total(a.0, b.0);
}

fn before_exec(a: &(String, i64), b: &(String, i64)) -> (r: bool)
    ensures
        r == tag_before(entry_view(*a), entry_view(*b)),
{
    a.1 > b.1 || (a.1 == b.1 && crate::text::chars_lt(chars_of(a.0.as_str()).as_slice(), chars_of(b.0.as_str()).as_slice()))
}

proof fn lemma_occurrences_bound(l: Seq<Seq<char>>, t: Seq<char>)
    ensures
        occurrences(l, t) <= l.len(),
    decreases l.len(),
{
    if l.len() > 0 {
        lemma_occurrences_bound(l.drop_last(), t);
    }
}

/// How many tags the lists hold in all, repeats included.
pub open spec fn total_tags(lists: Seq<Seq<Seq<char>>>) -> nat
    decreases lists.len(),
{
    if lists.len() == 0 {
        0
    } else {
        total_tags(lists.drop_last()) + lists.last().len()
    }
}

proof fn lemma_total_tags_prefix(l: Seq<Seq<Seq<char>>>, i: int)
    requires
        0 <= i <= l.len(),
    ensures
        total_tags(l.take(i)) <= total_tags(l),
    decreases l.len(),
{
    if i < l.len() {
        assert(l.drop_last().take(i) == l.take(i));
        lemma_total_tags_prefix(l.drop_last(), i);
    } else {
        assert(l.take(i) == l);
    }
}

proof fn lemma_tag_count_bound(l: Seq<Seq<Seq<char>>>, t: Seq<char>)
    ensures
        tag_count(l, t) <= total_tags(l),
    decreases l.len(),
{
    if l.len() > 0 {
        lemma_tag_count_bound(l.drop_last(), t);
        lemma_occurrences_bound(l.last(), t);
    }
}

/// Counts the uses of each tag, in order of first use.
fn count_tags(lists: &Vec<Vec<String>>) -> (counts: Vec<(String, i64)>)
    requires
        total_tags(list_views(lists@)) <= i64::MAX,
    ensures
        forall|a: int, b: int| 0 <= a < b < counts@.len() ==> (#[trigger] counts@[a]).0@ != (#[trigger] counts@[b]).0@,
        forall|a: int| 0 <= a < counts@.len() ==> #[trigger] counts@[a].1 == tag_count(list_views(lists@), counts@[a].0@) && counts@[a].1 > 0,
        forall|t: Seq<char>| #![trigger tag_count(list_views(lists@), t)] tag_count(list_views(lists@), t) > 0 ==> exists|a: int| 0 <= a < counts@.len() && #[trigger] counts@[a].0@ == t,
{
    let ghost lv = list_views(lists@);
    let mut counts: Vec<(String, i64)> = Vec::new();
    let mut i: usize = 0;
    while i < lists.len()
        invariant
            i <= lists@.len(),
            lv == list_views(lists@),
            total_tags(lv) <= i64::MAX,
            forall|a: int, b: int| 0 <= a < b < counts@.len() ==> (#[trigger] counts@[a]).0@ != (#[trigger] counts@[b]).0@,
            forall|a: int| 0 <= a < counts@.len() ==> #[trigger] counts@[a].1 == tag_count(lv.take(i as int), counts@[a].0@) && counts@[a].1 > 0,
            forall|t: Seq<char>| #![trigger tag_count(lv.take(i as int), t)] tag_count(lv.take(i as int), t) > 0 ==> exists|a: int| 0 <= a < counts@.len() && #[trigger] counts@[a].0@ == t,
        decreases lists@.len() - i,
    {
        let ghost pre = lv.take(i as int);
        let l = &lists[i];
        let ghost lt = lv[i as int];
        assert(lt == l@.map_values(|s: String| s@));
        proof {
            assert(lv.take(i + 1).drop_last() == pre);
            lemma_total_tags_prefix(lv, i + 1);
        }
        let mut j: usize = 0;
        while j < l.len()
            invariant
                j <= l@.len(),
                i < lists@.len(),
                total_tags(pre) + lt.len() <= i64::MAX,
                lt == l@.map_values(|s: String| s@),
                forall|a: int, b: int| 0 <= a < b < counts@.len() ==> (#[trigger] counts@[a]).0@ != (#[trigger] counts@[b]).0@,
                forall|a: int| 0 <= a < counts@.len() ==> #[trigger] counts@[a].1 == tag_count(pre, counts@[a].0@) + occurrences(lt.take(j as int), counts@[a].0@) && counts@[a].1 > 0,
                forall|t: Seq<char>| #![trigger tag_count(pre, t)] tag_count(pre, t) + occurrences(lt.take(j as int), t) > 0 ==> exists|a: int| 0 <= a < counts@.len() && #[trigger] counts@[a].0@ == t,
            decreases l@.len() - j,
        {
            assert(lt.take(j + 1).drop_last() == lt.take(j as int));
            assert(lt.take(j + 1).last() == l@[j as int]@);
            let tag = chars_of(l[j].as_str());
            let mut k: usize = 0;
            while k < counts.len() && !crate::text::chars_eq(chars_of(counts[k].0.as_str()).as_slice(), tag.as_slice())
                invariant
                    k <= counts@.len(),
                    forall|q: int| 0 <= q < k ==> (#[trigger] counts@[q]).0@ != tag@,
                decreases counts@.len() - k,
            {
                k += 1;
            }
            let ghost old_c = counts@;
            if k < counts.len() {
                let n = counts[k].1;
                proof {
                    lemma_occurrences_bound(lt.take(j as int), tag@);
                    lemma_tag_count_bound(pre, tag@);
                    assert(n == tag_count(pre, old_c[k as int].0@) + occurrences(lt.take(j as int), old_c[k as int].0@));
                }
                let name = string_of(chars_of(counts[k].0.as_str()).as_slice());
                counts.set(k, (name, n + 1));
                proof {
                    assert forall|a: int| 0 <= a < counts@.len() implies #[trigger] counts@[a].1 == tag_count(pre, counts@[a].0@) + occurrences(lt.take(j + 1), counts@[a].0@) && counts@[a].1 > 0 by {
                        if a != k {
                            assert(old_c[a].0@ != old_c[k as int].0@);
                        }
                    }
                    assert forall|t: Seq<char>| #![trigger tag_count(pre, t)] tag_count(pre, t) + occurrences(lt.take(j + 1), t) > 0 implies exists|a: int| 0 <= a < counts@.len() && #[trigger] counts@[a].0@ == t by {
                        if t == tag@ {
                            assert(counts@[k as int].0@ == t);
                        } else {
                            let a = choose|a: int| 0 <= a < old_c.len() && #[trigger] old_c[a].0@ == t;
                            assert(counts@[a].0@ == t);
                        }
                    }
                    assert forall|a: int, b: int| 0 <= a < b < counts@.len() implies (#[trigger] counts@[a]).0@ != (#[trigger] counts@[b]).0@ by {
                        assert(old_c[a].0@ != old_c[b].0@);
                    }
                }
            } else {
                counts.push((string_of(tag.as_slice()), 1));
                proof {
                    assert(tag_count(pre, tag@) + occurrences(lt.take(j as int), tag@) == 0) by {
                        if tag_count(pre, tag@) + occurrences(lt.take(j as int), tag@) > 0 {
                            let a = choose|a: int| 0 <= a < old_c.len() && #[trigger] old_c[a].0@ == tag@;
                        }
                    }
                    assert forall|a: int| 0 <= a < counts@.len() implies #[trigger] counts@[a].1 == tag_count(pre, counts@[a].0@) + occurrences(lt.take(j + 1), counts@[a].0@) && counts@[a].1 > 0 by {
                        if a < old_c.len() {
                            assert(old_c[a].0@ != tag@);
                        }
                    }
                    assert forall|t: Seq<char>| #![trigger tag_count(pre, t)] tag_count(pre, t) + occurrences(lt.take(j + 1), t) > 0 implies exists|a: int| 0 <= a < counts@.len() && #[trigger] counts@[a].0@ == t by {
                        if t == tag@ {
                            assert(counts@[old_c.len() as int].0@ == t);
                        } else {
                            let a = choose|a: int| 0 <= a < old_c.len() && #[trigger] old_c[a].0@ == t;
                            assert(counts@[a].0@ == t);
                        }
                    }
                    assert forall|a: int, b: int| 0 <= a < b < counts@.len() implies (#[trigger] counts@[a]).0@ != (#[trigger] counts@[b]).0@ by {
                        if b < old_c.len() {
                            assert(old_c[a].0@ != old_c[b].0@);
                        }
                    }
                }
            }
            j += 1;
        }
        proof {
            let next = lv.take(i + 1);
            assert(lt.take(l@.len() as int) == lt);
            assert(next.drop_last() == pre);
            assert(next.last() == lt);
            assert forall|t: Seq<char>| #[trigger] tag_count(next, t) == tag_count(pre, t) + occurrences(lt, t) by {}
            assert forall|t: Seq<char>| #![trigger tag_count(next, t)] tag_count(next, t) > 0 implies exists|a: int| 0 <= a < counts@.len() && #[trigger] counts@[a].0@ == t by {
                assert(tag_count(pre, t) + occurrences(lt.take(l@.len() as int), t) > 0);
            }
            assert forall|a: int| 0 <= a < counts@.len() implies #[trigger] counts@[a].1 == tag_count(next, counts@[a].0@) && counts@[a].1 > 0 by {
                assert(tag_count(next, counts@[a].0@) == tag_count(pre, counts@[a].0@) + occurrences(lt, counts@[a].0@));
            }
        }
        i += 1;
    }
    assert(lv.take(lv.len() as int) == lv);
    counts
}

/// Entries ordered by `tag_before`.
#[verifier::opaque]
pub open spec fn tags_sorted(s: Seq<(Seq<char>, int)>) -> bool {
    forall|a: int, b: int| 0 <= a < b < s.len() ==> tag_before(#[trigger] s[a], #[trigger] s[b])
}

/// Every entry of `s` is one of the first `n` of `c`, and each of those is
/// in `s`.
#[verifier::opaque]
pub open spec fn same_entries(s: Seq<(Seq<char>, int)>, c: Seq<(Seq<char>, int)>, n: int) -> bool {
    &&& forall|a: int| 0 <= a < s.len() ==> exists|q: int| 0 <= q < n && #[trigger] c[q] == #[trigger] s[a]
    &&& forall|q: int| 0 <= q < n ==> exists|a: int| 0 <= a < s.len() && #[trigger] c[q] == #[trigger] s[a]
}

proof fn lemma_insert_sorted(s: Seq<(Seq<char>, int)>, p: int, x: (Seq<char>, int))
    requires
        tags_sorted(s),
        0 <= p <= s.len(),
        forall|q: int| 0 <= q < p ==> tag_before(#[trigger] s[q], x),
        forall|q: int| p <= q < s.len() ==> tag_before(x, #[trigger] s[q]),
    ensures
        tags_sorted(s.insert(p, x)),
{
    reveal(tags_sorted);
    let r = s.insert(p, x);
    assert forall|a: int, b: int| 0 <= a < b < r.len() implies tag_before(#[trigger] r[a], #[trigger] r[b]) by {
        if b < p {
            assert(r[a] == s[a] && r[b] == s[b]);
        } else if b == p {
            assert(r[a] == s[a]);
        } else if a < p {
            assert(r[a] == s[a] && r[b] == s[b - 1]);
            lemma_tag_before_trans(s[a], x, s[b - 1]);
        } else if a == p {
            assert(r[b] == s[b - 1]);
        } else {
            assert(r[a] == s[a - 1] && r[b] == s[b - 1]);
        }
    }
}

proof fn lemma_rest_after(s: Seq<(Seq<char>, int)>, p: int, x: (Seq<char>, int))
    requires
        tags_sorted(s),
        0 <= p < s.len(),
        !tag_before(s[p], x),
        s[p].0 != x.0,
    ensures
        forall|q: int| p <= q < s.len() ==> tag_before(x, #[trigger] s[q]),
{
    reveal(tags_sorted);
    lemma_tag_before_total(s[p], x);
    assert forall|q: int| p <= q < s.len() implies tag_before(x, #[trigger] s[q]) by {
        if q > p {
            lemma_tag_before_trans(x, s[p], s[q]);
        }
    }
}

proof fn lemma_insert_same_entries(s: Seq<(Seq<char>, int)>, c: Seq<(Seq<char>, int)>, n: int, p: int)
    requires
        same_entries(s, c, n),
        0 <= n < c.len(),
        0 <= p <= s.len(),
    ensures
        same_entries(s.insert(p, c[n]), c, n + 1),
{
    reveal(same_entries);
    let r = s.insert(p, c[n]);
    assert forall|a: int| 0 <= a < r.len() implies exists|q: int| 0 <= q < n + 1 && #[trigger] c[q] == #[trigger] r[a] by {
        if a < p {
            assert(r[a] == s[a]);
            let q = choose|q: int| 0 <= q < n && #[trigger] c[q] == #[trigger] s[a];
        } else if a == p {
            assert(c[n] == r[a]);
        } else {
            assert(r[a] == s[a - 1]);
            let q = choose|q: int| 0 <= q < n && #[trigger] c[q] == #[trigger] s[a - 1];
        }
    }
    assert forall|q: int| 0 <= q < n + 1 implies exists|a: int| 0 <= a < r.len() && #[trigger] c[q] == #[trigger] r[a] by {
        if q == n {
            assert(r[p] == c[q]);
        } else {
            let a = choose|a: int| 0 <= a < s.len() && #[trigger] c[q] == #[trigger] s[a];
            if a < p {
                assert(r[a] == s[a]);
            } else {
                assert(r[a + 1] == s[a]);
            }
        }
    }
}

/// Counts the uses of each tag over the memories' tag lists and orders the
/// tags by uses, most first, then by name: each tag that is used appears
/// once, with its number of uses.
pub fn tag_counts(lists: &Vec<Vec<String>>) -> (r: Vec<(String, i64)>)
    requires
        total_tags(list_views(lists@)) <= i64::MAX,
    ensures
        forall|i: int, j: int| 0 <= i < j < r@.len() ==> tag_before(entry_view(#[trigger] r@[i]), entry_view(#[trigger] r@[j])),
        forall|i: int| 0 <= i < r@.len() ==> #[trigger] r@[i].1 == tag_count(list_views(lists@), r@[i].0@) && r@[i].1 > 0,
        forall|t: Seq<char>| #![trigger tag_count(list_views(lists@), t)] tag_count(list_views(lists@), t) > 0 ==> exists|i: int| 0 <= i < r@.len() && #[trigger] r@[i].0@ == t,
{
    let counts = count_tags(lists);
    let ghost lv = list_views(lists@);
    let ghost cv = counts@.map_values(|e: (String, i64)| entry_view(e));
    let mut r: Vec<(String, i64)> = Vec::new();
    let ghost mut rv: Seq<(Seq<char>, int)> = Seq::empty();
    proof {
        reveal(same_entries);
        reveal(tags_sorted);
        assert forall|a: int, b: int| 0 <= a < b < cv.len() implies (#[trigger] cv[a]).0 != (#[trigger] cv[b]).0 by {
            assert(cv[a] == entry_view(counts@[a]));
            assert(cv[b] == entry_view(counts@[b]));
        }
    }
    let mut i: usize = 0;
    while i < counts.len()
        invariant
            i <= cv.len(),
            cv == counts@.map_values(|e: (String, i64)| entry_view(e)),
            forall|a: int, b: int| 0 <= a < b < cv.len() ==> (#[trigger] cv[a]).0 != (#[trigger] cv[b]).0,
            rv.len() == r@.len(),
            forall|a: int| 0 <= a < r@.len() ==> #[trigger] entry_view(r@[a]) == rv[a],
            tags_sorted(rv),
            same_entries(rv, cv, i as int),
        decreases cv.len() - i,
    {
        let x = (string_of(chars_of(counts[i].0.as_str()).as_slice()), counts[i].1);
        assert(entry_view(x) == cv[i as int]);
        let mut p: usize = 0;
        while p < r.len() && before_exec(&r[p], &x)
            invariant
                p <= r@.len(),
                rv.len() == r@.len(),
                forall|a: int| 0 <= a < r@.len() ==> #[trigger] entry_view(r@[a]) == rv[a],
                forall|q: int| 0 <= q < p ==> tag_before(#[trigger] rv[q], entry_view(x)),
            decreases r@.len() - p,
        {
            assert(entry_view(r@[p as int]) == rv[p as int]);
            p += 1;
        }
        let ghost old_r = r@;
        proof {
            if p < rv.len() {
                assert(entry_view(r@[p as int]) == rv[p as int]);
                assert(rv[p as int].0 != cv[i as int].0) by {
                    reveal(same_entries);
                    let q0 = choose|q: int| 0 <= q < i && #[trigger] cv[q] == #[trigger] rv[p as int];
                    assert(cv[q0].0 != cv[i as int].0);
                }
                lemma_rest_after(rv, p as int, entry_view(x));
            }
            lemma_insert_sorted(rv, p as int, entry_view(x));
            lemma_insert_same_entries(rv, cv, i as int, p as int);
        }
        r.insert(p, x);
        proof {
            let nv = rv.insert(p as int, cv[i as int]);
            assert forall|a: int| 0 <= a < r@.len() implies #[trigger] entry_view(r@[a]) == nv[a] by {
                if a < p {
                    assert(r@[a] == old_r[a]);
                } else if a > p {
                    assert(r@[a] == old_r[a - 1]);
                }
            }
            rv = nv;
        }
        i += 1;
    }
    proof {
        reveal(same_entries);
        reveal(tags_sorted);
        assert forall|a: int| 0 <= a < r@.len() implies #[trigger] r@[a].1 == tag_count(lv, r@[a].0@) && r@[a].1 > 0 by {
            assert(entry_view(r@[a]) == rv[a]);
            let q = choose|q: int| 0 <= q < cv.len() && #[trigger] cv[q] == #[trigger] rv[a];
            assert(cv[q] == entry_view(counts@[q]));
        }
        assert forall|t: Seq<char>| #![trigger tag_count(lv, t)] tag_count(lv, t) > 0 implies exists|a: int| 0 <= a < r@.len() && #[trigger] r@[a].0@ == t by {
            let q = choose|q: int| 0 <= q < counts@.len() && #[trigger] counts@[q].0@ == t;
            assert(cv[q] == entry_view(counts@[q]));
            let a = choose|a: int| 0 <= a < rv.len() && #[trigger] cv[q] == #[trigger] rv[a];
            assert(entry_view(r@[a]) == rv[a]);
        }
        assert forall|a: int, b: int| 0 <= a < b < r@.len() implies tag_before(entry_view(#[trigger] r@[a]), entry_view(#[trigger] r@[b])) by {
            assert(entry_view(r@[a]) == rv[a]);
            assert(entry_view(r@[b]) == rv[b]);
        }
    }
    r
}

} // verus!
