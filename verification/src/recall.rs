//! Explainable recall and feedback: the query terms a recall reports, the
//! checks a feedback passes, and how feedback adds up.
use vstd::prelude::*;

use crate::error::{BiError, BiResult};
use crate::hashing::spec_sha256_hex;
use crate::memory::string_views;
use crate::text::{
    byte_len, chars_of, contains_seq, has_two_bytes, is_literal, spec_to_lowercase,
    split_whitespace, string_of, to_lowercase, trim, trim_chars, words, TrimSet,
};
use vstd::string::StringSliceAdditionalSpecFns;

verus! {

/// The terms of a query that a recall matches against memories: each word
/// without leading and trailing characters other than alphanumerics and
/// `_`, lowercased, kept when at least two UTF-8 bytes long.
pub open spec fn recall_terms(ws: Seq<Seq<char>>) -> Seq<Seq<char>>
    decreases ws.len(),
{
    if ws.len() == 0 {
        Seq::empty()
    } else {
        let prev = recall_terms(ws.drop_last());
        let t = spec_to_lowercase(trim(ws.last(), TrimSet::NotWord));
        if byte_len(t) >= 2 {
            prev.push(t)
        } else {
            prev
        }
    }
}

/// The recall terms of a query (see `recall_terms`).
pub fn normalized_terms(query: &str) -> (r: Vec<String>)
    ensures
        string_views(r@) == recall_terms(words(query@)),
{
    let ws = split_whitespace(chars_of(query).as_slice());
    let ghost wv = words(query@);
    let mut out: Vec<String> = Vec::new();
    let mut i: usize = 0;
    while i < ws.len()
        invariant
            i <= ws@.len(),
            ws@.len() == wv.len(),
            wv == words(query@),
            forall|j: int| 0 <= j < ws@.len() ==> #[trigger] ws@[j]@ == wv[j],
            string_views(out@) == recall_terms(wv.take(i as int)),
        decreases ws@.len() - i,
    {
        assert(wv.take(i + 1).drop_last() == wv.take(i as int));
        let t = trim_chars(ws[i].as_slice(), TrimSet::NotWord);
        let l = to_lowercase(t.as_slice());
        if has_two_bytes(l.as_slice()) {
            let ghost before = out@;
            out.push(string_of(l.as_slice()));
            assert(string_views(out@) =~= string_views(before).push(l@));
        }
        i += 1;
    }
    assert(wv.take(wv.len() as int) == wv);
    out
}

/// The recall terms that occur in a memory's lowercased content, in order.
pub open spec fn terms_in(content: Seq<char>, terms: Seq<Seq<char>>) -> Seq<Seq<char>>
    decreases terms.len(),
{
    if terms.len() == 0 {
        Seq::empty()
    } else if contains_seq(spec_to_lowercase(content), terms.last()) {
        terms_in(content, terms.drop_last()).push(terms.last())
    } else {
        terms_in(content, terms.drop_last())
    }
}

/// The query terms a recalled memory matched (see `terms_in`).
pub fn matched_terms(content: &str, terms: &Vec<String>) -> (r: Vec<String>)
    ensures
        string_views(r@) == terms_in(content@, string_views(terms@)),
{
    let lower = to_lowercase(chars_of(content).as_slice());
    let ghost tv = string_views(terms@);
    let mut out: Vec<String> = Vec::new();
    let mut i: usize = 0;
    while i < terms.len()
        invariant
            i <= terms@.len(),
            tv == string_views(terms@),
            lower@ == spec_to_lowercase(content@),
            string_views(out@) == terms_in(content@, tv.take(i as int)),
        decreases terms@.len() - i,
    {
        assert(tv.take(i + 1).drop_last() == tv.take(i as int));
        assert(tv.take(i + 1).last() == terms@[i as int]@);
        let t = chars_of(terms[i].as_str());
        if crate::text::contains_chars(lower.as_slice(), t.as_slice()) {
            let ghost before = out@;
            out.push(string_of(t.as_slice()));
            assert(string_views(out@) =~= string_views(before).push(t@));
        }
        i += 1;
    }
    assert(tv.take(tv.len() as int) == tv);
    out
}

/// How many candidates a recall takes from each ranking for `k` results:
/// three times `k` raised to one and capped at a hundred, at least thirty.
pub fn candidate_count(k: usize) -> (n: usize)
    ensures
        n == ({
            let c = if k < 1 {
                1
            } else if k > 100 {
                100
            } else {
                k as int
            };
            if 3 * c < 30 {
                30
            } else {
                3 * c
            }
        }),
{
    let c: usize = if k < 1 {
        1
    } else if k > 100 {
        100
    } else {
        k
    };
    if 3 * c < 30 {
        30
    } else {
        3 * c
    }
}

/// The id of a recall: `recall-` and a fresh UUID.
pub fn new_recall_id() -> (id: String)
    ensures
        id@.len() == 43,
        id@.take(7) == "recall-"@,
        crate::operations::uuid_shape(id@.skip(7)),
{
    let u = crate::operations::new_uuid_v4();
    let mut out: Vec<char> = chars_of("recall-");
    let uc = chars_of(u.as_str());
    crate::text::append_chars(&mut out, uc.as_slice());
    proof {
        reveal_strlit("recall-");
        assert(out@.take(7) =~= "recall-"@);
        assert(out@.skip(7) =~= u@);
    }
    string_of(out.as_slice())
}

/// The hash a recall stores of its query: the hex SHA-256 of the trimmed
/// query's UTF-8 bytes.
pub fn hash_query(query: &str) -> (h: String)
    ensures
        h@ == spec_sha256_hex(vstd::utf8::encode_utf8(trim(query@, TrimSet::Whitespace))),
{
    let t = trim_chars(chars_of(query).as_slice(), TrimSet::Whitespace);
    let s = string_of(t.as_slice());
    crate::hashing::sha256_hex(s.as_str().as_bytes())
}

/// Checks a feedback before it is stored: the value is -1 or 1, and the
/// source is `explicit` or `implicit`.
pub fn validate_feedback(value: i8, source: &str) -> (r: BiResult<()>)
    ensures
        value != -1 && value != 1 ==> (r matches Err(BiError::Invalid(m)) && m@
            == "feedback value must be -1 or 1"@),
        (value == -1 || value == 1) && source@ != "explicit"@ && source@ != "implicit"@ ==> (
        r matches Err(BiError::Invalid(m)) && m@ == "feedback source must be explicit or implicit"@),
        (value == -1 || value == 1) && (source@ == "explicit"@ || source@ == "implicit"@) ==> r
            is Ok,
{
    if value != -1 && value != 1 {
        return Err(BiError::Invalid("feedback value must be -1 or 1".to_owned()));
    }
    let s = chars_of(source);
    if !is_literal(s.as_slice(), "explicit") && !is_literal(s.as_slice(), "implicit") {
        return Err(BiError::Invalid("feedback source must be explicit or implicit".to_owned()));
    }
    Ok(())
}

/// Checks that a feedback names a memory the recall returned.
pub fn check_recalled(result_uids: &Vec<String>, memory_uid: &str) -> (r: BiResult<()>)
    ensures
        string_views(result_uids@).contains(memory_uid@) <==> r is Ok,
        r is Err ==> (r matches Err(BiError::Invalid(m)) && m@
            == "memory was not part of this recall result"@),
{
    let target = chars_of(memory_uid);
    let mut i: usize = 0;
    while i < result_uids.len()
        invariant
            i <= result_uids@.len(),
            target@ == memory_uid@,
            forall|j: int| 0 <= j < i ==> result_uids@[j]@ != memory_uid@,
        decreases result_uids@.len() - i,
    {
        if crate::text::chars_eq(chars_of(result_uids[i].as_str()).as_slice(), target.as_slice()) {
            assert(string_views(result_uids@)[i as int] == memory_uid@);
            return Ok(());
        }
        i += 1;
    }
    proof {
        if string_views(result_uids@).contains(memory_uid@) {
            let j = choose|j: int| 0 <= j < string_views(result_uids@).len() && string_views(result_uids@)[j] == memory_uid@;
            assert(result_uids@[j]@ == memory_uid@);
        }
    }
    Err(BiError::Invalid("memory was not part of this recall result".to_owned()))
}

/// The error for a recall that is not on record.
pub fn recall_not_found(recall_id: &str) -> (e: BiError)
    ensures
        e matches BiError::NotFound(m) && m@ == "recall "@ + recall_id@,
{
    BiError::NotFound(crate::error::concat_message("recall ", recall_id))
}

/// One stored feedback: its value and whether it was explicit.
pub struct Feedback {
    pub value: i8,
    pub explicit: bool,
}

/// The weight of one feedback: four times its value when explicit.
pub open spec fn feedback_weight(f: Feedback) -> int {
    if f.explicit {
        4 * f.value
    } else {
        f.value as int
    }
}

/// The summed weight of a memory's feedback, from which its recall boost is
/// scaled and bounded.
pub open spec fn weight_sum(fs: Seq<Feedback>) -> int
    decreases fs.len(),
{
    if fs.len() == 0 {
        0
    } else {
        weight_sum(fs.drop_last()) + feedback_weight(fs.last())
    }
}

/// The summed weight of a memory's feedback (see `weight_sum`).
pub fn feedback_weight_sum(fs: &Vec<Feedback>) -> (w: i64)
    requires
        fs@.len() <= 1_000_000_000_000,
    ensures
        w == weight_sum(fs@),
{
    let mut w: i64 = 0;
    let mut i: usize = 0;
    while i < fs.len()
        invariant
            i <= fs@.len(),
            fs@.len() <= 1_000_000_000_000,
            w == weight_sum(fs@.take(i as int)),
            -512 * i <= w <= 512 * i,
        decreases fs@.len() - i,
    {
        assert(fs@.take(i + 1).drop_last() == fs@.take(i as int));
        assert(fs@.take(i + 1).last() == fs@[i as int]);
        let f = &fs[i];
        let d: i64 = if f.explicit {
            4 * (f.value as i64)
        } else {
            f.value as i64
        };
        w = w + d;
        i += 1;
    }
    assert(fs@.take(fs@.len() as int) == fs@);
    w
}

/// A useful mark and a not-useful mark of the same kind cancel out: the
/// boost returns to where it was.
pub proof fn lemma_feedback_reversible(fs: Seq<Feedback>, explicit: bool)
    ensures
        weight_sum(fs.push(Feedback { value: 1i8, explicit }).push(Feedback { value: -1i8, explicit }))
            == weight_sum(fs),
{
    let a = fs.push(Feedback { value: 1i8, explicit });
    let b = a.push(Feedback { value: -1i8, explicit });
    assert(b.drop_last() == a);
    assert(a.drop_last() == fs);
    assert(b.last() == Feedback { value: -1i8, explicit });
    assert(a.last() == Feedback { value: 1i8, explicit });
    assert(weight_sum(b) == weight_sum(a) + feedback_weight(b.last()));
    assert(weight_sum(a) == weight_sum(fs) + feedback_weight(a.last()));
}

/// A useful mark raises the weight and a not-useful one lowers it.
pub proof fn lemma_feedback_direction(fs: Seq<Feedback>, f: Feedback)
    requires
        f.value == 1 || f.value == -1,
    ensures
        f.value == 1 ==> weight_sum(fs.push(f)) > weight_sum(fs),
        f.value == -1 ==> weight_sum(fs.push(f)) < weight_sum(fs),
{
    assert(fs.push(f).drop_last() == fs);
}

} // verus!
