//! Splitting a finished response into translation and terminology sections.
//!
//! When keyword analysis is on, the model is asked to delimit its answer
//! with `[Translation]` and `[Terminology]` markers.  Splitting takes the
//! text between the first `[Translation]` marker and the first
//! `[Terminology]` marker after it as the translation and the text after
//! that marker as the terminology notes, both trimmed; when the markers are
//! missing the whole response is the translation.

use vstd::prelude::*;
use vstd::string::StrSliceExecFns;
use vstd::string::StringExecFns;

verus! {

/// Whether `pat` occurs in `s` at position `i`.
pub open spec fn match_at(s: Seq<char>, pat: Seq<char>, i: int) -> bool {
    0 <= i && i + pat.len() <= s.len() && s.subrange(i, i + pat.len()) == pat
}

/// Index of the first occurrence of `pat` in `s`, or a negative value if
/// there is none.
pub open spec fn find_pat(s: Seq<char>, pat: Seq<char>) -> int
    decreases s.len(),
{
    if s.len() < pat.len() {
        -1
    } else if s.subrange(0, pat.len() as int) == pat {
        0
    } else if s.len() == 0 {
        -1
    } else {
        let r = find_pat(s.skip(1), pat);
        if r < 0 {
            -1
        } else {
            r + 1
        }
    }
}

/// ASCII whitespace, as trimmed around the sections.
pub open spec fn is_ws_char(c: char) -> bool {
    c == ' ' || c == '\t' || c == '\r' || c == '\n'
}

/// `s` without leading whitespace.
pub open spec fn ctrim_front(s: Seq<char>) -> Seq<char>
    decreases s.len(),
{
    if s.len() > 0 && is_ws_char(s[0]) {
        ctrim_front(s.skip(1))
    } else {
        s
    }
}

/// `s` without trailing whitespace.
pub open spec fn ctrim_back(s: Seq<char>) -> Seq<char>
    decreases s.len(),
{
    if s.len() > 0 && is_ws_char(s.last()) {
        ctrim_back(s.drop_last())
    } else {
        s
    }
}

/// `s` without leading and trailing whitespace.
pub open spec fn ctrim(s: Seq<char>) -> Seq<char> {
    ctrim_back(ctrim_front(s))
}

/// The `[Translation]` section marker.
pub open spec fn translation_marker() -> Seq<char> {
    "[Translation]"@
}

/// The `[Terminology]` section marker.
pub open spec fn terminology_marker() -> Seq<char> {
    "[Terminology]"@
}

/// How a finished response splits into translation and terminology.  With
/// keyword analysis off, or with either marker missing, the whole response
/// is the translation; otherwise the text between the first `[Translation]`
/// marker and the first `[Terminology]` marker after it is the translation
/// and the text after that marker is the terminology, both trimmed, with
/// empty terminology treated as absent.
pub open spec fn split_spec(full: Seq<char>, flag: bool) -> (Seq<char>, Option<Seq<char>>) {
    if !flag {
        (full, None)
    } else {
        let t = find_pat(full, translation_marker());
        if t < 0 {
            (full, None)
        } else {
            let rest = full.skip(t + translation_marker().len());
            let k = find_pat(rest, terminology_marker());
            if k < 0 {
                (full, None)
            } else {
                let tr = ctrim(rest.take(k));
                let term = ctrim(rest.skip(k + terminology_marker().len()));
                (tr, if term.len() == 0 {
                    Option::None
                } else {
                    Option::Some(term)
                })
            }
        }
    }
}

/// A scan that found `pat` at `q`, and nowhere earlier, agrees with the
/// first-occurrence index.
proof fn lemma_find_pat_at(s: Seq<char>, pat: Seq<char>, q: int)
    requires
        match_at(s, pat, q),
        forall|j: int| 0 <= j < q ==> !match_at(s, pat, j),
    ensures
        find_pat(s, pat) == q,
    decreases q,
{
    if q == 0 {
        assert(s.subrange(0, pat.len() as int) == pat);
    } else {
        assert(!match_at(s, pat, 0));
        assert(s.len() >= pat.len());
        if s.subrange(0, pat.len() as int) == pat {
            assert(match_at(s, pat, 0));
        }
        assert(s.len() > 0);
        assert(s.skip(1).subrange(q - 1, q - 1 + pat.len()) =~= s.subrange(q, q + pat.len()));
        assert(match_at(s.skip(1), pat, q - 1));
        assert forall|j: int| 0 <= j < q - 1 implies !match_at(s.skip(1), pat, j) by {
            if match_at(s.skip(1), pat, j) {
                assert(s.skip(1).subrange(j, j + pat.len()) =~= s.subrange(j + 1, j + 1 + pat.len()));
                assert(match_at(s, pat, j + 1));
            }
        }
        lemma_find_pat_at(s.skip(1), pat, q - 1);
    }
}

/// A scan that found `pat` nowhere agrees with the first-occurrence index.
proof fn lemma_find_pat_none(s: Seq<char>, pat: Seq<char>)
    requires
        forall|j: int| !match_at(s, pat, j),
    ensures
        find_pat(s, pat) < 0,
    decreases s.len(),
{
    if s.len() >= pat.len() {
        if s.subrange(0, pat.len() as int) == pat {
            assert(match_at(s, pat, 0));
        }
        if s.len() > 0 {
            assert forall|j: int| !match_at(s.skip(1), pat, j) by {
                if match_at(s.skip(1), pat, j) {
                    assert(s.skip(1).subrange(j, j + pat.len()) =~= s.subrange(
                        j + 1,
                        j + 1 + pat.len(),
                    ));
                    assert(match_at(s, pat, j + 1));
                }
            }
            lemma_find_pat_none(s.skip(1), pat);
        }
    }
}

/// Trimming the front is the same as skipping the leading whitespace.
proof fn lemma_ctrim_front_skip(s: Seq<char>, lo: int)
    requires
        0 <= lo <= s.len(),
        forall|j: int| 0 <= j < lo ==> is_ws_char(s[j]),
        lo < s.len() ==> !is_ws_char(s[lo]),
    ensures
        ctrim_front(s) == s.skip(lo),
    decreases lo,
{
    if lo == 0 {
        assert(s.skip(0) =~= s);
    } else {
        assert(is_ws_char(s[0]));
        assert forall|j: int| 0 <= j < lo - 1 implies is_ws_char(s.skip(1)[j]) by {
            assert(s.skip(1)[j] == s[j + 1]);
        }
        if lo - 1 < s.skip(1).len() {
            assert(s.skip(1)[lo - 1] == s[lo]);
        }
        lemma_ctrim_front_skip(s.skip(1), lo - 1);
        assert(s.skip(1).skip(lo - 1) =~= s.skip(lo));
    }
}

/// Trimming the back is the same as taking up to the trailing whitespace.
proof fn lemma_ctrim_back_take(s: Seq<char>, hi: int)
    requires
        0 <= hi <= s.len(),
        forall|j: int| hi <= j < s.len() ==> is_ws_char(s[j]),
        hi > 0 ==> !is_ws_char(s[hi - 1]),
    ensures
        ctrim_back(s) == s.take(hi),
    decreases s.len() - hi,
{
    if hi == s.len() {
        if s.len() > 0 && is_ws_char(s.last()) {
            assert(false);
        }
        assert(s.take(hi) =~= s);
    } else {
        assert(is_ws_char(s.last()));
        assert(s.drop_last() =~= s.take(s.len() - 1));
        assert forall|j: int| hi <= j < s.drop_last().len() implies is_ws_char(
            s.drop_last()[j],
        ) by {
            assert(s.drop_last()[j] == s[j]);
        }
        lemma_ctrim_back_take(s.drop_last(), hi);
        assert(s.drop_last().take(hi) =~= s.take(hi));
    }
}

/// Index of the first occurrence of `pat` in `s`, by scan.
fn find_marker(s: &str, pat: &str) -> (r: Option<usize>)
    ensures
        match r {
            Some(q) => find_pat(s@, pat@) == q && q + pat@.len() <= s@.len(),
            None => find_pat(s@, pat@) < 0,
        },
{
    let n = s.unicode_len();
    let m = pat.unicode_len();
    if m > n {
        proof {
            assert forall|j: int| !match_at(s@, pat@, j) by {}
            lemma_find_pat_none(s@, pat@);
        }
        return None;
    }
    let mut q: usize = 0;
    while q <= n - m
        invariant
            m <= n,
            n == s@.len(),
            m == pat@.len(),
            q <= n - m + 1,
            forall|j: int| 0 <= j < q ==> !match_at(s@, pat@, j),
        decreases n - m + 1 - q,
    {
        let mut t: usize = 0;
        let mut all_eq = true;
        while t < m
            invariant
                t <= m,
                q + m <= n,
                n == s@.len(),
                m == pat@.len(),
                all_eq == (forall|x: int| 0 <= x < t ==> s@[q + x] == pat@[x]),
            decreases m - t,
        {
            let sc = s.get_char(q + t);
            let pc = pat.get_char(t);
            if sc != pc {
                all_eq = false;
                proof {
                    assert(s@[q + t] != pat@[t as int]);
                }
                t = m;
            } else {
                proof {
                    assert(s@[q + t] == pat@[t as int]);
                }
                t = t + 1;
            }
        }
        if all_eq {
            proof {
                assert(s@.subrange(q as int, q + m) =~= pat@);
                assert(match_at(s@, pat@, q as int));
                lemma_find_pat_at(s@, pat@, q as int);
            }
            return Some(q);
        }
        proof {
            if match_at(s@, pat@, q as int) {
                assert forall|x: int| 0 <= x < m implies s@[q + x] == pat@[x] by {
                    assert(s@.subrange(q as int, q + m)[x] == s@[q + x]);
                }
                assert(false);
            }
        }
        q = q + 1;
    }
    proof {
        assert forall|j: int| !match_at(s@, pat@, j) by {
            if 0 <= j < q {
            } else if match_at(s@, pat@, j) {
                assert(j + pat@.len() <= s@.len());
            }
        }
        lemma_find_pat_none(s@, pat@);
    }
    None
}

/// `s` with leading and trailing whitespace removed, as an owned string.
fn trim_str(s: &str) -> (r: String)
    ensures
        r@ == ctrim(s@),
{
    let n = s.unicode_len();
    let mut lo: usize = 0;
    while lo < n && is_ws(s.get_char(lo))
        invariant
            lo <= n,
            n == s@.len(),
            forall|j: int| 0 <= j < lo ==> is_ws_char(s@[j]),
        decreases n - lo,
    {
        lo = lo + 1;
    }
    let mut hi: usize = n;
    while hi > lo && is_ws(s.get_char(hi - 1))
        invariant
            lo <= hi <= n,
            n == s@.len(),
            forall|j: int| hi <= j < n ==> is_ws_char(s@[j]),
        decreases hi,
    {
        hi = hi - 1;
    }
    proof {
        lemma_ctrim_front_skip(s@, lo as int);
        let sk = s@.skip(lo as int);
        assert forall|j: int| hi - lo <= j < sk.len() implies is_ws_char(sk[j]) by {
            assert(sk[j] == s@[lo + j]);
        }
        if hi > lo {
            assert(sk[hi - lo - 1] == s@[hi - 1]);
        }
        lemma_ctrim_back_take(sk, hi - lo);
    }
    let sub = s.substring_char(lo, hi);
    proof {
        assert(s@.skip(lo as int).take(hi - lo) =~= s@.subrange(lo as int, hi as int));
    }
    String::from_str(sub)
}

/// Whether a character is ASCII whitespace.
fn is_ws(c: char) -> (r: bool)
    ensures
        r == is_ws_char(c),
{
    c == ' ' || c == '\t' || c == '\r' || c == '\n'
}

/// Splits a finished response into translation and terminology, as
/// [`split_spec`] describes.
pub fn split_sections(full: &str, keyword_analysis: bool) -> (r: (String, Option<String>))
    ensures
        r.0@ == split_spec(full@, keyword_analysis).0,
        ({
            let term = split_spec(full@, keyword_analysis).1;
            match r.1 {
                Some(t) => term == Some(t@),
                None => term is None,
            }
        }),
{
    if !keyword_analysis {
        return (String::from_str(full), None);
    }
    let tm: &str = "[Translation]";
    let km: &str = "[Terminology]";
    match find_marker(full, tm) {
        None => (String::from_str(full), None),
        Some(t) => {
            let tm_len = tm.unicode_len();
            let full_len = full.unicode_len();
            let rest = full.substring_char(t + tm_len, full_len);
            proof {
                assert(full@.subrange(t + tm@.len(), full@.len() as int) =~= full@.skip(
                    t + tm@.len(),
                ));
            }
            match find_marker(rest, km) {
                None => (String::from_str(full), None),
                Some(k) => {
                    let km_len = km.unicode_len();
                    let rest_len = rest.unicode_len();
                    let tr_part = rest.substring_char(0, k);
                    proof {
                        assert(rest@.subrange(0, k as int) =~= rest@.take(k as int));
                    }
                    let tr = trim_str(tr_part);
                    let term_part = rest.substring_char(k + km_len, rest_len);
                    proof {
                        assert(rest@.subrange(k + km@.len(), rest@.len() as int) =~= rest@.skip(
                            k + km@.len(),
                        ));
                    }
                    let term = trim_str(term_part);
                    if term.as_str().is_empty() {
                        (tr, None)
                    } else {
                        (tr, Some(term))
                    }
                },
            }
        },
    }
}

} // verus!
