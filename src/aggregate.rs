use vstd::prelude::*;
use crate::decoder::{CandidateSpan, DecodedWindow};
use crate::example::{is_doc_token, is_ws, QaExample};
use crate::windows::QaFeature;

verus! {

/// An answer as a half-open range of context characters with its score.
#[derive(Clone, Copy, Debug, PartialEq, Eq, Structural)]
pub struct ScoredSpan {
    pub start_char: usize,
    pub end_char: usize,
    pub score: i64,
}

/// An answer: its text, cut from the context, and where it stands there.
#[derive(Clone, Debug, PartialEq, Eq)]
pub struct Answer {
    pub text: Vec<char>,
    pub score: i64,
    pub start_char: usize,
    pub end_char: usize,
}

/// The outcome for one example.
#[derive(Clone, Debug, PartialEq, Eq)]
pub enum Prediction {
    /// No answer; `misaligned` tells that a candidate could not be traced back to
    /// the context, which is a fault in the inputs rather than a judgement.
    NoAnswer { score: i64, misaligned: bool },
    /// The best answers, best first.
    Answers(Vec<Answer>),
}

/// The context characters that candidate `c` covers, if its bounds lead to doc tokens.
pub open spec fn char_span(ex: QaExample, fs: Seq<QaFeature>, c: CandidateSpan) -> Option<(usize, usize)> {
    if c.feature_index < fs.len() {
        let f = fs[c.feature_index as int];
        let m = f.token_to_orig_map@;
        if c.start < m.len() && c.end < m.len() && m[c.start as int] is Some && m[c.end as int] is Some {
            let ds = m[c.start as int]->Some_0;
            let de = m[c.end as int]->Some_0;
            let toks = ex.doc_tokens@;
            if ds < toks.len() && de < toks.len() && toks[ds as int].char_start < toks[de as int].char_end {
                Some((toks[ds as int].char_start, toks[de as int].char_end))
            } else {
                None
            }
        } else {
            None
        }
    } else {
        None
    }
}

/// Every candidate of every window can be traced back to the context.
pub open spec fn all_aligned(ex: QaExample, fs: Seq<QaFeature>, ds: Seq<DecodedWindow>) -> bool {
    forall|w: int, i: int|
        0 <= w < ds.len() && 0 <= i < ds[w].candidates@.len() ==> (#[trigger] char_span(ex, fs, ds[w].candidates@[i])) is Some
}

/// `x` is the character range and score of some candidate.
pub open spec fn pool_has(ex: QaExample, fs: Seq<QaFeature>, ds: Seq<DecodedWindow>, x: ScoredSpan) -> bool {
    exists|w: int, i: int|
        0 <= w < ds.len() && 0 <= i < ds[w].candidates@.len() && char_span(ex, fs, #[trigger] ds[w].candidates@[i])
            == Some((x.start_char, x.end_char)) && ds[w].candidates@[i].score_spec() == x.score
}

/// The highest score of any candidate among `cs`.
pub open spec fn best_of(cs: Seq<CandidateSpan>) -> Option<int>
    decreases cs.len(),
{
    if cs.len() == 0 {
        None
    } else {
        let s = cs.last().score_spec();
        match best_of(cs.drop_last()) {
            None => Some(s),
            Some(b) => Some(if b < s { s } else { b }),
        }
    }
}

/// The highest score of any candidate of any window.
pub open spec fn best_non_null(ds: Seq<DecodedWindow>) -> Option<int>
    decreases ds.len(),
{
    if ds.len() == 0 {
        None
    } else {
        let here = best_of(ds.last().candidates@);
        match (best_non_null(ds.drop_last()), here) {
            (None, h) => h,
            (b, None) => b,
            (Some(b), Some(h)) => Some(if b < h { h } else { b }),
        }
    }
}

/// The lowest no-answer score of the windows.
pub open spec fn best_null(ds: Seq<DecodedWindow>) -> int
    decreases ds.len(),
{
    if ds.len() <= 1 {
        if ds.len() == 0 { 0 } else { ds[0].null_score as int }
    } else {
        let rest = best_null(ds.drop_last());
        let s = ds.last().null_score as int;
        if s < rest { s } else { rest }
    }
}

/// The rule that turns an example into a no-answer outcome.
pub open spec fn declines(ds: Seq<DecodedWindow>, threshold: int) -> bool {
    match best_non_null(ds) {
        None => true,
        Some(b) => best_null(ds) - b > threshold,
    }
}

/// `a` ranks before `b`: higher score first, then earlier start, then earlier end.
pub open spec fn span_before(a: ScoredSpan, b: ScoredSpan) -> bool {
    ||| a.score > b.score
    ||| (a.score == b.score && a.start_char < b.start_char)
    ||| (a.score == b.score && a.start_char == b.start_char && a.end_char < b.end_char)
}

pub open spec fn spans_ranked(v: Seq<ScoredSpan>) -> bool {
    forall|i: int, j: int| 0 <= i < j < v.len() ==> span_before(#[trigger] v[i], #[trigger] v[j])
}

pub open spec fn scored(a: Answer) -> ScoredSpan {
    ScoredSpan { start_char: a.start_char, end_char: a.end_char, score: a.score }
}


/// `v` holds the range `sp` with a score of at least `score`.
pub open spec fn covered(v: Seq<ScoredSpan>, sp: Option<(usize, usize)>, score: int) -> bool {
    sp is Some && exists|k: int|
        0 <= k < v.len() && (#[trigger] v[k]).start_char == sp->Some_0.0 && v[k].end_char == sp->Some_0.1
            && v[k].score >= score
}

pub open spec fn distinct_ranges(v: Seq<ScoredSpan>) -> bool {
    forall|a: int, b: int|
        0 <= a < b < v.len() ==> (#[trigger] v[a]).start_char != (#[trigger] v[b]).start_char || v[a].end_char
            != v[b].end_char
}

/// The characters that candidate `c` covers, when it can be traced back to the context.
fn candidate_chars(ex: &QaExample, fs: &Vec<QaFeature>, c: CandidateSpan) -> (r: Option<(usize, usize)>)
    ensures
        r == char_span(*ex, fs@, c),
{
    if c.feature_index >= fs.len() {
        return None;
    }
    let f = &fs[c.feature_index];
    if c.start >= f.token_to_orig_map.len() || c.end >= f.token_to_orig_map.len() {
        return None;
    }
    match (f.token_to_orig_map[c.start], f.token_to_orig_map[c.end]) {
        (Some(ds), Some(de)) => {
            if ds < ex.doc_tokens.len() && de < ex.doc_tokens.len()
                && ex.doc_tokens[ds].char_start < ex.doc_tokens[de].char_end {
                Some((ex.doc_tokens[ds].char_start, ex.doc_tokens[de].char_end))
            } else {
                None
            }
        },
        _ => None,
    }
}

/// Gathers the character ranges of all candidates, each range once with its best
/// score; `None` when some candidate cannot be traced back to the context.
pub fn collect_spans(ex: &QaExample, fs: &Vec<QaFeature>, ds: &Vec<DecodedWindow>) -> (r: Option<Vec<ScoredSpan>>)
    ensures
        r is None <==> !all_aligned(*ex, fs@, ds@),
        r matches Some(v) ==> {
            &&& distinct_ranges(v@)
            &&& forall|k: int| 0 <= k < v@.len() ==> pool_has(*ex, fs@, ds@, #[trigger] v@[k])
            &&& forall|w: int, i: int|
                0 <= w < ds@.len() && 0 <= i < ds@[w].candidates@.len() ==> covered(
                    v@,
                    char_span(*ex, fs@, #[trigger] ds@[w].candidates@[i]),
                    ds@[w].candidates@[i].score_spec(),
                )
        },
{
    let mut v: Vec<ScoredSpan> = Vec::new();
    let mut w: usize = 0;
    while w < ds.len()
        invariant
            w <= ds@.len(),
            distinct_ranges(v@),
            forall|k: int| 0 <= k < v@.len() ==> pool_has(*ex, fs@, ds@, #[trigger] v@[k]),
            forall|w2: int, i2: int|
                0 <= w2 < w && 0 <= i2 < ds@[w2].candidates@.len() ==> covered(
                    v@,
                    char_span(*ex, fs@, #[trigger] ds@[w2].candidates@[i2]),
                    ds@[w2].candidates@[i2].score_spec(),
                ),
        decreases ds@.len() - w,
    {
        let cands = &ds[w].candidates;
        let mut i: usize = 0;
        while i < cands.len()
            invariant
                w < ds@.len(),
                cands@ == ds@[w as int].candidates@,
                i <= cands@.len(),
                distinct_ranges(v@),
                forall|k: int| 0 <= k < v@.len() ==> pool_has(*ex, fs@, ds@, #[trigger] v@[k]),
                forall|w2: int, i2: int|
                    0 <= w2 <= w && 0 <= i2 < ds@[w2].candidates@.len() && (w2 < w || i2 < i) ==> covered(
                        v@,
                        char_span(*ex, fs@, #[trigger] ds@[w2].candidates@[i2]),
                        ds@[w2].candidates@[i2].score_spec(),
                    ),
            decreases cands@.len() - i,
        {
            let c = cands[i];
            let sp = candidate_chars(ex, fs, c);
            match sp {
                None => {
                    proof {
                        assert(char_span(*ex, fs@, ds@[w as int].candidates@[i as int]) is None);
                    }
                    return None;
                },
                Some((sc, ec)) => {
                    let x = ScoredSpan { start_char: sc, end_char: ec, score: c.score() };
                    proof {
                        assert(ds@[w as int].candidates@[i as int] == c);
                        assert(pool_has(*ex, fs@, ds@, x));
                    }
                    let ghost old_v = v@;
                    let mut k: usize = 0;
                    while k < v.len() && !(v[k].start_char == sc && v[k].end_char == ec)
                        invariant
                            v@ == old_v,
                            k <= v@.len(),
                            forall|j: int| 0 <= j < k ==> (#[trigger] v@[j]).start_char != sc || v@[j].end_char != ec,
                        decreases v@.len() - k,
                    {
                        k = k + 1;
                    }
                    if k == v.len() {
                        v.push(x);
                        proof {
                            assert forall|a: int, b: int| 0 <= a < b < v@.len() implies (#[trigger] v@[a]).start_char
                                != (#[trigger] v@[b]).start_char || v@[a].end_char != v@[b].end_char by {
                                if b < old_v.len() {
                                    assert(v@[a] == old_v[a] && v@[b] == old_v[b]);
                                } else {
                                    assert(v@[a] == old_v[a]);
                                }
                            }
                            assert forall|j: int| 0 <= j < v@.len() implies pool_has(*ex, fs@, ds@, #[trigger] v@[j]) by {
                                if j < old_v.len() {
                                    assert(v@[j] == old_v[j]);
                                }
                            }
                            assert forall|w2: int, i2: int|
                                0 <= w2 <= w && 0 <= i2 < ds@[w2].candidates@.len() && (w2 < w || i2 < i + 1) implies covered(
                                    v@,
                                    char_span(*ex, fs@, #[trigger] ds@[w2].candidates@[i2]),
                                    ds@[w2].candidates@[i2].score_spec(),
                                ) by {
                                if w2 == w && i2 == i {
                                    assert(v@[old_v.len() as int] == x);
                                } else {
                                    let sp2 = char_span(*ex, fs@, ds@[w2].candidates@[i2]);
                                    let kk = choose|kk: int|
                                        0 <= kk < old_v.len() && (#[trigger] old_v[kk]).start_char == sp2->Some_0.0
                                            && old_v[kk].end_char == sp2->Some_0.1 && old_v[kk].score
                                            >= ds@[w2].candidates@[i2].score_spec();
                                    assert(v@[kk] == old_v[kk]);
                                }
                            }
                        }
                    } else if v[k].score < x.score {
                        v.set(k, x);
                        proof {
                            assert forall|a: int, b: int| 0 <= a < b < v@.len() implies (#[trigger] v@[a]).start_char
                                != (#[trigger] v@[b]).start_char || v@[a].end_char != v@[b].end_char by {
                                assert(old_v[a].start_char != old_v[b].start_char || old_v[a].end_char != old_v[b].end_char);
                            }
                            assert forall|j: int| 0 <= j < v@.len() implies pool_has(*ex, fs@, ds@, #[trigger] v@[j]) by {
                                if j != k {
                                    assert(v@[j] == old_v[j]);
                                }
                            }
                            assert forall|w2: int, i2: int|
                                0 <= w2 <= w && 0 <= i2 < ds@[w2].candidates@.len() && (w2 < w || i2 < i + 1) implies covered(
                                    v@,
                                    char_span(*ex, fs@, #[trigger] ds@[w2].candidates@[i2]),
                                    ds@[w2].candidates@[i2].score_spec(),
                                ) by {
                                if w2 == w && i2 == i {
                                    assert(v@[k as int] == x);
                                } else {
                                    let sp2 = char_span(*ex, fs@, ds@[w2].candidates@[i2]);
                                    let kk = choose|kk: int|
                                        0 <= kk < old_v.len() && (#[trigger] old_v[kk]).start_char == sp2->Some_0.0
                                            && old_v[kk].end_char == sp2->Some_0.1 && old_v[kk].score
                                            >= ds@[w2].candidates@[i2].score_spec();
                                    assert(v@[kk].start_char == old_v[kk].start_char && v@[kk].end_char == old_v[kk].end_char);
                                    assert(v@[kk].score >= old_v[kk].score);
                                }
                            }
                        }
                    } else {
                        proof {
                            assert forall|w2: int, i2: int|
                                0 <= w2 <= w && 0 <= i2 < ds@[w2].candidates@.len() && (w2 < w || i2 < i + 1) implies covered(
                                    v@,
                                    char_span(*ex, fs@, #[trigger] ds@[w2].candidates@[i2]),
                                    ds@[w2].candidates@[i2].score_spec(),
                                ) by {
                                if w2 == w && i2 == i {
                                    assert(v@[k as int].start_char == sc);
                                }
                            }
                        }
                    }
                },
            }
            i = i + 1;
        }
        w = w + 1;
    }
    proof {
        assert forall|w2: int, i2: int|
            0 <= w2 < ds@.len() && 0 <= i2 < ds@[w2].candidates@.len() implies (#[trigger] char_span(
                *ex,
                fs@,
                ds@[w2].candidates@[i2],
            )) is Some by {
            assert(covered(v@, char_span(*ex, fs@, ds@[w2].candidates@[i2]), ds@[w2].candidates@[i2].score_spec()));
        }
    }
    Some(v)
}


/// Orders ranges by score, best first, ties going to the earlier range.
pub fn rank_spans(v: &Vec<ScoredSpan>) -> (r: Vec<ScoredSpan>)
    requires
        distinct_ranges(v@),
    ensures
        spans_ranked(r@),
        r@.len() == v@.len(),
        forall|x: ScoredSpan| r@.contains(x) <==> v@.contains(x),
{
    let mut r: Vec<ScoredSpan> = Vec::new();
    let mut i: usize = 0;
    while i < v.len()
        invariant
            distinct_ranges(v@),
            i <= v@.len(),
            spans_ranked(r@),
            r@.len() == i,
            forall|x: ScoredSpan| r@.contains(x) <==> v@.take(i as int).contains(x),
        decreases v@.len() - i,
    {
        let x = v[i];
        let ghost o = r@;
        proof {
            assert forall|j: int| 0 <= j < o.len() implies (#[trigger] o[j]).start_char != x.start_char
                || o[j].end_char != x.end_char by {
                assert(o.contains(o[j]));
                let a = choose|a: int| 0 <= a < i && v@.take(i as int)[a] == o[j];
                assert(v@[a] == o[j]);
            }
        }
        let mut pos: usize = 0;
        let mut found = false;
        while pos < r.len() && !found
            invariant
                r@ == o,
                pos <= o.len(),
                forall|j: int| 0 <= j < pos ==> span_before(#[trigger] o[j], x),
                found ==> pos < o.len() && span_before(x, o[pos as int]),
                spans_ranked(o),
                forall|j: int| 0 <= j < o.len() ==> (#[trigger] o[j]).start_char != x.start_char
                    || o[j].end_char != x.end_char,
            decreases o.len() - pos + if found { 0int } else { 1int },
        {
            let y = r[pos];
            if x.score > y.score || (x.score == y.score && x.start_char < y.start_char) || (x.score
                == y.score && x.start_char == y.start_char && x.end_char < y.end_char) {
                found = true;
            } else {
                assert(o[pos as int] == y);
                pos = pos + 1;
            }
        }
        r.insert(pos, x);
        proof {
            let nv = r@;
            assert(nv == o.insert(pos as int, x));
            assert forall|a: int, b: int| 0 <= a < b < nv.len() implies span_before(#[trigger] nv[a], #[trigger] nv[b]) by {
                if b < pos {
                } else if b == pos {
                } else if a < pos {
                    assert(nv[b] == o[b - 1]);
                } else if a == pos {
                    assert(nv[b] == o[b - 1]);
                    if pos < b - 1 {
                        assert(span_before(o[pos as int], o[b - 1]));
                    }
                } else {
                    assert(nv[b] == o[b - 1] && nv[a] == o[a - 1]);
                }
            }
            let tk = v@.take(i + 1);
            assert(tk == v@.take(i as int).push(x));
            assert forall|y: ScoredSpan| #[trigger] nv.contains(y) == tk.contains(y) by {
                if nv.contains(y) {
                    let j = choose|j: int| 0 <= j < nv.len() && nv[j] == y;
                    if j < pos {
                        assert(o[j] == y);
                        assert(o.contains(y));
                    } else if j > pos {
                        assert(o[j - 1] == y);
                        assert(o.contains(y));
                    }
                    assert(tk[i as int] == x);
                }
                if tk.contains(y) {
                    let j = choose|j: int| 0 <= j < tk.len() && tk[j] == y;
                    if j < i {
                        assert(v@.take(i as int)[j] == y);
                        assert(o.contains(y));
                        let m = choose|m: int| 0 <= m < o.len() && o[m] == y;
                        if m < pos {
                            assert(nv[m] == y);
                        } else {
                            assert(nv[m + 1] == y);
                        }
                    } else {
                        assert(nv[pos as int] == y);
                    }
                }
            }
        }
        i = i + 1;
    }
    assert(v@.take(i as int) =~= v@);
    r
}


/// The lowest no-answer score of the windows and the highest candidate score.
fn decision_scores(ds: &Vec<DecodedWindow>) -> (r: (i64, Option<i64>))
    ensures
        r.0 == best_null(ds@),
        r.1 is None <==> best_non_null(ds@) is None,
        r.1 matches Some(b) ==> best_non_null(ds@) == Some(b as int),
{
    let mut null: i64 = 0;
    let mut best: Option<i64> = None;
    let mut w: usize = 0;
    while w < ds.len()
        invariant
            w <= ds@.len(),
            null == best_null(ds@.take(w as int)),
            best is None <==> best_non_null(ds@.take(w as int)) is None,
            best matches Some(b) ==> best_non_null(ds@.take(w as int)) == Some(b as int),
        decreases ds@.len() - w,
    {
        let cands = &ds[w].candidates;
        let mut here: Option<i64> = None;
        let mut i: usize = 0;
        while i < cands.len()
            invariant
                i <= cands@.len(),
                here is None <==> best_of(cands@.take(i as int)) is None,
                here matches Some(b) ==> best_of(cands@.take(i as int)) == Some(b as int),
            decreases cands@.len() - i,
        {
            let s = cands[i].score();
            assert(cands@.take(i + 1).drop_last() =~= cands@.take(i as int));
            here = match here {
                None => Some(s),
                Some(b) => Some(if b < s { s } else { b }),
            };
            i = i + 1;
        }
        assert(cands@.take(i as int) =~= cands@);
        assert(ds@.take(w + 1).drop_last() =~= ds@.take(w as int));
        let ns = ds[w].null_score;
        if w == 0 || ns < null {
            null = ns;
        }
        best = match (best, here) {
            (None, h) => h,
            (b, None) => b,
            (Some(b), Some(h)) => Some(if b < h { h } else { b }),
        };
        w = w + 1;
    }
    assert(ds@.take(w as int) =~= ds@);
    (null, best)
}

/// Every candidate range lies inside the context, is not empty, and neither begins
/// nor ends on whitespace: the text it names is a trimmed, verbatim piece of the context.
pub proof fn lemma_pool_text_in_context(ex: QaExample, fs: Seq<QaFeature>, ds: Seq<DecodedWindow>, x: ScoredSpan)
    requires
        ex.wf(),
        pool_has(ex, fs, ds, x),
    ensures
        x.start_char < x.end_char <= ex.context@.len(),
        !is_ws(ex.context@[x.start_char as int]),
        !is_ws(ex.context@[x.end_char - 1]),
{
    let (w, i) = choose|w: int, i: int|
        0 <= w < ds.len() && 0 <= i < ds[w].candidates@.len() && char_span(ex, fs, #[trigger] ds[w].candidates@[i])
            == Some((x.start_char, x.end_char)) && ds[w].candidates@[i].score_spec() == x.score;
    let c = ds[w].candidates@[i];
    let m = fs[c.feature_index as int].token_to_orig_map@;
    let a = m[c.start as int]->Some_0 as int;
    let b = m[c.end as int]->Some_0 as int;
    assert(is_doc_token(ex.context@, a, ex.doc_tokens@[a]));
    assert(is_doc_token(ex.context@, b, ex.doc_tokens@[b]));
    let tb = ex.doc_tokens@[b];
    assert(!is_ws(ex.context@[tb.char_end - 1]));
}

/// `v` are the `n_best` best ranges of the pool (all of them, when fewer), best
/// first, each with the best score of its range and its text cut from the context.
pub open spec fn answers_ok(ex: QaExample, fs: Seq<QaFeature>, ds: Seq<DecodedWindow>, n_best: nat, v: Seq<Answer>) -> bool {
    &&& top_of(|x: ScoredSpan| pool_has(ex, fs, ds, x), n_best, v.map_values(|a: Answer| scored(a)))
    &&& forall|k: int|
        0 <= k < v.len() ==> (#[trigger] v[k]).text@ == ex.context@.subrange(v[k].start_char as int, v[k].end_char as int)
}

/// What `aggregate` reports for an example.
pub open spec fn aggregate_ok(
    ex: QaExample,
    fs: Seq<QaFeature>,
    ds: Seq<DecodedWindow>,
    n_best: nat,
    threshold: int,
    r: Prediction,
) -> bool {
    if !all_aligned(ex, fs, ds) {
        r == (Prediction::NoAnswer { score: best_null(ds) as i64, misaligned: true })
    } else if declines(ds, threshold) {
        r == (Prediction::NoAnswer { score: best_null(ds) as i64, misaligned: false })
    } else {
        r matches Prediction::Answers(v) && answers_ok(ex, fs, ds, n_best, v@)
    }
}


/// Facts that `collect_spans` gives of the ranges it gathered.
pub open spec fn gathered(ex: QaExample, fs: Seq<QaFeature>, ds: Seq<DecodedWindow>, d: Seq<ScoredSpan>) -> bool {
    &&& distinct_ranges(d)
    &&& forall|k: int| 0 <= k < d.len() ==> pool_has(ex, fs, ds, #[trigger] d[k])
    &&& forall|w: int, i: int|
        0 <= w < ds.len() && 0 <= i < ds[w].candidates@.len() ==> covered(
            d,
            char_span(ex, fs, #[trigger] ds[w].candidates@[i]),
            ds[w].candidates@[i].score_spec(),
        )
}

/// A gathered range with at least the score of pool entry `x`.
proof fn gathered_index(ex: QaExample, fs: Seq<QaFeature>, ds: Seq<DecodedWindow>, d: Seq<ScoredSpan>, x: ScoredSpan) -> (kk: int)
    requires
        gathered(ex, fs, ds, d),
        pool_has(ex, fs, ds, x),
    ensures
        0 <= kk < d.len(),
        d[kk].start_char == x.start_char && d[kk].end_char == x.end_char,
        d[kk].score >= x.score,
{
    let (w, i) = choose|w: int, i: int|
        0 <= w < ds.len() && 0 <= i < ds[w].candidates@.len() && char_span(ex, fs, #[trigger] ds[w].candidates@[i])
            == Some((x.start_char, x.end_char)) && ds[w].candidates@[i].score_spec() == x.score;
    assert(covered(d, char_span(ex, fs, ds[w].candidates@[i]), ds[w].candidates@[i].score_spec()));
    choose|kk: int|
        0 <= kk < d.len() && (#[trigger] d[kk]).start_char == x.start_char && d[kk].end_char == x.end_char
            && d[kk].score >= x.score
}

fn slice_chars(s: &Vec<char>, a: usize, b: usize) -> (r: Vec<char>)
    requires
        a <= b <= s@.len(),
    ensures
        r@ == s@.subrange(a as int, b as int),
{
    let mut r: Vec<char> = Vec::new();
    let mut i: usize = a;
    while i < b
        invariant
            a <= i <= b,
            b <= s@.len(),
            r@ == s@.subrange(a as int, i as int),
        decreases b - i,
    {
        r.push(s[i]);
        i = i + 1;
        assert(r@ =~= s@.subrange(a as int, i as int));
    }
    r
}

/// Merges the candidates of all windows of an example into its answers, or decides
/// that it has none: when the lowest no-answer score exceeds the best candidate score
/// by more than `null_score_diff_threshold`, or when there is no candidate.
pub fn aggregate(
    ex: &QaExample,
    fs: &Vec<QaFeature>,
    ds: &Vec<DecodedWindow>,
    n_best: usize,
    null_score_diff_threshold: i64,
) -> (r: Prediction)
    requires
        ex.wf(),
    ensures
        aggregate_ok(*ex, fs@, ds@, n_best as nat, null_score_diff_threshold as int, r),
{
    let (null, best) = decision_scores(ds);
    let d = match collect_spans(ex, fs, ds) {
        None => {
            return Prediction::NoAnswer { score: null, misaligned: true };
        },
        Some(d) => d,
    };
    let b = match best {
        None => {
            return Prediction::NoAnswer { score: null, misaligned: false };
        },
        Some(b) => b,
    };
    if (null as i128) - (b as i128) > null_score_diff_threshold as i128 {
        return Prediction::NoAnswer { score: null, misaligned: false };
    }
    let ranked = rank_spans(&d);
    let n = if n_best < ranked.len() { n_best } else { ranked.len() };
    let mut answers: Vec<Answer> = Vec::new();
    let mut k: usize = 0;
    while k < n
        invariant
            ex.wf(),
            gathered(*ex, fs@, ds@, d@),
            spans_ranked(ranked@),
            forall|x: ScoredSpan| ranked@.contains(x) <==> d@.contains(x),
            n <= ranked@.len(),
            k <= n,
            answers@.len() == k,
            forall|j: int| 0 <= j < k ==> scored(#[trigger] answers@[j]) == ranked@[j]
                && answers@[j].text@ == ex.context@.subrange(answers@[j].start_char as int, answers@[j].end_char as int),
        decreases n - k,
    {
        let x = ranked[k];
        proof {
            assert(ranked@.contains(x));
            assert(d@.contains(x));
            let j = choose|j: int| 0 <= j < d@.len() && d@[j] == x;
            assert(pool_has(*ex, fs@, ds@, d@[j]));
            lemma_pool_text_in_context(*ex, fs@, ds@, x);
        }
        let text = slice_chars(&ex.context, x.start_char, x.end_char);
        answers.push(Answer { text: text, score: x.score, start_char: x.start_char, end_char: x.end_char });
        k = k + 1;
    }
    proof {
        lemma_top_answers(*ex, fs@, ds@, d@, ranked@, n as nat, n_best as nat, answers@);
        assert(best_non_null(ds@) == Some(b as int));
    }
    Prediction::Answers(answers)
}


/// The first `n` ranked ranges, with their texts, are the answers that `answers_ok` asks for.
proof fn lemma_top_answers(
    ex: QaExample,
    fs: Seq<QaFeature>,
    ds: Seq<DecodedWindow>,
    d: Seq<ScoredSpan>,
    ranked: Seq<ScoredSpan>,
    n: nat,
    n_best: nat,
    v: Seq<Answer>,
)
    requires
        gathered(ex, fs, ds, d),
        spans_ranked(ranked),
        forall|x: ScoredSpan| ranked.contains(x) <==> d.contains(x),
        n == if n_best < ranked.len() { n_best } else { ranked.len() },
        v.len() == n,
        forall|j: int| 0 <= j < n ==> scored(#[trigger] v[j]) == ranked[j]
            && v[j].text@ == ex.context@.subrange(v[j].start_char as int, v[j].end_char as int),
    ensures
        answers_ok(ex, fs, ds, n_best, v),
{
    let pool = |x: ScoredSpan| pool_has(ex, fs, ds, x);
    let sv = v.map_values(|a: Answer| scored(a));
    assert forall|k: int| 0 <= k < sv.len() implies #[trigger] sv[k] == ranked[k] && pool(sv[k]) by {
        assert(ranked.contains(ranked[k]));
        let j = choose|j: int| 0 <= j < d.len() && d[j] == ranked[k];
        assert(pool_has(ex, fs, ds, d[j]));
    }
    assert forall|k: int, x: ScoredSpan|
        0 <= k < sv.len() && #[trigger] entry_of(pool, x) && x.start_char == (#[trigger] sv[k]).start_char && x.end_char
            == sv[k].end_char implies x.score <= sv[k].score by {
        assert(ranked.contains(ranked[k]));
        let j = choose|j: int| 0 <= j < d.len() && d[j] == ranked[k];
        let kk = gathered_index(ex, fs, ds, d, x);
        if kk != j {
            assert(d[kk].start_char != d[j].start_char || d[kk].end_char != d[j].end_char);
        }
    }
    assert forall|x: ScoredSpan| #[trigger] entry_of(pool, x) implies (exists|k2: int|
        0 <= k2 < sv.len() && (#[trigger] sv[k2]).start_char == x.start_char && sv[k2].end_char == x.end_char) || (
        sv.len() == n_best && (n_best == 0 || span_before(sv[n_best - 1], x))) by {
        let kk = gathered_index(ex, fs, ds, d, x);
        assert(d.contains(d[kk]));
        assert(ranked.contains(d[kk]));
        let m = choose|m: int| 0 <= m < ranked.len() && ranked[m] == d[kk];
        if m < n {
            assert(sv[m] == ranked[m]);
        } else if n_best > 0 {
            assert(sv[n_best - 1] == ranked[n_best - 1]);
            assert(span_before(ranked[n_best - 1], ranked[m]));
        }
    }
    assert forall|i: int, j: int| 0 <= i < j < sv.len() implies span_before(#[trigger] sv[i], #[trigger] sv[j]) by {
        assert(sv[i] == ranked[i] && sv[j] == ranked[j]);
    }
    assert forall|k: int| 0 <= k < v.len() implies (#[trigger] v[k]).text@ == ex.context@.subrange(
        v[k].start_char as int,
        v[k].end_char as int,
    ) by {
        assert(scored(v[k]) == ranked[k]);
    }
}


/// Every answer reported is a non-empty piece of the context, copied character for
/// character, that neither begins nor ends on whitespace.
pub proof fn lemma_answer_text_verbatim(
    ex: QaExample,
    fs: Seq<QaFeature>,
    ds: Seq<DecodedWindow>,
    n_best: nat,
    threshold: int,
    r: Prediction,
    k: int,
)
    requires
        ex.wf(),
        aggregate_ok(ex, fs, ds, n_best, threshold, r),
        r matches Prediction::Answers(v) && 0 <= k < v@.len(),
    ensures
        r matches Prediction::Answers(v) && {
            let a = v@[k];
            &&& a.start_char < a.end_char <= ex.context@.len()
            &&& a.text@ == ex.context@.subrange(a.start_char as int, a.end_char as int)
            &&& !is_ws(a.text@[0])
            &&& !is_ws(a.text@[a.text@.len() - 1])
        },
{
    let v = r->Answers_0@;
    let sv = v.map_values(|a: Answer| scored(a));
    assert(sv[k] == scored(v[k]));
    assert(pool_has(ex, fs, ds, sv[k]));
    lemma_pool_text_in_context(ex, fs, ds, scored(v[k]));
}

/// Raising the no-answer threshold can turn a no-answer outcome into answers, never
/// answers into a no-answer outcome.
pub proof fn lemma_threshold_monotone(
    ex: QaExample,
    fs: Seq<QaFeature>,
    ds: Seq<DecodedWindow>,
    n_best: nat,
    low: int,
    high: int,
    r_low: Prediction,
    r_high: Prediction,
)
    requires
        low <= high,
        aggregate_ok(ex, fs, ds, n_best, low, r_low),
        aggregate_ok(ex, fs, ds, n_best, high, r_high),
    ensures
        r_low is Answers ==> r_high is Answers,
        r_high is NoAnswer ==> r_low is NoAnswer,
{
}

/// Aggregating the same candidates with the same settings twice gives the same
/// outcome: the same answers, in the same order, with the same texts.
pub proof fn lemma_aggregate_deterministic(
    ex: QaExample,
    fs: Seq<QaFeature>,
    ds: Seq<DecodedWindow>,
    n_best: nat,
    threshold: int,
    r1: Prediction,
    r2: Prediction,
)
    requires
        aggregate_ok(ex, fs, ds, n_best, threshold, r1),
        aggregate_ok(ex, fs, ds, n_best, threshold, r2),
    ensures
        r1 is NoAnswer ==> r1 == r2,
        r1 matches Prediction::Answers(v1) ==> r2 matches Prediction::Answers(v2) && v1@.len() == v2@.len()
            && forall|k: int|
            0 <= k < v1@.len() ==> scored(#[trigger] v1@[k]) == scored(v2@[k]) && v1@[k].text@ == v2@[k].text@,
{
    if r1 is Answers {
        let v1 = r1->Answers_0@;
        let v2 = r2->Answers_0@;
        let pool = |x: ScoredSpan| pool_has(ex, fs, ds, x);
        let s1 = v1.map_values(|a: Answer| scored(a));
        let s2 = v2.map_values(|a: Answer| scored(a));
        lemma_same_top(pool, n_best, s1, s2);
        lemma_same_top(pool, n_best, s2, s1);
        assert forall|k: int| 0 <= k < v1.len() implies scored(#[trigger] v1[k]) == scored(v2[k]) && v1[k].text@
            == v2[k].text@ by {
            assert(s1[k] == scored(v1[k]) && s2[k] == scored(v2[k]));
        }
    }
}

/// `x` is an entry of `pool`.
pub open spec fn entry_of(pool: spec_fn(ScoredSpan) -> bool, x: ScoredSpan) -> bool {
    pool(x)
}

/// `v` is the list of the `n_best` best entries of `pool`, one per range, best first.
pub open spec fn top_of(pool: spec_fn(ScoredSpan) -> bool, n_best: nat, v: Seq<ScoredSpan>) -> bool {
    &&& v.len() <= n_best
    &&& spans_ranked(v)
    &&& forall|k: int| 0 <= k < v.len() ==> pool(#[trigger] v[k])
    &&& forall|k: int, x: ScoredSpan|
        0 <= k < v.len() && #[trigger] entry_of(pool, x) && x.start_char == (#[trigger] v[k]).start_char && x.end_char
            == v[k].end_char ==> x.score <= v[k].score
    &&& forall|x: ScoredSpan|
        #[trigger] entry_of(pool, x) ==> (exists|k: int|
            0 <= k < v.len() && (#[trigger] v[k]).start_char == x.start_char && v[k].end_char == x.end_char) || (
        v.len() == n_best && (n_best == 0 || span_before(v[n_best - 1], x)))
}

/// `v1` agrees with `v2` on every position both have, and is no longer than `v2`.
proof fn lemma_same_top(pool: spec_fn(ScoredSpan) -> bool, n_best: nat, v1: Seq<ScoredSpan>, v2: Seq<ScoredSpan>)
    requires
        top_of(pool, n_best, v1),
        top_of(pool, n_best, v2),
    ensures
        v1.len() <= v2.len(),
        forall|k: int| 0 <= k < v1.len() && k < v2.len() ==> #[trigger] v1[k] == v2[k],
{
    assert forall|k: int| 0 <= k < v1.len() && k < v2.len() implies #[trigger] v1[k] == v2[k] by {
        lemma_same_at(pool, n_best, v1, v2, k);
    }
    if v1.len() > v2.len() {
        let k = v2.len() as int;
        let a = v1[k];
        assert(entry_of(pool, a));
        if exists|j: int| 0 <= j < v2.len() && (#[trigger] v2[j]).start_char == a.start_char && v2[j].end_char == a.end_char {
            let j = choose|j: int| 0 <= j < v2.len() && (#[trigger] v2[j]).start_char == a.start_char && v2[j].end_char == a.end_char;
            lemma_same_at(pool, n_best, v1, v2, j);
            assert(entry_of(pool, v2[j]));
            assert(a.score <= v2[j].score);
            assert(v2[j].score <= a.score);
            assert(span_before(v1[j], v1[k]));
        }
    }
}

/// Position `k` of two such lists holds the same entry.
proof fn lemma_same_at(pool: spec_fn(ScoredSpan) -> bool, n_best: nat, v1: Seq<ScoredSpan>, v2: Seq<ScoredSpan>, k: int)
    requires
        top_of(pool, n_best, v1),
        top_of(pool, n_best, v2),
        0 <= k < v1.len(),
        k < v2.len(),
    ensures
        v1[k] == v2[k],
    decreases k,
{
    assert forall|j: int| 0 <= j < k implies #[trigger] v1[j] == v2[j] by {
        lemma_same_at(pool, n_best, v1, v2, j);
    }
    if v1[k] != v2[k] {
        lemma_not_before(pool, n_best, v1, v2, k);
        lemma_not_before(pool, n_best, v2, v1, k);
    }
}

/// When the two lists agree before `k`, the entry of `v1` at `k` does not rank
/// before the one of `v2` at `k`.
proof fn lemma_not_before(pool: spec_fn(ScoredSpan) -> bool, n_best: nat, v1: Seq<ScoredSpan>, v2: Seq<ScoredSpan>, k: int)
    requires
        top_of(pool, n_best, v1),
        top_of(pool, n_best, v2),
        0 <= k < v1.len(),
        k < v2.len(),
        forall|j: int| 0 <= j < k ==> #[trigger] v1[j] == v2[j],
    ensures
        !span_before(v1[k], v2[k]),
{
    let a = v1[k];
    let b = v2[k];
    if span_before(a, b) {
        assert(entry_of(pool, a));
        if exists|j: int| 0 <= j < v2.len() && (#[trigger] v2[j]).start_char == a.start_char && v2[j].end_char == a.end_char {
            let j = choose|j: int| 0 <= j < v2.len() && (#[trigger] v2[j]).start_char == a.start_char && v2[j].end_char == a.end_char;
            assert(entry_of(pool, v2[j]));
            assert(a.score <= v2[j].score);
            assert(v2[j].score <= a.score);
            if j < k {
                assert(v1[j] == v2[j]);
                assert(span_before(v1[j], v1[k]));
            } else if j > k {
                assert(span_before(v2[k], v2[j]));
            }
        } else {
            let n = n_best as int;
            if k < n - 1 {
                assert(span_before(v2[k], v2[n - 1]));
            }
        }
    }
}

} // verus!
