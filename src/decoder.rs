use vstd::prelude::*;
use crate::windows::QaFeature;

verus! {

/// A possible answer inside one window: boundary positions and their logits.
#[derive(Clone, Copy, Debug, PartialEq, Eq, Structural)]
pub struct CandidateSpan {
    pub feature_index: usize,
    pub start: usize,
    pub end: usize,
    pub start_score: i32,
    pub end_score: i32,
}

impl CandidateSpan {
    pub open spec fn score_spec(&self) -> int {
        self.start_score + self.end_score
    }

    /// The span's combined score.
    pub fn score(&self) -> (r: i64)
        ensures
            r == self.score_spec(),
    {
        self.start_score as i64 + self.end_score as i64
    }
}

/// What one window yields: its candidates, best first, and its no-answer score.
#[derive(Clone, Debug, PartialEq, Eq)]
pub struct DecodedWindow {
    pub candidates: Vec<CandidateSpan>,
    pub null_score: i64,
}

/// Position `i` may be picked as a boundary: a context position, or the no-answer position.
pub open spec fn eligible(mask: Seq<bool>, cls: int, i: int) -> bool {
    0 <= i < mask.len() && (!mask[i] || i == cls)
}

/// Eligible position `j` ranks above position `i` by logit, the earlier one winning ties.
pub open spec fn outranks(logits: Seq<i32>, mask: Seq<bool>, cls: int, j: int, i: int) -> bool {
    eligible(mask, cls, j) && (logits[j] > logits[i] || (logits[j] == logits[i] && j < i))
}

/// How many of the positions before `m` outrank `i`.
pub open spec fn rank_upto(logits: Seq<i32>, mask: Seq<bool>, cls: int, i: int, m: int) -> nat
    decreases m,
{
    if m <= 0 {
        0
    } else {
        rank_upto(logits, mask, cls, i, m - 1) + if outranks(logits, mask, cls, m - 1, i) {
            1nat
        } else {
            0nat
        }
    }
}

/// Position `i` is among the `k` eligible positions with the largest logits.
pub open spec fn in_top_k(logits: Seq<i32>, mask: Seq<bool>, cls: int, k: nat, i: int) -> bool {
    eligible(mask, cls, i) && rank_upto(logits, mask, cls, i, mask.len() as int) < k
}

/// `(s, e)` bounds an admissible answer of window `f`.
pub open spec fn valid_pair(
    f: QaFeature,
    start_logits: Seq<i32>,
    end_logits: Seq<i32>,
    top_k: nat,
    max_answer_length: nat,
    s: int,
    e: int,
) -> bool {
    let mask = f.p_mask@;
    let cls = f.cls_index as int;
    &&& in_top_k(start_logits, mask, cls, top_k, s)
    &&& in_top_k(end_logits, mask, cls, top_k, e)
    &&& !mask[s]
    &&& !mask[e]
    &&& s <= e
    &&& e - s + 1 <= max_answer_length
    &&& f.token_is_max_context@[s]
}

/// `a` comes before `b`: higher score first, then earlier start, then earlier end.
pub open spec fn ranks_before(a: CandidateSpan, b: CandidateSpan) -> bool {
    ||| a.score_spec() > b.score_spec()
    ||| (a.score_spec() == b.score_spec() && a.start < b.start)
    ||| (a.score_spec() == b.score_spec() && a.start == b.start && a.end < b.end)
}

pub open spec fn strictly_ranked(v: Seq<CandidateSpan>) -> bool {
    forall|i: int, j: int| 0 <= i < j < v.len() ==> ranks_before(#[trigger] v[i], #[trigger] v[j])
}

/// For every position, whether it is among the `k` eligible positions with the largest logits.
pub fn top_k_flags(logits: &Vec<i32>, mask: &Vec<bool>, cls: usize, k: usize) -> (r: Vec<bool>)
    requires
        logits@.len() == mask@.len(),
    ensures
        r@.len() == mask@.len(),
        forall|i: int| 0 <= i < r@.len() ==> #[trigger] r@[i] == in_top_k(logits@, mask@, cls as int, k as nat, i),
{
    let n = mask.len();
    let mut r: Vec<bool> = Vec::new();
    let mut i: usize = 0;
    while i < n
        invariant
            n == mask@.len(),
            logits@.len() == n,
            i <= n,
            r@.len() == i,
            forall|x: int| 0 <= x < i ==> #[trigger] r@[x] == in_top_k(logits@, mask@, cls as int, k as nat, x),
        decreases n - i,
    {
        let mut flag = false;
        if !mask[i] || i == cls {
            let mut count: usize = 0;
            let mut j: usize = 0;
            while j < n
                invariant
                    n == mask@.len(),
                    logits@.len() == n,
                    i < n,
                    j <= n,
                    count == rank_upto(logits@, mask@, cls as int, i as int, j as int),
                    count <= j,
                decreases n - j,
            {
                if (!mask[j] || j == cls) && (logits[j] > logits[i] || (logits[j] == logits[i] && j < i)) {
                    count = count + 1;
                }
                j = j + 1;
            }
            flag = count < k;
        }
        r.push(flag);
        i = i + 1;
        assert(r@[i - 1] == in_top_k(logits@, mask@, cls as int, k as nat, i - 1));
    }
    r
}

/// Puts `c` in its place among the ranked candidates `v`, none of which shares its bounds.
fn insert_ranked(v: &mut Vec<CandidateSpan>, c: CandidateSpan)
    requires
        strictly_ranked(old(v)@),
        forall|i: int| 0 <= i < old(v)@.len() ==> #[trigger] old(v)@[i].score_spec() == c.score_spec() ==> (old(v)@[i].start != c.start || old(v)@[i].end != c.end),
    ensures
        strictly_ranked(final(v)@),
        final(v)@.len() == old(v)@.len() + 1,
        forall|x: CandidateSpan| final(v)@.contains(x) <==> (old(v)@.contains(x) || x == c),
{
    let ghost o = v@;
    let mut pos: usize = 0;
    let mut found = false;
    while pos < v.len() && !found
        invariant
            v@ == o,
            pos <= o.len(),
            found ==> pos < o.len() && ranks_before(c, o[pos as int]),
            forall|i: int| 0 <= i < pos ==> ranks_before(#[trigger] o[i], c),
            strictly_ranked(o),
            forall|i: int| 0 <= i < o.len() ==> #[trigger] o[i].score_spec() == c.score_spec() ==> (o[i].start != c.start || o[i].end != c.end),
        decreases o.len() - pos + if found { 0int } else { 1int },
    {
        let x = v[pos];
        let xs = x.score();
        let cs = c.score();
        let c_first = cs > xs || (cs == xs && c.start < x.start) || (cs == xs && c.start == x.start && c.end < x.end);
        if c_first {
            found = true;
        } else {
            assert(o[pos as int].score_spec() == c.score_spec() ==> (o[pos as int].start != c.start || o[pos as int].end != c.end));
            pos = pos + 1;
        }
    }
    v.insert(pos, c);
    proof {
        let nv = v@;
        assert(nv == o.insert(pos as int, c));
        assert forall|i: int, j: int| 0 <= i < j < nv.len() implies ranks_before(#[trigger] nv[i], #[trigger] nv[j]) by {
            if j < pos {
            } else if j == pos {
            } else if i < pos {
                assert(nv[j] == o[j - 1]);
            } else if i == pos {
                assert(nv[j] == o[j - 1]);
                if pos < j - 1 {
                    assert(ranks_before(o[pos as int], o[j - 1]));
                }
            } else {
                assert(nv[j] == o[j - 1] && nv[i] == o[i - 1]);
            }
        }
        assert forall|x: CandidateSpan| nv.contains(x) <==> (o.contains(x) || x == c) by {
            if nv.contains(x) {
                let i = choose|i: int| 0 <= i < nv.len() && nv[i] == x;
                if i < pos {
                    assert(o[i] == x);
                } else if i > pos {
                    assert(o[i - 1] == x);
                }
            }
            if o.contains(x) {
                let i = choose|i: int| 0 <= i < o.len() && o[i] == x;
                if i < pos {
                    assert(nv[i] == x);
                } else {
                    assert(nv[i + 1] == x);
                }
            }
            if x == c {
                assert(nv[pos as int] == x);
            }
        }
    }
}


/// Candidate `c` of window `feature_index` is one that `decode` must report.
pub open spec fn is_reported(
    f: QaFeature,
    feature_index: usize,
    start_logits: Seq<i32>,
    end_logits: Seq<i32>,
    top_k: nat,
    max_answer_length: nat,
    c: CandidateSpan,
) -> bool {
    &&& c.feature_index == feature_index
    &&& valid_pair(f, start_logits, end_logits, top_k, max_answer_length, c.start as int, c.end as int)
    &&& c.start_score == start_logits[c.start as int]
    &&& c.end_score == end_logits[c.end as int]
}

/// Extracts the admissible answer spans of window `f` from its logits, best first,
/// and the window's no-answer score.
pub fn decode(
    feature_index: usize,
    f: &QaFeature,
    start_logits: &Vec<i32>,
    end_logits: &Vec<i32>,
    top_k: usize,
    max_answer_length: usize,
) -> (r: DecodedWindow)
    requires
        start_logits@.len() == f.p_mask@.len(),
        end_logits@.len() == f.p_mask@.len(),
        f.token_is_max_context@.len() == f.p_mask@.len(),
        f.cls_index < f.p_mask@.len(),
    ensures
        r.null_score == start_logits@[f.cls_index as int] + end_logits@[f.cls_index as int],
        strictly_ranked(r.candidates@),
        forall|c: CandidateSpan|
            r.candidates@.contains(c) <==> is_reported(
                *f,
                feature_index,
                start_logits@,
                end_logits@,
                top_k as nat,
                max_answer_length as nat,
                c,
            ),
{
    let n = f.p_mask.len();
    let sf = top_k_flags(start_logits, &f.p_mask, f.cls_index, top_k);
    let ef = top_k_flags(end_logits, &f.p_mask, f.cls_index, top_k);
    let mut cands: Vec<CandidateSpan> = Vec::new();
    let mut s: usize = 0;
    while s < n
        invariant
            n == f.p_mask@.len(),
            start_logits@.len() == n,
            end_logits@.len() == n,
            f.token_is_max_context@.len() == n,
            sf@.len() == n,
            ef@.len() == n,
            forall|i: int| 0 <= i < n ==> #[trigger] sf@[i] == in_top_k(start_logits@, f.p_mask@, f.cls_index as int, top_k as nat, i),
            forall|i: int| 0 <= i < n ==> #[trigger] ef@[i] == in_top_k(end_logits@, f.p_mask@, f.cls_index as int, top_k as nat, i),
            s <= n,
            strictly_ranked(cands@),
            forall|c: CandidateSpan|
                cands@.contains(c) <==> (is_reported(*f, feature_index, start_logits@, end_logits@, top_k as nat, max_answer_length as nat, c) && c.start < s),
        decreases n - s,
    {
        let mut e: usize = 0;
        while e < n
            invariant
                n == f.p_mask@.len(),
                start_logits@.len() == n,
                end_logits@.len() == n,
                f.token_is_max_context@.len() == n,
                sf@.len() == n,
                ef@.len() == n,
                forall|i: int| 0 <= i < n ==> #[trigger] sf@[i] == in_top_k(start_logits@, f.p_mask@, f.cls_index as int, top_k as nat, i),
                forall|i: int| 0 <= i < n ==> #[trigger] ef@[i] == in_top_k(end_logits@, f.p_mask@, f.cls_index as int, top_k as nat, i),
                s < n,
                e <= n,
                strictly_ranked(cands@),
                forall|c: CandidateSpan|
                    cands@.contains(c) <==> (is_reported(*f, feature_index, start_logits@, end_logits@, top_k as nat, max_answer_length as nat, c) && (c.start < s || (c.start == s && c.end < e))),
            decreases n - e,
        {
            if sf[s] && ef[e] && !f.p_mask[s] && !f.p_mask[e] && s <= e && e - s < max_answer_length
                && f.token_is_max_context[s] {
                let c = CandidateSpan {
                    feature_index: feature_index,
                    start: s,
                    end: e,
                    start_score: start_logits[s],
                    end_score: end_logits[e],
                };
                let ghost before = cands@;
                proof {
                    assert forall|i: int| 0 <= i < before.len() implies #[trigger] before[i].score_spec() == c.score_spec() ==> (before[i].start != c.start || before[i].end != c.end) by {
                        assert(before.contains(before[i]));
                    }
                }
                insert_ranked(&mut cands, c);
                assert(is_reported(*f, feature_index, start_logits@, end_logits@, top_k as nat, max_answer_length as nat, c));
            }
            e = e + 1;
        }
        s = s + 1;
    }
    let cls = f.cls_index;
    DecodedWindow {
        candidates: cands,
        null_score: start_logits[cls] as i64 + end_logits[cls] as i64,
    }
}


/// A reported candidate never ends before it starts, is never longer than
/// `max_answer_length`, and both its bounds are context positions.
pub proof fn lemma_reported_span_bounds(
    f: QaFeature,
    feature_index: usize,
    start_logits: Seq<i32>,
    end_logits: Seq<i32>,
    top_k: nat,
    max_answer_length: nat,
    c: CandidateSpan,
)
    requires
        is_reported(f, feature_index, start_logits, end_logits, top_k, max_answer_length, c),
    ensures
        c.start <= c.end,
        c.end - c.start + 1 <= max_answer_length,
        !f.p_mask@[c.start as int],
        !f.p_mask@[c.end as int],
{
}

} // verus!
