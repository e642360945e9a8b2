use vstd::prelude::*;

verus! {

/// The sub-tokens of all doc tokens, one after the other.
pub open spec fn flat_ids(d: Seq<Seq<u32>>) -> Seq<u32>
    decreases d.len(),
{
    if d.len() == 0 {
        seq![]
    } else {
        flat_ids(d.drop_last()) + d.last()
    }
}

/// For each sub-token of `flat_ids(d)`, the doc token it came from.
pub open spec fn flat_owners(d: Seq<Seq<u32>>) -> Seq<usize>
    decreases d.len(),
{
    if d.len() == 0 {
        seq![]
    } else {
        flat_owners(d.drop_last()) + Seq::new(d.last().len(), |j: int| (d.len() - 1) as usize)
    }
}

pub open spec fn nested_view(d: Seq<Vec<u32>>) -> Seq<Seq<u32>> {
    d.map_values(|v: Vec<u32>| v@)
}

pub open spec fn spans_view(d: Seq<DocSpan>) -> Seq<(nat, nat)> {
    d.map_values(|x: DocSpan| (x.start as nat, x.length as nat))
}

/// One window over the flat sub-token sequence: `length` sub-tokens from `start`.
#[derive(Clone, Copy, Debug, PartialEq, Eq, Structural)]
pub struct DocSpan {
    pub start: usize,
    pub length: usize,
}

/// The windows laid from `start` on over `n` sub-tokens, each at most `budget`
/// long, each starting `step` after the previous one; the last ends exactly at `n`.
pub open spec fn spans_from(start: nat, n: nat, budget: nat, step: nat) -> Seq<(nat, nat)>
    decreases n - start,
{
    if step == 0 || step > budget || start > n {
        seq![]
    } else if start + budget >= n {
        seq![(start, (n - start) as nat)]
    } else {
        seq![(start, budget)].add(
            spans_from(start + step, n, budget, step),
        )
    }
}

/// The windows of a context of `n` sub-tokens.
pub open spec fn window_spans(n: nat, budget: nat, stride: nat) -> Seq<(nat, nat)> {
    spans_from(0, n, budget, if stride < budget { stride } else { budget })
}

pub open spec fn span_contains(d: (nat, nat), t: int) -> bool {
    d.0 <= t < d.0 + d.1
}

/// Some window holds sub-token `t`.
pub open spec fn covers(spans: Seq<(nat, nat)>, t: int) -> bool {
    exists|i: int| 0 <= i < spans.len() && #[trigger] span_contains(spans[i], t)
}

/// How far sub-token `t` lies from the nearer edge of window `d`.
pub open spec fn edge_distance(d: (nat, nat), t: int) -> int {
    let left = t - d.0;
    let right = d.0 + d.1 - 1 - t;
    if left < right { left } else { right }
}

/// Window `w` is the one that sees sub-token `t` with the most context around it;
/// among equally good windows the earliest one wins.
pub open spec fn is_max_context(spans: Seq<(nat, nat)>, w: int, t: int) -> bool {
    &&& 0 <= w < spans.len()
    &&& span_contains(spans[w], t)
    &&& forall|v: int|
        0 <= v < spans.len() && #[trigger] span_contains(spans[v], t) ==> (v < w ==> edge_distance(
            spans[v],
            t,
        ) < edge_distance(spans[w], t)) && (v > w ==> edge_distance(spans[v], t) <= edge_distance(
            spans[w],
            t,
        ))
}

proof fn lemma_spans_from_facts(start: nat, n: nat, budget: nat, step: nat)
    requires
        1 <= step <= budget,
        start <= n,
    ensures
        spans_from(start, n, budget, step).len() >= 1,
        spans_from(start, n, budget, step)[0].0 == start,
        forall|i: int|
            0 <= i < spans_from(start, n, budget, step).len() ==> {
                let d = #[trigger] spans_from(start, n, budget, step)[i];
                &&& start <= d.0
                &&& d.0 + d.1 <= n
                &&& d.1 <= budget
                &&& (d.1 == budget || d.0 + d.1 == n)
            },
        forall|t: int| start <= t < n ==> #[trigger] covers(spans_from(start, n, budget, step), t),
    decreases n - start,
{
    if start + budget < n {
        lemma_spans_from_facts(start + step, n, budget, step);
        let rest = spans_from(start + step, n, budget, step);
        let all = spans_from(start, n, budget, step);
        assert(all =~= seq![(start, budget)].add(rest));
        assert forall|i: int| 0 <= i < all.len() implies {
            let d = #[trigger] all[i];
            &&& start <= d.0
            &&& d.0 + d.1 <= n
            &&& d.1 <= budget
            &&& (d.1 == budget || d.0 + d.1 == n)
        } by {
            if i > 0 {
                assert(all[i] == rest[i - 1]);
            }
        }
        assert forall|t: int| start <= t < n implies #[trigger] covers(all, t) by {
            if t < start + budget {
                assert(span_contains(all[0], t));
            } else {
                assert(covers(rest, t));
                let j = choose|j: int| 0 <= j < rest.len() && #[trigger] span_contains(rest[j], t);
                assert(all[j + 1] == rest[j]);
                assert(span_contains(all[j + 1], t));
            }
        }
    } else {
        assert forall|t: int| start <= t < n implies #[trigger] covers(spans_from(start, n, budget, step), t) by {
            assert(span_contains(spans_from(start, n, budget, step)[0], t));
        }
    }
}

/// Any context within one window's budget gets exactly one window, spanning all of
/// it, whatever the stride.
pub proof fn lemma_short_context_single_window(n: nat, budget: nat, stride_a: nat, stride_b: nat)
    requires
        n <= budget,
        budget >= 1,
        stride_a >= 1,
        stride_b >= 1,
    ensures
        window_spans(n, budget, stride_a) == seq![(0nat, n)],
        window_spans(n, budget, stride_a) == window_spans(n, budget, stride_b),
{
    if budget == 0 {
        assert(n == 0);
    }
}

/// Every sub-token of the context lies in some window, and exactly one window holds
/// it with maximal context.
pub proof fn lemma_windows_cover_with_unique_max(n: nat, budget: nat, stride: nat, t: int)
    requires
        budget >= 1,
        stride >= 1,
        0 <= t < n,
    ensures
        covers(window_spans(n, budget, stride), t),
        exists|w: int| is_max_context(window_spans(n, budget, stride), w, t),
        forall|w1: int, w2: int|
            is_max_context(window_spans(n, budget, stride), w1, t) && is_max_context(
                window_spans(n, budget, stride),
                w2,
                t,
            ) ==> w1 == w2,
{
    let step = if stride < budget { stride } else { budget };
    lemma_spans_from_facts(0, n, budget, step);
    let spans = window_spans(n, budget, stride);
    assert(covers(spans, t));
    let w = max_context_witness(spans, t, spans.len() as int);
    assert(is_max_context(spans, w, t)) by {
        assert forall|v: int| 0 <= v < spans.len() && #[trigger] span_contains(spans[v], t) implies
            (v < w ==> edge_distance(spans[v], t) < edge_distance(spans[w], t)) && (v > w
            ==> edge_distance(spans[v], t) <= edge_distance(spans[w], t)) by {
            assert(no_better(spans, t, w, v));
        }
    }
    assert forall|w1: int, w2: int|
        is_max_context(spans, w1, t) && is_max_context(spans, w2, t) implies w1 == w2 by {
        if w1 < w2 {
            assert(span_contains(spans[w1], t));
        } else if w2 < w1 {
            assert(span_contains(spans[w2], t));
        }
    }
}

proof fn lemma_flat_lengths(d: Seq<Seq<u32>>)
    ensures
        flat_ids(d).len() == flat_owners(d).len(),
        forall|j: int| 0 <= j < flat_owners(d).len() ==> #[trigger] flat_owners(d)[j] < d.len(),
    decreases d.len(),
{
    if d.len() > 0 {
        lemma_flat_lengths(d.drop_last());
        let o = flat_owners(d);
        assert forall|j: int| 0 <= j < o.len() implies #[trigger] o[j] < d.len() by {
            if j < flat_owners(d.drop_last()).len() {
                assert(o[j] == flat_owners(d.drop_last())[j]);
            }
        }
    }
}

/// Lays out the sub-tokens of every doc token in order, remembering each one's doc token.
/// A doc token without sub-tokens contributes nothing.
pub fn flatten_sub_tokens(doc_sub_tokens: &Vec<Vec<u32>>) -> (r: (Vec<u32>, Vec<usize>))
    ensures
        r.0@ == flat_ids(nested_view(doc_sub_tokens@)),
        r.1@ == flat_owners(nested_view(doc_sub_tokens@)),
{
    let ghost d = nested_view(doc_sub_tokens@);
    let mut ids: Vec<u32> = Vec::new();
    let mut owners: Vec<usize> = Vec::new();
    let mut i: usize = 0;
    while i < doc_sub_tokens.len()
        invariant
            i <= doc_sub_tokens@.len(),
            d == nested_view(doc_sub_tokens@),
            ids@ == flat_ids(d.take(i as int)),
            owners@ == flat_owners(d.take(i as int)),
        decreases doc_sub_tokens@.len() - i,
    {
        let sub = &doc_sub_tokens[i];
        let mut j: usize = 0;
        while j < sub.len()
            invariant
                i < doc_sub_tokens@.len(),
                d == nested_view(doc_sub_tokens@),
                sub@ == d[i as int],
                j <= sub@.len(),
                ids@ == flat_ids(d.take(i as int)) + sub@.take(j as int),
                owners@ == flat_owners(d.take(i as int)) + Seq::new(j as nat, |k: int| i),
            decreases sub@.len() - j,
        {
            ids.push(sub[j]);
            owners.push(i);
            j = j + 1;
            assert(ids@ =~= flat_ids(d.take(i as int)) + sub@.take(j as int));
            assert(owners@ =~= flat_owners(d.take(i as int)) + Seq::new(j as nat, |k: int| i));
        }
        assert(d.take(i + 1).drop_last() =~= d.take(i as int));
        assert(sub@.take(j as int) =~= sub@);
        assert(ids@ =~= flat_ids(d.take(i + 1)));
        assert(owners@ =~= flat_owners(d.take(i + 1)));
        i = i + 1;
    }
    assert(d.take(i as int) =~= d);
    (ids, owners)
}

/// The windows of a context of `n` sub-tokens: at most `budget` sub-tokens each, the
/// next one starting `stride` further (never more than `budget`), the last one ending at `n`.
pub fn doc_spans(n: usize, budget: usize, stride: usize) -> (r: Vec<DocSpan>)
    requires
        budget >= 1,
        stride >= 1,
    ensures
        spans_view(r@) == window_spans(n as nat, budget as nat, stride as nat),
{
    let step = if stride < budget { stride } else { budget };
    let mut r: Vec<DocSpan> = Vec::new();
    let mut start: usize = 0;
    loop
        invariant
            1 <= step <= budget,
            step as nat == if stride < budget { stride as nat } else { budget as nat },
            start <= n,
            spans_view(r@) + spans_from(start as nat, n as nat, budget as nat, step as nat)
                == window_spans(n as nat, budget as nat, stride as nat),
        ensures
            spans_view(r@) == window_spans(n as nat, budget as nat, stride as nat),
        decreases n - start,
    {
        let ghost before = r@;
        if n - start <= budget {
            r.push(DocSpan { start: start, length: n - start });
            assert(spans_view(r@) =~= spans_view(before) + spans_from(
                start as nat,
                n as nat,
                budget as nat,
                step as nat,
            ));
            return r;
        }
        r.push(DocSpan { start: start, length: budget });
        let ghost rest = spans_from((start + step) as nat, n as nat, budget as nat, step as nat);
        assert(spans_view(r@) + rest =~= spans_view(before) + spans_from(
            start as nat,
            n as nat,
            budget as nat,
            step as nat,
        ));
        start = start + step;
    }
}

/// Window `w` sees sub-token `t` at least as well as window `v`, the earlier one
/// winning ties.
pub open spec fn no_better(spans: Seq<(nat, nat)>, t: int, w: int, v: int) -> bool {
    &&& (v < w ==> edge_distance(spans[v], t) < edge_distance(spans[w], t))
    &&& (v > w ==> edge_distance(spans[v], t) <= edge_distance(spans[w], t))
}

/// Window `w` is the best of the first `k` windows for sub-token `t`.
pub open spec fn best_among(spans: Seq<(nat, nat)>, t: int, w: int, k: int) -> bool {
    &&& 0 <= w < k
    &&& span_contains(spans[w], t)
    &&& forall|v: int| 0 <= v < k && #[trigger] span_contains(spans[v], t) ==> no_better(spans, t, w, v)
}

/// A best window among the first `k` that hold `t`.
proof fn max_context_witness(spans: Seq<(nat, nat)>, t: int, k: int) -> (w: int)
    requires
        0 <= k <= spans.len(),
        exists|i: int| 0 <= i < k && #[trigger] span_contains(spans[i], t),
    ensures
        best_among(spans, t, w, k),
    decreases k,
{
    if exists|i: int| 0 <= i < k - 1 && #[trigger] span_contains(spans[i], t) {
        let b = max_context_witness(spans, t, k - 1);
        if span_contains(spans[k - 1], t) && edge_distance(spans[k - 1], t) > edge_distance(spans[b], t) {
            assert forall|v: int| 0 <= v < k && #[trigger] span_contains(spans[v], t) implies no_better(spans, t, k - 1, v) by {
                if v < k - 1 {
                    assert(no_better(spans, t, b, v));
                }
            }
            k - 1
        } else {
            assert forall|v: int| 0 <= v < k && #[trigger] span_contains(spans[v], t) implies no_better(spans, t, b, v) by {
                if v < k - 1 {
                    assert(no_better(spans, t, b, v));
                }
            }
            b
        }
    } else {
        let w = choose|i: int| 0 <= i < k && #[trigger] span_contains(spans[i], t);
        assert forall|v: int| 0 <= v < k && #[trigger] span_contains(spans[v], t) implies v == w by {
            if v < k - 1 {
                assert(span_contains(spans[v], t));
            }
        }
        w
    }
}


/// Sizes that shape the windows.
#[derive(Clone, Copy, Debug, PartialEq, Eq, Structural)]
pub struct WindowConfig {
    pub max_seq_len: usize,
    pub doc_stride: usize,
    pub max_query_length: usize,
}

/// Ids of the classifier, separator and padding tokens.
#[derive(Clone, Copy, Debug, PartialEq, Eq, Structural)]
pub struct SpecialTokens {
    pub cls: u32,
    pub sep: u32,
    pub pad: u32,
}

/// Why no window could be laid over an example.
#[derive(Clone, Copy, Debug, PartialEq, Eq, Structural)]
pub enum WindowError {
    /// The stride is zero, or the sequence length leaves no room for context
    /// beside the question and the three special tokens.
    Configuration,
}

/// One window of an example, laid out as it is fed to the encoder.
#[derive(Clone, Debug, PartialEq, Eq)]
pub struct QaFeature {
    pub example_index: usize,
    pub doc_span_index: usize,
    pub doc_span: DocSpan,
    /// Position of the first context sub-token.
    pub context_offset: usize,
    pub cls_index: usize,
    pub input_ids: Vec<u32>,
    /// True where a position cannot bound an answer.
    pub p_mask: Vec<bool>,
    pub token_to_orig_map: Vec<Option<usize>>,
    pub token_is_max_context: Vec<bool>,
}

/// Number of question sub-tokens kept.
pub open spec fn kept_query_len(question_len: nat, max_query_length: nat) -> nat {
    if question_len < max_query_length { question_len } else { max_query_length }
}

/// Room for context in a window, when there is any.
pub open spec fn context_budget(max_seq_len: nat, kept: nat) -> int {
    max_seq_len - kept - 3
}

pub open spec fn is_context_pos(qlen: nat, d: (nat, nat), p: int) -> bool {
    qlen + 2 <= p < qlen + 2 + d.1
}

/// The token at position `p` of the window `[CLS] question [SEP] context [SEP] padding`.
pub open spec fn window_token(
    q: Seq<u32>,
    all: Seq<u32>,
    d: (nat, nat),
    sp: SpecialTokens,
    p: int,
) -> u32 {
    let off = q.len() + 2;
    if p == 0 {
        sp.cls
    } else if p <= q.len() {
        q[p - 1]
    } else if p == q.len() + 1 {
        sp.sep
    } else if p < off + d.1 {
        all[d.0 + p - off]
    } else if p == off + d.1 {
        sp.sep
    } else {
        sp.pad
    }
}

/// Position `p` of a window holds what window `w` puts there.
pub open spec fn position_matches(
    q: Seq<u32>,
    all: Seq<u32>,
    owners: Seq<usize>,
    spans: Seq<(nat, nat)>,
    w: int,
    sp: SpecialTokens,
    ids: Seq<u32>,
    mask: Seq<bool>,
    orig: Seq<Option<usize>>,
    max_ctx: Seq<bool>,
    p: int,
) -> bool {
    let d = spans[w];
    let ctx = is_context_pos(q.len(), d, p);
    &&& ids[p] == window_token(q, all, d, sp, p)
    &&& mask[p] == !ctx
    &&& orig[p] == (if ctx { Some(owners[d.0 + p - q.len() - 2]) } else { None })
    &&& max_ctx[p] == (ctx && is_max_context(spans, w, d.0 + p - q.len() - 2))
}

/// `f` is window `w` of `spans` over sub-tokens `all` (owned by doc tokens `owners`),
/// after the kept question `q`, padded to `len` positions.
pub open spec fn is_window_feature(
    f: QaFeature,
    example_index: usize,
    q: Seq<u32>,
    all: Seq<u32>,
    owners: Seq<usize>,
    spans: Seq<(nat, nat)>,
    w: int,
    sp: SpecialTokens,
    len: nat,
) -> bool {
    let d = spans[w];
    &&& f.example_index == example_index
    &&& f.doc_span_index == w
    &&& f.doc_span.start == d.0 && f.doc_span.length == d.1
    &&& f.context_offset == q.len() + 2
    &&& f.cls_index == 0
    &&& f.input_ids@.len() == len
    &&& f.p_mask@.len() == len
    &&& f.token_to_orig_map@.len() == len
    &&& f.token_is_max_context@.len() == len
    &&& forall|p: int|
        0 <= p < len ==> #[trigger] position_matches(
            q,
            all,
            owners,
            spans,
            w,
            sp,
            f.input_ids@,
            f.p_mask@,
            f.token_to_orig_map@,
            f.token_is_max_context@,
            p,
        )
}

/// Whether window `w` holds sub-token `t` with maximal context.
pub fn max_context_flag(spans: &Vec<DocSpan>, w: usize, t: usize) -> (r: bool)
    requires
        w < spans@.len(),
        forall|i: int| 0 <= i < spans@.len() ==> (#[trigger] spans@[i]).start + spans@[i].length <= usize::MAX,
    ensures
        r == is_max_context(spans_view(spans@), w as int, t as int),
{
    let ghost sv = spans_view(spans@);
    let dw = spans[w];
    assert(sv[w as int] == (dw.start as nat, dw.length as nat));
    if !(dw.start <= t && t < dw.start + dw.length) {
        return false;
    }
    let mine = distance_to_edge(dw, t);
    let mut v: usize = 0;
    while v < spans.len()
        invariant
            w < spans@.len(),
            sv == spans_view(spans@),
            v <= spans@.len(),
            span_contains(sv[w as int], t as int),
            mine == edge_distance(sv[w as int], t as int),
            forall|i: int| 0 <= i < spans@.len() ==> (#[trigger] spans@[i]).start + spans@[i].length <= usize::MAX,
            forall|u: int|
                0 <= u < v && #[trigger] span_contains(sv[u], t as int) ==> (u < w ==> edge_distance(
                    sv[u],
                    t as int,
                ) < edge_distance(sv[w as int], t as int)) && (u > w ==> edge_distance(sv[u], t as int)
                    <= edge_distance(sv[w as int], t as int)),
        decreases spans@.len() - v,
    {
        let dv = spans[v];
        assert(sv[v as int] == (dv.start as nat, dv.length as nat));
        if dv.start <= t && t < dv.start + dv.length {
            assert(span_contains(sv[v as int], t as int));
            let other = distance_to_edge(dv, t);
            if (v < w && other >= mine) || (v > w && other > mine) {
                return false;
            }
        }
        v = v + 1;
    }
    true
}

fn distance_to_edge(d: DocSpan, t: usize) -> (r: usize)
    requires
        d.start <= t < d.start + d.length,
        d.start + d.length <= usize::MAX,
    ensures
        r == edge_distance((d.start as nat, d.length as nat), t as int),
{
    let left = t - d.start;
    let right = d.start + d.length - 1 - t;
    if left < right { left } else { right }
}

/// Lays out window `w`: `[CLS] question [SEP] context [SEP]`, padded to `len`.
fn build_feature(
    example_index: usize,
    q: &Vec<u32>,
    all: &Vec<u32>,
    owners: &Vec<usize>,
    spans: &Vec<DocSpan>,
    w: usize,
    sp: SpecialTokens,
    len: usize,
) -> (f: QaFeature)
    requires
        w < spans@.len(),
        all@.len() == owners@.len(),
        forall|i: int| 0 <= i < spans@.len() ==> (#[trigger] spans@[i]).start + spans@[i].length <= all@.len(),
        q@.len() + 3 + spans@[w as int].length <= len,
    ensures
        is_window_feature(f, example_index, q@, all@, owners@, spans_view(spans@), w as int, sp, len as nat),
{
    let ghost sv = spans_view(spans@);
    let n_all = all.len();
    let d = spans[w];
    let qn = q.len();
    let off = qn + 2;
    let mut input_ids: Vec<u32> = Vec::new();
    let mut p_mask: Vec<bool> = Vec::new();
    let mut orig: Vec<Option<usize>> = Vec::new();
    let mut max_ctx: Vec<bool> = Vec::new();
    let mut p: usize = 0;
    while p < len
        invariant
            w < spans@.len(),
            sv == spans_view(spans@),
            d == spans@[w as int],
            qn == q@.len(),
            off == qn + 2,
            all@.len() == owners@.len(),
            n_all == all@.len(),
            forall|i: int| 0 <= i < spans@.len() ==> (#[trigger] spans@[i]).start + spans@[i].length <= all@.len(),
            q@.len() + 3 + d.length <= len,
            p <= len,
            input_ids@.len() == p,
            p_mask@.len() == p,
            orig@.len() == p,
            max_ctx@.len() == p,
            forall|k: int|
                0 <= k < p ==> #[trigger] position_matches(
                    q@,
                    all@,
                    owners@,
                    sv,
                    w as int,
                    sp,
                    input_ids@,
                    p_mask@,
                    orig@,
                    max_ctx@,
                    k,
                ),
        decreases len - p,
    {
        assert(sv[w as int] == (d.start as nat, d.length as nat));
        let ghost (i0, m0, o0, x0) = (input_ids@, p_mask@, orig@, max_ctx@);
        if off <= p && p < off + d.length {
            assert(spans@[w as int].start + spans@[w as int].length <= all@.len());
            let t = d.start + (p - off);
            input_ids.push(all[t]);
            p_mask.push(false);
            orig.push(Some(owners[t]));
            let flag = max_context_flag(spans, w, t);
            max_ctx.push(flag);
        } else {
            let tok = if p == 0 {
                sp.cls
            } else if p <= qn {
                q[p - 1]
            } else if p == qn + 1 {
                sp.sep
            } else if p == off + d.length {
                sp.sep
            } else {
                sp.pad
            };
            input_ids.push(tok);
            p_mask.push(true);
            orig.push(None);
            max_ctx.push(false);
        }
        assert(input_ids@.drop_last() =~= i0 && p_mask@.drop_last() =~= m0);
        assert(orig@.drop_last() =~= o0 && max_ctx@.drop_last() =~= x0);
        let ghost k = p as int;
        assert(position_matches(q@, all@, owners@, sv, w as int, sp, input_ids@, p_mask@, orig@, max_ctx@, k));
        assert forall|j: int| 0 <= j < k implies #[trigger] position_matches(
            q@,
            all@,
            owners@,
            sv,
            w as int,
            sp,
            input_ids@,
            p_mask@,
            orig@,
            max_ctx@,
            j,
        ) by {
            assert(position_matches(q@, all@, owners@, sv, w as int, sp, i0, m0, o0, x0, j));
            assert(input_ids@[j] == i0[j] && p_mask@[j] == m0[j]);
            assert(orig@[j] == o0[j] && max_ctx@[j] == x0[j]);
        }
        p = p + 1;
    }
    QaFeature {
        example_index: example_index,
        doc_span_index: w,
        doc_span: d,
        context_offset: off,
        cls_index: 0,
        input_ids: input_ids,
        p_mask: p_mask,
        token_to_orig_map: orig,
        token_is_max_context: max_ctx,
    }
}


/// Lays every window over the example whose doc tokens have the sub-tokens
/// `doc_sub_tokens`, after the question's sub-tokens `question_ids` (of which at
/// most `max_query_length` are kept).
pub fn generate_features(
    example_index: usize,
    doc_sub_tokens: &Vec<Vec<u32>>,
    question_ids: &Vec<u32>,
    config: WindowConfig,
    special: SpecialTokens,
) -> (r: Result<Vec<QaFeature>, WindowError>)
    ensures
        r is Err <== (config.doc_stride == 0 || context_budget(
            config.max_seq_len as nat,
            kept_query_len(question_ids@.len(), config.max_query_length as nat),
        ) < 1),
        r is Err ==> (config.doc_stride == 0 || context_budget(
            config.max_seq_len as nat,
            kept_query_len(question_ids@.len(), config.max_query_length as nat),
        ) < 1),
        r matches Ok(fs) ==> ({
            let kept = kept_query_len(question_ids@.len(), config.max_query_length as nat);
            let budget = context_budget(config.max_seq_len as nat, kept);
            let d = nested_view(doc_sub_tokens@);
            let spans = window_spans(flat_ids(d).len(), budget as nat, config.doc_stride as nat);
            &&& fs@.len() == spans.len()
            &&& forall|w: int|
                0 <= w < fs@.len() ==> is_window_feature(
                    #[trigger] fs@[w],
                    example_index,
                    question_ids@.take(kept as int),
                    flat_ids(d),
                    flat_owners(d),
                    spans,
                    w,
                    special,
                    config.max_seq_len as nat,
                )
        }),
{
    let kept = if question_ids.len() < config.max_query_length {
        question_ids.len()
    } else {
        config.max_query_length
    };
    if config.doc_stride == 0 || config.max_seq_len < kept || config.max_seq_len - kept < 4 {
        return Err(WindowError::Configuration);
    }
    let budget = config.max_seq_len - kept - 3;
    let mut q: Vec<u32> = Vec::new();
    let mut i: usize = 0;
    while i < kept
        invariant
            kept <= question_ids@.len(),
            i <= kept,
            q@ == question_ids@.take(i as int),
        decreases kept - i,
    {
        q.push(question_ids[i]);
        i = i + 1;
        assert(q@ =~= question_ids@.take(i as int));
    }
    let (all, owners) = flatten_sub_tokens(doc_sub_tokens);
    proof {
        lemma_flat_lengths(nested_view(doc_sub_tokens@));
    }
    let spans = doc_spans(all.len(), budget, config.doc_stride);
    let ghost sv = spans_view(spans@);
    let ghost step = if config.doc_stride < budget { config.doc_stride as nat } else { budget as nat };
    proof {
        lemma_spans_from_facts(0, all@.len(), budget as nat, step);
        assert forall|k: int| 0 <= k < spans@.len() implies (#[trigger] spans@[k]).start
            + spans@[k].length <= all@.len() && spans@[k].length <= budget by {
            assert(sv[k] == (spans@[k].start as nat, spans@[k].length as nat));
        }
    }
    let mut features: Vec<QaFeature> = Vec::new();
    let mut w: usize = 0;
    while w < spans.len()
        invariant
            sv == spans_view(spans@),
            q@ == question_ids@.take(kept as int),
            q@.len() == kept,
            budget + kept + 3 == config.max_seq_len,
            all@.len() == owners@.len(),
            forall|k: int| 0 <= k < spans@.len() ==> (#[trigger] spans@[k]).start + spans@[k].length
                <= all@.len() && spans@[k].length <= budget,
            w <= spans@.len(),
            features@.len() == w,
            forall|k: int|
                0 <= k < w ==> is_window_feature(
                    #[trigger] features@[k],
                    example_index,
                    q@,
                    all@,
                    owners@,
                    sv,
                    k,
                    special,
                    config.max_seq_len as nat,
                ),
        decreases spans@.len() - w,
    {
        let f = build_feature(example_index, &q, &all, &owners, &spans, w, special, config.max_seq_len);
        features.push(f);
        w = w + 1;
    }
    Ok(features)
}

} // verus!
