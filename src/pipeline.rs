use vstd::prelude::*;
use crate::aggregate::{aggregate, aggregate_ok, Prediction};
use crate::decoder::{decode, is_reported, strictly_ranked, DecodedWindow};
use crate::example::QaExample;
use crate::windows::QaFeature;

verus! {

/// Settings of decoding and aggregation.
#[derive(Clone, Copy, Debug, PartialEq, Eq, Structural)]
pub struct AnswerConfig {
    pub top_k_per_window: usize,
    pub max_answer_length: usize,
    pub n_best: usize,
    pub null_score_diff_threshold: i64,
}

/// Window `f` has one start and one end logit per position.
pub open spec fn logits_fit(f: QaFeature, start_logits: Seq<i32>, end_logits: Seq<i32>) -> bool {
    &&& start_logits.len() == f.p_mask@.len()
    &&& end_logits.len() == f.p_mask@.len()
    &&& f.token_is_max_context@.len() == f.p_mask@.len()
    &&& f.cls_index < f.p_mask@.len()
}

/// Every window has a row of logits of its own length.
pub open spec fn all_logits_fit(fs: Seq<QaFeature>, start_logits: Seq<Vec<i32>>, end_logits: Seq<Vec<i32>>) -> bool {
    &&& start_logits.len() == fs.len()
    &&& end_logits.len() == fs.len()
    &&& forall|w: int| 0 <= w < fs.len() ==> logits_fit(#[trigger] fs[w], start_logits[w]@, end_logits[w]@)
}

/// `d` is what `decode` yields for window `w`.
pub open spec fn decoded_as(f: QaFeature, w: usize, sl: Seq<i32>, el: Seq<i32>, cfg: AnswerConfig, d: DecodedWindow) -> bool {
    &&& d.null_score == sl[f.cls_index as int] + el[f.cls_index as int]
    &&& strictly_ranked(d.candidates@)
    &&& forall|c| #[trigger] d.candidates@.contains(c) <==> is_reported(
        f,
        w,
        sl,
        el,
        cfg.top_k_per_window as nat,
        cfg.max_answer_length as nat,
        c,
    )
}

/// Turns the logits of every window of an example into its outcome; `None` when the
/// logits do not fit the windows.
pub fn answer_from_logits(
    ex: &QaExample,
    fs: &Vec<QaFeature>,
    start_logits: &Vec<Vec<i32>>,
    end_logits: &Vec<Vec<i32>>,
    cfg: AnswerConfig,
) -> (r: Option<Prediction>)
    requires
        ex.wf(),
    ensures
        r is None <==> !all_logits_fit(fs@, start_logits@, end_logits@),
        r matches Some(p) ==> exists|ds: Seq<DecodedWindow>|
            #![trigger aggregate_ok(*ex, fs@, ds, cfg.n_best as nat, cfg.null_score_diff_threshold as int, p)]
            ds.len() == fs@.len() && (forall|w: int|
                0 <= w < ds.len() ==> decoded_as(fs@[w], w as usize, start_logits@[w]@, end_logits@[w]@, cfg, #[trigger] ds[w]))
                && aggregate_ok(*ex, fs@, ds, cfg.n_best as nat, cfg.null_score_diff_threshold as int, p),
{
    if start_logits.len() != fs.len() || end_logits.len() != fs.len() {
        return None;
    }
    let mut ds: Vec<DecodedWindow> = Vec::new();
    let mut w: usize = 0;
    while w < fs.len()
        invariant
            start_logits@.len() == fs@.len(),
            end_logits@.len() == fs@.len(),
            w <= fs@.len(),
            ds@.len() == w,
            forall|v: int| 0 <= v < w ==> logits_fit(#[trigger] fs@[v], start_logits@[v]@, end_logits@[v]@),
            forall|v: int|
                0 <= v < w ==> decoded_as(fs@[v], v as usize, start_logits@[v]@, end_logits@[v]@, cfg, #[trigger] ds@[v]),
        decreases fs@.len() - w,
    {
        let f = &fs[w];
        let sl = &start_logits[w];
        let el = &end_logits[w];
        let n = f.p_mask.len();
        if sl.len() != n || el.len() != n || f.token_is_max_context.len() != n || f.cls_index >= n {
            return None;
        }
        let d = decode(w, f, sl, el, cfg.top_k_per_window, cfg.max_answer_length);
        ds.push(d);
        w = w + 1;
    }
    let p = aggregate(ex, fs, &ds, cfg.n_best, cfg.null_score_diff_threshold);
    Some(p)
}

} // verus!
