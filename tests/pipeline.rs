use rust_bert::aggregate::{aggregate, collect_spans, rank_spans, Prediction, ScoredSpan};
use rust_bert::decoder::{decode, top_k_flags, CandidateSpan, DecodedWindow};
use rust_bert::example::{DocToken, QaExample};
use rust_bert::windows::{
    doc_spans, flatten_sub_tokens, generate_features, max_context_flag, DocSpan, QaFeature,
    SpecialTokens, WindowConfig, WindowError,
};
use rust_bert::pipeline::{answer_from_logits, AnswerConfig};
use rust_bert::Activation;

const SPECIAL: SpecialTokens = SpecialTokens { cls: 1, sep: 2, pad: 0 };

fn chars(s: &str) -> Vec<char> {
    s.chars().collect()
}

fn text(v: &[char]) -> String {
    v.iter().collect()
}

/// One sub-token per doc token, with ids 100, 101, ...
fn one_sub_token_each(ex: &QaExample) -> Vec<Vec<u32>> {
    (0..ex.doc_tokens.len()).map(|i| vec![100 + i as u32]).collect()
}

fn config(max_seq_len: usize, doc_stride: usize, max_query_length: usize) -> WindowConfig {
    WindowConfig { max_seq_len, doc_stride, max_query_length }
}

/// Logits that are zero everywhere but at the given positions.
fn logits(len: usize, peaks: &[(usize, i32)]) -> Vec<i32> {
    let mut v = vec![0; len];
    for &(p, x) in peaks {
        v[p] = x;
    }
    v
}

#[test]
fn example_splits_on_whitespace() {
    let ex = QaExample::new(&chars("Why?"), &chars("  The sky\tis  blue. "));
    let spans: Vec<(usize, usize)> = ex.doc_tokens.iter().map(|t| (t.char_start, t.char_end)).collect();
    assert_eq!(spans, vec![(2, 5), (6, 9), (10, 12), (14, 19)]);
    assert_eq!(
        ex.char_to_word_offset,
        vec![
            None, None, Some(0), Some(0), Some(0), Some(0), Some(1), Some(1), Some(1), Some(1), Some(2),
            Some(2), Some(2), Some(2), Some(3), Some(3), Some(3), Some(3), Some(3), Some(3)
        ]
    );
    assert_eq!(ex.question, chars("Why?"));
}

#[test]
fn example_of_empty_context_has_no_doc_tokens() {
    let ex = QaExample::new(&chars("Anything?"), &chars(""));
    assert!(ex.doc_tokens.is_empty());
    assert!(ex.char_to_word_offset.is_empty());
}

#[test]
fn example_treats_narrow_no_break_space_as_whitespace() {
    let ex = QaExample::new(&chars("q"), &chars("a\u{202F}b"));
    assert_eq!(
        ex.doc_tokens,
        vec![DocToken { char_start: 0, char_end: 1 }, DocToken { char_start: 2, char_end: 3 }]
    );
}

#[test]
fn flatten_skips_doc_tokens_without_sub_tokens() {
    let (ids, owners) = flatten_sub_tokens(&vec![vec![7, 8], vec![], vec![9]]);
    assert_eq!(ids, vec![7, 8, 9]);
    assert_eq!(owners, vec![0, 0, 2]);
}

#[test]
fn doc_spans_clip_the_last_window() {
    let spans = doc_spans(10, 4, 3);
    let got: Vec<(usize, usize)> = spans.iter().map(|d| (d.start, d.length)).collect();
    assert_eq!(got, vec![(0, 4), (3, 4), (6, 4)]);
    let spans = doc_spans(9, 4, 3);
    let got: Vec<(usize, usize)> = spans.iter().map(|d| (d.start, d.length)).collect();
    assert_eq!(got, vec![(0, 4), (3, 4), (6, 3)]);
}

#[test]
fn doc_spans_stride_above_budget_steps_by_budget() {
    let got: Vec<(usize, usize)> = doc_spans(7, 3, 10).iter().map(|d| (d.start, d.length)).collect();
    assert_eq!(got, vec![(0, 3), (3, 3), (6, 1)]);
}

#[test]
fn max_context_prefers_the_more_central_window() {
    let spans = vec![DocSpan { start: 0, length: 4 }, DocSpan { start: 2, length: 4 }];
    // Sub-token 3: distance 0 to the end of window 0, distance 1 inside window 1.
    assert!(!max_context_flag(&spans, 0, 3));
    assert!(max_context_flag(&spans, 1, 3));
    // Sub-token 2: distance 1 in window 0 and 0 in window 1.
    assert!(max_context_flag(&spans, 0, 2));
    assert!(!max_context_flag(&spans, 1, 2));
    // Not held at all.
    assert!(!max_context_flag(&spans, 0, 5));
}

#[test]
fn max_context_tie_goes_to_the_earlier_window() {
    let spans = vec![DocSpan { start: 0, length: 5 }, DocSpan { start: 2, length: 5 }];
    // Sub-token 3: distance 1 in window 0 (0..5) and distance 1 in window 1 (2..7).
    assert!(max_context_flag(&spans, 0, 3));
    assert!(!max_context_flag(&spans, 1, 3));
    let tie = vec![DocSpan { start: 0, length: 4 }, DocSpan { start: 1, length: 4 }];
    // Sub-token 2: distance 1 in window 0 (0..4) and distance 1 in window 1 (1..5).
    assert!(max_context_flag(&tie, 0, 2));
    assert!(!max_context_flag(&tie, 1, 2));
}

#[test]
fn configuration_errors() {
    let ex = QaExample::new(&chars("q"), &chars("a b c"));
    let subs = one_sub_token_each(&ex);
    let q = vec![5, 6];
    assert_eq!(generate_features(0, &subs, &q, config(16, 0, 8), SPECIAL).unwrap_err(), WindowError::Configuration);
    // 2 question tokens + 3 special tokens leave no room in 5 positions.
    assert_eq!(generate_features(0, &subs, &q, config(5, 2, 8), SPECIAL).unwrap_err(), WindowError::Configuration);
    assert_eq!(generate_features(0, &subs, &q, config(6, 2, 8), SPECIAL).unwrap().len(), 3);
}

#[test]
fn feature_layout() {
    let ex = QaExample::new(&chars("q"), &chars("a b"));
    let subs = vec![vec![10, 11], vec![12]];
    let fs = generate_features(3, &subs, &vec![5, 6, 7], config(10, 4, 2), SPECIAL).unwrap();
    assert_eq!(fs.len(), 1);
    let f = &fs[0];
    assert_eq!(f.example_index, 3);
    assert_eq!(f.doc_span_index, 0);
    assert_eq!(f.cls_index, 0);
    assert_eq!(f.context_offset, 4);
    assert_eq!(f.input_ids, vec![1, 5, 6, 2, 10, 11, 12, 2, 0, 0]);
    assert_eq!(f.p_mask, vec![true, true, true, true, false, false, false, true, true, true]);
    assert_eq!(
        f.token_to_orig_map,
        vec![None, None, None, None, Some(0), Some(0), Some(1), None, None, None]
    );
    assert_eq!(
        f.token_is_max_context,
        vec![false, false, false, false, true, true, true, false, false, false]
    );
}

#[test]
fn short_context_gives_one_window_whatever_the_stride() {
    let ex = QaExample::new(&chars("q"), &chars("one two three"));
    let subs = one_sub_token_each(&ex);
    let q = vec![5];
    let a = generate_features(0, &subs, &q, config(16, 1, 8), SPECIAL).unwrap();
    let b = generate_features(0, &subs, &q, config(16, 50, 8), SPECIAL).unwrap();
    assert_eq!(a.len(), 1);
    assert_eq!(a, b);
    assert_eq!(a[0].doc_span, DocSpan { start: 0, length: 3 });
}

fn three_window_features() -> (QaExample, Vec<QaFeature>) {
    let ex = QaExample::new(&chars("q q"), &chars("a b c d e f g h"));
    let subs = one_sub_token_each(&ex);
    // Budget: 9 - 2 - 3 = 4, stride 2.
    let fs = generate_features(0, &subs, &vec![5, 6], config(9, 2, 8), SPECIAL).unwrap();
    (ex, fs)
}

#[test]
fn windows_cover_every_token_with_one_max_context() {
    let (_, fs) = three_window_features();
    for t in 0..8usize {
        let mut holders = 0;
        let mut maximal = 0;
        for f in &fs {
            let d = f.doc_span;
            if d.start <= t && t < d.start + d.length {
                holders += 1;
                if f.token_is_max_context[f.context_offset + t - d.start] {
                    maximal += 1;
                }
            }
        }
        assert!(holders >= 1);
        assert_eq!(maximal, 1);
    }
}

#[test]
fn three_overlapping_windows() {
    let (ex, fs) = three_window_features();
    assert_eq!(fs.len(), 3);
    let spans: Vec<(usize, usize)> = fs.iter().map(|f| (f.doc_span.start, f.doc_span.length)).collect();
    assert_eq!(spans, vec![(0, 4), (2, 4), (4, 4)]);
    // Consecutive windows overlap by budget - stride = 2 sub-tokens.
    for w in 0..2 {
        assert_eq!(spans[w].0 + spans[w].1 - spans[w + 1].0, 2);
    }
    // The answer "d e" (doc tokens 3 and 4) is cut by the end of window 0 and lies
    // inside window 1, away from both of its edges.
    let w1 = &fs[1];
    let off = w1.context_offset;
    let start = off + 1;
    let end = off + 2;
    assert_eq!(w1.token_to_orig_map[start], Some(3));
    assert_eq!(w1.token_to_orig_map[end], Some(4));
    assert!(w1.token_is_max_context[start]);
    let len = w1.input_ids.len();
    let sl = logits(len, &[(start, 9)]);
    let el = logits(len, &[(end, 9)]);
    let dw = decode(1, w1, &sl, &el, 3, 5);
    assert_eq!(dw.candidates[0].start, start);
    assert_eq!(dw.candidates[0].end, end);
    let ds = vec![
        DecodedWindow { candidates: vec![], null_score: 0 },
        dw,
        DecodedWindow { candidates: vec![], null_score: 0 },
    ];
    match aggregate(&ex, &fs, &ds, 1, 0) {
        Prediction::Answers(v) => {
            assert_eq!(text(&v[0].text), "d e");
            assert_eq!((v[0].start_char, v[0].end_char), (6, 9));
        }
        other => panic!("expected an answer, got {:?}", other),
    }
}

#[test]
fn top_k_flags_pick_largest_eligible() {
    let mask = vec![true, false, false, true, false];
    let lg = vec![9, 3, 5, 100, 5];
    // Eligible: 0 (no-answer position), 1, 2, 4. Order: 0 (9), 2 (5), 4 (5), 1 (3).
    assert_eq!(top_k_flags(&lg, &mask, 0, 2), vec![true, false, true, false, false]);
    assert_eq!(top_k_flags(&lg, &mask, 0, 3), vec![true, false, true, false, true]);
    assert_eq!(top_k_flags(&lg, &mask, 0, 0), vec![false; 5]);
}

fn sky() -> (QaExample, Vec<QaFeature>) {
    let ex = QaExample::new(&chars("What color is the sky?"), &chars("The sky is blue during the day."));
    let subs = one_sub_token_each(&ex);
    let fs = generate_features(0, &subs, &vec![11, 12, 13, 14, 15, 16], config(32, 8, 16), SPECIAL).unwrap();
    (ex, fs)
}

#[test]
fn decode_ranks_and_bounds_candidates() {
    let (_, fs) = sky();
    let f = &fs[0];
    let blue = f.context_offset + 3;
    let sl = logits(32, &[(blue, 10), (0, 1)]);
    let el = logits(32, &[(blue, 10), (0, 1)]);
    let dw = decode(0, f, &sl, &el, 5, 2);
    assert_eq!(dw.null_score, 2);
    assert_eq!(
        dw.candidates[0],
        CandidateSpan { feature_index: 0, start: blue, end: blue, start_score: 10, end_score: 10 }
    );
    for c in &dw.candidates {
        assert!(c.start <= c.end);
        assert!(c.end - c.start + 1 <= 2);
        assert!(!f.p_mask[c.start] && !f.p_mask[c.end]);
    }
    for w in dw.candidates.windows(2) {
        let (a, b) = (w[0].score(), w[1].score());
        assert!(a > b || (a == b && (w[0].start, w[0].end) < (w[1].start, w[1].end)));
    }
    // Starts: blue, then positions 8, 9, 10 (ties go to the earliest); the same ends.
    // Pairs within two tokens: (10, 11) at 10, (8, 8), (8, 9), (9, 9), (9, 10), (10, 10) at 0.
    let pairs: Vec<(usize, usize)> = dw.candidates.iter().map(|c| (c.start, c.end)).collect();
    assert_eq!(pairs, vec![(11, 11), (10, 11), (8, 8), (8, 9), (9, 9), (9, 10), (10, 10)]);
}

#[test]
fn end_to_end_blue() {
    let (ex, fs) = sky();
    assert_eq!(fs.len(), 1);
    let blue = fs[0].context_offset + 3;
    let sl = logits(32, &[(blue, 10), (0, 1)]);
    let el = logits(32, &[(blue, 10), (0, 1)]);
    let ds = vec![decode(0, &fs[0], &sl, &el, 20, 30)];
    match aggregate(&ex, &fs, &ds, 1, 0) {
        Prediction::Answers(v) => {
            assert_eq!(v.len(), 1);
            assert_eq!(text(&v[0].text), "blue");
            assert_eq!(v[0].start_char, 11);
            assert_eq!(v[0].end_char, 15);
            assert_eq!(v[0].score, 20);
            let context = "The sky is blue during the day.";
            assert_eq!(&context[v[0].start_char..v[0].end_char], "blue");
        }
        other => panic!("expected an answer, got {:?}", other),
    }
}

#[test]
fn end_to_end_empty_context() {
    let ex = QaExample::new(&chars("Is there anything?"), &chars(""));
    assert!(ex.doc_tokens.is_empty());
    let subs = one_sub_token_each(&ex);
    let fs = generate_features(0, &subs, &vec![5, 6, 7], config(12, 4, 8), SPECIAL).unwrap();
    assert_eq!(fs.len(), 1);
    assert_eq!(fs[0].doc_span.length, 0);
    let sl = logits(12, &[(0, 3), (5, 50)]);
    let el = logits(12, &[(0, 4), (5, 50)]);
    let dw = decode(0, &fs[0], &sl, &el, 20, 30);
    assert!(dw.candidates.is_empty());
    assert_eq!(dw.null_score, 7);
    for threshold in [-1000, 0, 1000] {
        assert_eq!(
            aggregate(&ex, &fs, &vec![dw.clone()], 5, threshold),
            Prediction::NoAnswer { score: 7, misaligned: false }
        );
    }
}

#[test]
fn aggregate_is_repeatable() {
    let (ex, fs) = sky();
    let sl = logits(32, &[(10, 4), (11, 4), (12, 2)]);
    let el = logits(32, &[(11, 4), (12, 3), (13, 4)]);
    let ds = vec![decode(0, &fs[0], &sl, &el, 20, 30)];
    let a = aggregate(&ex, &fs, &ds, 3, 0);
    let b = aggregate(&ex, &fs, &ds, 3, 0);
    assert_eq!(a, b);
}

#[test]
fn raising_threshold_turns_no_answer_into_answers() {
    let (ex, fs) = sky();
    let blue = fs[0].context_offset + 3;
    let sl = logits(32, &[(blue, 5), (0, 20)]);
    let el = logits(32, &[(blue, 5), (0, 20)]);
    let ds = vec![decode(0, &fs[0], &sl, &el, 20, 30)];
    // Null score 40, best span 10: the difference is 30.
    assert_eq!(aggregate(&ex, &fs, &ds, 1, 29), Prediction::NoAnswer { score: 40, misaligned: false });
    assert!(matches!(aggregate(&ex, &fs, &ds, 1, 30), Prediction::Answers(_)));
    assert!(matches!(aggregate(&ex, &fs, &ds, 1, 1000), Prediction::Answers(_)));
}

#[test]
fn aggregate_keeps_best_score_per_range_and_n_best() {
    let (ex, fs) = sky();
    let off = fs[0].context_offset;
    let c = |start: usize, end: usize, s: i32, e: i32| CandidateSpan {
        feature_index: 0,
        start: off + start,
        end: off + end,
        start_score: s,
        end_score: e,
    };
    let ds = vec![
        DecodedWindow { candidates: vec![c(3, 3, 1, 1), c(0, 1, 2, 2)], null_score: -50 },
        DecodedWindow { candidates: vec![c(3, 3, 4, 4), c(4, 4, 1, 0)], null_score: -60 },
    ];
    match aggregate(&ex, &fs, &ds, 2, 0) {
        Prediction::Answers(v) => {
            let got: Vec<(String, i64)> = v.iter().map(|a| (text(&a.text), a.score)).collect();
            assert_eq!(got, vec![("blue".to_string(), 8), ("The sky".to_string(), 4)]);
        }
        other => panic!("expected answers, got {:?}", other),
    }
    match aggregate(&ex, &fs, &ds, 10, 0) {
        Prediction::Answers(v) => assert_eq!(v.len(), 3),
        other => panic!("expected answers, got {:?}", other),
    }
    match aggregate(&ex, &fs, &ds, 0, 0) {
        Prediction::Answers(v) => assert!(v.is_empty()),
        other => panic!("expected answers, got {:?}", other),
    }
}

#[test]
fn misaligned_candidate_gives_flagged_no_answer() {
    let (ex, fs) = sky();
    let bad = CandidateSpan { feature_index: 0, start: 0, end: 0, start_score: 9, end_score: 9 };
    let ds = vec![DecodedWindow { candidates: vec![bad], null_score: 3 }];
    assert_eq!(aggregate(&ex, &fs, &ds, 1, 0), Prediction::NoAnswer { score: 3, misaligned: true });
    let elsewhere = CandidateSpan { feature_index: 4, start: 9, end: 9, start_score: 9, end_score: 9 };
    let ds = vec![DecodedWindow { candidates: vec![elsewhere], null_score: 3 }];
    assert!(collect_spans(&ex, &fs, &ds).is_none());
}

#[test]
fn rank_spans_orders_by_score_then_position() {
    let s = |a: usize, b: usize, score: i64| ScoredSpan { start_char: a, end_char: b, score };
    let ranked = rank_spans(&vec![s(5, 6, 1), s(0, 2, 3), s(4, 9, 3), s(0, 1, 3)]);
    assert_eq!(ranked, vec![s(0, 1, 3), s(0, 2, 3), s(4, 9, 3), s(5, 6, 1)]);
}

#[test]
fn activation_variants_are_distinct() {
    assert_ne!(Activation::gelu, Activation::gelu_new);
    assert_eq!(Activation::tanh, Activation::tanh.clone());
}

fn answer_config(n_best: usize, threshold: i64) -> AnswerConfig {
    AnswerConfig { top_k_per_window: 20, max_answer_length: 30, n_best, null_score_diff_threshold: threshold }
}

#[test]
fn answer_from_logits_end_to_end() {
    let (ex, fs) = sky();
    let blue = fs[0].context_offset + 3;
    let sl = vec![logits(32, &[(blue, 10), (0, 1)])];
    let el = vec![logits(32, &[(blue, 10), (0, 1)])];
    match answer_from_logits(&ex, &fs, &sl, &el, answer_config(1, 0)) {
        Some(Prediction::Answers(v)) => {
            assert_eq!(text(&v[0].text), "blue");
            assert_eq!((v[0].start_char, v[0].end_char), (11, 15));
        }
        other => panic!("expected an answer, got {:?}", other),
    }
}

#[test]
fn answer_from_logits_rejects_ill_fitting_logits() {
    let (ex, fs) = sky();
    let short = vec![logits(31, &[])];
    let full = vec![logits(32, &[])];
    assert!(answer_from_logits(&ex, &fs, &short, &full, answer_config(1, 0)).is_none());
    assert!(answer_from_logits(&ex, &fs, &full, &vec![], answer_config(1, 0)).is_none());
    assert!(answer_from_logits(&ex, &fs, &full, &full, answer_config(1, 0)).is_some());
}

#[test]
fn answer_from_logits_over_three_windows() {
    let (ex, fs) = three_window_features();
    let len = fs[0].input_ids.len();
    let mut sl = vec![logits(len, &[]); 3];
    let mut el = vec![logits(len, &[]); 3];
    // Window 1 points at "d e"; window 2 holds "e" near its edge with a lower score.
    sl[1] = logits(len, &[(fs[1].context_offset + 1, 9)]);
    el[1] = logits(len, &[(fs[1].context_offset + 2, 9)]);
    sl[2] = logits(len, &[(fs[2].context_offset, 2)]);
    el[2] = logits(len, &[(fs[2].context_offset, 2)]);
    match answer_from_logits(&ex, &fs, &sl, &el, answer_config(2, 0)) {
        Some(Prediction::Answers(v)) => {
            assert_eq!(text(&v[0].text), "d e");
            assert_eq!(v[0].score, 18);
        }
        other => panic!("expected answers, got {:?}", other),
    }
}
