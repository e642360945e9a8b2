use vstd::prelude::*;

verus! {

/// Whether a character separates two doc tokens.
pub open spec fn is_ws(c: char) -> bool {
    c == ' ' || c == '\t' || c == '\r' || c == '\n' || c == '\u{202F}'
}

/// Whether a doc token begins at character position `i`.
pub open spec fn is_token_start(s: Seq<char>, i: int) -> bool {
    0 <= i < s.len() && !is_ws(s[i]) && (i == 0 || is_ws(s[i - 1]))
}

/// Number of doc tokens that begin before position `k`.
pub open spec fn starts_before(s: Seq<char>, k: int) -> nat
    decreases k,
{
    if k <= 0 {
        0
    } else {
        starts_before(s, k - 1) + if is_token_start(s, k - 1) { 1nat } else { 0nat }
    }
}

/// The doc token that character `i` belongs to; none before the first token.
pub open spec fn word_of_char(s: Seq<char>, i: int) -> Option<usize> {
    if starts_before(s, i + 1) == 0 {
        None
    } else {
        Some((starts_before(s, i + 1) - 1) as usize)
    }
}

/// `t` is the `w`-th maximal run of non-whitespace characters of `s`.
pub open spec fn is_doc_token(s: Seq<char>, w: int, t: DocToken) -> bool {
    &&& is_token_start(s, t.char_start as int)
    &&& starts_before(s, t.char_start as int) == w
    &&& t.char_start < t.char_end <= s.len()
    &&& forall|k: int| t.char_start <= k < t.char_end ==> !is_ws(#[trigger] s[k])
    &&& (t.char_end == s.len() || is_ws(s[t.char_end as int]))
}

/// A whitespace-delimited token of the context, as a half-open range of character positions.
#[derive(Clone, Copy, Debug, PartialEq, Eq, Structural)]
pub struct DocToken {
    pub char_start: usize,
    pub char_end: usize,
}

/// A question and its context, with the context split into doc tokens.
#[derive(Clone, Debug, PartialEq, Eq)]
pub struct QaExample {
    pub question: Vec<char>,
    pub context: Vec<char>,
    pub doc_tokens: Vec<DocToken>,
    pub char_to_word_offset: Vec<Option<usize>>,
}

impl QaExample {
    /// The example's doc tokens are exactly the whitespace-delimited tokens of its context.
    pub open spec fn wf(&self) -> bool {
        &&& self.doc_tokens@.len() == starts_before(self.context@, self.context@.len() as int)
        &&& forall|w: int|
            0 <= w < self.doc_tokens@.len() ==> is_doc_token(
                self.context@,
                w,
                #[trigger] self.doc_tokens@[w],
            )
        &&& self.char_to_word_offset@.len() == self.context@.len()
        &&& forall|i: int|
            0 <= i < self.context@.len() ==> #[trigger] self.char_to_word_offset@[i]
                == word_of_char(self.context@, i)
    }

    /// Splits `context` into doc tokens and maps every character to the token it belongs to.
    pub fn new(question: &Vec<char>, context: &Vec<char>) -> (r: QaExample)
        ensures
            r.wf(),
            r.question@ == question@,
            r.context@ == context@,
    {
        let s = context;
        let n = s.len();
        let mut tokens: Vec<DocToken> = Vec::new();
        let mut offsets: Vec<Option<usize>> = Vec::new();
        let mut in_token = false;
        let mut cur_start: usize = 0;
        let mut i: usize = 0;
        while i < n
            invariant
                n == s@.len(),
                i <= n,
                in_token == (i > 0 && !is_ws(s@[i - 1])),
                in_token ==> cur_start < i && is_token_start(s@, cur_start as int)
                    && starts_before(s@, cur_start as int) == tokens@.len()
                    && forall|k: int| cur_start <= k < i ==> !is_ws(#[trigger] s@[k]),
                starts_before(s@, i as int) == tokens@.len() + if in_token { 1nat } else { 0nat },
                forall|w: int| 0 <= w < tokens@.len() ==> is_doc_token(s@, w, #[trigger] tokens@[w]),
                forall|w: int| 0 <= w < tokens@.len() ==> (#[trigger] tokens@[w]).char_end <= i,
                offsets@.len() == i,
                forall|k: int| 0 <= k < i ==> #[trigger] offsets@[k] == word_of_char(s@, k),
                tokens@.len() <= i,
            decreases n - i,
        {
            let c = s[i];
            let ws = c == ' ' || c == '\t' || c == '\r' || c == '\n' || c == '\u{202F}';
            if ws {
                if in_token {
                    tokens.push(DocToken { char_start: cur_start, char_end: i });
                }
                in_token = false;
            } else if !in_token {
                in_token = true;
                cur_start = i;
            }
            let nt = tokens.len();
            i = i + 1;
            assert(starts_before(s@, i as int) == starts_before(s@, i - 1) + if is_token_start(
                s@,
                i - 1,
            ) {
                1nat
            } else {
                0nat
            });
            if in_token {
                offsets.push(Some(nt));
            } else if nt == 0 {
                offsets.push(None);
            } else {
                offsets.push(Some(nt - 1));
            }
        }
        if in_token {
            tokens.push(DocToken { char_start: cur_start, char_end: n });
        }
        QaExample {
            question: question.clone(),
            context: context.clone(),
            doc_tokens: tokens,
            char_to_word_offset: offsets,
        }
    }
}

} // verus!
