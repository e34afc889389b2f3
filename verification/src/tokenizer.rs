use crate::text::{
    count_str_val, count_str_valid, exec_is_ws, find_alpha_from, find_char_from,
    find_not_count_from, find_not_us_from, find_not_ws_from, find_seq_from, find_us_or_ws_from,
    find_ws_from, idx_alpha, idx_char, idx_not_count, idx_not_us, idx_not_ws, idx_us_or_ws,
    idx_ws, is_alpha, is_prefix_of, is_upper, is_ws, lemma_idx_alpha, lemma_idx_char, lemma_idx_not_count,
    lemma_idx_not_us, lemma_idx_not_ws, lemma_idx_us_or_ws, lemma_idx_ws, lemma_spec_find_seq,
    lemma_spec_find_unique, parse_count_run, spec_find_seq, starts_with_at,
};
use vstd::prelude::*;
use vstd::string::*;

verus! {

/// One typed span of the input text.
#[derive(Clone, Debug, PartialEq, Eq)]
pub enum Token {
    Sonomama { text: String },
    Hiragana { text: String },
    Katakana { text: String },
    Kanji { text: String, index: usize, count: Option<i64> },
    Henkan { text: String },
}

/// The mathematical shape of a span: its text as a character sequence, plus
/// the kanji span's candidate index and optional truncation count.
pub enum TokenModel {
    Sonomama { text: Seq<char> },
    Hiragana { text: Seq<char> },
    Katakana { text: Seq<char> },
    Kanji { text: Seq<char>, index: int, count: Option<int> },
    Henkan { text: Seq<char> },
}

impl View for Token {
    type V = TokenModel;

    open spec fn view(&self) -> TokenModel {
        match self {
            Token::Sonomama { text } => TokenModel::Sonomama { text: text@ },
            Token::Hiragana { text } => TokenModel::Hiragana { text: text@ },
            Token::Katakana { text } => TokenModel::Katakana { text: text@ },
            Token::Kanji { text, index, count } => TokenModel::Kanji {
                text: text@,
                index: *index as int,
                count: match count {
                    Some(v) => Some(*v as int),
                    None => None,
                },
            },
            Token::Henkan { text } => TokenModel::Henkan { text: text@ },
        }
    }
}

pub open spec fn backticks3() -> Seq<char> {
    seq!['`', '`', '`']
}

pub open spec fn underscores3() -> Seq<char> {
    seq!['_', '_', '_']
}

/// After most spans one following space character is consumed as a separator.
pub open spec fn strip_space(s: Seq<char>) -> Seq<char> {
    if s.len() > 0 && s[0] == ' ' {
        s.drop_first()
    } else {
        s
    }
}

/// A literal span delimited by exactly three leading underscores.
pub open spec fn opens_triple_underscore(s: Seq<char>) -> bool {
    s.len() >= 3 && s[0] == '_' && s[1] == '_' && s[2] == '_' && (s.len() == 3 || s[3] != '_')
}

pub open spec fn opens_triple_backtick(s: Seq<char>) -> bool {
    s.len() >= 3 && s[0] == '`' && s[1] == '`' && s[2] == '`'
}

/// The next span of the remaining input and the input left after it, or
/// `None` exactly when the input is exhausted.
///
/// The rules, in priority order: a whitespace run is an as-is span; a
/// backtick-quoted span is passed through with its delimiters; three
/// underscores open a literal span whose delimiters are dropped; one
/// underscore opens a literal span running to the next whitespace; a colon
/// not followed by whitespace opens a substitution key; anything else is a
/// word, a kanji span when trailing underscores follow it.
pub open spec fn spec_next_token(s: Seq<char>) -> Option<(TokenModel, Seq<char>)> {
    if s.len() == 0 {
        None
    } else if is_ws(s[0]) {
        let e = idx_not_ws(s);
        Some((TokenModel::Sonomama { text: s.take(e) }, s.skip(e)))
    } else if s[0] == '`' {
        if opens_triple_backtick(s) {
            let i = spec_find_seq(s.skip(3), backticks3());
            if i + 3 <= s.len() - 3 {
                Some((TokenModel::Sonomama { text: s.take(i + 6) }, strip_space(s.skip(i + 6))))
            } else {
                Some((TokenModel::Sonomama { text: s }, Seq::empty()))
            }
        } else {
            let i = idx_char(s.skip(1), '`');
            if i < s.len() - 1 {
                Some((TokenModel::Sonomama { text: s.take(i + 2) }, strip_space(s.skip(i + 2))))
            } else {
                Some((TokenModel::Sonomama { text: s }, Seq::empty()))
            }
        }
    } else if s[0] == '_' {
        if opens_triple_underscore(s) {
            let i = spec_find_seq(s.skip(3), underscores3());
            if i + 3 <= s.len() - 3 {
                Some(
                    (
                        TokenModel::Sonomama { text: s.skip(3).take(i) },
                        strip_space(s.skip(i + 6)),
                    ),
                )
            } else {
                Some((TokenModel::Sonomama { text: s.skip(3) }, Seq::empty()))
            }
        } else {
            let i = idx_ws(s.skip(1));
            if i < s.len() - 1 {
                Some((TokenModel::Sonomama { text: s.skip(1).take(i) }, s.skip(i + 2)))
            } else {
                Some((TokenModel::Sonomama { text: s.skip(1) }, Seq::empty()))
            }
        }
    } else if s[0] == ':' && (s.len() == 1 || !is_ws(s[1])) {
        let i = idx_ws(s.skip(1));
        if i < s.len() - 1 {
            Some((TokenModel::Henkan { text: s.skip(1).take(i) }, s.skip(i + 2)))
        } else {
            Some((TokenModel::Henkan { text: s.skip(1) }, Seq::empty()))
        }
    } else {
        let p = idx_us_or_ws(s);
        let text = s.take(p);
        let u = idx_not_us(s.skip(p));
        let q = p + u;
        if u >= 1 {
            let r = idx_not_count(s.skip(q));
            let run = s.skip(q).take(r);
            if r >= 1 && count_str_valid(run) {
                Some(
                    (
                        TokenModel::Kanji { text, index: u - 1, count: Some(count_str_val(run)) },
                        strip_space(s.skip(q + r)),
                    ),
                )
            } else {
                Some(
                    (TokenModel::Kanji { text, index: u - 1, count: None }, strip_space(s.skip(q))),
                )
            }
        } else {
            let k = idx_alpha(text);
            if k < text.len() && is_upper(text[k]) {
                Some((TokenModel::Katakana { text }, strip_space(s.skip(p))))
            } else {
                Some((TokenModel::Hiragana { text }, strip_space(s.skip(p))))
            }
        }
    }
}

/// A span is produced exactly while input remains, and each span consumes at
/// least one character.
pub proof fn lemma_next_token_progress(s: Seq<char>)
    ensures
        spec_next_token(s) is Some <==> s.len() > 0,
        spec_next_token(s) is Some ==> spec_next_token(s).unwrap().1.len() < s.len(),
{
    if s.len() == 0 {
    } else if is_ws(s[0]) {
        lemma_idx_not_ws(s);
        let e = idx_not_ws(s);
        if e == 0 {
            assert(!is_ws(s[0]));
        }
    } else if s[0] == '`' {
        if opens_triple_backtick(s) {
            lemma_spec_find_seq(s.skip(3), backticks3());
        } else {
            lemma_idx_char(s.skip(1), '`');
        }
    } else if s[0] == '_' {
        if opens_triple_underscore(s) {
            lemma_spec_find_seq(s.skip(3), underscores3());
        } else {
            lemma_idx_ws(s.skip(1));
        }
    } else if s[0] == ':' && (s.len() == 1 || !is_ws(s[1])) {
        lemma_idx_ws(s.skip(1));
    } else {
        lemma_idx_us_or_ws(s);
        let p = idx_us_or_ws(s);
        if p == 0 {
            assert(s[0] == '_' || is_ws(s[0]));
        }
        lemma_idx_not_us(s.skip(p));
        let u = idx_not_us(s.skip(p));
        let q = p + u;
        lemma_idx_not_count(s.skip(q));
        lemma_idx_alpha(s.take(p));
    }
}

/// The full span sequence of an input text.
pub open spec fn spec_tokens(s: Seq<char>) -> Seq<TokenModel>
    decreases s.len(),
        via spec_tokens_decreases
{
    match spec_next_token(s) {
        None => Seq::empty(),
        Some(step) => seq![step.0] + spec_tokens(step.1),
    }
}

#[via_fn]
proof fn spec_tokens_decreases(s: Seq<char>) {
    lemma_next_token_progress(s);
}

/// The text a span carries.
pub open spec fn token_text(t: TokenModel) -> Seq<char> {
    match t {
        TokenModel::Sonomama { text } => text,
        TokenModel::Hiragana { text } => text,
        TokenModel::Katakana { text } => text,
        TokenModel::Kanji { text, .. } => text,
        TokenModel::Henkan { text } => text,
    }
}

proof fn lemma_strip_space_suffix(s: Seq<char>, k: int)
    requires
        0 <= k <= s.len(),
    ensures
        exists|c: int| 0 <= c <= s.len() && strip_space(s.skip(k)) == #[trigger] s.skip(c),
{
    if s.skip(k).len() > 0 && s.skip(k)[0] == ' ' {
        assert(strip_space(s.skip(k)) =~= s.skip(k + 1));
    } else {
        assert(strip_space(s.skip(k)) == s.skip(k));
    }
}

/// Spans borrow from the input: the first span's text is a contiguous
/// character range of the input, and what the step leaves is a suffix of
/// it — nothing is produced that was not scanned.
pub proof fn lemma_span_is_borrowed(s: Seq<char>)
    ensures
        spec_next_token(s) matches Some(step) ==> exists|a: int, b: int|
            0 <= a <= b <= s.len() && token_text(step.0) == #[trigger] s.subrange(a, b),
        spec_next_token(s) matches Some(step) ==> exists|c: int|
            0 <= c <= s.len() && step.1 == #[trigger] s.skip(c),
{
    if s.len() == 0 {
    } else if is_ws(s[0]) {
        lemma_idx_not_ws(s);
        let e = idx_not_ws(s);
        assert(s.take(e) == s.subrange(0, e));
        assert(s.skip(e) == s.skip(e));
    } else if s[0] == '`' {
        if opens_triple_backtick(s) {
            lemma_spec_find_seq(s.skip(3), backticks3());
            let i = spec_find_seq(s.skip(3), backticks3());
            if i + 3 <= s.len() - 3 {
                assert(s.take(i + 6) == s.subrange(0, i + 6));
                lemma_strip_space_suffix(s, i + 6);
            } else {
                assert(s == s.subrange(0, s.len() as int));
                assert(Seq::<char>::empty() =~= s.skip(s.len() as int));
            }
        } else {
            lemma_idx_char(s.skip(1), '`');
            let i = idx_char(s.skip(1), '`');
            if i < s.len() - 1 {
                assert(s.take(i + 2) == s.subrange(0, i + 2));
                lemma_strip_space_suffix(s, i + 2);
            } else {
                assert(s == s.subrange(0, s.len() as int));
                assert(Seq::<char>::empty() =~= s.skip(s.len() as int));
            }
        }
    } else if s[0] == '_' {
        if opens_triple_underscore(s) {
            lemma_spec_find_seq(s.skip(3), underscores3());
            let i = spec_find_seq(s.skip(3), underscores3());
            if i + 3 <= s.len() - 3 {
                assert(s.skip(3).take(i) =~= s.subrange(3, 3 + i));
                lemma_strip_space_suffix(s, i + 6);
            } else {
                assert(s.skip(3) =~= s.subrange(3, s.len() as int));
                assert(Seq::<char>::empty() =~= s.skip(s.len() as int));
            }
        } else {
            lemma_idx_ws(s.skip(1));
            let i = idx_ws(s.skip(1));
            if i < s.len() - 1 {
                assert(s.skip(1).take(i) =~= s.subrange(1, 1 + i));
                assert(s.skip(i + 2) == s.skip(i + 2));
            } else {
                assert(s.skip(1) =~= s.subrange(1, s.len() as int));
                assert(Seq::<char>::empty() =~= s.skip(s.len() as int));
            }
        }
    } else if s[0] == ':' && (s.len() == 1 || !is_ws(s[1])) {
        lemma_idx_ws(s.skip(1));
        let i = idx_ws(s.skip(1));
        if i < s.len() - 1 {
            assert(s.skip(1).take(i) =~= s.subrange(1, 1 + i));
            assert(s.skip(i + 2) == s.skip(i + 2));
        } else {
            assert(s.skip(1) =~= s.subrange(1, s.len() as int));
            assert(Seq::<char>::empty() =~= s.skip(s.len() as int));
        }
    } else {
        lemma_idx_us_or_ws(s);
        let p = idx_us_or_ws(s);
        lemma_idx_not_us(s.skip(p));
        let u = idx_not_us(s.skip(p));
        let q = p + u;
        lemma_idx_not_count(s.skip(q));
        let r = idx_not_count(s.skip(q));
        assert(s.take(p) == s.subrange(0, p));
        if u >= 1 {
            lemma_strip_space_suffix(s, q + r);
            lemma_strip_space_suffix(s, q);
        } else {
            lemma_strip_space_suffix(s, p);
        }
    }
}

/// Tokenization is a pure, deterministic function of the input text: equal
/// inputs yield equal span sequences. The sequence is finite, with at most
/// one span per input character.
pub proof fn lemma_tokenization_deterministic(s1: Seq<char>, s2: Seq<char>)
    requires
        s1 == s2,
    ensures
        spec_tokens(s1) == spec_tokens(s2),
        spec_tokens(s1).len() <= s1.len(),
    decreases s1.len(),
{
    lemma_next_token_progress(s1);
    match spec_next_token(s1) {
        None => {},
        Some(step) => {
            lemma_tokenization_deterministic(step.1, step.1);
        },
    }
}

/// Scans the input left to right, one span per call.
#[derive(Debug)]
pub struct Tokenizer {
    text: String,
}

impl View for Tokenizer {
    type V = Seq<char>;

    /// The not-yet-consumed suffix of the input.
    closed spec fn view(&self) -> Seq<char> {
        self.text@
    }
}

impl Tokenizer {
    pub fn new(text: &str) -> (t: Tokenizer)
        ensures
            t@ == text@,
    {
        Tokenizer { text: text.to_owned() }
    }

    /// Extracts the characters `[tstart, tend)` of the remaining input and
    /// drops everything before `next_pos`.
    fn take_span(&mut self, tstart: usize, tend: usize, next_pos: usize) -> (text: String)
        requires
            tstart <= tend <= old(self)@.len(),
            next_pos <= old(self)@.len(),
        ensures
            text@ == old(self)@.subrange(tstart as int, tend as int),
            final(self)@ == old(self)@.skip(next_pos as int),
    {
        let n: usize = self.text.as_str().unicode_len();
        let text = self.text.as_str().substring_char(tstart, tend).to_owned();
        self.text = self.text.as_str().substring_char(next_pos, n).to_owned();
        text
    }

    /// Emits the characters `[tstart, tend)` of the remaining input as one
    /// as-is span, consuming everything before `next_pos`.
    pub fn take_sonomama_token(&mut self, tstart: usize, tend: usize, next_pos: usize) -> (t:
        Token)
        requires
            tstart <= tend <= old(self)@.len(),
            next_pos <= old(self)@.len(),
        ensures
            t@ == (TokenModel::Sonomama {
                text: old(self)@.subrange(tstart as int, tend as int),
            }),
            final(self)@ == old(self)@.skip(next_pos as int),
    {
        let text = self.take_span(tstart, tend, next_pos);
        Token::Sonomama { text }
    }

    /// Default segmentation: a word up to the next underscore or whitespace,
    /// classified as hiragana, katakana, or — when underscores follow it — a
    /// kanji span with candidate index and optional count.
    pub fn take_hiragana_or_katakana_token(&mut self) -> (t: Token)
        requires
            old(self)@.len() > 0,
            !is_ws(old(self)@[0]),
            old(self)@[0] != '`',
            old(self)@[0] != '_',
            !(old(self)@[0] == ':' && (old(self)@.len() == 1 || !is_ws(old(self)@[1]))),
        ensures
            spec_next_token(old(self)@) is Some,
            t@ == spec_next_token(old(self)@).unwrap().0,
            final(self)@ == spec_next_token(old(self)@).unwrap().1,
    {
        let ghost s = self.text@;
        let n: usize = self.text.as_str().unicode_len();
        proof {
            assert(s.skip(0) =~= s);
        }
        let p = find_us_or_ws_from(self.text.as_str(), 0);
        let q = find_not_us_from(self.text.as_str(), p);
        proof {
            assert(idx_us_or_ws(s) == p);
            assert(idx_not_us(s.skip(p as int)) == q - p);
        }
        if q > p {
            // Trailing underscores: a kanji span.
            let rend = find_not_count_from(self.text.as_str(), q);
            let cnt = parse_count_run(self.text.as_str(), q, rend);
            proof {
                assert(s.skip(q as int).take(rend - q) =~= s.subrange(q as int, rend as int));
            }
            let next0: usize = match cnt {
                Some(_) => rend,
                None => q,
            };
            let next = advance_past_space(self.text.as_str(), next0);
            let text = self.take_span(0, p, next);
            proof {
                assert(text@ =~= s.take(p as int));
            }
            Token::Kanji { text, index: q - p - 1, count: cnt }
        } else {
            // No underscores: classify by the first alphabetic character.
            let k = find_alpha_from(self.text.as_str(), 0);
            let upper = k < p && {
                let c = self.text.as_str().get_char(k);
                'A' <= c && c <= 'Z'
            };
            proof {
                let text = s.take(p as int);
                if k < p {
                    assert forall|j: int| 0 <= j < k implies !is_alpha(text[j]) by {
                        assert(text[j] == s[j]);
                    }
                    lemma_spec_find_unique(text, |c: char| is_alpha(c), k as int);
                } else {
                    assert forall|j: int| 0 <= j < p implies !is_alpha(text[j]) by {
                        assert(text[j] == s[j]);
                    }
                    lemma_spec_find_unique(text, |c: char| is_alpha(c), p as int);
                }
            }
            let next = advance_past_space(self.text.as_str(), p);
            let text = self.take_span(0, p, next);
            proof {
                assert(text@ =~= s.take(p as int));
            }
            if upper {
                Token::Katakana { text }
            } else {
                Token::Hiragana { text }
            }
        }
    }

    /// The next span, or `None` exactly when the input is exhausted.
    pub fn next(&mut self) -> (r: Option<Token>)
        ensures
            old(self)@.len() == 0 ==> r is None && final(self)@ == old(self)@,
            old(self)@.len() > 0 ==> {
                &&& r is Some
                &&& spec_next_token(old(self)@) is Some
                &&& r.unwrap()@ == spec_next_token(old(self)@).unwrap().0
                &&& final(self)@ == spec_next_token(old(self)@).unwrap().1
            },
    {
        let ghost s = self.text@;
        let n: usize = self.text.as_str().unicode_len();
        if n == 0 {
            return None;
        }
        proof {
            assert(s.skip(0) =~= s);
        }
        let c0 = self.text.as_str().get_char(0);
        if exec_is_ws(c0) {
            // A whitespace run is significant output, passed through as-is.
            let e = find_not_ws_from(self.text.as_str(), 0);
            proof {
                if e == 0 {
                    assert(!is_ws(s[0]));
                }
            }
            let t = self.take_sonomama_token(0, e, e);
            proof {
                assert(s.subrange(0, e as int) =~= s.take(e as int));
            }
            Some(t)
        } else if c0 == '`' {
            if starts_with_at(self.text.as_str(), 0, "```") {
                proof {
                    reveal_strlit("```");
                    assert("```"@ =~= backticks3());
                    assert(s[0] == '`' && s[1] == '`' && s[2] == '`') by {
                        assert(s.take(3)[0] == s[0]);
                        assert(s.take(3)[1] == s[1]);
                        assert(s.take(3)[2] == s[2]);
                    }
                }
                let r = find_seq_from(self.text.as_str(), 3, "```");
                if r <= n - 3 {
                    let next = advance_past_space(self.text.as_str(), r + 3);
                    let t = self.take_sonomama_token(0, r + 3, next);
                    proof {
                        assert(s.subrange(0, r + 3) =~= s.take(r - 3 + 6));
                    }
                    Some(t)
                } else {
                    let t = self.take_sonomama_token(0, n, n);
                    proof {
                        assert(s.subrange(0, n as int) =~= s);
                        assert(s.skip(n as int) =~= Seq::<char>::empty());
                    }
                    Some(t)
                }
            } else {
                proof {
                    reveal_strlit("```");
                    assert("```"@ =~= backticks3());
                    if opens_triple_backtick(s) {
                        assert(s.take(3) =~= backticks3());
                    }
                }
                let r = find_char_from(self.text.as_str(), 1, '`');
                if r < n {
                    let next = advance_past_space(self.text.as_str(), r + 1);
                    let t = self.take_sonomama_token(0, r + 1, next);
                    proof {
                        assert(s.subrange(0, r + 1) =~= s.take((r - 1) + 2));
                    }
                    Some(t)
                } else {
                    let t = self.take_sonomama_token(0, n, n);
                    proof {
                        assert(s.subrange(0, n as int) =~= s);
                        assert(s.skip(n as int) =~= Seq::<char>::empty());
                    }
                    Some(t)
                }
            }
        } else if c0 == '_' {
            let has3 = starts_with_at(self.text.as_str(), 0, "___");
            proof {
                reveal_strlit("___");
                assert("___"@ =~= underscores3());
                if is_prefix_of("___"@, s) {
                    assert(s.take(3)[0] == s[0]);
                    assert(s.take(3)[1] == s[1]);
                    assert(s.take(3)[2] == s[2]);
                } else {
                    if s.len() >= 3 && s[0] == '_' && s[1] == '_' && s[2] == '_' {
                        assert(s.take(3) =~= underscores3());
                    }
                }
            }
            if has3 && (n == 3 || self.text.as_str().get_char(3) != '_') {
                let r = find_seq_from(self.text.as_str(), 3, "___");
                if r <= n - 3 {
                    let next = advance_past_space(self.text.as_str(), r + 3);
                    let t = self.take_sonomama_token(3, r, next);
                    proof {
                        assert(s.subrange(3, r as int) =~= s.skip(3).take(r - 3));
                    }
                    Some(t)
                } else {
                    let t = self.take_sonomama_token(3, n, n);
                    proof {
                        assert(s.subrange(3, n as int) =~= s.skip(3));
                        assert(s.skip(n as int) =~= Seq::<char>::empty());
                    }
                    Some(t)
                }
            } else {
                let w = find_ws_from(self.text.as_str(), 1);
                if w < n {
                    let t = self.take_sonomama_token(1, w, w + 1);
                    proof {
                        assert(s.subrange(1, w as int) =~= s.skip(1).take(w - 1));
                    }
                    Some(t)
                } else {
                    let t = self.take_sonomama_token(1, n, n);
                    proof {
                        assert(s.subrange(1, n as int) =~= s.skip(1));
                        assert(s.skip(n as int) =~= Seq::<char>::empty());
                    }
                    Some(t)
                }
            }
        } else if c0 == ':' && (n == 1 || !exec_is_ws(self.text.as_str().get_char(1))) {
            let w = find_ws_from(self.text.as_str(), 1);
            if w < n {
                let text = self.take_span(1, w, w + 1);
                proof {
                    assert(text@ =~= s.skip(1).take(w - 1));
                }
                Some(Token::Henkan { text })
            } else {
                let text = self.take_span(1, n, n);
                proof {
                    assert(text@ =~= s.skip(1));
                    assert(s.skip(n as int) =~= Seq::<char>::empty());
                }
                Some(Token::Henkan { text })
            }
        } else {
            Some(self.take_hiragana_or_katakana_token())
        }
    }
}

/// Position just past one separating space character, if one stands at `pos`.
fn advance_past_space(s: &str, pos: usize) -> (r: usize)
    requires
        pos <= s@.len(),
    ensures
        pos <= r <= s@.len(),
        s@.skip(r as int) == strip_space(s@.skip(pos as int)),
{
    let n: usize = s.unicode_len();
    if pos < n && s.get_char(pos) == ' ' {
        proof {
            assert(s@.skip(pos as int).drop_first() =~= s@.skip(pos + 1));
        }
        pos + 1
    } else {
        proof {
            if pos < n {
                assert(s@.skip(pos as int)[0] == s@[pos as int]);
            }
        }
        pos
    }
}

} // verus!
