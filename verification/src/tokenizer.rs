//! Splitting text into tokens.

use crate::text::{char_is_ws, chars_to_string, cviews, is_ws, push_lit, sviews, to_chars};
use vstd::prelude::*;

verus! {

/// Why tokenizing failed.
#[derive(Debug)]
pub enum NlpError {
    Init(String),
    Tokenize(String),
}

impl NlpError {
    /// The error's message.
    pub fn message(&self) -> (r: String)
        ensures
            r@ == match self {
                NlpError::Init(m) => "tokenizer init failed: "@ + m@,
                NlpError::Tokenize(m) => "tokenize failed: "@ + m@,
            },
    {
        let mut out = match self {
            NlpError::Init(_) => to_chars("tokenizer init failed: "),
            NlpError::Tokenize(_) => to_chars("tokenize failed: "),
        };
        match self {
            NlpError::Init(m) => push_lit(&mut out, m.as_str()),
            NlpError::Tokenize(m) => push_lit(&mut out, m.as_str()),
        }
        chars_to_string(&out)
    }
}

/// Whether a character is ASCII.
pub open spec fn is_ascii_char(c: char) -> bool {
    (c as int) < 128
}

/// The state after reading `s`: the tokens finished, the token being read,
/// and whether the last character read (whitespace aside) was ASCII.
pub open spec fn fb_state(s: Seq<char>) -> (Seq<Seq<char>>, Seq<char>, bool)
    decreases s.len(),
{
    if s.len() == 0 {
        (Seq::empty(), Seq::empty(), true)
    } else {
        let (toks, cur, prev) = fb_state(s.drop_last());
        let ch = s.last();
        if is_ws(ch) {
            if cur.len() > 0 {
                (toks.push(cur), Seq::empty(), prev)
            } else {
                (toks, cur, prev)
            }
        } else {
            let a = is_ascii_char(ch);
            if cur.len() > 0 && a != prev {
                (toks.push(cur), seq![ch], a)
            } else {
                (toks, cur.push(ch), a)
            }
        }
    }
}

/// The tokens of `s`: runs of non-whitespace, split again where ASCII and
/// non-ASCII characters meet.
pub open spec fn spec_fallback_tokens(s: Seq<char>) -> Seq<Seq<char>> {
    let (toks, cur, _) = fb_state(s);
    if cur.len() > 0 {
        toks.push(cur)
    } else {
        toks
    }
}

/// Splits text at whitespace and where ASCII and non-ASCII characters meet.
pub fn fallback_tokenize(text: &str) -> (r: Vec<String>)
    ensures
        sviews(r@) == spec_fallback_tokens(text@),
{
    let chars = to_chars(text);
    let mut tokens: Vec<String> = Vec::new();
    let mut current: Vec<char> = Vec::new();
    let mut prev_is_ascii = true;
    let mut i: usize = 0;
    while i < chars.len()
        invariant
            i <= chars.len(),
            chars@ == text@,
            fb_state(chars@.take(i as int)) == (sviews(tokens@), current@, prev_is_ascii),
        decreases chars.len() - i,
    {
        let ch = chars[i];
        proof {
            assert(chars@.take(i + 1).drop_last() =~= chars@.take(i as int));
            assert(chars@.take(i + 1).last() == ch);
        }
        if char_is_ws(ch) {
            if current.len() > 0 {
                let ghost t0 = sviews(tokens@);
                tokens.push(chars_to_string(&current));
                assert(sviews(tokens@) =~= t0.push(current@));
                current = Vec::new();
            }
        } else {
            proof {
                crate::text::lemma_char_as_u32(ch);
            }
            let is_ascii = (ch as u32) < 128;
            if current.len() > 0 && is_ascii != prev_is_ascii {
                let ghost t0 = sviews(tokens@);
                tokens.push(chars_to_string(&current));
                assert(sviews(tokens@) =~= t0.push(current@));
                current = Vec::new();
            }
            current.push(ch);
            prev_is_ascii = is_ascii;
        }
        i = i + 1;
    }
    proof {
        assert(chars@.take(chars.len() as int) =~= chars@);
    }
    if current.len() > 0 {
        let ghost t0 = sviews(tokens@);
        tokens.push(chars_to_string(&current));
        assert(sviews(tokens@) =~= t0.push(current@));
    }
    tokens
}

/// Splits queries into tokens. This build has no dictionary, so it splits at
/// whitespace and at boundaries between ASCII and non-ASCII text.
pub struct NlpTokenizer {}

impl NlpTokenizer {
    pub fn new() -> (r: Result<Self, NlpError>)
        ensures
            r is Ok,
    {
        Ok(NlpTokenizer {})
    }

    /// The tokens of `text`.
    pub fn tokenize(&self, text: &str) -> (r: Result<Vec<String>, NlpError>)
        ensures
            r matches Ok(v) && sviews(v@) == spec_fallback_tokens(text@),
    {
        Ok(fallback_tokenize(text))
    }

    /// The tokens of `text` that carry meaning, for embedding; without a
    /// dictionary, the same as `tokenize`.
    pub fn tokenize_for_embedding(&self, text: &str) -> (r: Result<Vec<String>, NlpError>)
        ensures
            r matches Ok(v) && sviews(v@) == spec_fallback_tokens(text@),
    {
        Ok(fallback_tokenize(text))
    }
}

/// A token: not empty, without whitespace, and all ASCII or all non-ASCII.
pub open spec fn is_token(t: Seq<char>) -> bool {
    &&& t.len() > 0
    &&& forall|k: int| 0 <= k < t.len() ==> !is_ws(#[trigger] t[k])
    &&& forall|k: int| 0 <= k < t.len() ==> is_ascii_char(#[trigger] t[k]) == is_ascii_char(t[0])
}

proof fn lemma_fb_state(s: Seq<char>)
    ensures
        forall|k: int| 0 <= k < fb_state(s).0.len() ==> is_token(#[trigger] fb_state(s).0[k]),
        forall|k: int| 0 <= k < fb_state(s).1.len() ==> !is_ws(#[trigger] fb_state(s).1[k])
            && is_ascii_char(fb_state(s).1[k]) == fb_state(s).2,
    decreases s.len(),
{
    if s.len() > 0 {
        lemma_fb_state(s.drop_last());
        let (toks, cur, prev) = fb_state(s.drop_last());
        let ch = s.last();
        if cur.len() > 0 {
            assert(is_token(cur)) by {
                assert forall|k: int| 0 <= k < cur.len() implies is_ascii_char(#[trigger] cur[k]) == is_ascii_char(cur[0]) by {
                    assert(is_ascii_char(cur[k]) == prev);
                    assert(is_ascii_char(cur[0]) == prev);
                }
            }
        }
        let (t2, c2, p2) = fb_state(s);
        assert forall|k: int| 0 <= k < t2.len() implies is_token(#[trigger] t2[k]) by {
            if k < toks.len() {
                assert(t2[k] == toks[k]);
            } else {
                assert(t2[k] == cur);
            }
        }
        assert forall|k: int| 0 <= k < c2.len() implies !is_ws(#[trigger] c2[k]) && is_ascii_char(c2[k]) == p2 by {
            if !is_ws(ch) && !(cur.len() > 0 && is_ascii_char(ch) != prev) {
                if k < cur.len() {
                    assert(c2[k] == cur[k]);
                } else {
                    assert(c2[k] == ch);
                }
            }
        }
    }
}

/// Every token of the fallback split is a token: not empty, free of
/// whitespace, and all ASCII or all non-ASCII.
pub proof fn lemma_fallback_tokens_are_tokens(s: Seq<char>)
    ensures
        forall|k: int| 0 <= k < spec_fallback_tokens(s).len() ==> is_token(#[trigger] spec_fallback_tokens(s)[k]),
{
    lemma_fb_state(s);
    let (toks, cur, prev) = fb_state(s);
    if cur.len() > 0 {
        assert(is_token(cur)) by {
            assert forall|k: int| 0 <= k < cur.len() implies is_ascii_char(#[trigger] cur[k]) == is_ascii_char(cur[0]) by {
                assert(is_ascii_char(cur[k]) == prev);
                assert(is_ascii_char(cur[0]) == prev);
            }
        }
        assert forall|k: int| 0 <= k < toks.push(cur).len() implies is_token(#[trigger] toks.push(cur)[k]) by {
            if k < toks.len() {
                assert(toks.push(cur)[k] == toks[k]);
            }
        }
    }
}

/// The tokens joined end to end.
pub open spec fn joined(toks: Seq<Seq<char>>) -> Seq<char>
    decreases toks.len(),
{
    if toks.len() == 0 {
        Seq::empty()
    } else {
        joined(toks.drop_last()) + toks.last()
    }
}

proof fn lemma_fb_joined(s: Seq<char>)
    ensures
        joined(fb_state(s).0) + fb_state(s).1 == s.filter(|c: char| !is_ws(c)),
    decreases s.len(),
{
    if s.len() == 0 {
        assert(s.filter(|c: char| !is_ws(c)) =~= Seq::<char>::empty());
        assert(joined(fb_state(s).0) + fb_state(s).1 =~= Seq::<char>::empty());
    } else {
        lemma_fb_joined(s.drop_last());
        let (toks, cur, prev) = fb_state(s.drop_last());
        let ch = s.last();
        assert(s =~= s.drop_last().push(ch));
        s.drop_last().lemma_filter_push(ch, |c: char| !is_ws(c));
        let f0 = s.drop_last().filter(|c: char| !is_ws(c));
        if is_ws(ch) {
            if cur.len() > 0 {
                assert(toks.push(cur).drop_last() =~= toks);
                assert(joined(toks.push(cur)) + Seq::<char>::empty() =~= joined(toks) + cur);
            }
        } else {
            let a = is_ascii_char(ch);
            if cur.len() > 0 && a != prev {
                assert(toks.push(cur).drop_last() =~= toks);
                assert(joined(toks.push(cur)) + seq![ch] =~= (joined(toks) + cur).push(ch));
            } else {
                assert(joined(toks) + cur.push(ch) =~= (joined(toks) + cur).push(ch));
            }
        }
    }
}

/// The tokens of the fallback split, joined, give the text without its
/// whitespace: no character is lost, added or moved.
pub proof fn lemma_fallback_tokens_join(s: Seq<char>)
    ensures
        joined(spec_fallback_tokens(s)) == s.filter(|c: char| !is_ws(c)),
{
    lemma_fb_joined(s);
    let (toks, cur, prev) = fb_state(s);
    if cur.len() > 0 {
        assert(toks.push(cur).drop_last() =~= toks);
    } else {
        assert(joined(toks) + cur =~= joined(toks));
    }
}

} // verus!
