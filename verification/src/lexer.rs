//! The lexer: a single left-to-right scan from text to tokens.
//!
//! The scan is total. Each step either consumes a lexeme and emits one
//! token, skips one whitespace character, or skips one unrecognized
//! character without emitting anything. Checks are tried in a fixed order:
//! whitespace, digit run, quoted string, the literals `null` / `true` /
//! `false`, then single-character punctuation.

use crate::digits::is_digit_char;
use crate::text::chars_of;
use crate::text::string_from_range;
use crate::token::tokens_view;
use crate::token::SpecToken;
use crate::token::Token;
use vstd::prelude::*;

verus! {

/// Is `c` a whitespace character the lexer skips?
pub open spec fn is_space_char(c: char) -> bool {
    c == ' ' || c == '\t' || c == '\n' || c == '\r'
}

/// The length of the maximal run of ASCII digits at the front of `s`.
pub open spec fn digit_run(s: Seq<char>) -> nat
    decreases s.len(),
{
    if s.len() > 0 && is_digit_char(s[0]) {
        (digit_run(s.skip(1)) + 1) as nat
    } else {
        0
    }
}

/// The index of the first double quote in `s`, or `-1` if there is none.
pub open spec fn quote_pos(s: Seq<char>) -> int
    decreases s.len(),
{
    if s.len() == 0 {
        -1
    } else if s[0] == '"' {
        0
    } else if quote_pos(s.skip(1)) >= 0 {
        quote_pos(s.skip(1)) + 1
    } else {
        -1
    }
}

/// Does `s` begin with the word `w`?
pub open spec fn begins_with(s: Seq<char>, w: Seq<char>) -> bool {
    s.len() >= w.len() && s.take(w.len() as int) == w
}

/// The characters of the literal `null`.
pub open spec fn lit_null() -> Seq<char> {
    seq!['n', 'u', 'l', 'l']
}

/// The characters of the literal `true`.
pub open spec fn lit_true() -> Seq<char> {
    seq!['t', 'r', 'u', 'e']
}

/// The characters of the literal `false`.
pub open spec fn lit_false() -> Seq<char> {
    seq!['f', 'a', 'l', 's', 'e']
}

/// The maximal digit run is no longer than the text, its characters are
/// digits, and it is maximal.
pub proof fn lemma_digit_run(s: Seq<char>)
    ensures
        digit_run(s) <= s.len(),
        forall|i: int| 0 <= i < digit_run(s) ==> is_digit_char(#[trigger] s[i]),
        digit_run(s) < s.len() ==> !is_digit_char(s[digit_run(s) as int]),
    decreases s.len(),
{
    if s.len() > 0 && is_digit_char(s[0]) {
        lemma_digit_run(s.skip(1));
        assert forall|i: int| 0 <= i < digit_run(s) implies is_digit_char(s[i]) by {
            if i > 0 {
                assert(s.skip(1)[i - 1] == s[i]);
            }
        }
    }
}

/// A run of `k` digits followed by a non-digit (or the end of the text)
/// is the maximal digit run.
pub proof fn lemma_digit_run_eq(s: Seq<char>, k: int)
    requires
        0 <= k <= s.len(),
        forall|i: int| 0 <= i < k ==> is_digit_char(#[trigger] s[i]),
        k == s.len() || !is_digit_char(s[k]),
    ensures
        digit_run(s) == k,
    decreases s.len(),
{
    if k == 0 {
    } else {
        assert(is_digit_char(s[0]));
        lemma_digit_run_eq(s.skip(1), k - 1);
    }
}

/// Where `quote_pos` points, there stands a quote, and none stands
/// earlier; where it is `-1`, the text holds no quote.
pub proof fn lemma_quote_pos(s: Seq<char>)
    ensures
        quote_pos(s) >= -1,
        quote_pos(s) < s.len(),
        quote_pos(s) >= 0 ==> s[quote_pos(s)] == '"',
        forall|i: int| 0 <= i < s.len() && s[i] == '"' ==> quote_pos(s) >= 0,
        forall|i: int| 0 <= i < quote_pos(s) ==> #[trigger] s[i] != '"',
    decreases s.len(),
{
    if s.len() == 0 {
    } else if s[0] == '"' {
    } else {
        lemma_quote_pos(s.skip(1));
        assert forall|i: int| 0 <= i < s.len() && s[i] == '"' implies quote_pos(s) >= 0 by {
            if i > 0 {
                assert(s.skip(1)[i - 1] == s[i]);
            }
        }
        assert forall|i: int| 0 <= i < quote_pos(s) implies s[i] != '"' by {
            if i > 0 {
                assert(s.skip(1)[i - 1] == s[i]);
            }
        }
    }
}

/// The first quote at index `k` fixes `quote_pos`.
pub proof fn lemma_quote_pos_eq(s: Seq<char>, k: int)
    requires
        0 <= k < s.len(),
        s[k] == '"',
        forall|i: int| 0 <= i < k ==> #[trigger] s[i] != '"',
    ensures
        quote_pos(s) == k,
    decreases s.len(),
{
    if k == 0 {
    } else {
        lemma_quote_pos_eq(s.skip(1), k - 1);
    }
}

/// A text without quotes has no quote position.
pub proof fn lemma_quote_pos_none(s: Seq<char>)
    requires
        forall|i: int| 0 <= i < s.len() ==> #[trigger] s[i] != '"',
    ensures
        quote_pos(s) == -1,
    decreases s.len(),
{
    if s.len() > 0 {
        lemma_quote_pos_none(s.skip(1));
    }
}

/// If `s` begins with `w`, the leading characters of `s` are those of `w`.
pub proof fn lemma_begins_with_chars(s: Seq<char>, w: Seq<char>)
    requires
        begins_with(s, w),
    ensures
        forall|i: int| 0 <= i < w.len() ==> s[i] == w[i],
{
    assert forall|i: int| 0 <= i < w.len() implies s[i] == w[i] by {
        assert(s.take(w.len() as int)[i] == s[i]);
    }
}

/// The token sequence of `s`, by a single scan from the left.
///
/// An unterminated string literal consumes the rest of the text and yields
/// a string token holding it; any character that starts no lexeme is
/// skipped.
pub open spec fn spec_tokenize(s: Seq<char>) -> Seq<SpecToken>
    decreases s.len(),
{
    if s.len() == 0 {
        Seq::empty()
    } else if is_space_char(s[0]) {
        spec_tokenize(s.skip(1))
    } else if is_digit_char(s[0]) {
        let n = digit_run(s) as int;
        proof {
            lemma_digit_run(s);
        }
        seq![SpecToken::Number(s.take(n))] + spec_tokenize(s.skip(n))
    } else if s[0] == '"' {
        let rest = s.skip(1);
        let q = quote_pos(rest);
        proof {
            lemma_quote_pos(rest);
        }
        if q >= 0 {
            seq![SpecToken::String(rest.take(q))] + spec_tokenize(rest.skip(q + 1))
        } else {
            seq![SpecToken::String(rest)]
        }
    } else if begins_with(s, lit_null()) {
        seq![SpecToken::Null] + spec_tokenize(s.skip(4))
    } else if begins_with(s, lit_true()) {
        seq![SpecToken::Boolean(true)] + spec_tokenize(s.skip(4))
    } else if begins_with(s, lit_false()) {
        seq![SpecToken::Boolean(false)] + spec_tokenize(s.skip(5))
    } else if s[0] == '[' {
        seq![SpecToken::LeftBracket] + spec_tokenize(s.skip(1))
    } else if s[0] == ']' {
        seq![SpecToken::RightBracket] + spec_tokenize(s.skip(1))
    } else if s[0] == '{' {
        seq![SpecToken::LeftBrace] + spec_tokenize(s.skip(1))
    } else if s[0] == '}' {
        seq![SpecToken::RightBrace] + spec_tokenize(s.skip(1))
    } else if s[0] == ':' {
        seq![SpecToken::Colon] + spec_tokenize(s.skip(1))
    } else if s[0] == ',' {
        seq![SpecToken::Comma] + spec_tokenize(s.skip(1))
    } else {
        spec_tokenize(s.skip(1))
    }
}

/// Pushing the first token of the remaining text keeps the scan's tally:
/// tokens emitted so far plus the tokens of the rest give the whole.
proof fn lemma_advance(full: Seq<char>, toks_pre: Seq<Token>, t: Token, i: int, k: int)
    requires
        0 <= i,
        0 <= k,
        i + k <= full.len(),
        tokens_view(toks_pre) + spec_tokenize(full.skip(i)) == spec_tokenize(full),
        spec_tokenize(full.skip(i)) == seq![t@] + spec_tokenize(full.skip(i + k)),
    ensures
        tokens_view(toks_pre.push(t)) + spec_tokenize(full.skip(i + k)) == spec_tokenize(full),
{
    crate::token::lemma_tokens_view_push(toks_pre, t);
    assert(tokens_view(toks_pre.push(t)) + spec_tokenize(full.skip(i + k)) =~= tokens_view(
        toks_pre,
    ) + (seq![t@] + spec_tokenize(full.skip(i + k))));
}

/// Turns `text` into its token sequence by one scan from the left.
///
/// Total over every input: unrecognized characters are skipped, never
/// reported. Malformed input surfaces only from the parser.
pub fn tokenize(text: &str) -> (r: Vec<Token>)
    ensures
        tokens_view(r@) == spec_tokenize(text@),
{
    let cs = chars_of(text);
    let n = cs.len();
    let mut toks: Vec<Token> = Vec::new();
    let mut i: usize = 0;
    proof {
        assert(text@.skip(0) =~= text@);
        assert(tokens_view(toks@) + spec_tokenize(text@) =~= spec_tokenize(text@));
    }
    while i < n
        invariant
            cs@ == text@,
            n == cs@.len(),
            i <= n,
            tokens_view(toks@) + spec_tokenize(text@.skip(i as int)) == spec_tokenize(text@),
        decreases n - i,
    {
        let ghost s = text@.skip(i as int);
        let c = cs[i];
        assert(s[0] == c);
        if c == ' ' || c == '\t' || c == '\n' || c == '\r' {
            proof {
                assert(s.skip(1) =~= text@.skip(i as int + 1));
            }
            i = i + 1;
        } else if 48 <= c as u32 && c as u32 <= 57 {
            let start = i;
            i = i + 1;
            while i < n && 48 <= cs[i] as u32 && cs[i] as u32 <= 57
                invariant
                    cs@ == text@,
                    n == cs@.len(),
                    start < i <= n,
                    forall|j: int| start <= j < i ==> is_digit_char(#[trigger] text@[j]),
                decreases n - i,
            {
                i = i + 1;
            }
            let dstr = string_from_range(&cs, start, i);
            let t = Token::Number(dstr);
            proof {
                let k = i - start;
                assert forall|j: int| 0 <= j < k implies is_digit_char(s[j]) by {
                    assert(s[j] == text@[start + j]);
                }
                assert(k == s.len() || !is_digit_char(s[k as int])) by {
                    if k < s.len() {
                        assert(s[k as int] == text@[i as int]);
                    }
                }
                lemma_digit_run_eq(s, k as int);
                assert(s.take(k as int) =~= text@.subrange(start as int, i as int));
                assert(s.skip(k as int) =~= text@.skip(i as int));
                assert(spec_tokenize(s) == seq![t@] + spec_tokenize(text@.skip(i as int)));
                lemma_advance(text@, toks@, t, start as int, k as int);
            }
            toks.push(t);
        } else if c == '"' {
            let mut j = i + 1;
            while j < n && cs[j] != '"'
                invariant
                    cs@ == text@,
                    n == cs@.len(),
                    i + 1 <= j <= n,
                    forall|m: int| i + 1 <= m < j ==> #[trigger] text@[m] != '"',
                decreases n - j,
            {
                j = j + 1;
            }
            let ghost rest = s.skip(1);
            proof {
                assert(rest =~= text@.skip(i as int + 1));
            }
            if j < n {
                let content = string_from_range(&cs, i + 1, j);
                let t = Token::String(content);
                proof {
                    let q = j - (i + 1);
                    assert forall|m: int| 0 <= m < q implies rest[m] != '"' by {
                        assert(rest[m] == text@[i + 1 + m]);
                    }
                    assert(rest[q as int] == text@[j as int]);
                    lemma_quote_pos_eq(rest, q as int);
                    assert(rest.take(q as int) =~= text@.subrange(i as int + 1, j as int));
                    assert(rest.skip(q as int + 1) =~= text@.skip(j as int + 1));
                    assert(spec_tokenize(s) == seq![t@] + spec_tokenize(text@.skip(j as int + 1)));
                    lemma_advance(text@, toks@, t, i as int, j + 1 - i);
                }
                toks.push(t);
                i = j + 1;
            } else {
                let content = string_from_range(&cs, i + 1, n);
                let t = Token::String(content);
                proof {
                    assert forall|m: int| 0 <= m < rest.len() implies rest[m] != '"' by {
                        assert(rest[m] == text@[i + 1 + m]);
                    }
                    lemma_quote_pos_none(rest);
                    assert(rest =~= text@.subrange(i as int + 1, n as int));
                    assert(text@.skip(n as int) =~= Seq::<char>::empty());
                    assert(spec_tokenize(s) == seq![t@] + spec_tokenize(text@.skip(n as int)));
                    lemma_advance(text@, toks@, t, i as int, n - i);
                }
                toks.push(t);
                i = n;
            }
        } else if c == 'n' {
            if n - i > 3 && cs[i + 1] == 'u' && cs[i + 2] == 'l' && cs[i + 3] == 'l' {
                let t = Token::Null;
                proof {
                    assert(s[1] == text@[i + 1]);
                    assert(s[2] == text@[i + 2]);
                    assert(s[3] == text@[i + 3]);
                    assert(s.take(4) =~= lit_null());
                    assert(s.skip(4) =~= text@.skip(i as int + 4));
                    assert(spec_tokenize(s) == seq![t@] + spec_tokenize(text@.skip(i as int + 4)));
                    lemma_advance(text@, toks@, t, i as int, 4);
                }
                toks.push(t);
                i = i + 4;
            } else {
                proof {
                    assert(!begins_with(s, lit_null())) by {
                        if begins_with(s, lit_null()) {
                            lemma_begins_with_chars(s, lit_null());
                            assert(s[1] == text@[i + 1]);
                            assert(s[2] == text@[i + 2]);
                            assert(s[3] == text@[i + 3]);
                        }
                    }
                    assert(!begins_with(s, lit_true())) by {
                        if begins_with(s, lit_true()) {
                            lemma_begins_with_chars(s, lit_true());
                        }
                    }
                    assert(!begins_with(s, lit_false())) by {
                        if begins_with(s, lit_false()) {
                            lemma_begins_with_chars(s, lit_false());
                        }
                    }
                    assert(s.skip(1) =~= text@.skip(i as int + 1));
                }
                i = i + 1;
            }
        } else if c == 't' {
            if n - i > 3 && cs[i + 1] == 'r' && cs[i + 2] == 'u' && cs[i + 3] == 'e' {
                let t = Token::Boolean(true);
                proof {
                    assert(!begins_with(s, lit_null())) by {
                        if begins_with(s, lit_null()) {
                            lemma_begins_with_chars(s, lit_null());
                        }
                    }
                    assert(s[1] == text@[i + 1]);
                    assert(s[2] == text@[i + 2]);
                    assert(s[3] == text@[i + 3]);
                    assert(s.take(4) =~= lit_true());
                    assert(s.skip(4) =~= text@.skip(i as int + 4));
                    assert(spec_tokenize(s) == seq![t@] + spec_tokenize(text@.skip(i as int + 4)));
                    lemma_advance(text@, toks@, t, i as int, 4);
                }
                toks.push(t);
                i = i + 4;
            } else {
                proof {
                    assert(!begins_with(s, lit_null())) by {
                        if begins_with(s, lit_null()) {
                            lemma_begins_with_chars(s, lit_null());
                        }
                    }
                    assert(!begins_with(s, lit_true())) by {
                        if begins_with(s, lit_true()) {
                            lemma_begins_with_chars(s, lit_true());
                            assert(s[1] == text@[i + 1]);
                            assert(s[2] == text@[i + 2]);
                            assert(s[3] == text@[i + 3]);
                        }
                    }
                    assert(!begins_with(s, lit_false())) by {
                        if begins_with(s, lit_false()) {
                            lemma_begins_with_chars(s, lit_false());
                        }
                    }
                    assert(s.skip(1) =~= text@.skip(i as int + 1));
                }
                i = i + 1;
            }
        } else if c == 'f' {
            if n - i > 4 && cs[i + 1] == 'a' && cs[i + 2] == 'l' && cs[i + 3] == 's' && cs[i + 4]
                == 'e' {
                let t = Token::Boolean(false);
                proof {
                    assert(!begins_with(s, lit_null())) by {
                        if begins_with(s, lit_null()) {
                            lemma_begins_with_chars(s, lit_null());
                        }
                    }
                    assert(!begins_with(s, lit_true())) by {
                        if begins_with(s, lit_true()) {
                            lemma_begins_with_chars(s, lit_true());
                        }
                    }
                    assert(s[1] == text@[i + 1]);
                    assert(s[2] == text@[i + 2]);
                    assert(s[3] == text@[i + 3]);
                    assert(s[4] == text@[i + 4]);
                    assert(s.take(5) =~= lit_false());
                    assert(s.skip(5) =~= text@.skip(i as int + 5));
                    assert(spec_tokenize(s) == seq![t@] + spec_tokenize(text@.skip(i as int + 5)));
                    lemma_advance(text@, toks@, t, i as int, 5);
                }
                toks.push(t);
                i = i + 5;
            } else {
                proof {
                    assert(!begins_with(s, lit_null())) by {
                        if begins_with(s, lit_null()) {
                            lemma_begins_with_chars(s, lit_null());
                        }
                    }
                    assert(!begins_with(s, lit_true())) by {
                        if begins_with(s, lit_true()) {
                            lemma_begins_with_chars(s, lit_true());
                        }
                    }
                    assert(!begins_with(s, lit_false())) by {
                        if begins_with(s, lit_false()) {
                            lemma_begins_with_chars(s, lit_false());
                            assert(s[1] == text@[i + 1]);
                            assert(s[2] == text@[i + 2]);
                            assert(s[3] == text@[i + 3]);
                            assert(s[4] == text@[i + 4]);
                        }
                    }
                    assert(s.skip(1) =~= text@.skip(i as int + 1));
                }
                i = i + 1;
            }
        } else {
            let t = if c == '[' {
                Some(Token::LeftBracket)
            } else if c == ']' {
                Some(Token::RightBracket)
            } else if c == '{' {
                Some(Token::LeftBrace)
            } else if c == '}' {
                Some(Token::RightBrace)
            } else if c == ':' {
                Some(Token::Colon)
            } else if c == ',' {
                Some(Token::Comma)
            } else {
                None
            };
            proof {
                assert(!begins_with(s, lit_null())) by {
                    if begins_with(s, lit_null()) {
                        lemma_begins_with_chars(s, lit_null());
                    }
                }
                assert(!begins_with(s, lit_true())) by {
                    if begins_with(s, lit_true()) {
                        lemma_begins_with_chars(s, lit_true());
                    }
                }
                assert(!begins_with(s, lit_false())) by {
                    if begins_with(s, lit_false()) {
                        lemma_begins_with_chars(s, lit_false());
                    }
                }
                assert(s.skip(1) =~= text@.skip(i as int + 1));
            }
            match t {
                Some(t) => {
                    proof {
                        assert(spec_tokenize(s) == seq![t@] + spec_tokenize(
                            text@.skip(i as int + 1),
                        ));
                        lemma_advance(text@, toks@, t, i as int, 1);
                    }
                    toks.push(t);
                },
                None => {
                },
            }
            i = i + 1;
        }
    }
    proof {
        assert(text@.skip(n as int) =~= Seq::<char>::empty());
        assert(tokens_view(toks@) =~= tokens_view(toks@) + spec_tokenize(text@.skip(n as int)));
    }
    toks
}

/// A well-formed token: a number token holds a non-empty run of ASCII
/// digits, and a string token holds no double quote. Every other token
/// is well-formed as it stands.
pub open spec fn token_wf(t: SpecToken) -> bool {
    match t {
        SpecToken::Number(ds) => ds.len() >= 1 && (forall|j: int|
            0 <= j < ds.len() ==> is_digit_char(#[trigger] ds[j])),
        SpecToken::String(s) => crate::value::quote_free(s),
        _ => true,
    }
}

/// All tokens of the sequence are well-formed.
pub open spec fn tokens_wf(ts: Seq<SpecToken>) -> bool {
    forall|i: int| 0 <= i < ts.len() ==> token_wf(#[trigger] ts[i])
}

/// The lexer only emits well-formed tokens.
pub proof fn lemma_spec_tokenize_wf(s: Seq<char>)
    ensures
        tokens_wf(spec_tokenize(s)),
    decreases s.len(),
{
    if s.len() == 0 {
    } else if is_space_char(s[0]) {
        lemma_spec_tokenize_wf(s.skip(1));
    } else if is_digit_char(s[0]) {
        let n = digit_run(s) as int;
        lemma_digit_run(s);
        lemma_spec_tokenize_wf(s.skip(n));
        assert(token_wf(SpecToken::Number(s.take(n)))) by {
            assert forall|j: int| 0 <= j < n implies is_digit_char(s.take(n)[j]) by {
                assert(s.take(n)[j] == s[j]);
            }
        }
        lemma_tokens_wf_cons(SpecToken::Number(s.take(n)), spec_tokenize(s.skip(n)));
    } else if s[0] == '"' {
        let rest = s.skip(1);
        let q = quote_pos(rest);
        lemma_quote_pos(rest);
        if q >= 0 {
            lemma_spec_tokenize_wf(rest.skip(q + 1));
            assert(crate::value::quote_free(rest.take(q))) by {
                assert forall|j: int| 0 <= j < q implies rest.take(q)[j] != '"' by {
                    assert(rest.take(q)[j] == rest[j]);
                }
            }
            lemma_tokens_wf_cons(SpecToken::String(rest.take(q)), spec_tokenize(rest.skip(q + 1)));
        } else {
            assert(crate::value::quote_free(rest));
            lemma_tokens_wf_cons(SpecToken::String(rest), Seq::empty());
            assert(spec_tokenize(s) =~= seq![SpecToken::String(rest)] + Seq::empty());
        }
    } else if begins_with(s, lit_null()) {
        lemma_spec_tokenize_wf(s.skip(4));
        lemma_tokens_wf_cons(SpecToken::Null, spec_tokenize(s.skip(4)));
    } else if begins_with(s, lit_true()) {
        lemma_spec_tokenize_wf(s.skip(4));
        lemma_tokens_wf_cons(SpecToken::Boolean(true), spec_tokenize(s.skip(4)));
    } else if begins_with(s, lit_false()) {
        lemma_spec_tokenize_wf(s.skip(5));
        lemma_tokens_wf_cons(SpecToken::Boolean(false), spec_tokenize(s.skip(5)));
    } else {
        lemma_spec_tokenize_wf(s.skip(1));
        if s[0] == '[' {
            lemma_tokens_wf_cons(SpecToken::LeftBracket, spec_tokenize(s.skip(1)));
        } else if s[0] == ']' {
            lemma_tokens_wf_cons(SpecToken::RightBracket, spec_tokenize(s.skip(1)));
        } else if s[0] == '{' {
            lemma_tokens_wf_cons(SpecToken::LeftBrace, spec_tokenize(s.skip(1)));
        } else if s[0] == '}' {
            lemma_tokens_wf_cons(SpecToken::RightBrace, spec_tokenize(s.skip(1)));
        } else if s[0] == ':' {
            lemma_tokens_wf_cons(SpecToken::Colon, spec_tokenize(s.skip(1)));
        } else if s[0] == ',' {
            lemma_tokens_wf_cons(SpecToken::Comma, spec_tokenize(s.skip(1)));
        }
    }
}

/// A well-formed token in front of a well-formed sequence gives a
/// well-formed sequence.
pub proof fn lemma_tokens_wf_cons(t: SpecToken, ts: Seq<SpecToken>)
    requires
        token_wf(t),
        tokens_wf(ts),
    ensures
        tokens_wf(seq![t] + ts),
{
    assert forall|i: int| 0 <= i < (seq![t] + ts).len() implies token_wf((seq![t] + ts)[i]) by {
        if i > 0 {
            assert((seq![t] + ts)[i] == ts[i - 1]);
        }
    }
}

} // verus!
