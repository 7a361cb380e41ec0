//! The tokens of JSON text, and where the string under a key stands in it.

use vstd::prelude::*;

use crate::text::{string_of, text_eq};

verus! {

// ---------------------------------------------------------------------
// Tokens
// ---------------------------------------------------------------------

/// The first unescaped double quote from `from` on: a backslash takes the character
/// behind it along.
pub open spec fn closing_quote(s: Seq<char>, from: int) -> Option<int>
    decreases s.len() + 1 - from,
{
    if from >= s.len() {
        None
    } else if s[from] == '\\' {
        closing_quote(s, from + 2)
    } else if s[from] == '"' {
        Some(from)
    } else {
        closing_quote(s, from + 1)
    }
}

/// A character that JSON allows between its tokens.
pub open spec fn is_blank(c: char) -> bool {
    c == ' ' || c == '\t' || c == '\n' || c == '\r'
}

/// The first position from `i` on that holds no blank.
pub open spec fn skip_blanks(s: Seq<char>, i: int) -> int
    decreases s.len() - i,
{
    if 0 <= i < s.len() && is_blank(s[i]) {
        skip_blanks(s, i + 1)
    } else {
        i
    }
}

/// How a character outside strings changes the depth of nesting.
pub open spec fn depth_change(c: char) -> int {
    if c == '{' || c == '[' {
        1
    } else if c == '}' || c == ']' {
        -1
    } else {
        0
    }
}

/// What JSON text is made of, blanks aside: strings, and single characters outside them.
#[verifier::ext_equal]
pub enum Token {
    /// A string, with what stands between its quotes.
    Text(Seq<char>),
    /// A string that is never closed.
    Unclosed(Seq<char>),
    /// A character outside strings, as a text of its own.
    Mark(Seq<char>),
}

/// A token with others behind it.
pub open spec fn token_first(first: Token, rest: Seq<Token>) -> Seq<Token> {
    Seq::empty().push(first) + rest
}

/// The tokens of `s` from position `i` on.
pub open spec fn tokens_from(s: Seq<char>, i: int) -> Seq<Token>
    decreases s.len() - i,
{
    if i < 0 || i >= s.len() {
        Seq::empty()
    } else if s[i] == '"' {
        match closing_quote(s, i + 1) {
            Some(end) => if i < end < s.len() {
                token_first(Token::Text(s.subrange(i + 1, end)), tokens_from(s, end + 1))
            } else {
                Seq::empty()
            },
            None => token_first(Token::Unclosed(s.skip(i + 1)), Seq::empty()),
        }
    } else if is_blank(s[i]) {
        tokens_from(s, i + 1)
    } else {
        token_first(Token::Mark(s.subrange(i, i + 1)), tokens_from(s, i + 1))
    }
}

/// How a token changes the depth of nesting.
pub open spec fn token_depth(token: Token) -> int {
    match token {
        Token::Mark(c) => depth_change(c[0]),
        _ => 0,
    }
}

/// How deep the place behind the tokens is nested.
pub open spec fn nesting(tokens: Seq<Token>) -> int
    decreases tokens.len(),
{
    if tokens.len() == 0 {
        0
    } else {
        token_depth(tokens[0]) + nesting(tokens.skip(1))
    }
}

/// Token `n` is a key that reads `key`: a string with a colon behind it. Where `top` is
/// set, it is one of the outermost object, the tokens beginning at the given depth.
pub open spec fn is_key_token(
    tokens: Seq<Token>,
    depth: int,
    n: int,
    key: Seq<char>,
    top: bool,
) -> bool {
    &&& 0 <= n
    &&& n + 1 < tokens.len()
    &&& tokens[n] == Token::Text(key)
    &&& tokens[n + 1] == Token::Mark(":"@)
    &&& top ==> depth + nesting(tokens.take(n)) == 1
}

/// There is a key that reads `key` among the tokens.
pub open spec fn has_key(tokens: Seq<Token>, depth: int, key: Seq<char>, top: bool) -> bool {
    exists|n: int| #[trigger] is_key_token(tokens, depth, n, key, top)
}

// ---------------------------------------------------------------------
// Keys and their values
// ---------------------------------------------------------------------

/// The first character behind `i` that is no blank is a colon.
pub open spec fn colon_follows(s: Seq<char>, i: int) -> bool {
    skip_blanks(s, i + 1) < s.len() && s[skip_blanks(s, i + 1)] == ':'
}

/// Where a key ends, looking from `i` on at the given depth: at the closing quote of the
/// first string that reads `key` and has a colon behind it. Where `top` is set, only
/// strings at depth one count, which are those of the outermost object.
pub open spec fn key_end(s: Seq<char>, i: int, depth: int, key: Seq<char>, top: bool) -> Option<
    int,
>
    decreases s.len() - i,
{
    if i < 0 || i >= s.len() {
        None
    } else if s[i] == '"' {
        match closing_quote(s, i + 1) {
            Some(end) => if (top ==> depth == 1) && s.subrange(i + 1, end) == key
                && colon_follows(s, end) {
                Some(end)
            } else if i < end < s.len() {
                key_end(s, end + 1, depth, key, top)
            } else {
                None
            },
            None => None,
        }
    } else {
        key_end(s, i + 1, depth + depth_change(s[i]), key, top)
    }
}

/// Where the value opens that belongs to the key that ends at `end`.
pub open spec fn value_start(s: Seq<char>, end: int) -> int {
    skip_blanks(s, skip_blanks(s, end + 1) + 1)
}

/// Where the text of the string stands that is the value of the key that ends at `end`:
/// between its quotes. Nowhere where the value is no string.
pub open spec fn string_span(s: Seq<char>, end: int) -> Option<(int, int)> {
    let quote = value_start(s, end);
    if quote < s.len() && s[quote] == '"' {
        match closing_quote(s, quote + 1) {
            Some(close) => Some((quote + 1, close)),
            None => None,
        }
    } else {
        None
    }
}

/// Where the text of the string stands that the outermost object has under `key`.
pub open spec fn member_span(s: Seq<char>, key: Seq<char>) -> Option<(int, int)> {
    match key_end(s, 0, 0, key, true) {
        Some(end) => string_span(s, end),
        None => None,
    }
}

/// A text with what stands in a span replaced.
pub open spec fn respelled(s: Seq<char>, span: (int, int), new: Seq<char>) -> Seq<char> {
    s.take(span.0) + new + s.skip(span.1)
}

/// A text that stands for itself between quotes: no quote, no backslash, no control
/// character.
pub open spec fn is_unescaped(s: Seq<char>) -> bool {
    forall|i: int| 0 <= i < s.len() ==> !needs_escape(#[trigger] s[i])
}

/// A character that does not stand for itself between quotes.
pub open spec fn needs_escape(c: char) -> bool {
    c == '"' || c == '\\' || (c as u32) < 32
}

// ---------------------------------------------------------------------
// Lemmas
// ---------------------------------------------------------------------

/// What `closing_quote` finds is a quote.
pub proof fn lemma_closing_quote(s: Seq<char>, from: int)
    requires
        0 <= from,
    ensures
        closing_quote(s, from) matches Some(k) ==> from <= k < s.len() && s[k] == '"',
    decreases s.len() + 1 - from,
{
    if from < s.len() {
        if s[from] == '\\' {
            lemma_closing_quote(s, from + 2);
        } else if s[from] != '"' {
            lemma_closing_quote(s, from + 1);
        }
    }
}

/// Text without quotes and backslashes ends at the first quote.
pub proof fn lemma_plain_closing_quote(s: Seq<char>, from: int, end: int)
    requires
        0 <= from <= end < s.len(),
        s[end] == '"',
        forall|i: int| from <= i < end ==> s[i] != '"' && s[i] != '\\',
    ensures
        closing_quote(s, from) == Some(end),
    decreases end - from,
{
    if from < end {
        lemma_plain_closing_quote(s, from + 1, end);
    }
}

/// What `skip_blanks` finds is no blank, and there are only blanks before it.
pub proof fn lemma_skip_blanks(s: Seq<char>, i: int)
    requires
        0 <= i <= s.len(),
    ensures
        i <= skip_blanks(s, i) <= s.len(),
        skip_blanks(s, i) < s.len() ==> !is_blank(s[skip_blanks(s, i)]),
        forall|j: int| i <= j < s.len() && !is_blank(#[trigger] s[j]) ==> skip_blanks(s, i) <= j,
    decreases s.len() - i,
{
    if i < s.len() && is_blank(s[i]) {
        lemma_skip_blanks(s, i + 1);
    }
}

/// What `key_end` finds is the closing quote of the key, with a colon behind it.
pub proof fn lemma_key_end(s: Seq<char>, i: int, depth: int, key: Seq<char>, top: bool)
    requires
        0 <= i,
    ensures
        key_end(s, i, depth, key, top) matches Some(k) ==> {
            &&& i + key.len() + 1 <= k < s.len()
            &&& s[k] == '"'
            &&& s[k - key.len() - 1] == '"'
            &&& s.subrange(k - key.len(), k) == key
            &&& colon_follows(s, k)
        },
    decreases s.len() - i,
{
    if i < s.len() {
        if s[i] == '"' {
            lemma_closing_quote(s, i + 1);
            if let Some(end) = closing_quote(s, i + 1) {
                if (top ==> depth == 1) && s.subrange(i + 1, end) == key && colon_follows(s, end) {
                    assert(s.subrange(i + 1, end).len() == key.len());
                } else {
                    lemma_key_end(s, end + 1, depth, key, top);
                }
            }
        } else {
            lemma_key_end(s, i + 1, depth + depth_change(s[i]), key, top);
        }
    }
}

/// Where a string stands that is the value of a key.
pub proof fn lemma_string_span(s: Seq<char>, end: int)
    requires
        0 <= end < s.len(),
        colon_follows(s, end),
    ensures
        end < skip_blanks(s, end + 1),
        string_span(s, end) matches Some((start, close)) ==> {
            &&& skip_blanks(s, end + 1) < start - 1
            &&& start - 1 == value_start(s, end)
            &&& start <= close < s.len()
            &&& s[start - 1] == '"'
            &&& closing_quote(s, start) == Some(close)
            &&& s[close] == '"'
        },
{
    lemma_skip_blanks(s, end + 1);
    let colon = skip_blanks(s, end + 1);
    lemma_skip_blanks(s, colon + 1);
    let quote = skip_blanks(s, colon + 1);
    if quote < s.len() {
        lemma_closing_quote(s, quote + 1);
    }
}

/// `s` and `t` hold the same characters before position `n`.
pub open spec fn agree_before(s: Seq<char>, t: Seq<char>, n: int) -> bool {
    &&& n <= s.len()
    &&& n <= t.len()
    &&& forall|i: int| 0 <= i < n ==> s[i] == t[i]
}

proof fn lemma_closing_quote_local(s: Seq<char>, t: Seq<char>, from: int, n: int)
    requires
        0 <= from,
        agree_before(s, t, n),
        closing_quote(s, from) matches Some(k) && k < n,
    ensures
        closing_quote(t, from) == closing_quote(s, from),
    decreases s.len() + 1 - from,
{
    lemma_closing_quote(s, from);
    if s[from] == '\\' {
        lemma_closing_quote_local(s, t, from + 2, n);
    } else if s[from] != '"' {
        lemma_closing_quote_local(s, t, from + 1, n);
    }
}

/// Blanks are skipped alike in texts that agree.
pub proof fn lemma_skip_blanks_local(s: Seq<char>, t: Seq<char>, i: int, n: int)
    requires
        0 <= i <= s.len(),
        agree_before(s, t, n),
        skip_blanks(s, i) < n,
    ensures
        skip_blanks(t, i) == skip_blanks(s, i),
    decreases s.len() - i,
{
    lemma_skip_blanks(s, i);
    if i < s.len() && is_blank(s[i]) {
        lemma_skip_blanks_local(s, t, i + 1, n);
    }
}

/// A key is found alike in texts that agree up to the colon behind it.
pub proof fn lemma_key_end_local(
    s: Seq<char>,
    t: Seq<char>,
    i: int,
    depth: int,
    key: Seq<char>,
    top: bool,
    n: int,
)
    requires
        0 <= i,
        agree_before(s, t, n),
        key_end(s, i, depth, key, top) matches Some(k) && skip_blanks(s, k + 1) < n,
    ensures
        key_end(t, i, depth, key, top) == key_end(s, i, depth, key, top),
    decreases s.len() - i,
{
    let k = key_end(s, i, depth, key, top)->0;
    lemma_key_end(s, i, depth, key, top);
    lemma_skip_blanks(s, k + 1);
    if s[i] == '"' {
        lemma_closing_quote(s, i + 1);
        let end = closing_quote(s, i + 1)->0;
        if (top ==> depth == 1) && s.subrange(i + 1, end) == key && colon_follows(s, end) {
            lemma_closing_quote_local(s, t, i + 1, n);
            lemma_skip_blanks_local(s, t, end + 1, n);
            assert(t.subrange(i + 1, end) =~= s.subrange(i + 1, end));
        } else {
            lemma_key_end(s, end + 1, depth, key, top);
            lemma_closing_quote_local(s, t, i + 1, n);
            lemma_skip_blanks(s, end + 1);
            assert(!is_blank(s[k]));
            lemma_skip_blanks_local(s, t, end + 1, n);
            assert(t.subrange(i + 1, end) =~= s.subrange(i + 1, end));
            lemma_key_end_local(s, t, end + 1, depth, key, top, n);
        }
    } else {
        lemma_key_end_local(s, t, i + 1, depth + depth_change(s[i]), key, top, n);
    }
}

proof fn lemma_tokens_skip(s: Seq<char>, i: int)
    requires
        0 <= i <= s.len(),
    ensures
        tokens_from(s, i) == tokens_from(s, skip_blanks(s, i)),
    decreases s.len() - i,
{
    if i < s.len() && is_blank(s[i]) {
        lemma_tokens_skip(s, i + 1);
    }
}

proof fn lemma_closing_quote_shift(s: Seq<char>, t: Seq<char>, i: int, shift: int)
    requires
        0 <= i,
        0 <= i + shift,
        t.len() == s.len() + shift,
        forall|x: int| i <= x < s.len() ==> s[x] == #[trigger] t[x + shift],
    ensures
        match closing_quote(s, i) {
            Some(k) => closing_quote(t, i + shift) == Some(k + shift),
            None => closing_quote(t, i + shift) is None,
        },
    decreases s.len() + 1 - i,
{
    if i < s.len() {
        assert(s[i] == t[i + shift]);
        if s[i] == '\\' {
            assert forall|x: int| i + 2 <= x < s.len() implies s[x] == #[trigger] t[x + shift] by {}
            lemma_closing_quote_shift(s, t, i + 2, shift);
        } else if s[i] != '"' {
            lemma_closing_quote_shift(s, t, i + 1, shift);
        }
    }
}

proof fn lemma_tokens_shift(s: Seq<char>, t: Seq<char>, i: int, shift: int)
    requires
        0 <= i,
        0 <= i + shift,
        t.len() == s.len() + shift,
        forall|x: int| i <= x < s.len() ==> s[x] == #[trigger] t[x + shift],
    ensures
        tokens_from(s, i) == tokens_from(t, i + shift),
    decreases s.len() - i,
{
    if i < s.len() {
        assert(s[i] == t[i + shift]);
        if s[i] == '"' {
            lemma_closing_quote(s, i + 1);
            lemma_closing_quote_shift(s, t, i + 1, shift);
            if let Some(end) = closing_quote(s, i + 1) {
                lemma_tokens_shift(s, t, end + 1, shift);
                let a = s.subrange(i + 1, end);
                let b = t.subrange(i + 1 + shift, end + shift);
                assert forall|x: int| 0 <= x < a.len() implies #[trigger] a[x] == b[x] by {
                    assert(s[i + 1 + x] == t[(i + 1 + x) + shift]);
                }
                assert(a =~= b);
            } else {
                let a = s.skip(i + 1);
                let b = t.skip(i + 1 + shift);
                assert forall|x: int| 0 <= x < a.len() implies #[trigger] a[x] == b[x] by {
                    assert(s[i + 1 + x] == t[(i + 1 + x) + shift]);
                }
                assert(a =~= b);
            }
        } else {
            lemma_tokens_shift(s, t, i + 1, shift);
            assert(s.subrange(i, i + 1) =~= t.subrange(i + shift, i + shift + 1));
        }
    }
}

proof fn lemma_tokens_mark(s: Seq<char>, i: int)
    requires
        0 <= i < s.len(),
        s[i] != '"',
        !is_blank(s[i]),
    ensures
        tokens_from(s, i) == token_first(Token::Mark(s.subrange(i, i + 1)), tokens_from(s, i + 1)),
{
}

/// A colon follows exactly where the first token behind is one.
proof fn lemma_colon_token(s: Seq<char>, i: int)
    requires
        0 <= i < s.len(),
    ensures
        ({
            let rest = tokens_from(s, i + 1);
            colon_follows(s, i) <==> rest.len() > 0 && rest[0] == Token::Mark(":"@)
        }),
{
    reveal_strlit(":");
    let rest = tokens_from(s, i + 1);
    lemma_tokens_skip(s, i + 1);
    lemma_skip_blanks(s, i + 1);
    let p = skip_blanks(s, i + 1);
    if p < s.len() {
        if s[p] == '"' {
            lemma_closing_quote(s, p + 1);
            match closing_quote(s, p + 1) {
                Some(e) => {
                    assert(rest[0] == Token::Text(s.subrange(p + 1, e)));
                },
                None => {
                    assert(rest[0] == Token::Unclosed(s.skip(p + 1)));
                },
            }
        } else {
            lemma_tokens_mark(s, p);
            assert(rest[0] == Token::Mark(s.subrange(p, p + 1)));
            assert(s.subrange(p, p + 1)[0] == s[p]);
            if s[p] == ':' {
                assert(s.subrange(p, p + 1) =~= ":"@);
            }
        }
    }
}

proof fn lemma_key_token_behind(
    first: Token,
    rest: Seq<Token>,
    depth: int,
    n: int,
    key: Seq<char>,
    top: bool,
)
    requires
        0 <= n,
    ensures
        is_key_token(token_first(first, rest), depth, n + 1, key, top) <==> is_key_token(
            rest,
            depth + token_depth(first),
            n,
            key,
            top,
        ),
{
    let all = token_first(first, rest);
    if n + 1 < rest.len() {
        assert(all.take(n + 1).skip(1) =~= rest.take(n));
        assert(all[n + 1] == rest[n]);
        assert(all[n + 2] == rest[n + 1]);
    }
}

proof fn lemma_first_key_token(
    first: Token,
    rest: Seq<Token>,
    depth: int,
    key: Seq<char>,
    top: bool,
)
    ensures
        is_key_token(token_first(first, rest), depth, 0, key, top) <==> (top ==> depth == 1)
            && first == Token::Text(key) && rest.len() > 0 && rest[0] == Token::Mark(":"@),
{
    let all = token_first(first, rest);
    assert(all.take(0) =~= Seq::<Token>::empty());
    if rest.len() > 0 {
        assert(all[1] == rest[0]);
    }
}

/// A key is found in a text exactly where there is one among its tokens.
pub proof fn lemma_key_tokens(s: Seq<char>, i: int, depth: int, key: Seq<char>, top: bool)
    requires
        0 <= i,
    ensures
        key_end(s, i, depth, key, top) is Some <==> has_key(tokens_from(s, i), depth, key, top),
    decreases s.len() - i,
{
    let ts = tokens_from(s, i);
    if i < s.len() {
        if s[i] == '"' {
            lemma_closing_quote(s, i + 1);
            match closing_quote(s, i + 1) {
                Some(end) => {
                    let first = Token::Text(s.subrange(i + 1, end));
                    let rest = tokens_from(s, end + 1);
                    assert(ts == token_first(first, rest));
                    lemma_first_key_token(first, rest, depth, key, top);
                    lemma_colon_token(s, end);
                    lemma_key_tokens(s, end + 1, depth, key, top);
                    lemma_key_behind(first, rest, depth, key, top);
                    assert(depth + token_depth(first) == depth);
                },
                None => {
                    assert(ts.len() == 1);
                },
            }
        } else {
            let inner = depth + depth_change(s[i]);
            lemma_key_tokens(s, i + 1, inner, key, top);
            if !is_blank(s[i]) {
                let first = Token::Mark(s.subrange(i, i + 1));
                let rest = tokens_from(s, i + 1);
                lemma_tokens_mark(s, i);
                assert(s.subrange(i, i + 1)[0] == s[i]);
                lemma_first_key_token(first, rest, depth, key, top);
                lemma_key_behind(first, rest, depth, key, top);
                assert(depth + token_depth(first) == inner);
            } else {
                assert(depth == inner);
            }
        }
    }
}

proof fn lemma_key_behind(
    first: Token,
    rest: Seq<Token>,
    depth: int,
    key: Seq<char>,
    top: bool,
)
    ensures
        has_key(token_first(first, rest), depth, key, top) <==> is_key_token(
            token_first(first, rest),
            depth,
            0,
            key,
            top,
        ) || has_key(rest, depth + token_depth(first), key, top),
{
    let all = token_first(first, rest);
    let inner = depth + token_depth(first);
    if has_key(all, depth, key, top) {
        let n = choose|n: int| #[trigger] is_key_token(all, depth, n, key, top);
        if n > 0 {
            lemma_key_token_behind(first, rest, depth, n - 1, key, top);
            assert(is_key_token(rest, inner, n - 1, key, top));
        }
    }
    if has_key(rest, inner, key, top) {
        let n = choose|n: int| #[trigger] is_key_token(rest, inner, n, key, top);
        lemma_key_token_behind(first, rest, depth, n, key, top);
        assert(is_key_token(all, depth, n + 1, key, top));
    }
}

/// The first key among the tokens of a text, the value behind it, and the tokens of the
/// text with that value replaced.
#[verifier::rlimit(60)]
#[verifier::spinoff_prover]
pub proof fn lemma_value_token(
    s: Seq<char>,
    i: int,
    depth: int,
    key: Seq<char>,
    top: bool,
    span: (int, int),
    new: Seq<char>,
) -> (n: int)
    requires
        0 <= i,
        key_end(s, i, depth, key, top) matches Some(k) && span.0 - 1 == value_start(s, k),
        0 < span.0 <= span.1 < s.len(),
        s[span.0 - 1] == '"',
        closing_quote(s, span.0) == Some(span.1),
        closing_quote(respelled(s, span, new), span.0) == Some(span.0 + new.len()),
    ensures
        is_key_token(tokens_from(s, i), depth, n, key, top),
        forall|m: int| m < n ==> !#[trigger] is_key_token(tokens_from(s, i), depth, m, key, top),
        n + 2 < tokens_from(s, i).len(),
        tokens_from(s, i)[n + 2] == Token::Text(s.subrange(span.0, span.1)),
        tokens_from(respelled(s, span, new), i) == tokens_from(s, i).update(
            n + 2,
            Token::Text(new),
        ),
    decreases s.len() - i,
{
    let t = respelled(s, span, new);
    let start = span.0;
    let end = span.1;
    let k = key_end(s, i, depth, key, top)->0;
    let ts = tokens_from(s, i);
    let tt = tokens_from(t, i);
    lemma_key_end(s, i, depth, key, top);
    lemma_skip_blanks(s, k + 1);
    let colon = skip_blanks(s, k + 1);
    lemma_skip_blanks(s, colon + 1);
    reveal_strlit(":");
    assert(agree_before(s, t, start));
    if s[i] == '"' {
        lemma_closing_quote(s, i + 1);
        let close = closing_quote(s, i + 1)->0;
        assert(close <= k) by {
            lemma_key_end(s, close + 1, depth, key, top);
        }
        lemma_closing_quote_local(s, t, i + 1, start);
        assert(s.subrange(i + 1, close) =~= t.subrange(i + 1, close));
        let rs = tokens_from(s, close + 1);
        let rt = tokens_from(t, close + 1);
        let first = Token::Text(s.subrange(i + 1, close));
        assert(ts == token_first(first, rs) && tt == token_first(first, rt));
        lemma_tokens_skip(s, close + 1);
        lemma_skip_blanks(s, close + 1);
        lemma_first_key_token(first, rs, depth, key, top);
        lemma_colon_token(s, close);
        if (top ==> depth == 1) && s.subrange(i + 1, close) == key && colon_follows(s, close) {
            assert(close == k);
            lemma_skip_blanks_local(s, t, k + 1, start);
            lemma_skip_blanks_local(s, t, colon + 1, start);
            lemma_tokens_skip(t, k + 1);
            lemma_tokens_skip(s, colon + 1);
            lemma_tokens_skip(t, colon + 1);
            let bs = tokens_from(s, end + 1);
            let shift = t.len() - s.len();
            assert forall|x: int| end + 1 <= x < s.len() implies s[x] == #[trigger] t[x + shift] by {}
            lemma_tokens_shift(s, t, end + 1, shift);
            assert(t.subrange(start, start + new.len()) =~= new);
            let vs = tokens_from(s, start - 1);
            let vt = tokens_from(t, start - 1);
            assert(vs == token_first(Token::Text(s.subrange(start, end)), bs));
            assert(t[start - 1] == '"');
            assert(vt == token_first(Token::Text(new), bs));
            assert(s.subrange(colon, colon + 1) =~= ":"@);
            assert(t.subrange(colon, colon + 1) =~= ":"@);
            assert(rs == token_first(Token::Mark(":"@), vs));
            assert(rt == token_first(Token::Mark(":"@), vt));
            assert(tt =~= ts.update(2, Token::Text(new)));
            0
        } else {
            lemma_key_end(s, close + 1, depth, key, top);
            let m = lemma_value_token(s, close + 1, depth, key, top, span, new);
            lemma_key_token_behind(first, rs, depth, m, key, top);
            assert forall|j: int| j < m + 1 implies !#[trigger] is_key_token(
                ts,
                depth,
                j,
                key,
                top,
            ) by {
                if j > 0 {
                    lemma_key_token_behind(first, rs, depth, j - 1, key, top);
                }
            }
            assert(tt =~= ts.update(m + 3, Token::Text(new)));
            m + 1
        }
    } else {
        let inner = depth + depth_change(s[i]);
        let m = lemma_value_token(s, i + 1, inner, key, top, span, new);
        lemma_key_end(s, i + 1, inner, key, top);
        assert(t[i] == s[i]);
        if is_blank(s[i]) {
            m
        } else {
            let first = Token::Mark(s.subrange(i, i + 1));
            let rs = tokens_from(s, i + 1);
            lemma_tokens_mark(s, i);
            lemma_tokens_mark(t, i);
            assert(s.subrange(i, i + 1)[0] == s[i]);
            assert(s.subrange(i, i + 1) =~= t.subrange(i, i + 1));
            lemma_key_token_behind(first, rs, depth, m, key, top);
            assert(ts[0] == first);
            assert forall|j: int| j < m + 1 implies !#[trigger] is_key_token(
                ts,
                depth,
                j,
                key,
                top,
            ) by {
                if j > 0 {
                    lemma_key_token_behind(first, rs, depth, j - 1, key, top);
                }
            }
            assert(tt =~= ts.update(m + 3, Token::Text(new)));
            m + 1
        }
    }
}

proof fn lemma_nesting_update(tokens: Seq<Token>, at: int, new: Token)
    requires
        0 <= at < tokens.len(),
        token_depth(tokens[at]) == token_depth(new),
    ensures
        nesting(tokens.update(at, new)) == nesting(tokens),
    decreases tokens.len(),
{
    let all = tokens.update(at, new);
    if at > 0 {
        lemma_nesting_update(tokens.skip(1), at - 1, new);
        assert(all.skip(1) =~= tokens.skip(1).update(at - 1, new));
    } else {
        assert(all.skip(1) =~= tokens.skip(1));
    }
}

/// A string that becomes another one that does not read `key` brings in no key.
pub proof fn lemma_no_key_comes_in(
    tokens: Seq<Token>,
    depth: int,
    key: Seq<char>,
    top: bool,
    at: int,
    new: Seq<char>,
)
    requires
        0 <= at < tokens.len(),
        tokens[at] is Text,
        new != key,
        !has_key(tokens, depth, key, top),
    ensures
        !has_key(tokens.update(at, Token::Text(new)), depth, key, top),
{
    let all = tokens.update(at, Token::Text(new));
    if has_key(all, depth, key, top) {
        let n = choose|n: int| #[trigger] is_key_token(all, depth, n, key, top);
        assert(n != at);
        assert(tokens[n] == all[n]);
        assert(tokens[n + 1] == all[n + 1]);
        if at < n {
            assert(all.take(n) =~= tokens.take(n).update(at, Token::Text(new)));
            lemma_nesting_update(tokens.take(n), at, Token::Text(new));
        } else {
            assert(all.take(n) =~= tokens.take(n));
        }
        assert(is_key_token(tokens, depth, n, key, top));
    }
}

// ---------------------------------------------------------------------
// Search
// ---------------------------------------------------------------------

fn find_closing_quote(s: &Vec<char>, from: usize) -> (r: Option<usize>)
    requires
        from <= s@.len(),
    ensures
        match r {
            Some(k) => closing_quote(s@, from as int) == Some(k as int),
            None => closing_quote(s@, from as int) is None,
        },
{
    let mut i: usize = from;
    while i < s.len()
        invariant
            i <= s@.len(),
            closing_quote(s@, from as int) == closing_quote(s@, i as int),
        decreases s.len() - i,
    {
        let c = s[i];
        if c == '\\' {
            if s.len() - i <= 1 {
                proof {
                    assert(closing_quote(s@, i + 2) is None);
                }
                return None;
            }
            i += 2;
        } else if c == '"' {
            return Some(i);
        } else {
            i += 1;
        }
    }
    None
}

fn find_non_blank(s: &Vec<char>, from: usize) -> (r: usize)
    requires
        from <= s@.len(),
    ensures
        r == skip_blanks(s@, from as int),
        from <= r <= s@.len(),
{
    let mut i: usize = from;
    while i < s.len() && (s[i] == ' ' || s[i] == '\t' || s[i] == '\n' || s[i] == '\r')
        invariant
            from <= i <= s@.len(),
            skip_blanks(s@, from as int) == skip_blanks(s@, i as int),
        decreases s.len() - i,
    {
        i += 1;
    }
    i
}

fn reads(s: &Vec<char>, from: usize, to: usize, key: &str) -> (r: bool)
    requires
        from <= to <= s@.len(),
    ensures
        r == (s@.subrange(from as int, to as int) == key@),
{
    let text: String = string_of(s, from, to);
    text_eq(text.as_str(), key)
}

/// Where a key ends: the first in the outermost object, or the first at any depth.
pub fn find_key(s: &Vec<char>, key: &str, top: bool) -> (r: Option<usize>)
    ensures
        match r {
            Some(k) => key_end(s@, 0, 0, key@, top) == Some(k as int),
            None => key_end(s@, 0, 0, key@, top) is None,
        },
{
    let n: usize = s.len();
    let mut i: usize = 0;
    let mut depth: i128 = 0;
    while i < n
        invariant
            n == s@.len(),
            i <= n,
            -(i as int) <= depth <= i,
            key_end(s@, 0, 0, key@, top) == key_end(s@, i as int, depth as int, key@, top),
        decreases n - i,
    {
        let c: char = s[i];
        if c == '"' {
            proof {
                lemma_closing_quote(s@, i + 1);
            }
            match find_closing_quote(s, i + 1) {
                Some(end) => {
                    if (!top || depth == 1) && reads(s, i + 1, end, key) {
                        let colon: usize = find_non_blank(s, end + 1);
                        if colon < n && s[colon] == ':' {
                            return Some(end);
                        }
                    }
                    i = end + 1;
                },
                None => {
                    return None;
                },
            }
        } else {
            if c == '{' || c == '[' {
                depth = depth + 1;
            } else if c == '}' || c == ']' {
                depth = depth - 1;
            }
            i += 1;
        }
    }
    None
}

/// Where the text of the string stands that is the value of the key that ends at `end`.
pub fn find_string(s: &Vec<char>, end: usize) -> (r: Option<(usize, usize)>)
    requires
        end < s@.len(),
        colon_follows(s@, end as int),
    ensures
        match r {
            Some((start, close)) => {
                &&& string_span(s@, end as int) == Some((start as int, close as int))
                &&& start <= close <= s@.len()
            },
            None => string_span(s@, end as int) is None,
        },
{
    proof {
        lemma_string_span(s@, end as int);
    }
    let n: usize = s.len();
    let colon: usize = find_non_blank(s, end + 1);
    let quote: usize = find_non_blank(s, colon + 1);
    if quote < n && s[quote] == '"' {
        match find_closing_quote(s, quote + 1) {
            Some(close) => Some((quote + 1, close)),
            None => None,
        }
    } else {
        None
    }
}

// ---------------------------------------------------------------------
// Laws
// ---------------------------------------------------------------------

/// What may stand between tokens are blanks, tabs and the two line ends.
pub proof fn law_blanks(c: char)
    ensures
        is_blank(c) <==> " \t\n\r"@.contains(c),
{
    reveal_strlit(" \t\n\r");
    let all = " \t\n\r"@;
    assert(all[0] == ' ' && all[1] == '\t' && all[2] == '\n' && all[3] == '\r');
}

/// Opening brackets nest deeper, closing ones less deep, and nothing else changes the depth.
pub proof fn law_depth(c: char)
    ensures
        "{["@.contains(c) ==> depth_change(c) == 1,
        "}]"@.contains(c) ==> depth_change(c) == -1,
        !"{["@.contains(c) && !"}]"@.contains(c) ==> depth_change(c) == 0,
{
    reveal_strlit("{[");
    reveal_strlit("}]");
    assert("{["@[0] == '{' && "{["@[1] == '[');
    assert("}]"@[0] == '}' && "}]"@[1] == ']');
}

/// A string ends at its first quote that no backslash stands for: each backslash takes the
/// character behind it along.
pub proof fn law_string_ends(s: Seq<char>, from: int, end: int)
    requires
        0 <= from <= end < s.len(),
        s[end] == '"',
    ensures
        (forall|i: int| from <= i < end ==> #[trigger] s[i] != '"' && s[i] != '\\') ==> closing_quote(
            s,
            from,
        ) == Some(end),
        s[from] == '\\' && from + 1 < s.len() ==> closing_quote(s, from) == closing_quote(
            s,
            from + 2,
        ),
        s[from] != '\\' && s[from] != '"' ==> closing_quote(s, from) == closing_quote(s, from + 1),
{
    if forall|i: int| from <= i < end ==> #[trigger] s[i] != '"' && s[i] != '\\' {
        lemma_plain_closing_quote(s, from, end);
    }
}

/// A text without a quote from `from` on closes no string.
pub proof fn law_unclosed_string(s: Seq<char>, from: int)
    requires
        0 <= from,
        forall|i: int| from <= i < s.len() ==> #[trigger] s[i] != '"',
    ensures
        closing_quote(s, from) is None,
    decreases s.len() + 1 - from,
{
    if from < s.len() {
        if s[from] == '\\' {
            law_unclosed_string(s, from + 2);
        } else {
            law_unclosed_string(s, from + 1);
        }
    }
}

/// Blanks from `i` up to `j` are skipped, and nothing behind them.
pub proof fn law_blanks_are_skipped(s: Seq<char>, i: int, j: int)
    requires
        0 <= i <= j <= s.len(),
        forall|k: int| i <= k < j ==> " \t\n\r"@.contains(#[trigger] s[k]),
        j < s.len() ==> !" \t\n\r"@.contains(s[j]),
    ensures
        skip_blanks(s, i) == j,
    decreases j - i,
{
    if i < j {
        law_blanks(s[i]);
        law_blanks_are_skipped(s, i + 1, j);
    } else if j < s.len() {
        law_blanks(s[j]);
    }
}

/// Characters outside strings that do not nest hold no key and leave the depth as it is.
pub proof fn lemma_key_not_among_plain(
    s: Seq<char>,
    i: int,
    j: int,
    depth: int,
    key: Seq<char>,
    top: bool,
)
    requires
        0 <= i <= j <= s.len(),
        forall|k: int| i <= k < j ==> !"\"{}[]"@.contains(#[trigger] s[k]),
    ensures
        key_end(s, i, depth, key, top) == key_end(s, j, depth, key, top),
    decreases j - i,
{
    if i < j {
        reveal_strlit("\"{}[]");
        let all = "\"{}[]"@;
        assert(all[0] == '"' && all[1] == '{' && all[2] == '}' && all[3] == '[' && all[4] == ']');
        assert(!all.contains(s[i]));
        assert(s[i] != '"' && depth_change(s[i]) == 0);
        lemma_key_not_among_plain(s, i + 1, j, depth, key, top);
    }
}

/// Where no quote is left there is no key.
pub proof fn lemma_no_key_without_quotes(
    s: Seq<char>,
    i: int,
    depth: int,
    key: Seq<char>,
    top: bool,
)
    requires
        0 <= i,
        forall|k: int| i <= k < s.len() ==> #[trigger] s[k] != '"',
    ensures
        key_end(s, i, depth, key, top) is None,
    decreases s.len() - i,
{
    if i < s.len() {
        lemma_no_key_without_quotes(s, i + 1, depth + depth_change(s[i]), key, top);
    }
}

/// How deep the characters from `i` up to `j` nest, none of them in a string.
pub open spec fn depth_between(s: Seq<char>, i: int, j: int) -> int
    decreases j - i,
{
    if i >= j {
        0
    } else {
        depth_change(s[i]) + depth_between(s, i + 1, j)
    }
}

/// Characters outside strings hold no key.
pub proof fn lemma_key_behind_marks(
    s: Seq<char>,
    i: int,
    j: int,
    depth: int,
    key: Seq<char>,
    top: bool,
)
    requires
        0 <= i <= j <= s.len(),
        forall|k: int| i <= k < j ==> #[trigger] s[k] != '"',
    ensures
        key_end(s, i, depth, key, top) == key_end(s, j, depth + depth_between(s, i, j), key, top),
    decreases j - i,
{
    if i < j {
        lemma_key_behind_marks(s, i + 1, j, depth + depth_change(s[i]), key, top);
    }
}

} // verus!
