//! The scanner: characters to tokens with source positions.
use vstd::prelude::*;
use vstd::string::StringExecFns;
use crate::text::{chars_of, diagnostic, make_diagnostic, push_char, string_from_chars};
use crate::tokens::{keyword_of, lexeme, Token, TokenType};

verus! {

/// The 1-based line of character `i` of `s`.
pub open spec fn line_at(s: Seq<char>, i: int) -> nat
    decreases i,
{
    if i <= 0 {
        1
    } else if s[i - 1] == '\n' {
        line_at(s, i - 1) + 1
    } else {
        line_at(s, i - 1)
    }
}

/// The 1-based column of character `i` of `s`.
pub open spec fn col_at(s: Seq<char>, i: int) -> nat
    decreases i,
{
    if i <= 0 {
        1
    } else if s[i - 1] == '\n' {
        1
    } else {
        col_at(s, i - 1) + 1
    }
}

/// Characters that separate tokens and are otherwise ignored.
pub open spec fn is_blank(c: char) -> bool {
    c == ' ' || c == '\r' || c == '\t' || c == '\n'
}

/// A `//` comment starts at `j` and runs on, without a line break before `k`, to `k`.
pub open spec fn comment_from(s: Seq<char>, j: int, k: int) -> bool {
    0 <= j <= k < s.len() && j + 1 < s.len() && s[j] == '/' && s[j + 1] == '/' && forall|m: int|
        j <= m < k ==> s[m] != '\n'
}

/// Character `k` of `s` belongs to a line comment.
pub open spec fn in_comment(s: Seq<char>, k: int) -> bool {
    exists|j: int| #[trigger] comment_from(s, j, k)
}

/// The position after the line break that ends the line holding `j`, or the end.
pub open spec fn line_end(s: Seq<char>, j: int) -> int
    decreases s.len() - j,
{
    if j < 0 || j >= s.len() {
        s.len() as int
    } else if s[j] == '\n' {
        j + 1
    } else {
        line_end(s, j + 1)
    }
}

/// The position of the first `"` at or after `j`, or the end.
pub open spec fn quote_at(s: Seq<char>, j: int) -> int
    decreases s.len() - j,
{
    if j < 0 || j >= s.len() {
        s.len() as int
    } else if s[j] == '"' {
        j
    } else {
        quote_at(s, j + 1)
    }
}

/// The end of the run of digits from `j`.
pub open spec fn digits_end(s: Seq<char>, j: int) -> int
    decreases s.len() - j,
{
    if j < 0 || j >= s.len() || !('0' <= s[j] && s[j] <= '9') {
        j
    } else {
        digits_end(s, j + 1)
    }
}

/// The end of the run of letters, digits and underscores from `j`.
pub open spec fn word_end(s: Seq<char>, j: int) -> int
    decreases s.len() - j,
{
    if j < 0 || j >= s.len() || !(is_word_char(s[j])) {
        j
    } else {
        word_end(s, j + 1)
    }
}

/// A letter or underscore.
pub open spec fn is_letter(c: char) -> bool {
    ('a' <= c && c <= 'z') || ('A' <= c && c <= 'Z') || c == '_'
}

/// A letter, digit or underscore.
pub open spec fn is_word_char(c: char) -> bool {
    is_letter(c) || ('0' <= c && c <= '9')
}

/// The end of a number that starts at `i`: its digits, then a `.` and digits
/// only where a digit follows the `.`.
pub open spec fn number_end(s: Seq<char>, i: int) -> int {
    let d = digits_end(s, i + 1);
    if d + 1 < s.len() && 0 <= d && s[d] == '.' && '0' <= s[d + 1] && s[d + 1] <= '9' {
        digits_end(s, d + 2)
    } else {
        d
    }
}

/// The characters that make a token alone.
pub open spec fn is_single(c: char) -> bool {
    c == '(' || c == ')' || c == '{' || c == '}' || c == '.' || c == ',' || c == '-' || c == '+'
        || c == ';' || c == '*'
}

/// The characters that make a token alone or, followed by `=`, a two-character one.
pub open spec fn is_operator_start(c: char) -> bool {
    c == '!' || c == '=' || c == '<' || c == '>'
}

/// The span of the next token at or after `i`, skipping blanks, comments,
/// unknown characters and an unterminated string; `None` at the end.
pub open spec fn next_span(s: Seq<char>, i: int) -> Option<(int, int)>
    decreases s.len() - i,
{
    if i < 0 || i >= s.len() {
        None
    } else {
        let c = s[i];
        if is_single(c) {
            Some((i, i + 1))
        } else if is_operator_start(c) {
            Some((i, if i + 1 < s.len() && s[i + 1] == '=' { i + 2 } else { i + 1 }))
        } else if c == '/' {
            if i + 1 < s.len() && s[i + 1] == '/' {
                let k = line_end(s, i + 2);
                if i < k <= s.len() { next_span(s, k) } else { None }
            } else {
                Some((i, i + 1))
            }
        } else if is_blank(c) {
            next_span(s, i + 1)
        } else if c == '"' {
            let q = quote_at(s, i + 1);
            if q < s.len() { Some((i, q + 1)) } else { None }
        } else if '0' <= c && c <= '9' {
            Some((i, number_end(s, i)))
        } else if is_letter(c) {
            Some((i, word_end(s, i + 1)))
        } else {
            next_span(s, i + 1)
        }
    }
}

/// The diagnostics reported while looking for the next token from `i`.
pub open spec fn gap_errors(s: Seq<char>, i: int) -> Seq<Seq<char>>
    decreases s.len() - i,
{
    if i < 0 || i >= s.len() {
        Seq::empty()
    } else {
        let c = s[i];
        if is_single(c) || is_operator_start(c) || ('0' <= c && c <= '9') || is_letter(c) {
            Seq::empty()
        } else if c == '/' {
            if i + 1 < s.len() && s[i + 1] == '/' {
                let k = line_end(s, i + 2);
                if i < k <= s.len() { gap_errors(s, k) } else { Seq::empty() }
            } else {
                Seq::empty()
            }
        } else if is_blank(c) {
            gap_errors(s, i + 1)
        } else if c == '"' {
            if quote_at(s, i + 1) < s.len() {
                Seq::empty()
            } else {
                seq![diagnostic(line_at(s, i), col_at(s, i), "Unterminated string."@)]
            }
        } else {
            seq![diagnostic(line_at(s, i), col_at(s, i), unknown_message(c))] + gap_errors(s, i + 1)
        }
    }
}

/// The spans of all tokens from `i` on.
pub open spec fn spans_from(s: Seq<char>, i: int) -> Seq<(int, int)>
    decreases s.len() - i,
{
    match next_span(s, i) {
        None => Seq::empty(),
        Some((a, b)) => if i <= a < b && b <= s.len() {
            seq![(a, b)] + spans_from(s, b)
        } else {
            Seq::empty()
        },
    }
}

/// All diagnostics reported from `i` on, in order.
pub open spec fn errors_from(s: Seq<char>, i: int) -> Seq<Seq<char>>
    decreases s.len() - i,
{
    match next_span(s, i) {
        None => gap_errors(s, i),
        Some((a, b)) => if i <= a < b && b <= s.len() {
            gap_errors(s, i) + errors_from(s, b)
        } else {
            gap_errors(s, i)
        },
    }
}

/// A token's kind fits its text: numbers start with a digit, identifiers with a
/// letter and are no reserved word.
pub open spec fn kind_fits(t: TokenType, text: Seq<char>) -> bool {
    match t {
        TokenType::NUMBER(_) => text.len() > 0 && '0' <= text[0] && text[0] <= '9',
        TokenType::IDENTIFIER(_) => text.len() > 0 && is_letter(text[0]) && keyword_of(text) is None,
        _ => true,
    }
}

/// The texts of a list of diagnostics.
pub open spec fn messages_of(errors: Seq<String>) -> Seq<Seq<char>> {
    errors.map_values(|e: String| e@)
}

/// `tokens` and `errors` are exactly what scanning `s` yields: the tokens stand at
/// the spans that `next_span` finds one after another, each of the kind its text
/// spells, and the diagnostics are those met on the way, in order.
pub open spec fn scans_to(s: Seq<char>, tokens: Seq<Token>, errors: Seq<String>) -> bool {
    let spans = spans_from(s, 0);
    &&& spans.len() == tokens.len()
    &&& forall|i: int|
        0 <= i < tokens.len() ==> token_at(s, #[trigger] tokens[i], spans[i].0, spans[i].1)
            && kind_fits(tokens[i].token_type, s.subrange(spans[i].0, spans[i].1))
    &&& messages_of(errors) == errors_from(s, 0)
}

/// The diagnostic for an unknown character.
pub open spec fn unknown_message(c: char) -> Seq<char> {
    "Unknown token: '"@ + seq![c] + "'"@
}

/// `errors` holds a diagnostic with `message` at the position of character `k`.
pub open spec fn reported(s: Seq<char>, errors: Seq<String>, k: int, message: Seq<char>) -> bool {
    exists|i: int|
        0 <= i < errors.len() && (#[trigger] errors[i])@ == diagnostic(
            line_at(s, k),
            col_at(s, k),
            message,
        )
}

/// Character `k` belongs to a string that opens at a reported `"` and is never
/// closed.
pub open spec fn unterminated_from(s: Seq<char>, errors: Seq<String>, k: int) -> bool {
    exists|j: int|
        #[trigger] opens_string(s, j) && j <= k && (forall|m: int| j < m < s.len() ==> s[m] != '"')
            && reported(s, errors, j, "Unterminated string."@)
}

/// Character `j` of `s` is a `"`.
pub open spec fn opens_string(s: Seq<char>, j: int) -> bool {
    0 <= j < s.len() && s[j] == '"'
}

/// The characters `a..b` of `s`, which no token covers, are blanks, comments,
/// unknown characters reported where they stand, or an unterminated string
/// reported where it opens.
pub open spec fn quiet(s: Seq<char>, a: int, b: int, errors: Seq<String>) -> bool {
    forall|k: int|
        a <= k < b ==> #[trigger] is_blank(s[k]) || in_comment(s, k) || reported(
            s,
            errors,
            k,
            unknown_message(s[k]),
        ) || unterminated_from(s, errors, k)
}

/// `later` keeps all of `earlier` and may add more after it.
pub open spec fn extends(later: Seq<String>, earlier: Seq<String>) -> bool {
    earlier.len() <= later.len() && forall|i: int| 0 <= i < earlier.len() ==> #[trigger] later[i] == earlier[i]
}

proof fn lemma_quiet_extends(s: Seq<char>, a: int, b: int, earlier: Seq<String>, later: Seq<String>)
    requires
        quiet(s, a, b, earlier),
        extends(later, earlier),
    ensures
        quiet(s, a, b, later),
{
    assert forall|k: int| a <= k < b implies #[trigger] is_blank(s[k]) || in_comment(s, k) || reported(
        s,
        later,
        k,
        unknown_message(s[k]),
    ) || unterminated_from(s, later, k) by {
        if reported(s, earlier, k, unknown_message(s[k])) {
            let i = choose|i: int|
                0 <= i < earlier.len() && (#[trigger] earlier[i])@ == diagnostic(
                    line_at(s, k),
                    col_at(s, k),
                    unknown_message(s[k]),
                );
            assert(later[i] == earlier[i]);
        } else if unterminated_from(s, earlier, k) {
            let j = choose|j: int|
                #[trigger] opens_string(s, j) && j <= k && (forall|m: int| j < m < s.len() ==> s[m] != '"')
                    && reported(s, earlier, j, "Unterminated string."@);
            let i = choose|i: int|
                0 <= i < earlier.len() && (#[trigger] earlier[i])@ == diagnostic(
                    line_at(s, j),
                    col_at(s, j),
                    "Unterminated string."@,
                );
            assert(later[i] == earlier[i]);
            assert(reported(s, later, j, "Unterminated string."@));
            assert(opens_string(s, j));
        }
    }
}

/// Token `t` is the text `start..end` of `s`, and carries the position of `start`.
pub open spec fn token_at(s: Seq<char>, t: Token, start: int, end: int) -> bool {
    &&& 0 <= start < end <= s.len()
    &&& s.subrange(start, end) == lexeme(t.token_type)
    &&& t.line == line_at(s, start)
    &&& t.offset == col_at(s, start)
}

/// `tokens` were read from `s` at the character ranges `spans`, in order, with only
/// only what `quiet` allows between them.
pub open spec fn scanned_at(
    s: Seq<char>,
    tokens: Seq<Token>,
    spans: Seq<(int, int)>,
    errors: Seq<String>,
) -> bool {
    let reported = errors;
    &&& spans.len() == tokens.len()
    &&& forall|i: int|
        0 <= i < tokens.len() ==> token_at(s, #[trigger] tokens[i], spans[i].0, spans[i].1)
    &&& forall|i: int|
        0 < i < tokens.len() ==> spans[i - 1].1 <= #[trigger] spans[i].0
    &&& forall|i: int|
        0 < i < tokens.len() ==> quiet(s, spans[i - 1].1, #[trigger] spans[i].0, reported)
    &&& tokens.len() > 0 ==> quiet(s, 0, spans[0].0, reported)
    &&& tokens.len() > 0 ==> quiet(s, spans[tokens.len() - 1].1, s.len() as int, reported)
    &&& tokens.len() == 0 ==> quiet(s, 0, s.len() as int, reported)
}

/// `tokens` and `errors` are what scanning `s` yields.
pub open spec fn scanned(s: Seq<char>, tokens: Seq<Token>, errors: Seq<String>) -> bool {
    exists|spans: Seq<(int, int)>| #[trigger] scanned_at(s, tokens, spans, errors)
}

/// The lexemes of `tokens`, one after another.
pub open spec fn concat_lexemes(tokens: Seq<Token>) -> Seq<char>
    decreases tokens.len(),
{
    if tokens.len() == 0 {
        Seq::empty()
    } else {
        concat_lexemes(tokens.drop_last()) + lexeme(tokens.last().token_type)
    }
}

/// `s` holds no blank character and no `//`.
pub open spec fn whitespace_free(s: Seq<char>) -> bool {
    &&& forall|k: int| 0 <= k < s.len() ==> !is_blank(#[trigger] s[k])
    &&& forall|k: int| 0 <= k < s.len() - 1 ==> !(#[trigger] s[k] == '/' && s[k + 1] == '/')
}

/// Every token that the scanner emits stands where its lexeme begins in the text:
/// its line and column are those of the lexeme's first character.
pub proof fn lemma_token_positions(s: Seq<char>, tokens: Seq<Token>, errors: Seq<String>, i: int)
    requires
        scanned(s, tokens, errors),
        0 <= i < tokens.len(),
    ensures
        exists|start: int, end: int| token_at(s, tokens[i], start, end),
{
    let spans = choose|spans: Seq<(int, int)>| scanned_at(s, tokens, spans, errors);
    assert(token_at(s, tokens[i], spans[i].0, spans[i].1));
}

/// Line and column depend on where the line breaks are and on nothing else: an
/// unknown character, or any other one that is not a line break, moves no later
/// position.
pub proof fn lemma_positions_follow_line_breaks(s: Seq<char>, t: Seq<char>, i: int)
    requires
        s.len() == t.len(),
        0 <= i <= s.len(),
        forall|k: int| 0 <= k < s.len() ==> (s[k] == '\n') == (t[k] == '\n'),
    ensures
        line_at(s, i) == line_at(t, i),
        col_at(s, i) == col_at(t, i),
    decreases i,
{
    if i > 0 {
        lemma_positions_follow_line_breaks(s, t, i - 1);
    }
}

/// With no blanks, no comments and no diagnostics, the lexemes of the tokens put
/// back together give the text again.
pub proof fn lemma_lexemes_rebuild_source(s: Seq<char>, tokens: Seq<Token>, errors: Seq<String>)
    requires
        scanned(s, tokens, errors),
        errors.len() == 0,
        whitespace_free(s),
    ensures
        concat_lexemes(tokens) == s,
{
    let spans = choose|spans: Seq<(int, int)>| scanned_at(s, tokens, spans, errors);
    assert forall|a: int, b: int| 0 <= a <= b <= s.len() && quiet(s, a, b, errors) implies a == b by {
        if a < b {
            assert(is_blank(s[a]) || in_comment(s, a) || reported(s, errors, a, unknown_message(s[a]))
                || unterminated_from(s, errors, a));
            if in_comment(s, a) {
                let j = choose|j: int| comment_from(s, j, a);
                assert(s[j] == '/' && s[j + 1] == '/');
            }
        }
    }
    let n = tokens.len() as int;
    if n == 0 {
        assert(quiet(s, 0, s.len() as int, errors));
        assert(s =~= Seq::<char>::empty());
    } else {
        assert(token_at(s, tokens[0], spans[0].0, spans[0].1));
        assert(token_at(s, tokens[n - 1], spans[n - 1].0, spans[n - 1].1));
        assert forall|i: int| 0 < i < n implies spans[i - 1].1 == #[trigger] spans[i].0 by {
            assert(token_at(s, tokens[i], spans[i].0, spans[i].1));
            assert(token_at(s, tokens[i - 1], spans[i - 1].0, spans[i - 1].1));
            assert(quiet(s, spans[i - 1].1, spans[i].0, errors));
        }
        assert(quiet(s, 0, spans[0].0, errors));
        assert(spans[0].0 == 0);
        assert(quiet(s, spans[n - 1].1, s.len() as int, errors));
        assert(spans[n - 1].1 == s.len());
        lemma_rebuild_prefix(s, tokens, spans, errors, n);
        assert(tokens.take(n) =~= tokens);
        assert(s.subrange(0, s.len() as int) =~= s);
    }
}

proof fn lemma_rebuild_prefix(
    s: Seq<char>,
    tokens: Seq<Token>,
    spans: Seq<(int, int)>,
    errors: Seq<String>,
    n: int,
)
    requires
        scanned_at(s, tokens, spans, errors),
        0 < n <= tokens.len(),
        spans[0].0 == 0,
        forall|i: int| 0 < i < tokens.len() ==> spans[i - 1].1 == #[trigger] spans[i].0,
    ensures
        concat_lexemes(tokens.take(n)) == s.subrange(0, spans[n - 1].1),
    decreases n,
{
    assert(token_at(s, tokens[n - 1], spans[n - 1].0, spans[n - 1].1));
    assert(tokens.take(n).drop_last() =~= tokens.take(n - 1));
    if n == 1 {
        assert(tokens.take(0) =~= Seq::<Token>::empty());
        assert(concat_lexemes(tokens.take(0)) =~= Seq::<char>::empty());
        assert(s.subrange(0, spans[0].1) =~= s.subrange(spans[0].0, spans[0].1));
    } else {
        lemma_rebuild_prefix(s, tokens, spans, errors, n - 1);
        assert(token_at(s, tokens[n - 2], spans[n - 2].0, spans[n - 2].1));
        assert(s.subrange(0, spans[n - 1].1) =~= s.subrange(0, spans[n - 2].1) + s.subrange(
            spans[n - 1].0,
            spans[n - 1].1,
        ));
    }
}

proof fn lemma_position_bounds(s: Seq<char>, i: int)
    requires
        0 <= i <= s.len(),
    ensures
        line_at(s, i) <= i + 1,
        col_at(s, i) <= i + 1,
    decreases i,
{
    if i > 0 {
        lemma_position_bounds(s, i - 1);
    }
}

pub fn is_alpha(ch: char) -> (r: bool)
    ensures
        r == (('a' <= ch && ch <= 'z') || ('A' <= ch && ch <= 'Z') || ch == '_'),
{
    ('a' <= ch && ch <= 'z') || ('A' <= ch && ch <= 'Z') || ch == '_'
}

pub fn is_digit(ch: char) -> (r: bool)
    ensures
        r == ('0' <= ch && ch <= '9'),
{
    '0' <= ch && ch <= '9'
}


/// The reserved word spelled by the characters `start..end`, if any.
fn map_token(chars: &Vec<char>, start: usize, end: usize) -> (r: Option<TokenType>)
    requires
        start <= end <= chars@.len(),
    ensures
        r == keyword_of(chars@.subrange(start as int, end as int)),
{
    let n = end - start;
    let ghost w = chars@.subrange(start as int, end as int);
    if n == 3 && chars[start] == 'a' && chars[start + 1] == 'n' && chars[start + 2] == 'd' {
        return Some(TokenType::AND);
    }
    if n == 5 && chars[start] == 'c' && chars[start + 1] == 'l' && chars[start + 2] == 'a' && chars[start + 3] == 's' && chars[start + 4] == 's' {
        return Some(TokenType::CLASS);
    }
    if n == 4 && chars[start] == 'e' && chars[start + 1] == 'l' && chars[start + 2] == 's' && chars[start + 3] == 'e' {
        return Some(TokenType::ELSE);
    }
    if n == 5 && chars[start] == 'f' && chars[start + 1] == 'a' && chars[start + 2] == 'l' && chars[start + 3] == 's' && chars[start + 4] == 'e' {
        return Some(TokenType::FALSE);
    }
    if n == 3 && chars[start] == 'f' && chars[start + 1] == 'o' && chars[start + 2] == 'r' {
        return Some(TokenType::FOR);
    }
    if n == 3 && chars[start] == 'f' && chars[start + 1] == 'u' && chars[start + 2] == 'n' {
        return Some(TokenType::FUN);
    }
    if n == 2 && chars[start] == 'i' && chars[start + 1] == 'f' {
        return Some(TokenType::IF);
    }
    if n == 3 && chars[start] == 'n' && chars[start + 1] == 'i' && chars[start + 2] == 'l' {
        return Some(TokenType::NIL);
    }
    if n == 2 && chars[start] == 'o' && chars[start + 1] == 'r' {
        return Some(TokenType::OR);
    }
    if n == 5 && chars[start] == 'p' && chars[start + 1] == 'r' && chars[start + 2] == 'i' && chars[start + 3] == 'n' && chars[start + 4] == 't' {
        return Some(TokenType::PRINT);
    }
    if n == 6 && chars[start] == 'r' && chars[start + 1] == 'e' && chars[start + 2] == 't' && chars[start + 3] == 'u' && chars[start + 4] == 'r' && chars[start + 5] == 'n' {
        return Some(TokenType::RETURN);
    }
    if n == 5 && chars[start] == 's' && chars[start + 1] == 'u' && chars[start + 2] == 'p' && chars[start + 3] == 'e' && chars[start + 4] == 'r' {
        return Some(TokenType::SUPER);
    }
    if n == 4 && chars[start] == 't' && chars[start + 1] == 'h' && chars[start + 2] == 'i' && chars[start + 3] == 's' {
        return Some(TokenType::THIS);
    }
    if n == 4 && chars[start] == 't' && chars[start + 1] == 'r' && chars[start + 2] == 'u' && chars[start + 3] == 'e' {
        return Some(TokenType::TRUE);
    }
    if n == 3 && chars[start] == 'v' && chars[start + 1] == 'a' && chars[start + 2] == 'r' {
        return Some(TokenType::VAR);
    }
    if n == 5 && chars[start] == 'w' && chars[start + 1] == 'h' && chars[start + 2] == 'i' && chars[start + 3] == 'l' && chars[start + 4] == 'e' {
        return Some(TokenType::WHILE);
    }
    None
}

proof fn lemma_keyword_lexeme(w: Seq<char>)
    requires
        keyword_of(w) is Some,
    ensures
        lexeme(keyword_of(w)->0) == w,
{
    assert(lexeme(keyword_of(w)->0) =~= w);
}

/// The token of a character that stands alone.
fn single_token(c: char) -> (r: Option<TokenType>)
    ensures
        r is Some ==> lexeme(r->0) == seq![c],
        r is Some <==> is_single(c),
        r is Some ==> !(r->0 is IDENTIFIER) && !(r->0 is NUMBER),
{
    if c == '(' {
        Some(TokenType::LEFT_PAREN)
    } else if c == ')' {
        Some(TokenType::RIGHT_PAREN)
    } else if c == '{' {
        Some(TokenType::LEFT_BRACE)
    } else if c == '}' {
        Some(TokenType::RIGHT_BRACE)
    } else if c == '.' {
        Some(TokenType::DOT)
    } else if c == ',' {
        Some(TokenType::COMMA)
    } else if c == '-' {
        Some(TokenType::HYPHEN)
    } else if c == '+' {
        Some(TokenType::PLUS)
    } else if c == ';' {
        Some(TokenType::SEMICOLON)
    } else if c == '*' {
        Some(TokenType::ASTERICS)
    } else {
        None
    }
}

/// For `!`, `=`, `<` and `>`: the token alone, and the token followed by `=`.
fn operator_tokens(c: char) -> (r: Option<(TokenType, TokenType)>)
    ensures
        r is Some <==> is_operator_start(c),
        r matches Some((a, b)) ==> !(a is IDENTIFIER) && !(a is NUMBER) && !(b is IDENTIFIER) && !(
            b is NUMBER),
        match r {
            Some((alone, with_equal)) => lexeme(alone) == seq![c] && lexeme(with_equal) == seq![
                c,
                '=',
            ],
            None => true,
        },
{
    if c == '!' {
        Some((TokenType::BANG, TokenType::BANG_EQUAL))
    } else if c == '=' {
        Some((TokenType::EQUAL, TokenType::EQUAL_EQUAL))
    } else if c == '<' {
        Some((TokenType::LESS, TokenType::LESS_EQUAL))
    } else if c == '>' {
        Some((TokenType::GREATER, TokenType::GREATER_EQUAL))
    } else {
        None
    }
}

/// Reads a source text into tokens, collecting diagnostics on the way.
pub struct Scanner {
    source: Vec<char>,
    current: usize,
    line: usize,
    column: usize,
    errors: Vec<String>,
}

impl Scanner {
    /// The characters being scanned.
    pub closed spec fn text(&self) -> Seq<char> {
        self.source@
    }

    pub closed spec fn wf(&self) -> bool {
        &&& self.source@.len() < usize::MAX
        &&& self.current <= self.source@.len()
        &&& self.line == line_at(self.source@, self.current as int)
        &&& self.column == col_at(self.source@, self.current as int)
    }

    /// The scanner has read nothing yet.
    pub closed spec fn at_start(&self) -> bool {
        self.current == 0 && self.errors@.len() == 0
    }

    pub fn new(source: &str) -> (r: Scanner)
        requires
            source@.len() < usize::MAX,
        ensures
            r.wf(),
            r.at_start(),
            r.text() == source@,
    {
        Scanner { source: chars_of(source), current: 0, line: 1, column: 1, errors: Vec::new() }
    }

    /// Reads every token. Unknown characters and an unterminated string are
    /// reported and skipped; scanning always reaches the end of the text.
    pub fn tokenize(&mut self) -> (r: (Vec<Token>, Vec<String>))
        requires
            old(self).wf(),
            old(self).at_start(),
        ensures
            scanned(old(self).text(), r.0@, r.1@),
            scans_to(old(self).text(), r.0@, r.1@),
    {
        let mut tokens: Vec<Token> = Vec::new();
        let ghost s = self.source@;
        let ghost mut spans: Seq<(int, int)> = Seq::empty();
        loop
            invariant
                self.wf(),
                self.source@ == s,
                s == old(self).source@,
                spans.len() == tokens@.len(),
                forall|i: int|
                    0 <= i < tokens@.len() ==> token_at(
                        s,
                        #[trigger] tokens@[i],
                        spans[i].0,
                        spans[i].1,
                    ),
                forall|i: int|
                    0 < i < tokens@.len() ==> spans[i - 1].1 <= #[trigger] spans[i].0,
                forall|i: int|
                    0 < i < tokens@.len() ==> quiet(
                        s,
                        spans[i - 1].1,
                        #[trigger] spans[i].0,
                        self.errors@,
                    ),
                tokens@.len() > 0 ==> quiet(s, 0, spans[0].0, self.errors@),
                tokens@.len() > 0 ==> spans[tokens@.len() - 1].1 == self.current,
                tokens@.len() == 0 ==> self.current == 0,
                spans + spans_from(s, self.current as int) == spans_from(s, 0),
                messages_of(self.errors@) + errors_from(s, self.current as int) == errors_from(s, 0),
                forall|i: int|
                    0 <= i < tokens@.len() ==> kind_fits(
                        (#[trigger] tokens@[i]).token_type,
                        s.subrange(spans[i].0, spans[i].1),
                    ),
            decreases s.len() - self.current,
        {
            let ghost had = self.errors@;
            let ghost cur = self.current as int;
            let next = self.next_token();
            proof {
                let n = tokens@.len() as int;
                assert forall|i: int| 0 < i < n implies quiet(
                    s,
                    spans[i - 1].1,
                    #[trigger] spans[i].0,
                    self.errors@,
                ) by {
                    lemma_quiet_extends(s, spans[i - 1].1, spans[i].0, had, self.errors@);
                }
                if n > 0 {
                    lemma_quiet_extends(s, 0, spans[0].0, had, self.errors@);
                }
            }
            match next {
                Some((token, start)) => {
                    proof {
                        let old_spans = spans;
                        spans = spans.push((start as int, self.current as int));
                        assert(spans + spans_from(s, self.current as int) =~= old_spans + spans_from(s, cur));
                        assert(messages_of(self.errors@) + errors_from(s, self.current as int) =~= messages_of(had) + errors_from(s, cur));
                    }
                    tokens.push(token);
                },
                None => {
                    let errors = self.errors.clone();
                    proof {
                        assert(errors@ == self.errors@);
                        assert(scanned_at(s, tokens@, spans, errors@));
                        assert(spans_from(s, cur) =~= Seq::<(int, int)>::empty());
                        assert(spans + spans_from(s, cur) =~= spans);
                        assert(messages_of(errors@) =~= messages_of(had) + errors_from(s, cur));
                        assert(scans_to(s, tokens@, errors@));
                    }
                    return (tokens, errors);
                },
            }
        }
    }

    /// Reads the next token, skipping blanks, comments and unknown characters.
    /// Returns the token with the index of its first character, or `None` at the
    /// end of the text.
    #[verifier::rlimit(100)]
    #[verifier::spinoff_prover]
    fn next_token(&mut self) -> (r: Option<(Token, usize)>)
        requires
            old(self).wf(),
        ensures
            final(self).wf(),
            final(self).source@ == old(self).source@,
            old(self).current <= final(self).current,
            extends(final(self).errors@, old(self).errors@),
            messages_of(final(self).errors@) == messages_of(old(self).errors@) + gap_errors(
                old(self).source@,
                old(self).current as int,
            ),
            match r {
                Some((t, start)) => {
                    &&& next_span(old(self).source@, old(self).current as int) == Some(
                        (start as int, final(self).current as int),
                    )
                    &&& kind_fits(t.token_type, old(self).source@.subrange(start as int, final(self).current as int))
                    &&& old(self).current <= start
                    &&& token_at(final(self).source@, t, start as int, final(self).current as int)
                    &&& quiet(
                        final(self).source@,
                        old(self).current as int,
                        start as int,
                        final(self).errors@,
                    )
                },
                None => {
                    &&& next_span(old(self).source@, old(self).current as int) is None
                    &&& final(self).current == final(self).source@.len()
                    &&& quiet(
                        final(self).source@,
                        old(self).current as int,
                        final(self).source@.len() as int,
                        final(self).errors@,
                    )
                },
            },
    {
        let ghost s = self.source@;
        let ghost first = self.current as int;
        loop
            invariant
                self.wf(),
                self.source@ == s,
                s == old(self).source@,
                first == old(self).current,
                first <= self.current,
                extends(self.errors@, old(self).errors@),
                quiet(s, first, self.current as int, self.errors@),
                next_span(s, first) == next_span(s, self.current as int),
                messages_of(old(self).errors@) + gap_errors(s, first) == messages_of(self.errors@)
                    + gap_errors(s, self.current as int),
            decreases s.len() - self.current,
        {
            if self.current >= self.source.len() {
                proof {
                    assert(messages_of(self.errors@) + gap_errors(s, self.current as int) =~= messages_of(self.errors@));
                }
                return None;
            }
            let start = self.current;
            let line = self.line;
            let col = self.column;
            let c = self.advance();
            proof {
                assert(s.subrange(start as int, start + 1) =~= seq![c]);
                if is_single(c) || is_operator_start(c) || ('0' <= c && c <= '9') || is_letter(c) || (c == '"' && quote_at(s, start + 1) < s.len()) || (c == '/' && !(start + 1 < s.len() && s[start + 1] == '/')) {
                    assert(gap_errors(s, start as int) =~= Seq::<Seq<char>>::empty());
                    assert(messages_of(self.errors@) + gap_errors(s, start as int) =~= messages_of(self.errors@));
                }
            }
            if let Some(t) = single_token(c) {
                return Some((Token::new(t, line, col), start));
            }
            if let Some((alone, with_equal)) = operator_tokens(c) {
                if self.match_char('=') {
                    proof {
                        assert(s.subrange(start as int, start + 2) =~= seq![c, '=']);
                    }
                    return Some((Token::new(with_equal, line, col), start));
                } else {
                    return Some((Token::new(alone, line, col), start));
                }
            }
            if c == '/' {
                if self.match_char('/') {
                    self.skip_line();
                    proof {
                        assert forall|k: int| first <= k < self.current implies #[trigger] is_blank(s[k])
                            || in_comment(s, k) || reported(s, self.errors@, k, unknown_message(s[k]))
                            || unterminated_from(s, self.errors@, k) by {
                            if k >= start {
                                assert(comment_from(s, start as int, k));
                            }
                        }
                    }
                    continue;
                }
                return Some((Token::new(TokenType::SLASH, line, col), start));
            }
            if c == ' ' || c == '\r' || c == '\t' || c == '\n' {
                continue;
            }
            if c == '"' {
                self.skip_string_body();
                if self.current >= self.source.len() {
                    let ghost had = self.errors@;
                    self.push_error(line, col, "Unterminated string.");
                    proof {
                        reveal_strlit("Unterminated string.");
                        let i = self.errors@.len() - 1;
                        assert(self.errors@[i]@ == diagnostic(
                            line_at(s, start as int),
                            col_at(s, start as int),
                            "Unterminated string."@,
                        ));
                        assert(reported(s, self.errors@, start as int, "Unterminated string."@));
                        assert(messages_of(self.errors@) =~= messages_of(had).push(self.errors@[i]@));
                        assert(messages_of(old(self).errors@) + gap_errors(s, first) =~= messages_of(self.errors@));
                        assert(extends(self.errors@, had));
                        lemma_quiet_extends(s, first, start as int, had, self.errors@);
                        assert(opens_string(s, start as int));
                        assert forall|k: int| first <= k < s.len() implies #[trigger] is_blank(s[k])
                            || in_comment(s, k) || reported(s, self.errors@, k, unknown_message(s[k]))
                            || unterminated_from(s, self.errors@, k) by {
                            if k >= start {
                                assert(opens_string(s, start as int));
                            }
                        }
                    }
                    return None;
                }
                self.advance();
                let value = string_from_chars(&self.source, start + 1, self.current - 1);
                proof {
                    assert(s.subrange(start as int, self.current as int) =~= seq!['"'] + value@
                        + seq!['"']);
                }
                return Some((Token::new(TokenType::STRING(value), line, col), start));
            }
            if is_digit(c) {
                self.skip_digits();
                let dot = self.peek(0);
                let after = self.peek(1);
                if dot == Some('.') && after.is_some() && is_digit(after.unwrap()) {
                    self.advance();
                    self.skip_digits();
                }
                let text = string_from_chars(&self.source, start, self.current);
                return Some((Token::new(TokenType::NUMBER(text), line, col), start));
            }
            if is_alpha(c) {
                self.skip_word();
                let kind = match map_token(&self.source, start, self.current) {
                    Some(k) => {
                        proof {
                            lemma_keyword_lexeme(s.subrange(start as int, self.current as int));
                        }
                        k
                    },
                    None => TokenType::IDENTIFIER(
                        string_from_chars(&self.source, start, self.current),
                    ),
                };
                return Some((Token::new(kind, line, col), start));
            }
            let mut message = String::new();
            message.append("Unknown token: '");
            push_char(&mut message, c);
            message.append("'");
            let ghost had = self.errors@;
            self.push_error(line, col, message.as_str());
            proof {
                reveal_strlit("Unknown token: '");
                reveal_strlit("'");
                assert(message@ =~= unknown_message(c));
                let i = self.errors@.len() - 1;
                assert(self.errors@[i]@ == diagnostic(
                    line_at(s, start as int),
                    col_at(s, start as int),
                    unknown_message(s[start as int]),
                ));
                assert(reported(s, self.errors@, start as int, unknown_message(s[start as int])));
                assert(messages_of(self.errors@) =~= messages_of(had).push(self.errors@[i]@));
                assert(messages_of(had) + gap_errors(s, start as int) =~= messages_of(self.errors@) + gap_errors(s, start + 1));
                assert(extends(self.errors@, had));
                lemma_quiet_extends(s, first, start as int, had, self.errors@);
            }
        }
    }

    /// Consumes characters up to and including the next line break, or to the end.
    fn skip_line(&mut self)
        requires
            old(self).wf(),
        ensures
            final(self).wf(),
            final(self).source@ == old(self).source@,
            final(self).errors == old(self).errors,
            old(self).current <= final(self).current,
            forall|m: int|
                old(self).current <= m < final(self).current - 1 ==> final(self).source@[m]
                    != '\n',
            final(self).current == line_end(old(self).source@, old(self).current as int),
    {
        let ghost first = self.current as int;
        loop
            invariant
                self.wf(),
                self.source@ == old(self).source@,
                self.errors == old(self).errors,
                first == old(self).current,
                first <= self.current,
                forall|m: int| first <= m < self.current ==> self.source@[m] != '\n',
                line_end(self.source@, first) == line_end(self.source@, self.current as int),
            decreases self.source@.len() - self.current,
        {
            if self.current >= self.source.len() {
                return;
            }
            let c = self.advance();
            if c == '\n' {
                return;
            }
        }
    }

    /// Consumes characters up to the next `"`, or to the end.
    fn skip_string_body(&mut self)
        requires
            old(self).wf(),
        ensures
            final(self).wf(),
            final(self).source@ == old(self).source@,
            final(self).errors == old(self).errors,
            old(self).current <= final(self).current,
            final(self).current < final(self).source@.len() ==> final(self).source@[final(self).current as int] == '"',
            forall|m: int| old(self).current <= m < final(self).current ==> final(self).source@[m] != '"',
            final(self).current == quote_at(old(self).source@, old(self).current as int),
    {
        while self.current < self.source.len() && self.source[self.current] != '"'
            invariant
                self.wf(),
                self.source@ == old(self).source@,
                self.errors == old(self).errors,
                quote_at(self.source@, old(self).current as int) == quote_at(self.source@, self.current as int),
                old(self).current <= self.current,
                forall|m: int| old(self).current <= m < self.current ==> self.source@[m] != '"',
            decreases self.source@.len() - self.current,
        {
            self.advance();
        }
    }

    /// Consumes a run of digits.
    fn skip_digits(&mut self)
        requires
            old(self).wf(),
        ensures
            final(self).wf(),
            final(self).source@ == old(self).source@,
            final(self).errors == old(self).errors,
            old(self).current <= final(self).current,
            final(self).current == digits_end(old(self).source@, old(self).current as int),
    {
        while self.current < self.source.len() && is_digit(self.source[self.current])
            invariant
                self.wf(),
                self.source@ == old(self).source@,
                self.errors == old(self).errors,
                digits_end(self.source@, old(self).current as int) == digits_end(self.source@, self.current as int),
                old(self).current <= self.current,
            decreases self.source@.len() - self.current,
        {
            self.advance();
        }
    }

    /// Consumes a run of letters, digits and underscores.
    fn skip_word(&mut self)
        requires
            old(self).wf(),
        ensures
            final(self).wf(),
            final(self).source@ == old(self).source@,
            final(self).errors == old(self).errors,
            old(self).current <= final(self).current,
            final(self).current == word_end(old(self).source@, old(self).current as int),
    {
        while self.current < self.source.len() && (is_alpha(self.source[self.current]) || is_digit(
            self.source[self.current],
        ))
            invariant
                self.wf(),
                self.source@ == old(self).source@,
                self.errors == old(self).errors,
                word_end(self.source@, old(self).current as int) == word_end(self.source@, self.current as int),
                old(self).current <= self.current,
            decreases self.source@.len() - self.current,
        {
            self.advance();
        }
    }

    /// Consumes one character.
    fn advance(&mut self) -> (c: char)
        requires
            old(self).wf(),
            old(self).current < old(self).source@.len(),
        ensures
            final(self).wf(),
            final(self).source@ == old(self).source@,
            final(self).errors == old(self).errors,
            final(self).current == old(self).current + 1,
            c == old(self).source@[old(self).current as int],
    {
        proof {
            lemma_position_bounds(self.source@, self.current as int);
        }
        let c = self.source[self.current];
        if c == '\n' {
            self.line = self.line + 1;
            self.column = 1;
        } else {
            self.column = self.column + 1;
        }
        self.current = self.current + 1;
        c
    }

    /// The character `k` places ahead of the cursor, if there is one.
    fn peek(&self, k: usize) -> (r: Option<char>)
        requires
            self.wf(),
        ensures
            self.current + k < self.source@.len() ==> r == Some(
                self.source@[self.current + k],
            ),
            self.current + k >= self.source@.len() ==> r is None,
    {
        if k < self.source.len() - self.current {
            Some(self.source[self.current + k])
        } else {
            None
        }
    }

    /// Consumes the next character if it is `expected`.
    fn match_char(&mut self, expected: char) -> (r: bool)
        requires
            old(self).wf(),
        ensures
            final(self).wf(),
            final(self).source@ == old(self).source@,
            final(self).errors == old(self).errors,
            r == (old(self).current < old(self).source@.len() && old(self).source@[old(
                self,
            ).current as int] == expected),
            final(self).current == old(self).current + if r {
                1int
            } else {
                0int
            },
    {
        if self.current < self.source.len() && self.source[self.current] == expected {
            self.advance();
            true
        } else {
            false
        }
    }

    fn push_error(&mut self, line: usize, offset: usize, message: &str)
        ensures
            final(self).source@ == old(self).source@,
            final(self).current == old(self).current,
            final(self).line == old(self).line,
            final(self).column == old(self).column,
            final(self).errors@.len() == old(self).errors@.len() + 1,
            final(self).errors@.drop_last() == old(self).errors@,
            final(self).errors@.last()@ == crate::text::diagnostic(
                line as nat,
                offset as nat,
                message@,
            ),
    {
        let e = make_diagnostic(line, offset, message);
        self.errors.push(e);
    }
}

} // verus!
