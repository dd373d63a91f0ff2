//! The lexer: turns source text into a flat sequence of tokens. It knows
//! about individual tokens, not about their order (that is the parser's job).

use vstd::prelude::*;
use crate::token::{Token, TokenV, tokens_view};

verus! {

/// Why a source text cannot be split into tokens.
#[derive(Debug, Clone, Copy, PartialEq, Eq, Structural)]
pub enum LexError {
    /// A character that cannot start any token.
    UnexpectedCharacter(char),
    /// A number with a decimal point but no digit after it, such as `3.`.
    MalformedNumber,
    /// An integer literal larger than `i64::MAX`.
    IntegerOverflow,
}

pub open spec fn is_digit(c: char) -> bool {
    '0' <= c && c <= '9'
}

/// A character that can start an identifier: a lower-case letter, an
/// upper-case letter from `A` to `Y` (the range is written exclusively), or `_`.
pub open spec fn starts_identifier(c: char) -> bool {
    ('a' <= c && c <= 'z') || ('A' <= c && c < 'Z') || c == '_'
}

/// A character that can continue an identifier.
pub open spec fn continues_identifier(c: char) -> bool {
    ('a' <= c && c <= 'z') || ('A' <= c && c <= 'Z') || c == '_' || is_digit(c)
}

pub open spec fn is_blank(c: char) -> bool {
    c == ' ' || c == '\t' || c == '\n' || c == '\r'
}

/// The end of the run of digits that starts at `i`.
pub open spec fn digits_end(s: Seq<char>, i: int) -> int
    decreases s.len() - i,
{
    if 0 <= i < s.len() && is_digit(s[i]) {
        digits_end(s, i + 1)
    } else {
        i
    }
}

/// The end of the run of identifier characters that starts at `i`.
pub open spec fn identifier_end(s: Seq<char>, i: int) -> int
    decreases s.len() - i,
{
    if 0 <= i < s.len() && continues_identifier(s[i]) {
        identifier_end(s, i + 1)
    } else {
        i
    }
}

/// The position of the first line break at or after `i`, or the end of `s`.
pub open spec fn line_end(s: Seq<char>, i: int) -> int
    decreases s.len() - i,
{
    if 0 <= i < s.len() && s[i] != '\n' {
        line_end(s, i + 1)
    } else {
        i
    }
}

/// The value of a sequence of decimal digits.
pub open spec fn decimal_value(d: Seq<char>) -> int
    decreases d.len(),
{
    if d.len() == 0 {
        0
    } else {
        decimal_value(d.drop_last()) * 10 + (d.last() as int - '0' as int)
    }
}

/// The token of a keyword, if `word` is one.
pub open spec fn keyword(word: Seq<char>) -> Option<TokenV> {
    if word == seq!['l', 'e', 't'] {
        Some(TokenV::Let)
    } else if word == seq!['c', 'o', 'n', 's', 't'] {
        Some(TokenV::Const)
    } else if word == seq!['i', 'n', 't'] {
        Some(TokenV::IntType)
    } else if word == seq!['f', 'l', 'o', 'a', 't'] {
        Some(TokenV::FloatType)
    } else if word == seq!['b', 'o', 'o', 'l'] {
        Some(TokenV::BoolType)
    } else if word == seq!['t', 'r', 'u', 'e'] {
        Some(TokenV::True)
    } else if word == seq!['f', 'a', 'l', 's', 'e'] {
        Some(TokenV::False)
    } else if word == seq!['p', 'r', 'i', 'n', 't'] {
        Some(TokenV::Print)
    } else if word == seq!['i', 'f'] {
        Some(TokenV::If)
    } else if word == seq!['e', 'l', 's', 'e'] {
        Some(TokenV::Else)
    } else if word == seq!['w', 'h', 'i', 'l', 'e'] {
        Some(TokenV::While)
    } else if word == seq!['f', 'o', 'r'] {
        Some(TokenV::For)
    } else if word == seq!['i', 'n'] {
        Some(TokenV::In)
    } else if word == seq!['b', 'y'] {
        Some(TokenV::By)
    } else {
        None
    }
}

/// What the lexer does at one position: skip characters, emit tokens and
/// go on from a later position, or stop with an error.
pub enum LexStep {
    Skip(int),
    Emit(Seq<TokenV>, int),
    Fail(LexError),
}

/// One or two characters that make a token, chosen by whether `second`
/// follows `s[i]`.
pub open spec fn one_or_two(s: Seq<char>, i: int, second: char, long: TokenV, short: TokenV) -> LexStep {
    if i + 1 < s.len() && s[i + 1] == second {
        LexStep::Emit(seq![long], i + 2)
    } else {
        LexStep::Emit(seq![short], i + 1)
    }
}

/// The integer token of the digits `s[i..j]`.
pub open spec fn integer_token(s: Seq<char>, i: int, j: int) -> Option<TokenV> {
    let v = decimal_value(s.subrange(i, j));
    if v <= i64::MAX {
        Some(TokenV::Int(v as i64))
    } else {
        None
    }
}

/// A number starting at `i`: an integer, an integer followed by `..` or
/// `..=`, or a float literal with digits on both sides of its point.
pub open spec fn number_step(s: Seq<char>, i: int) -> LexStep {
    let j = digits_end(s, i);
    if j < s.len() && s[j] == '.' {
        if j + 1 < s.len() && s[j + 1] == '.' {
            match integer_token(s, i, j) {
                Some(t) => if j + 2 < s.len() && s[j + 2] == '=' {
                    LexStep::Emit(seq![t, TokenV::DotDotEqual], j + 3)
                } else {
                    LexStep::Emit(seq![t, TokenV::DotDot], j + 2)
                },
                None => LexStep::Fail(LexError::IntegerOverflow),
            }
        } else {
            let k = digits_end(s, j + 1);
            if k == j + 1 {
                LexStep::Fail(LexError::MalformedNumber)
            } else {
                LexStep::Emit(seq![TokenV::Float(s.subrange(i, k))], k)
            }
        }
    } else {
        match integer_token(s, i, j) {
            Some(t) => LexStep::Emit(seq![t], j),
            None => LexStep::Fail(LexError::IntegerOverflow),
        }
    }
}

/// What the lexer does at position `i` of `s`.
pub open spec fn lex_step(s: Seq<char>, i: int) -> LexStep {
    let c = s[i];
    if c == '+' {
        LexStep::Emit(seq![TokenV::Plus], i + 1)
    } else if c == '-' {
        LexStep::Emit(seq![TokenV::Minus], i + 1)
    } else if c == '*' {
        LexStep::Emit(seq![TokenV::Star], i + 1)
    } else if c == '/' {
        if i + 1 < s.len() && s[i + 1] == '/' {
            LexStep::Skip(line_end(s, i + 1))
        } else {
            LexStep::Emit(seq![TokenV::Slash], i + 1)
        }
    } else if c == '%' {
        LexStep::Emit(seq![TokenV::Modulo], i + 1)
    } else if c == '(' {
        LexStep::Emit(seq![TokenV::LeftParen], i + 1)
    } else if c == ')' {
        LexStep::Emit(seq![TokenV::RightParen], i + 1)
    } else if c == '{' {
        LexStep::Emit(seq![TokenV::LeftBrace], i + 1)
    } else if c == '}' {
        LexStep::Emit(seq![TokenV::RightBrace], i + 1)
    } else if is_digit(c) {
        number_step(s, i)
    } else if c == '=' {
        one_or_two(s, i, '=', TokenV::EqualEqual, TokenV::Equals)
    } else if c == ';' {
        LexStep::Emit(seq![TokenV::Semicolon], i + 1)
    } else if c == '!' {
        one_or_two(s, i, '=', TokenV::NotEqual, TokenV::Not)
    } else if c == '<' {
        one_or_two(s, i, '=', TokenV::LessEqual, TokenV::Less)
    } else if c == '>' {
        one_or_two(s, i, '=', TokenV::GreaterEqual, TokenV::Greater)
    } else if starts_identifier(c) {
        let j = identifier_end(s, i + 1);
        let word = s.subrange(i, j);
        match keyword(word) {
            Some(t) => LexStep::Emit(seq![t], j),
            None => LexStep::Emit(seq![TokenV::Identifier(word)], j),
        }
    } else if is_blank(c) {
        LexStep::Skip(i + 1)
    } else {
        LexStep::Fail(LexError::UnexpectedCharacter(c))
    }
}

proof fn lemma_digits_end(s: Seq<char>, i: int)
    requires
        0 <= i <= s.len(),
    ensures
        i <= digits_end(s, i) <= s.len(),
        forall|k: int| i <= k < digits_end(s, i) ==> is_digit(#[trigger] s[k]),
        digits_end(s, i) < s.len() ==> !is_digit(s[digits_end(s, i)]),
    decreases s.len() - i,
{
    if i < s.len() && is_digit(s[i]) {
        lemma_digits_end(s, i + 1);
    }
}

proof fn lemma_identifier_end(s: Seq<char>, i: int)
    requires
        0 <= i <= s.len(),
    ensures
        i <= identifier_end(s, i) <= s.len(),
        forall|k: int| i <= k < identifier_end(s, i) ==> continues_identifier(#[trigger] s[k]),
        identifier_end(s, i) < s.len() ==> !continues_identifier(s[identifier_end(s, i)]),
    decreases s.len() - i,
{
    if i < s.len() && continues_identifier(s[i]) {
        lemma_identifier_end(s, i + 1);
    }
}

proof fn lemma_line_end(s: Seq<char>, i: int)
    requires
        0 <= i <= s.len(),
    ensures
        i <= line_end(s, i) <= s.len(),
        forall|k: int| i <= k < line_end(s, i) ==> #[trigger] s[k] != '\n',
        line_end(s, i) < s.len() ==> s[line_end(s, i)] == '\n',
    decreases s.len() - i,
{
    if i < s.len() && s[i] != '\n' {
        lemma_line_end(s, i + 1);
    }
}

/// Every step that does not fail moves forward, and stays within the text.
pub proof fn lemma_lex_step_advances(s: Seq<char>, i: int)
    requires
        0 <= i < s.len(),
    ensures
        match lex_step(s, i) {
            LexStep::Skip(n) => i < n <= s.len(),
            LexStep::Emit(_, n) => i < n <= s.len(),
            LexStep::Fail(_) => true,
        },
{
    lemma_digits_end(s, i);
    if is_digit(s[i]) {
        let j = digits_end(s, i);
        if j < s.len() {
            lemma_digits_end(s, j + 1);
        }
    }
    lemma_identifier_end(s, i + 1);
    if i + 1 < s.len() {
        lemma_line_end(s, i + 1);
    }
}

/// Adds `p` in front of a successful result.
pub open spec fn prepend(p: Seq<TokenV>, r: Result<Seq<TokenV>, LexError>) -> Result<Seq<TokenV>, LexError> {
    match r {
        Ok(t) => Ok(p + t),
        Err(e) => Err(e),
    }
}

/// The tokens of `s` from position `i` on, ending with `Eof`, or the first error.
pub open spec fn lex_from(s: Seq<char>, i: int) -> Result<Seq<TokenV>, LexError>
    decreases s.len() - i,
{
    if i < 0 || i >= s.len() {
        Ok(seq![TokenV::Eof])
    } else {
        proof {
            lemma_lex_step_advances(s, i);
        }
        match lex_step(s, i) {
            LexStep::Skip(n) => lex_from(s, n),
            LexStep::Emit(t, n) => prepend(t, lex_from(s, n)),
            LexStep::Fail(e) => Err(e),
        }
    }
}

/// The tokens of a whole source text, or the error that stops the lexer.
pub open spec fn lex(s: Seq<char>) -> Result<Seq<TokenV>, LexError> {
    lex_from(s, 0)
}

/// A token stream that ends with `Eof` and has no `Eof` before its end.
pub open spec fn ends_with_eof(ts: Seq<TokenV>) -> bool {
    &&& ts.len() > 0
    &&& ts.last() == TokenV::Eof
    &&& forall|k: int| 0 <= k < ts.len() - 1 ==> ts[k] != TokenV::Eof
}

proof fn lemma_lex_from_ends_with_eof(s: Seq<char>, i: int)
    ensures
        lex_from(s, i) matches Ok(ts) ==> ends_with_eof(ts),
    decreases s.len() - i,
{
    if 0 <= i < s.len() {
        lemma_lex_step_advances(s, i);
        match lex_step(s, i) {
            LexStep::Skip(n) => lemma_lex_from_ends_with_eof(s, n),
            LexStep::Emit(t, n) => {
                lemma_lex_from_ends_with_eof(s, n);
                assert(forall|k: int| 0 <= k < t.len() ==> t[k] != TokenV::Eof);
                if let Ok(rest) = lex_from(s, n) {
                    let all = t + rest;
                    assert forall|k: int| 0 <= k < all.len() - 1 implies all[k] != TokenV::Eof by {
                        if k >= t.len() {
                            assert(all[k] == rest[k - t.len()]);
                        }
                    }
                }
            },
            LexStep::Fail(_) => {},
        }
    }
}

/// The lexer ends every token stream with `Eof`, and emits no other `Eof`:
/// the parser always has a current token to look at, and stops at the end.
pub proof fn lemma_lex_ends_with_eof(s: Seq<char>)
    ensures
        lex(s) matches Ok(ts) ==> ends_with_eof(ts),
{
    lemma_lex_from_ends_with_eof(s, 0);
}

// Lexing joined texts. A text `p + b` lexed from inside `b` behaves as `b`
// alone, shifted by the length of `p`; a text `a + "\n" + b` lexed from
// inside `a` behaves as `a` alone, since the line break ends whatever token
// or comment `a` ends with.

/// A lexer step moved on by `k` positions.
pub open spec fn shifted(st: LexStep, k: int) -> LexStep {
    match st {
        LexStep::Skip(n) => LexStep::Skip(n + k),
        LexStep::Emit(t, n) => LexStep::Emit(t, n + k),
        LexStep::Fail(e) => LexStep::Fail(e),
    }
}

proof fn lemma_runs_in_suffix(p: Seq<char>, b: Seq<char>, i: int)
    requires
        0 <= i <= b.len(),
    ensures
        digits_end(p + b, p.len() + i) == p.len() + digits_end(b, i),
        identifier_end(p + b, p.len() + i) == p.len() + identifier_end(b, i),
        line_end(p + b, p.len() + i) == p.len() + line_end(b, i),
    decreases b.len() - i,
{
    let s = p + b;
    if i < b.len() {
        assert(s[p.len() + i] == b[i]);
        lemma_runs_in_suffix(p, b, i + 1);
    }
}

proof fn lemma_step_in_suffix(p: Seq<char>, b: Seq<char>, i: int)
    requires
        0 <= i < b.len(),
    ensures
        lex_step(p + b, p.len() + i) == shifted(lex_step(b, i), p.len() as int),
{
    let s = p + b;
    let k = p.len() as int;
    assert forall|m: int| 0 <= m < b.len() implies s[k + m] == b[m] by {}
    lemma_runs_in_suffix(p, b, i);
    lemma_runs_in_suffix(p, b, i + 1);
    lemma_digits_end(b, i);
    lemma_identifier_end(b, i + 1);
    let j = digits_end(b, i);
    if j + 1 <= b.len() {
        lemma_runs_in_suffix(p, b, j + 1);
        lemma_digits_end(b, j + 1);
    }
    assert forall|x: int, y: int| 0 <= x <= y <= b.len() implies #[trigger] s.subrange(k + x, k + y)
        == b.subrange(x, y) by {
        assert(s.subrange(k + x, k + y) =~= b.subrange(x, y));
    }
}

proof fn lemma_suffix_lexes_alone(p: Seq<char>, b: Seq<char>, i: int)
    requires
        0 <= i <= b.len(),
    ensures
        lex_from(p + b, p.len() + i) == lex_from(b, i),
    decreases b.len() - i,
{
    if i < b.len() {
        lemma_step_in_suffix(p, b, i);
        lemma_lex_step_advances(b, i);
        match lex_step(b, i) {
            LexStep::Skip(n) => lemma_suffix_lexes_alone(p, b, n),
            LexStep::Emit(_, n) => lemma_suffix_lexes_alone(p, b, n),
            LexStep::Fail(_) => {},
        }
    }
}

proof fn lemma_runs_before_break(a: Seq<char>, b: Seq<char>, i: int)
    requires
        0 <= i <= a.len(),
    ensures
        digits_end(a + seq!['\n'] + b, i) == digits_end(a, i),
        identifier_end(a + seq!['\n'] + b, i) == identifier_end(a, i),
        line_end(a + seq!['\n'] + b, i) == line_end(a, i),
    decreases a.len() - i,
{
    let s = a + seq!['\n'] + b;
    assert(s[a.len() as int] == '\n');
    if i < a.len() {
        assert(s[i] == a[i]);
        lemma_runs_before_break(a, b, i + 1);
    }
}

proof fn lemma_step_before_break(a: Seq<char>, b: Seq<char>, i: int)
    requires
        0 <= i < a.len(),
    ensures
        lex_step(a + seq!['\n'] + b, i) == lex_step(a, i),
{
    let s = a + seq!['\n'] + b;
    assert forall|m: int| 0 <= m < a.len() implies s[m] == a[m] by {}
    assert(s[a.len() as int] == '\n');
    lemma_runs_before_break(a, b, i);
    lemma_runs_before_break(a, b, i + 1);
    lemma_digits_end(a, i);
    lemma_identifier_end(a, i + 1);
    let j = digits_end(a, i);
    if j + 1 <= a.len() {
        lemma_runs_before_break(a, b, j + 1);
        lemma_digits_end(a, j + 1);
    }
    assert forall|x: int, y: int| 0 <= x <= y <= a.len() implies #[trigger] s.subrange(x, y)
        == a.subrange(x, y) by {
        assert(s.subrange(x, y) =~= a.subrange(x, y));
    }
}

proof fn lemma_lex_from_nonempty(s: Seq<char>, i: int)
    ensures
        lex_from(s, i) matches Ok(t) ==> t.len() > 0,
{
    lemma_lex_from_ends_with_eof(s, i);
}

proof fn lemma_prefix_lexes_alone(a: Seq<char>, b: Seq<char>, i: int)
    requires
        0 <= i <= a.len(),
    ensures
        lex_from(a, i) matches Ok(t) ==> lex_from(a + seq!['\n'] + b, i) == prepend(
            t.drop_last(),
            lex_from(a + seq!['\n'] + b, a.len() as int),
        ),
    decreases a.len() - i,
{
    let s = a + seq!['\n'] + b;
    let rest = lex_from(s, a.len() as int);
    if i == a.len() {
        if let Ok(r) = rest {
            assert(Seq::<TokenV>::empty() + r =~= r);
        }
    } else {
        lemma_step_before_break(a, b, i);
        lemma_lex_step_advances(a, i);
        match lex_step(a, i) {
            LexStep::Skip(n) => lemma_prefix_lexes_alone(a, b, n),
            LexStep::Emit(t0, n) => {
                lemma_prefix_lexes_alone(a, b, n);
                lemma_lex_from_nonempty(a, n);
                if let Ok(t1) = lex_from(a, n) {
                    assert((t0 + t1).drop_last() =~= t0 + t1.drop_last());
                    if let Ok(r) = rest {
                        assert(t0 + (t1.drop_last() + r) =~= (t0 + t1.drop_last()) + r);
                    }
                }
            },
            LexStep::Fail(_) => {},
        }
    }
}

/// A line break only separates tokens: lexing two texts joined by a line
/// break gives the tokens of the first without its `Eof`, then those of the
/// second (or the second's error).
pub proof fn lemma_lex_joined_lines(a: Seq<char>, b: Seq<char>)
    ensures
        lex(a) matches Ok(t) ==> lex(a + seq!['\n'] + b) == prepend(t.drop_last(), lex(b)),
{
    let s = a + seq!['\n'] + b;
    lemma_prefix_lexes_alone(a, b, 0);
    let p = a + seq!['\n'];
    assert(s == p + b);
    assert(s[a.len() as int] == '\n');
    lemma_suffix_lexes_alone(p, b, 0);
    assert(lex_step(s, a.len() as int) == LexStep::Skip(a.len() + 1int));
}

fn chars_of(source: &str) -> (r: Vec<char>)
    ensures
        r@ == source@,
{
    let mut out: Vec<char> = Vec::new();
    for c in it: source.chars()
        invariant
            out@ == it.seq().take(it.index() as int),
    {
        out.push(c);
    }
    proof {
        broadcast use vstd::string::group_string_axioms;

        assert(out@ == source@);
    }
    out
}

/// `String::push`: appends a character to the end of a string.
#[verifier::external_body]
fn push_char(s: &mut String, c: char)
    ensures
        final(s)@ == old(s)@.push(c),
{
    s.push(c);
}

/// The string made of `chars[from..to]`.
fn string_of(chars: &Vec<char>, from: usize, to: usize) -> (r: String)
    requires
        from <= to <= chars@.len(),
    ensures
        r@ == chars@.subrange(from as int, to as int),
{
    let mut out = String::new();
    let mut k = from;
    while k < to
        invariant
            from <= k <= to <= chars@.len(),
            out@ == chars@.subrange(from as int, k as int),
        decreases to - k,
    {
        push_char(&mut out, chars[k]);
        assert(chars@.subrange(from as int, k + 1) == chars@.subrange(from as int, k as int).push(
            chars@[k as int],
        ));
        k = k + 1;
    }
    out
}

/// Whether `chars[from..to]` spells `word`.
fn spells(chars: &Vec<char>, from: usize, to: usize, word: &Vec<char>) -> (r: bool)
    requires
        from <= to <= chars@.len(),
    ensures
        r == (chars@.subrange(from as int, to as int) == word@),
{
    if to - from != word.len() {
        return false;
    }
    let mut k: usize = 0;
    while k < word.len()
        invariant
            from <= to <= chars@.len(),
            to - from == word@.len(),
            k <= word@.len(),
            forall|m: int| 0 <= m < k ==> chars@[from + m] == word@[m],
        decreases word.len() - k,
    {
        if chars[from + k] != word[k] {
            assert(chars@.subrange(from as int, to as int)[k as int] != word@[k as int]);
            return false;
        }
        k = k + 1;
    }
    assert(chars@.subrange(from as int, to as int) =~= word@);
    true
}

/// The token of a keyword spelled by `chars[from..to]`, if it is one.
fn keyword_token(chars: &Vec<char>, from: usize, to: usize) -> (r: Option<Token>)
    requires
        from <= to <= chars@.len(),
    ensures
        match r {
            Some(t) => keyword(chars@.subrange(from as int, to as int)) == Some(t@),
            None => keyword(chars@.subrange(from as int, to as int)) is None,
        },
{
    let ghost w = chars@.subrange(from as int, to as int);
    if spells(chars, from, to, &vec!['l', 'e', 't']) {
        Some(Token::Let)
    } else if spells(chars, from, to, &vec!['c', 'o', 'n', 's', 't']) {
        Some(Token::Const)
    } else if spells(chars, from, to, &vec!['i', 'n', 't']) {
        Some(Token::IntType)
    } else if spells(chars, from, to, &vec!['f', 'l', 'o', 'a', 't']) {
        Some(Token::FloatType)
    } else if spells(chars, from, to, &vec!['b', 'o', 'o', 'l']) {
        Some(Token::BoolType)
    } else if spells(chars, from, to, &vec!['t', 'r', 'u', 'e']) {
        Some(Token::True)
    } else if spells(chars, from, to, &vec!['f', 'a', 'l', 's', 'e']) {
        Some(Token::False)
    } else if spells(chars, from, to, &vec!['p', 'r', 'i', 'n', 't']) {
        Some(Token::Print)
    } else if spells(chars, from, to, &vec!['i', 'f']) {
        Some(Token::If)
    } else if spells(chars, from, to, &vec!['e', 'l', 's', 'e']) {
        Some(Token::Else)
    } else if spells(chars, from, to, &vec!['w', 'h', 'i', 'l', 'e']) {
        Some(Token::While)
    } else if spells(chars, from, to, &vec!['f', 'o', 'r']) {
        Some(Token::For)
    } else if spells(chars, from, to, &vec!['i', 'n']) {
        Some(Token::In)
    } else if spells(chars, from, to, &vec!['b', 'y']) {
        Some(Token::By)
    } else {
        None
    }
}

fn is_digit_char(c: char) -> (r: bool)
    ensures
        r == is_digit(c),
{
    '0' <= c && c <= '9'
}

/// The end of the run of digits that starts at `i`.
fn scan_digits(chars: &Vec<char>, i: usize) -> (r: usize)
    requires
        i <= chars@.len(),
    ensures
        r == digits_end(chars@, i as int),
{
    let mut k = i;
    while k < chars.len() && is_digit_char(chars[k])
        invariant
            i <= k <= chars@.len(),
            digits_end(chars@, i as int) == digits_end(chars@, k as int),
        decreases chars.len() - k,
    {
        k = k + 1;
    }
    k
}

/// A digit sequence is worth at least as much as any of its prefixes.
proof fn lemma_decimal_value_prefix(d: Seq<char>, k: int)
    requires
        0 <= k <= d.len(),
        forall|m: int| 0 <= m < d.len() ==> is_digit(#[trigger] d[m]),
    ensures
        0 <= decimal_value(d.take(k)) <= decimal_value(d),
    decreases d.len(),
{
    if k < d.len() {
        lemma_decimal_value_prefix(d.drop_last(), k);
        assert(d.drop_last().take(k) == d.take(k));
        lemma_decimal_value_prefix(d.drop_last(), d.len() - 1);
        assert(d.drop_last().take(d.len() - 1) == d.drop_last());
    } else {
        assert(d.take(k) == d);
        if d.len() > 0 {
            lemma_decimal_value_prefix(d.drop_last(), d.len() - 1);
            assert(d.drop_last().take(d.len() - 1) == d.drop_last());
        }
    }
}

/// The integer token of the digits `chars[i..j]`, or `None` when the value
/// does not fit in an `i64`.
fn parse_integer(chars: &Vec<char>, i: usize, j: usize) -> (r: Option<i64>)
    requires
        i <= j <= chars@.len(),
        forall|m: int| i <= m < j ==> is_digit(#[trigger] chars@[m]),
    ensures
        match r {
            Some(v) => integer_token(chars@, i as int, j as int) == Some(TokenV::Int(v)),
            None => integer_token(chars@, i as int, j as int) is None,
        },
{
    let ghost d = chars@.subrange(i as int, j as int);
    let mut v: i64 = 0;
    let mut k = i;
    while k < j
        invariant
            i <= k <= j <= chars@.len(),
            d == chars@.subrange(i as int, j as int),
            forall|m: int| i <= m < j ==> is_digit(#[trigger] chars@[m]),
            0 <= v,
            v as int == decimal_value(d.take(k - i)),
        decreases j - k,
    {
        let digit = (chars[k] as u32 - '0' as u32) as i64;
        assert(d.take(k - i + 1).drop_last() == d.take(k - i));
        assert(d.take(k - i + 1).last() == chars@[k as int]);
        if v > (i64::MAX - digit) / 10 {
            proof {
                assert forall|m: int| 0 <= m < d.len() implies is_digit(#[trigger] d[m]) by {
                    assert(d[m] == chars@[i + m]);
                }
                lemma_decimal_value_prefix(d, k - i + 1);
            }
            return None;
        }
        v = v * 10 + digit;
        k = k + 1;
    }
    assert(d.take(j - i) == d);
    Some(v)
}

/// Emits the token for one or two characters, chosen by whether `second`
/// follows `chars[i]`.
fn emit_one_or_two(
    chars: &Vec<char>,
    i: usize,
    second: char,
    long: Token,
    short: Token,
    out: &mut Vec<Token>,
) -> (r: usize)
    requires
        i < chars.len(),
    ensures
        one_or_two(chars@, i as int, second, long@, short@) matches LexStep::Emit(t, n) && r
            == n && tokens_view(final(out)@) == tokens_view(old(out)@) + t,
{
    if i + 1 < chars.len() && chars[i + 1] == second {
        out.push(long);
        assert(tokens_view(out@) == tokens_view(old(out)@) + seq![long@]);
        i + 2
    } else {
        out.push(short);
        assert(tokens_view(out@) == tokens_view(old(out)@) + seq![short@]);
        i + 1
    }
}

/// The effect of a lexer step on the tokens emitted so far.
pub open spec fn step_effect(
    step: LexStep,
    before: Seq<TokenV>,
    after: Seq<TokenV>,
    r: Result<usize, LexError>,
) -> bool {
    match step {
        LexStep::Skip(n) => r == Ok::<usize, LexError>(n as usize) && after == before,
        LexStep::Emit(t, n) => r == Ok::<usize, LexError>(n as usize) && after == before + t,
        LexStep::Fail(e) => r == Err::<usize, LexError>(e),
    }
}

/// Lexes a number at `i`.
fn lex_number(chars: &Vec<char>, i: usize, out: &mut Vec<Token>) -> (r: Result<usize, LexError>)
    requires
        i < chars@.len(),
        is_digit(chars@[i as int]),
    ensures
        step_effect(number_step(chars@, i as int), tokens_view(old(out)@), tokens_view(final(out)@), r),
{
    let ghost s = chars@;
    proof {
        lemma_digits_end(s, i as int);
    }
    let j = scan_digits(chars, i);
    if j < chars.len() && chars[j] == '.' {
        if j + 1 < chars.len() && chars[j + 1] == '.' {
            match parse_integer(chars, i, j) {
                Some(v) => {
                    out.push(Token::Int(v));
                    if j + 2 < chars.len() && chars[j + 2] == '=' {
                        out.push(Token::DotDotEqual);
                        assert(tokens_view(out@) == tokens_view(old(out)@) + seq![
                            TokenV::Int(v),
                            TokenV::DotDotEqual,
                        ]);
                        Ok(j + 3)
                    } else {
                        out.push(Token::DotDot);
                        assert(tokens_view(out@) == tokens_view(old(out)@) + seq![
                            TokenV::Int(v),
                            TokenV::DotDot,
                        ]);
                        Ok(j + 2)
                    }
                },
                None => Err(LexError::IntegerOverflow),
            }
        } else {
            proof {
                lemma_digits_end(s, j + 1);
            }
            let k = scan_digits(chars, j + 1);
            if k == j + 1 {
                Err(LexError::MalformedNumber)
            } else {
                let text = string_of(chars, i, k);
                out.push(Token::Float(text));
                assert(tokens_view(out@) == tokens_view(old(out)@) + seq![TokenV::Float(text@)]);
                Ok(k)
            }
        }
    } else {
        match parse_integer(chars, i, j) {
            Some(v) => {
                out.push(Token::Int(v));
                assert(tokens_view(out@) == tokens_view(old(out)@) + seq![TokenV::Int(v)]);
                Ok(j)
            },
            None => Err(LexError::IntegerOverflow),
        }
    }
}

/// Lexes an identifier or keyword at `i`.
fn lex_word(chars: &Vec<char>, i: usize, out: &mut Vec<Token>) -> (r: usize)
    requires
        i < chars.len(),
    ensures
        ({
            let j = identifier_end(chars@, i + 1);
            let word = chars@.subrange(i as int, j);
            &&& r == j
            &&& match keyword(word) {
                Some(t) => tokens_view(final(out)@) == tokens_view(old(out)@) + seq![t],
                None => tokens_view(final(out)@) == tokens_view(old(out)@) + seq![
                    TokenV::Identifier(word),
                ],
            }
        }),
{
    proof {
        lemma_identifier_end(chars@, i + 1);
    }
    let mut j = i + 1;
    while j < chars.len() && (('a' <= chars[j] && chars[j] <= 'z') || ('A' <= chars[j] && chars[j]
        <= 'Z') || chars[j] == '_' || is_digit_char(chars[j]))
        invariant
            i + 1 <= j <= chars@.len(),
            identifier_end(chars@, i + 1) == identifier_end(chars@, j as int),
        decreases chars.len() - j,
    {
        j = j + 1;
    }
    match keyword_token(chars, i, j) {
        Some(t) => {
            let ghost tv = t@;
            out.push(t);
            assert(tokens_view(out@) == tokens_view(old(out)@) + seq![tv]);
        },
        None => {
            let word = string_of(chars, i, j);
            out.push(Token::Identifier(word));
            assert(tokens_view(out@) == tokens_view(old(out)@) + seq![TokenV::Identifier(word@)]);
        },
    }
    j
}

/// Pushes a one-character token.
fn emit(out: &mut Vec<Token>, t: Token)
    ensures
        tokens_view(final(out)@) == tokens_view(old(out)@) + seq![t@],
{
    let ghost tv = t@;
    out.push(t);
    assert(tokens_view(out@) == tokens_view(old(out)@) + seq![tv]);
}

/// Performs the lexer step at position `i`, appending what it emits to `out`.
fn lex_at(chars: &Vec<char>, i: usize, out: &mut Vec<Token>) -> (r: Result<usize, LexError>)
    requires
        i < chars.len(),
    ensures
        step_effect(lex_step(chars@, i as int), tokens_view(old(out)@), tokens_view(final(out)@), r),
{
    let c = chars[i];
    if c == '+' {
        emit(out, Token::Plus);
        Ok(i + 1)
    } else if c == '-' {
        emit(out, Token::Minus);
        Ok(i + 1)
    } else if c == '*' {
        emit(out, Token::Star);
        Ok(i + 1)
    } else if c == '/' {
        if i + 1 < chars.len() && chars[i + 1] == '/' {
            proof {
                lemma_line_end(chars@, i + 1);
            }
            let mut k = i + 1;
            while k < chars.len() && chars[k] != '\n'
                invariant
                    i + 1 <= k <= chars@.len(),
                    line_end(chars@, i + 1) == line_end(chars@, k as int),
                decreases chars.len() - k,
            {
                k = k + 1;
            }
            Ok(k)
        } else {
            emit(out, Token::Slash);
            Ok(i + 1)
        }
    } else if c == '%' {
        emit(out, Token::Modulo);
        Ok(i + 1)
    } else if c == '(' {
        emit(out, Token::LeftParen);
        Ok(i + 1)
    } else if c == ')' {
        emit(out, Token::RightParen);
        Ok(i + 1)
    } else if c == '{' {
        emit(out, Token::LeftBrace);
        Ok(i + 1)
    } else if c == '}' {
        emit(out, Token::RightBrace);
        Ok(i + 1)
    } else if is_digit_char(c) {
        lex_number(chars, i, out)
    } else if c == '=' {
        Ok(emit_one_or_two(chars, i, '=', Token::EqualEqual, Token::Equals, out))
    } else if c == ';' {
        emit(out, Token::Semicolon);
        Ok(i + 1)
    } else if c == '!' {
        Ok(emit_one_or_two(chars, i, '=', Token::NotEqual, Token::Not, out))
    } else if c == '<' {
        Ok(emit_one_or_two(chars, i, '=', Token::LessEqual, Token::Less, out))
    } else if c == '>' {
        Ok(emit_one_or_two(chars, i, '=', Token::GreaterEqual, Token::Greater, out))
    } else if ('a' <= c && c <= 'z') || ('A' <= c && c < 'Z') || c == '_' {
        Ok(lex_word(chars, i, out))
    } else if c == ' ' || c == '\t' || c == '\n' || c == '\r' {
        Ok(i + 1)
    } else {
        Err(LexError::UnexpectedCharacter(c))
    }
}

/// Splits `source` into tokens, ending with `Eof`, or reports why it cannot:
/// a character that starts no token, a number such as `3.` with no digit
/// after its point, or an integer literal that does not fit in an `i64`.
pub fn try_tokenize(source: &str) -> (r: Result<Vec<Token>, LexError>)
    ensures
        match r {
            Ok(ts) => lex(source@) == Ok::<Seq<TokenV>, LexError>(tokens_view(ts@)),
            Err(e) => lex(source@) == Err::<Seq<TokenV>, LexError>(e),
        },
{
    let chars = chars_of(source);
    let ghost s = chars@;
    let mut tokens: Vec<Token> = Vec::new();
    let mut i: usize = 0;
    while i < chars.len()
        invariant
            s == chars@,
            s == source@,
            i <= s.len(),
            lex(s) == prepend(tokens_view(tokens@), lex_from(s, i as int)),
        decreases s.len() - i,
    {
        proof {
            lemma_lex_step_advances(s, i as int);
        }
        let ghost before = tokens_view(tokens@);
        match lex_at(&chars, i, &mut tokens) {
            Ok(n) => {
                proof {
                    match lex_step(s, i as int) {
                        LexStep::Emit(t, _) => {
                            match lex_from(s, n as int) {
                                Ok(rest) => {
                                    assert(before + (t + rest) == (before + t) + rest);
                                },
                                Err(_) => {},
                            }
                        },
                        _ => {},
                    }
                }
                i = n;
            },
            Err(e) => {
                assert(lex_from(s, i as int) == Err::<Seq<TokenV>, LexError>(e));
                return Err(e);
            },
        }
    }
    emit(&mut tokens, Token::Eof);
    Ok(tokens)
}

/// Splits `source` into tokens, ending with `Eof`. Every token comes from
/// characters of the source, whitespace and `//` comments are skipped.
pub fn tokenize(source: &str) -> (r: Vec<Token>)
    requires
        lex(source@) is Ok,
    ensures
        lex(source@) == Ok::<Seq<TokenV>, LexError>(tokens_view(r@)),
{
    match try_tokenize(source) {
        Ok(ts) => ts,
        Err(_) => {
            assert(false);
            Vec::new()
        },
    }
}

} // verus!
