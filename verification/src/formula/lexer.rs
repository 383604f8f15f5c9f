//! The formula lexer: characters to tokens.

use vstd::prelude::*;
use crate::error::AlgoError;
use crate::formula::ast::{Tok, Token, TokenView, tokens_view};
use crate::text::{char_is_whitespace, chars_of, is_white_space, push_char, string_of};

verus! {

/// An ASCII decimal digit.
pub open spec fn is_digit(c: char) -> bool {
    '0' <= c && c <= '9'
}

/// A character that may start an identifier: an ASCII letter or `_`.
pub open spec fn ident_start(c: char) -> bool {
    ('a' <= c && c <= 'z') || ('A' <= c && c <= 'Z') || c == '_'
}

/// A character that may continue an identifier: an ASCII letter, digit or `_`.
pub open spec fn ident_continue(c: char) -> bool {
    ident_start(c) || is_digit(c)
}

/// A whole text that is one identifier.
pub open spec fn ident_text(s: Seq<char>) -> bool {
    s.len() > 0 && ident_start(s[0]) && forall|i: int| 1 <= i < s.len() ==> ident_continue(#[trigger] s[i])
}

/// Whether `c` may start an identifier.
pub fn is_ident_start(c: char) -> (r: bool)
    ensures
        r == ident_start(c),
{
    ('a' <= c && c <= 'z') || ('A' <= c && c <= 'Z') || c == '_'
}

/// Whether `c` may continue an identifier.
pub fn is_ident_continue(c: char) -> (r: bool)
    ensures
        r == ident_continue(c),
{
    is_ident_start(c) || ('0' <= c && c <= '9')
}

/// Whether `text` is a bare identifier (`[A-Za-z_][A-Za-z0-9_]*`).
pub fn is_ident(text: &str) -> (r: bool)
    ensures
        r == ident_text(text@),
{
    let cs = chars_of(text);
    if cs.len() == 0 || !is_ident_start(cs[0]) {
        return false;
    }
    let mut i: usize = 1;
    while i < cs.len()
        invariant
            1 <= i <= cs@.len(),
            cs@ == text@,
            ident_start(cs@[0]),
            forall|k: int| 1 <= k < i ==> ident_continue(#[trigger] cs@[k]),
        decreases cs.len() - i,
    {
        if !is_ident_continue(cs[i]) {
            return false;
        }
        i = i + 1;
    }
    true
}

/// The end of the run of digits starting at `i`.
pub open spec fn digits_end(s: Seq<char>, i: int) -> int
    decreases s.len() - i,
{
    if 0 <= i < s.len() && is_digit(s[i]) {
        digits_end(s, i + 1)
    } else {
        i
    }
}

/// The end of the run of identifier-continuing characters starting at `i`.
pub open spec fn ident_run_end(s: Seq<char>, i: int) -> int
    decreases s.len() - i,
{
    if 0 <= i < s.len() && ident_continue(s[i]) {
        ident_run_end(s, i + 1)
    } else {
        i
    }
}

/// Why a text could not be split into tokens.
#[derive(Debug, Clone, Copy, PartialEq, Eq, Structural)]
pub enum LexFault {
    /// A single `=` inside an expression.
    LoneEquals,
    /// A `!` not followed by `=`.
    LoneBang,
    /// `$` (or the lexer) expected an identifier.
    NoIdent,
    /// A number literal without any digit.
    NoDigit,
    /// An exponent marker without exponent digits.
    BadExponent,
    /// A character that starts no token.
    Unexpected(char),
}

/// The message a lexing fault is reported with.
pub open spec fn fault_message(f: LexFault) -> Seq<char> {
    match f {
        LexFault::LoneEquals => "unexpected `=` inside formula expression; use `==` for equality"@,
        LexFault::LoneBang => "unexpected `!` inside formula expression; use `!=` for inequality"@,
        LexFault::NoIdent => "expected identifier in formula expression"@,
        LexFault::NoDigit => "expected digit in formula number literal"@,
        LexFault::BadExponent => "invalid exponent in formula number literal"@,
        LexFault::Unexpected(c) => "unexpected character `"@ + seq![c] + "` in formula expression"@,
    }
}

/// The parse error carrying a lexing fault's message.
pub fn fault_error(f: LexFault) -> (r: AlgoError)
    ensures
        r matches AlgoError::Parse(m) && m@ == fault_message(f),
{
    let m = match f {
        LexFault::LoneEquals => String::from_str("unexpected `=` inside formula expression; use `==` for equality"),
        LexFault::LoneBang => String::from_str("unexpected `!` inside formula expression; use `!=` for inequality"),
        LexFault::NoIdent => String::from_str("expected identifier in formula expression"),
        LexFault::NoDigit => String::from_str("expected digit in formula number literal"),
        LexFault::BadExponent => String::from_str("invalid exponent in formula number literal"),
        LexFault::Unexpected(c) => {
            let mut m = String::from_str("unexpected character `");
            push_char(&mut m, c);
            m.append("` in formula expression");
            m
        }
    };
    AlgoError::Parse(m)
}

/// Where the identifier starting at `start` ends, if one starts there.
pub open spec fn ident_at(s: Seq<char>, start: int) -> Option<int> {
    if 0 <= start < s.len() && ident_start(s[start]) {
        Some(ident_run_end(s, start + 1))
    } else {
        None
    }
}

/// Where the number literal starting at `start` ends:
/// `digits [. digits] [(e|E) [+|-] digits]` with at least one mantissa digit.
pub open spec fn number_at(s: Seq<char>, start: int) -> Result<int, LexFault> {
    let e1 = digits_end(s, start);
    let dot = 0 <= e1 < s.len() && s[e1] == '.';
    let e2 = if dot { digits_end(s, e1 + 1) } else { e1 };
    let saw_digit = e1 > start || (dot && e2 > e1 + 1);
    if !saw_digit {
        Err(LexFault::NoDigit)
    } else if 0 <= e2 < s.len() && (s[e2] == 'e' || s[e2] == 'E') {
        let k = if e2 + 1 < s.len() && (s[e2 + 1] == '+' || s[e2 + 1] == '-') { e2 + 2 } else { e2 + 1 };
        let e3 = digits_end(s, k);
        if e3 == k {
            Err(LexFault::BadExponent)
        } else {
            Ok(e3)
        }
    } else {
        Ok(e2)
    }
}

proof fn lemma_digits_end(s: Seq<char>, i: int)
    requires
        0 <= i <= s.len(),
    ensures
        i <= digits_end(s, i) <= s.len(),
        forall|k: int| i <= k < digits_end(s, i) ==> is_digit(#[trigger] s[k]),
        digits_end(s, i) < s.len() ==> !is_digit(s[digits_end(s, i)]),
    decreases s.len() - i,
{
    if i < s.len() && is_digit(s[i]) {
        lemma_digits_end(s, i + 1);
    }
}

/// A run of digits from `i` that stops at `j` ends at `j`.
proof fn lemma_digits_end_at(s: Seq<char>, i: int, j: int)
    requires
        0 <= i <= j <= s.len(),
        forall|k: int| i <= k < j ==> is_digit(#[trigger] s[k]),
        j == s.len() || !is_digit(s[j]),
    ensures
        digits_end(s, i) == j,
    decreases j - i,
{
    if i < j {
        lemma_digits_end_at(s, i + 1, j);
    }
}

/// A number literal is read to its very end: the character after it, if
/// any, is never a digit (no digit of the mantissa, the fraction or the
/// exponent is left over). Concretely, `digits` and `digits.digits` (not
/// followed by a digit, a `.` after a bare integer, or an exponent marker)
/// are read whole, up to the first character that is not part of them.
pub proof fn law_number_literal_read_whole(s: Seq<char>, start: int, d: int, f: int)
    ensures
        number_at(s, start) matches Ok(e) ==> 0 <= start < e <= s.len() && (e == s.len() || !is_digit(s[e])),
        0 <= start < d <= s.len()
            && (forall|k: int| start <= k < d ==> is_digit(#[trigger] s[k]))
            && (d == s.len() || (!is_digit(s[d]) && s[d] != '.' && s[d] != 'e' && s[d] != 'E'))
            ==> number_at(s, start) == Ok::<int, LexFault>(d),
        0 <= start <= d && d < f <= s.len() && (start < d || d + 1 < f)
            && (forall|k: int| start <= k < d ==> is_digit(#[trigger] s[k]))
            && s[d] == '.'
            && (forall|k: int| d < k < f ==> is_digit(#[trigger] s[k]))
            && (f == s.len() || (!is_digit(s[f]) && s[f] != 'e' && s[f] != 'E'))
            ==> number_at(s, start) == Ok::<int, LexFault>(f),
{
    if 0 <= start <= s.len() {
        lemma_digits_end(s, start);
        let e1 = digits_end(s, start);
        if 0 <= e1 < s.len() && s[e1] == '.' {
            lemma_digits_end(s, e1 + 1);
            let e2 = digits_end(s, e1 + 1);
            if 0 <= e2 < s.len() && (s[e2] == 'e' || s[e2] == 'E') {
                let k = if e2 + 1 < s.len() && (s[e2 + 1] == '+' || s[e2 + 1] == '-') { e2 + 2 } else { e2 + 1 };
                lemma_digits_end(s, k);
            }
        } else if 0 <= e1 < s.len() && (s[e1] == 'e' || s[e1] == 'E') {
            let k = if e1 + 1 < s.len() && (s[e1 + 1] == '+' || s[e1 + 1] == '-') { e1 + 2 } else { e1 + 1 };
            lemma_digits_end(s, k);
        }
    }
    if 0 <= start < d <= s.len()
        && (forall|k: int| start <= k < d ==> is_digit(#[trigger] s[k]))
        && (d == s.len() || (!is_digit(s[d]) && s[d] != '.' && s[d] != 'e' && s[d] != 'E')) {
        lemma_digits_end_at(s, start, d);
    }
    if 0 <= start <= d && d < f <= s.len() && (start < d || d + 1 < f)
        && (forall|k: int| start <= k < d ==> is_digit(#[trigger] s[k]))
        && s[d] == '.'
        && (forall|k: int| d < k < f ==> is_digit(#[trigger] s[k]))
        && (f == s.len() || (!is_digit(s[f]) && s[f] != 'e' && s[f] != 'E')) {
        lemma_digits_end_at(s, start, d);
        lemma_digits_end_at(s, d + 1, f);
    }
}

proof fn lemma_ident_run_end(s: Seq<char>, i: int)
    requires
        0 <= i <= s.len(),
    ensures
        i <= ident_run_end(s, i) <= s.len(),
        forall|k: int| i <= k < ident_run_end(s, i) ==> ident_continue(#[trigger] s[k]),
        ident_run_end(s, i) < s.len() ==> !ident_continue(s[ident_run_end(s, i)]),
    decreases s.len() - i,
{
    if i < s.len() && ident_continue(s[i]) {
        lemma_ident_run_end(s, i + 1);
    }
}

/// The end of the digit run starting at `i`.
fn scan_digits(chars: &[char], i: usize) -> (r: usize)
    requires
        i <= chars@.len(),
    ensures
        r == digits_end(chars@, i as int),
{
    proof {
        lemma_digits_end(chars@, i as int);
    }
    let mut end = i;
    while end < chars.len() && '0' <= chars[end] && chars[end] <= '9'
        invariant
            i <= end <= chars@.len(),
            digits_end(chars@, i as int) == digits_end(chars@, end as int),
        decreases chars.len() - end,
    {
        end = end + 1;
    }
    end
}

/// Read an identifier starting at `start`: its text and the index just past it.
pub fn read_ident(chars: &[char], start: usize) -> (r: Result<(String, usize), AlgoError>)
    ensures
        match ident_at(chars@, start as int) {
            Some(end) => r matches Ok((name, e)) && e == end && name@ == chars@.subrange(start as int, end),
            None => r matches Err(AlgoError::Parse(m)) && m@ == fault_message(LexFault::NoIdent),
        },
{
    if !(start < chars.len() && is_ident_start(chars[start])) {
        return Err(fault_error(LexFault::NoIdent));
    }
    proof {
        lemma_ident_run_end(chars@, start + 1);
    }
    let mut end = start + 1;
    while end < chars.len() && is_ident_continue(chars[end])
        invariant
            start < end <= chars@.len(),
            ident_run_end(chars@, start + 1) == ident_run_end(chars@, end as int),
        decreases chars.len() - end,
    {
        end = end + 1;
    }
    Ok((string_of(chars, start, end), end))
}

/// Read a number literal starting at `start`: its text and the index just
/// past it.
pub fn read_number(chars: &[char], start: usize) -> (r: Result<(String, usize), AlgoError>)
    ensures
        match number_at(chars@, start as int) {
            Ok(end) => r matches Ok((lit, e)) && e == end && start < end <= chars@.len()
                && lit@ == chars@.subrange(start as int, end),
            Err(f) => r matches Err(AlgoError::Parse(m)) && m@ == fault_message(f),
        },
{
    let n = chars.len();
    if start > n {
        return Err(fault_error(LexFault::NoDigit));
    }
    proof {
        lemma_digits_end(chars@, start as int);
    }
    let e1 = scan_digits(chars, start);
    let mut saw_digit = e1 > start;
    let mut end = e1;
    if e1 < n && chars[e1] == '.' {
        proof {
            lemma_digits_end(chars@, e1 + 1);
        }
        let e2 = scan_digits(chars, e1 + 1);
        if e2 > e1 + 1 {
            saw_digit = true;
        }
        end = e2;
    }
    if !saw_digit {
        return Err(fault_error(LexFault::NoDigit));
    }
    if end < n && (chars[end] == 'e' || chars[end] == 'E') {
        let mut k = end + 1;
        if k < n && (chars[k] == '+' || chars[k] == '-') {
            k = k + 1;
        }
        proof {
            lemma_digits_end(chars@, k as int);
        }
        let e3 = scan_digits(chars, k);
        if e3 == k {
            return Err(fault_error(LexFault::BadExponent));
        }
        end = e3;
    }
    Ok((string_of(chars, start, end), end))
}

/// The single token starting at `i` (a position holding no whitespace), and
/// the index just past it.
pub open spec fn lex_one(s: Seq<char>, i: int) -> Result<(TokenView, int), LexFault> {
    let c = s[i];
    let next_is = |d: char| i + 1 < s.len() && s[i + 1] == d;
    if c == '+' {
        Ok((Tok::Plus, i + 1))
    } else if c == '-' {
        Ok((Tok::Minus, i + 1))
    } else if c == '*' {
        if next_is('*') { Ok((Tok::Pow, i + 2)) } else { Ok((Tok::Star, i + 1)) }
    } else if c == '/' {
        Ok((Tok::Slash, i + 1))
    } else if c == '(' {
        Ok((Tok::LParen, i + 1))
    } else if c == ')' {
        Ok((Tok::RParen, i + 1))
    } else if c == ',' {
        Ok((Tok::Comma, i + 1))
    } else if c == '<' {
        if next_is('=') { Ok((Tok::Le, i + 2)) } else { Ok((Tok::Lt, i + 1)) }
    } else if c == '>' {
        if next_is('=') { Ok((Tok::Ge, i + 2)) } else { Ok((Tok::Gt, i + 1)) }
    } else if c == '=' {
        if next_is('=') { Ok((Tok::EqEq, i + 2)) } else { Err(LexFault::LoneEquals) }
    } else if c == '!' {
        if next_is('=') { Ok((Tok::Ne, i + 2)) } else { Err(LexFault::LoneBang) }
    } else if c == '$' {
        match ident_at(s, i + 1) {
            Some(end) => Ok((Tok::Param(s.subrange(i + 1, end)), end)),
            None => Err(LexFault::NoIdent),
        }
    } else if is_digit(c) || c == '.' {
        match number_at(s, i) {
            Ok(end) => Ok((Tok::Number(s.subrange(i, end)), end)),
            Err(f) => Err(f),
        }
    } else if ident_start(c) {
        match ident_at(s, i) {
            Some(end) => Ok((Tok::Ident(s.subrange(i, end)), end)),
            None => Err(LexFault::NoIdent),
        }
    } else {
        Err(LexFault::Unexpected(c))
    }
}

/// The tokens of `s[i..]`: whitespace separates tokens and is dropped; the
/// first fault met is reported.
pub open spec fn lex(s: Seq<char>, i: int) -> Result<Seq<TokenView>, LexFault>
    decreases s.len() - i,
{
    if i < 0 || i >= s.len() {
        Ok(Seq::empty())
    } else if is_white_space(s[i]) {
        lex(s, i + 1)
    } else {
        match lex_one(s, i) {
            Err(f) => Err(f),
            Ok((t, j)) => if i < j && j <= s.len() {
                match lex(s, j) {
                    Ok(rest) => Ok(seq![t] + rest),
                    Err(f) => Err(f),
                }
            } else {
                Err(LexFault::Unexpected(s[i]))
            },
        }
    }
}

/// `acc` put in front of a lexing outcome.
pub open spec fn prepend(acc: Seq<TokenView>, r: Result<Seq<TokenView>, LexFault>) -> Result<Seq<TokenView>, LexFault> {
    match r {
        Ok(rest) => Ok(acc + rest),
        Err(f) => Err(f),
    }
}

/// Split a formula expression into tokens.
pub fn tokenize(text: &str) -> (r: Result<Vec<Token>, AlgoError>)
    ensures
        match lex(text@, 0) {
            Ok(ts) => r matches Ok(v) && tokens_view(v@) == ts,
            Err(f) => r matches Err(AlgoError::Parse(m)) && m@ == fault_message(f),
        },
{
    let chars = chars_of(text);
    let ghost s = chars@;
    let n = chars.len();
    let mut tokens: Vec<Token> = Vec::new();
    let mut i: usize = 0;
    assert(prepend(tokens_view(tokens@), lex(s, 0)) =~= lex(s, 0)) by {
        match lex(s, 0) {
            Ok(r) => { assert(tokens_view(tokens@) + r =~= r); }
            Err(_) => {}
        }
    }
    while i < n
        invariant
            s == chars@,
            s == text@,
            n == s.len(),
            i <= n,
            prepend(tokens_view(tokens@), lex(s, i as int)) == lex(s, 0),
        decreases n - i,
    {
        let c = chars[i];
        if char_is_whitespace(c) {
            i = i + 1;
            continue;
        }
        let ghost acc = tokens_view(tokens@);
        let next_is_eq = i + 1 < n && chars[i + 1] == '=';
        let (tok, next): (Token, usize) = if c == '+' {
            (Tok::Plus, i + 1)
        } else if c == '-' {
            (Tok::Minus, i + 1)
        } else if c == '*' {
            if i + 1 < n && chars[i + 1] == '*' { (Tok::Pow, i + 2) } else { (Tok::Star, i + 1) }
        } else if c == '/' {
            (Tok::Slash, i + 1)
        } else if c == '(' {
            (Tok::LParen, i + 1)
        } else if c == ')' {
            (Tok::RParen, i + 1)
        } else if c == ',' {
            (Tok::Comma, i + 1)
        } else if c == '<' {
            if next_is_eq { (Tok::Le, i + 2) } else { (Tok::Lt, i + 1) }
        } else if c == '>' {
            if next_is_eq { (Tok::Ge, i + 2) } else { (Tok::Gt, i + 1) }
        } else if c == '=' {
            if next_is_eq {
                (Tok::EqEq, i + 2)
            } else {
                return Err(fault_error(LexFault::LoneEquals));
            }
        } else if c == '!' {
            if next_is_eq {
                (Tok::Ne, i + 2)
            } else {
                return Err(fault_error(LexFault::LoneBang));
            }
        } else if c == '$' {
            match read_ident(chars.as_slice(), i + 1) {
                Ok((name, end)) => (Tok::Param(name), end),
                Err(e) => return Err(e),
            }
        } else if ('0' <= c && c <= '9') || c == '.' {
            match read_number(chars.as_slice(), i) {
                Ok((lit, end)) => (Tok::Number(lit), end),
                Err(e) => return Err(e),
            }
        } else if is_ident_start(c) {
            match read_ident(chars.as_slice(), i) {
                Ok((name, end)) => (Tok::Ident(name), end),
                Err(e) => return Err(e),
            }
        } else {
            return Err(fault_error(LexFault::Unexpected(c)));
        };
        proof {
            assert(lex_one(s, i as int) == Ok::<(TokenView, int), LexFault>((tok@, next as int)));
            if c == '$' {
                lemma_ident_run_end(s, i + 2);
            } else if ident_start(c) && !is_digit(c) {
                lemma_ident_run_end(s, i + 1);
            }
            assert(i < next <= n);
        }
        tokens.push(tok);
        proof {
            assert(tokens_view(tokens@) =~= acc + seq![tok@]);
            match lex(s, next as int) {
                Ok(rest) => { assert(acc + seq![tok@] + rest =~= acc + (seq![tok@] + rest)); }
                Err(_) => {}
            }
        }
        i = next;
    }
    proof {
        assert(tokens_view(tokens@) + Seq::<TokenView>::empty() =~= tokens_view(tokens@));
    }
    Ok(tokens)
}

} // verus!
