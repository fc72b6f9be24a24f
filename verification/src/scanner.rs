use vstd::prelude::*;
use vstd::string::StrSliceExecFns;

use crate::errors::{LexerError, LexerErrorModel};
use crate::token::{Token, TokenModel};

verus! {

// ---------------------------------------------------------------------------
// Character classes of the lexical grammar.
// ---------------------------------------------------------------------------

/// A decimal digit `0` ..= `9`.
pub open spec fn spec_is_digit(c: char) -> bool {
    ('0' as u32) <= (c as u32) && (c as u32) <= ('9' as u32)
}

/// An ASCII letter.
pub open spec fn spec_is_alpha(c: char) -> bool {
    (('a' as u32) <= (c as u32) && (c as u32) <= ('z' as u32))
    || (('A' as u32) <= (c as u32) && (c as u32) <= ('Z' as u32))
}

/// A letter or a digit: what may continue an identifier.
pub open spec fn spec_is_alnum(c: char) -> bool {
    spec_is_digit(c) || spec_is_alpha(c)
}

/// The whitespace characters the scanner discards.
pub open spec fn spec_is_whitespace(c: char) -> bool {
    c == ' ' || c == '\t' || c == '\r' || c == '\n'
}

#[verifier::when_used_as_spec(spec_is_digit)]
pub fn is_digit(c: char) -> (r: bool)
    ensures
        r == spec_is_digit(c),
{
    ('0' as u32) <= (c as u32) && (c as u32) <= ('9' as u32)
}

#[verifier::when_used_as_spec(spec_is_alpha)]
pub fn is_alpha(c: char) -> (r: bool)
    ensures
        r == spec_is_alpha(c),
{
    (('a' as u32) <= (c as u32) && (c as u32) <= ('z' as u32))
    || (('A' as u32) <= (c as u32) && (c as u32) <= ('Z' as u32))
}

#[verifier::when_used_as_spec(spec_is_alnum)]
pub fn is_alnum(c: char) -> (r: bool)
    ensures
        r == spec_is_alnum(c),
{
    is_digit(c) || is_alpha(c)
}

#[verifier::when_used_as_spec(spec_is_whitespace)]
pub fn is_whitespace(c: char) -> (r: bool)
    ensures
        r == spec_is_whitespace(c),
{
    c == ' ' || c == '\t' || c == '\r' || c == '\n'
}

// ---------------------------------------------------------------------------
// Where greedy runs of characters end.
// ---------------------------------------------------------------------------

/// The first position at or after `i` that does not hold a digit
/// (`cs.len()` if digits run to the end of the input).
pub open spec fn digits_end(cs: Seq<char>, i: int) -> int
    decreases cs.len() - i,
{
    if i < cs.len() && spec_is_digit(cs[i]) {
        digits_end(cs, i + 1)
    } else {
        i
    }
}

/// The first position at or after `i` that does not hold a letter or digit.
pub open spec fn alnum_end(cs: Seq<char>, i: int) -> int
    decreases cs.len() - i,
{
    if i < cs.len() && spec_is_alnum(cs[i]) {
        alnum_end(cs, i + 1)
    } else {
        i
    }
}

/// The first position at or after `i` holding a closing quote
/// (`cs.len()` if the string body runs unterminated to the end).
pub open spec fn string_body_end(cs: Seq<char>, i: int) -> int
    decreases cs.len() - i,
{
    if i < cs.len() && cs[i] != '"' {
        string_body_end(cs, i + 1)
    } else {
        i
    }
}

/// Where a numeric literal that starts at `i` ends: a run of digits,
/// then a fractional part only if a `.` is immediately followed by
/// another digit.
pub open spec fn number_end(cs: Seq<char>, i: int) -> int {
    let j = digits_end(cs, i);
    if j < cs.len() && cs[j] == '.' && j + 1 < cs.len() && spec_is_digit(cs[j + 1]) {
        digits_end(cs, j + 1)
    } else {
        j
    }
}

pub proof fn lemma_digits_end(cs: Seq<char>, i: int)
    ensures
        i <= digits_end(cs, i),
        i <= cs.len() ==> digits_end(cs, i) <= cs.len(),
        forall|k: int| i <= k < digits_end(cs, i) ==> spec_is_digit(#[trigger] cs[k]),
        digits_end(cs, i) < cs.len() ==> !spec_is_digit(cs[digits_end(cs, i)]),
    decreases cs.len() - i,
{
    if i < cs.len() && spec_is_digit(cs[i]) {
        lemma_digits_end(cs, i + 1);
    }
}

pub proof fn lemma_alnum_end(cs: Seq<char>, i: int)
    ensures
        i <= alnum_end(cs, i),
        i <= cs.len() ==> alnum_end(cs, i) <= cs.len(),
        forall|k: int| i <= k < alnum_end(cs, i) ==> spec_is_alnum(#[trigger] cs[k]),
        alnum_end(cs, i) < cs.len() ==> !spec_is_alnum(cs[alnum_end(cs, i)]),
    decreases cs.len() - i,
{
    if i < cs.len() && spec_is_alnum(cs[i]) {
        lemma_alnum_end(cs, i + 1);
    }
}

pub proof fn lemma_string_body_end(cs: Seq<char>, i: int)
    ensures
        i <= string_body_end(cs, i),
        i <= cs.len() ==> string_body_end(cs, i) <= cs.len(),
        forall|k: int| i <= k < string_body_end(cs, i) ==> #[trigger] cs[k] != '"',
        string_body_end(cs, i) < cs.len() ==> cs[string_body_end(cs, i)] == '"',
    decreases cs.len() - i,
{
    if i < cs.len() && cs[i] != '"' {
        lemma_string_body_end(cs, i + 1);
    }
}

pub proof fn lemma_number_end(cs: Seq<char>, i: int)
    ensures
        i <= number_end(cs, i),
        i <= cs.len() ==> number_end(cs, i) <= cs.len(),
{
    lemma_digits_end(cs, i);
    let j = digits_end(cs, i);
    if j < cs.len() && cs[j] == '.' && j + 1 < cs.len() && spec_is_digit(cs[j + 1]) {
        lemma_digits_end(cs, j + 1);
    }
}

// ---------------------------------------------------------------------------
// The lexical grammar itself: one token, then the whole input.
// ---------------------------------------------------------------------------

/// Scans the single token that starts at position `i` of `cs`
/// (meaningful for `0 <= i < cs.len()`). Returns the token together
/// with the position just past it, or the lexical error.
pub open spec fn spec_scan_token(cs: Seq<char>, i: int) -> Result<(TokenModel, int), LexerErrorModel> {
    let c = cs[i];
    if c == '{' {
        Ok((TokenModel::ObjectStart, i + 1))
    } else if c == '}' {
        Ok((TokenModel::ObjectEnd, i + 1))
    } else if c == '[' {
        Ok((TokenModel::ArrayStart, i + 1))
    } else if c == ']' {
        Ok((TokenModel::ArrayEnd, i + 1))
    } else if c == ':' {
        Ok((TokenModel::Colon, i + 1))
    } else if c == ',' {
        Ok((TokenModel::Comma, i + 1))
    } else if c == '"' {
        let k = string_body_end(cs, i + 1);
        if k < cs.len() {
            Ok((TokenModel::String(cs.subrange(i + 1, k)), k + 1))
        } else {
            Err(LexerErrorModel::InvalidString("unterminated string"@))
        }
    } else if spec_is_whitespace(c) {
        Ok((TokenModel::NewLine, i + 1))
    } else if spec_is_digit(c) {
        Ok((TokenModel::Number(cs.subrange(i, number_end(cs, i))), number_end(cs, i)))
    } else if spec_is_alpha(c) {
        let text = cs.subrange(i, alnum_end(cs, i));
        if text == "null"@ {
            Ok((TokenModel::Null, alnum_end(cs, i)))
        } else if text == "true"@ {
            Ok((TokenModel::Boolean(true), alnum_end(cs, i)))
        } else if text == "false"@ {
            Ok((TokenModel::Boolean(false), alnum_end(cs, i)))
        } else {
            Err(LexerErrorModel::InvalidIdent(text))
        }
    } else {
        Err(LexerErrorModel::InvalidChar)
    }
}

/// A scanned token occupies at least one character and never runs
/// past the end of the input.
pub proof fn lemma_scan_token_bounds(cs: Seq<char>, i: int)
    requires
        i < cs.len(),
    ensures
        spec_scan_token(cs, i) matches Ok((t, j)) ==> i < j <= cs.len(),
{
    lemma_string_body_end(cs, i + 1);
    lemma_number_end(cs, i);
    lemma_alnum_end(cs, i);
    let c = cs[i];
    if spec_is_digit(c) {
        lemma_digits_end(cs, i);
        assert(digits_end(cs, i) >= i + 1);
        let j = digits_end(cs, i);
        if j < cs.len() && cs[j] == '.' && j + 1 < cs.len() && spec_is_digit(cs[j + 1]) {
            lemma_digits_end(cs, j + 1);
            assert(digits_end(cs, j + 1) >= j + 2);
        }
    }
    if spec_is_alpha(c) {
        assert(alnum_end(cs, i) >= i + 1);
    }
}

/// Scans the whole remainder of `cs` from position `i`: the token
/// sequence with whitespace markers filtered out and the end-of-input
/// sentinel appended, or the first lexical error.
pub open spec fn spec_scan_from(cs: Seq<char>, i: int) -> Result<Seq<TokenModel>, LexerErrorModel>
    decreases cs.len() - i,
{
    if i >= cs.len() {
        Ok(seq![TokenModel::Eof])
    } else {
        match spec_scan_token(cs, i) {
            Err(e) => Err(e),
            Ok((t, j)) => {
                proof {
                    lemma_scan_token_bounds(cs, i);
                }
                match spec_scan_from(cs, j) {
                    Err(e) => Err(e),
                    Ok(rest) => Ok(
                        if t is NewLine {
                            rest
                        } else {
                            seq![t] + rest
                        },
                    ),
                }
            },
        }
    }
}

/// What scanning a complete input yields.
pub open spec fn spec_scan(cs: Seq<char>) -> Result<Seq<TokenModel>, LexerErrorModel> {
    spec_scan_from(cs, 0)
}

// ---------------------------------------------------------------------------
// The executable scanner.
// ---------------------------------------------------------------------------

/// Relies on `String: FromIterator<char>` (`Iterator::collect`): the
/// collected string holds exactly the given characters, in order.
#[verifier::external_body]
fn chars_to_string(v: &Vec<char>) -> (r: String)
    ensures
        r@ == v@,
{
    v.iter().collect()
}

/// Copies the characters of `v` at positions `from ..= to - 1`.
fn slice_chars(v: &Vec<char>, from: usize, to: usize) -> (out: Vec<char>)
    requires
        from <= to,
        to <= v@.len(),
    ensures
        out@ == v@.subrange(from as int, to as int),
{
    let mut out: Vec<char> = Vec::new();
    let mut i: usize = from;
    while i < to
        invariant
            from <= i <= to,
            to <= v@.len(),
            out@ == v@.subrange(from as int, i as int),
        decreases to - i,
    {
        out.push(v[i]);
        proof {
            assert(v@.subrange(from as int, i + 1 as int)
                =~= v@.subrange(from as int, i as int).push(v@[i as int]));
        }
        i = i + 1;
    }
    out
}

/// The lexical scanner: holds the full input as a character sequence
/// and a cursor (`current`), with `start` marking where the token
/// being scanned began.
pub struct Scanner {
    pub chars: Vec<char>,
    pub start: usize,
    pub current: usize,
}

impl Scanner {
    pub fn new(json_text: String) -> (s: Scanner)
        ensures
            s.chars@ == json_text@,
            s.start == 0,
            s.current == 0,
    {
        let n = json_text.as_str().unicode_len();
        let mut chars: Vec<char> = Vec::new();
        let mut i: usize = 0;
        while i < n
            invariant
                i <= n,
                n == json_text@.len(),
                chars@ == json_text@.subrange(0, i as int),
            decreases n - i,
        {
            let c = json_text.as_str().get_char(i);
            chars.push(c);
            proof {
                assert(json_text@.subrange(0, i + 1 as int)
                    =~= json_text@.subrange(0, i as int).push(json_text@[i as int]));
            }
            i = i + 1;
        }
        proof {
            assert(chars@ =~= json_text@);
        }
        Scanner { chars, start: 0, current: 0 }
    }

    fn is_at_end(&self) -> (r: bool)
        ensures
            r == (self.current >= self.chars@.len()),
            self.chars@.len() <= usize::MAX,
    {
        self.current >= self.chars.len()
    }

    fn advance(&mut self) -> (c: char)
        requires
            old(self).current < old(self).chars@.len(),
        ensures
            final(self).chars == old(self).chars,
            final(self).start == old(self).start,
            final(self).current == old(self).current + 1,
            c == old(self).chars@[old(self).current as int],
    {
        let i = self.current;
        let n = self.chars.len();
        proof {
            assert(i < n);
        }
        let c = self.chars[i];
        self.current = i + 1;
        c
    }

    fn peek(&self) -> (r: Option<char>)
        ensures
            r == (if self.current < self.chars@.len() {
                Some(self.chars@[self.current as int])
            } else {
                None::<char>
            }),
    {
        if self.is_at_end() {
            return None;
        }
        Some(self.chars[self.current])
    }

    fn peek_next(&self) -> (r: Option<char>)
        ensures
            r == (if self.current + 1 < self.chars@.len() {
                Some(self.chars@[self.current + 1])
            } else {
                None::<char>
            }),
    {
        let n = self.chars.len();
        if self.current >= n || n - self.current <= 1 {
            return None;
        }
        Some(self.chars[self.current + 1])
    }

    fn scan_string(&mut self) -> (r: Result<Token, LexerError>)
        requires
            old(self).current <= old(self).chars@.len(),
        ensures
            final(self).chars == old(self).chars,
            final(self).start == old(self).start,
            ({
                let cs = old(self).chars@;
                let k = string_body_end(cs, old(self).current as int);
                if k < cs.len() {
                    r matches Ok(t)
                        && t@ == TokenModel::String(cs.subrange(old(self).current as int, k))
                        && final(self).current == k + 1
                } else {
                    r matches Err(e)
                        && e@ == LexerErrorModel::InvalidString("unterminated string"@)
                }
            }),
    {
        let ghost cs = self.chars@;
        let ghost chars0 = self.chars;
        let ghost start0 = self.start;
        let body_start = self.current;
        loop
            invariant
                self.chars == chars0,
                self.chars@ == cs,
                self.start == start0,
                body_start <= self.current,
                self.current <= self.chars@.len(),
                string_body_end(cs, self.current as int) == string_body_end(cs, body_start as int),
            ensures
                self.chars == chars0,
                self.start == start0,
                body_start <= self.current,
                self.current <= chars0@.len(),
                self.current as int == string_body_end(cs, body_start as int),
            decreases self.chars@.len() - self.current,
        {
            if self.is_at_end() {
                break;
            }
            let c = self.chars[self.current];
            if c == '"' {
                break;
            }
            self.current = self.current + 1;
        }
        if self.is_at_end() {
            return Err(LexerError::InvalidString("unterminated string".to_owned()));
        }
        let body = slice_chars(&self.chars, body_start, self.current);
        let s = chars_to_string(&body);
        self.current = self.current + 1;
        Ok(Token::String(s))
    }

    fn scan_number(&mut self) -> (r: Result<Token, LexerError>)
        requires
            old(self).start < old(self).chars@.len(),
            spec_is_digit(old(self).chars@[old(self).start as int]),
            old(self).current == old(self).start + 1,
        ensures
            final(self).chars == old(self).chars,
            final(self).start == old(self).start,
            ({
                let cs = old(self).chars@;
                let e = number_end(cs, old(self).start as int);
                r matches Ok(t)
                    && t@ == TokenModel::Number(cs.subrange(old(self).start as int, e))
                    && final(self).current == e
            }),
    {
        let ghost cs = self.chars@;
        let ghost chars0 = self.chars;
        let ghost start0 = self.start;
        let ghost st = self.start as int;
        let ghost cur0 = self.current;
        loop
            invariant
                self.chars == chars0,
                self.chars@ == cs,
                self.start == start0,
                cur0 <= self.current,
                self.current <= self.chars@.len(),
                digits_end(cs, self.current as int) == digits_end(cs, st),
            ensures
                self.chars == chars0,
                self.start == start0,
                cur0 <= self.current,
                self.current <= chars0@.len(),
                self.current as int == digits_end(cs, st),
            decreases self.chars@.len() - self.current,
        {
            if self.is_at_end() {
                break;
            }
            let c = self.chars[self.current];
            if !is_digit(c) {
                break;
            }
            self.current = self.current + 1;
        }
        let intpart_end = self.current;
        if !self.is_at_end() {
            let c = self.chars[self.current];
            if c == '.' {
                if self.current + 1 < self.chars.len() {
                    let c_n = self.chars[self.current + 1];
                    if is_digit(c_n) {
                        self.current = self.current + 1;
                        loop
                            invariant
                                self.chars == chars0,
                                self.chars@ == cs,
                                self.start == start0,
                                intpart_end < self.current,
                                self.current <= self.chars@.len(),
                                digits_end(cs, self.current as int)
                                    == digits_end(cs, intpart_end + 1),
                            ensures
                                self.chars == chars0,
                                self.start == start0,
                                intpart_end < self.current,
                                self.current <= chars0@.len(),
                                self.current as int == digits_end(cs, intpart_end + 1),
                            decreases self.chars@.len() - self.current,
                        {
                            if self.is_at_end() {
                                break;
                            }
                            let cc = self.chars[self.current];
                            if !is_digit(cc) {
                                break;
                            }
                            self.current = self.current + 1;
                        }
                    }
                }
            }
        }
        let lexeme = slice_chars(&self.chars, self.start, self.current);
        let s = chars_to_string(&lexeme);
        Ok(Token::Number(s))
    }

    fn scan_identifier(&mut self) -> (r: Result<Token, LexerError>)
        requires
            old(self).start < old(self).chars@.len(),
            spec_is_alpha(old(self).chars@[old(self).start as int]),
            old(self).current == old(self).start + 1,
        ensures
            final(self).chars == old(self).chars,
            final(self).start == old(self).start,
            ({
                let cs = old(self).chars@;
                let j = alnum_end(cs, old(self).start as int);
                let text = cs.subrange(old(self).start as int, j);
                if text == "null"@ {
                    r matches Ok(t) && t@ == TokenModel::Null && final(self).current == j
                } else if text == "true"@ {
                    r matches Ok(t) && t@ == TokenModel::Boolean(true) && final(self).current == j
                } else if text == "false"@ {
                    r matches Ok(t) && t@ == TokenModel::Boolean(false) && final(self).current == j
                } else {
                    r matches Err(e) && e@ == LexerErrorModel::InvalidIdent(text)
                }
            }),
    {
        let ghost cs = self.chars@;
        let ghost chars0 = self.chars;
        let ghost start0 = self.start;
        let ghost st = self.start as int;
        let ghost cur0 = self.current;
        loop
            invariant
                self.chars == chars0,
                self.chars@ == cs,
                self.start == start0,
                cur0 <= self.current,
                self.current <= self.chars@.len(),
                alnum_end(cs, self.current as int) == alnum_end(cs, st),
            ensures
                self.chars == chars0,
                self.start == start0,
                self.current <= chars0@.len(),
                self.current as int == alnum_end(cs, st),
            decreases self.chars@.len() - self.current,
        {
            if self.is_at_end() {
                break;
            }
            let c = self.chars[self.current];
            if !is_alnum(c) {
                break;
            }
            self.current = self.current + 1;
        }
        let text = slice_chars(&self.chars, self.start, self.current);
        proof {
            reveal_strlit("null");
            reveal_strlit("true");
            reveal_strlit("false");
        }
        if text.len() == 4 && text[0] == 'n' && text[1] == 'u' && text[2] == 'l' && text[3] == 'l' {
            proof {
                assert(text@ =~= "null"@);
            }
            Ok(Token::Null)
        } else if text.len() == 4 && text[0] == 't' && text[1] == 'r' && text[2] == 'u'
            && text[3] == 'e' {
            proof {
                assert(text@ =~= "true"@);
            }
            Ok(Token::Boolean(true))
        } else if text.len() == 5 && text[0] == 'f' && text[1] == 'a' && text[2] == 'l'
            && text[3] == 's' && text[4] == 'e' {
            proof {
                assert(text@ =~= "false"@);
            }
            Ok(Token::Boolean(false))
        } else {
            let s = chars_to_string(&text);
            Err(LexerError::InvalidIdent(s))
        }
    }

    fn scan_token(&mut self) -> (r: Result<Token, LexerError>)
        requires
            old(self).current < old(self).chars@.len(),
            old(self).start == old(self).current,
        ensures
            final(self).chars == old(self).chars,
            final(self).start == old(self).start,
            match r {
                Ok(t) => spec_scan_token(old(self).chars@, old(self).current as int)
                    == Ok::<(TokenModel, int), LexerErrorModel>((t@, final(self).current as int)),
                Err(e) => spec_scan_token(old(self).chars@, old(self).current as int)
                    == Err::<(TokenModel, int), LexerErrorModel>(e@),
            },
    {
        let c = self.advance();
        match c {
            '{' => Ok(Token::ObjectStart),
            '}' => Ok(Token::ObjectEnd),
            '[' => Ok(Token::ArrayStart),
            ']' => Ok(Token::ArrayEnd),
            ':' => Ok(Token::Colon),
            ',' => Ok(Token::Comma),
            '"' => self.scan_string(),
            '\n' | '\t' | '\r' | ' ' => Ok(Token::NewLine),
            _ => {
                if is_digit(c) {
                    self.scan_number()
                } else if is_alpha(c) {
                    self.scan_identifier()
                } else {
                    Err(LexerError::InvalidChar)
                }
            },
        }
    }

    /// Scans the whole input from the cursor on. On success the token
    /// sequence is exactly `spec_scan_from` of the input: whitespace
    /// filtered out and one end-of-input sentinel at the end; on failure
    /// the first lexical error, scanning aborted at once.
    #[verifier::loop_isolation(false)]
    pub fn scan(&mut self) -> (r: Result<Vec<Token>, LexerError>)
        ensures
            final(self).chars == old(self).chars,
            match r {
                Ok(tokens) => spec_scan_from(old(self).chars@, old(self).current as int)
                    == Ok::<Seq<TokenModel>, LexerErrorModel>(tokens.deep_view())
                    && final(self).current >= old(self).chars@.len(),
                Err(e) => spec_scan_from(old(self).chars@, old(self).current as int)
                    == Err::<Seq<TokenModel>, LexerErrorModel>(e@),
            },
    {
        let ghost cs = self.chars@;
        let ghost i0 = self.current as int;
        let ghost chars0 = self.chars;
        let mut tokens: Vec<Token> = Vec::new();
        proof {
            if let Ok(rest) = spec_scan_from(cs, i0) {
                assert(tokens.deep_view() + rest =~= rest);
            }
        }
        while !self.is_at_end()
            invariant
                self.chars == chars0,
                self.chars@ == cs,
                i0 <= self.current as int,
                match spec_scan_from(cs, self.current as int) {
                    Ok(rest) => spec_scan_from(cs, i0)
                        == Ok::<Seq<TokenModel>, LexerErrorModel>(tokens.deep_view() + rest),
                    Err(e) => spec_scan_from(cs, i0)
                        == Err::<Seq<TokenModel>, LexerErrorModel>(e),
                },
            decreases self.chars@.len() - self.current,
        {
            let ghost before = self.current as int;
            self.start = self.current;
            let token = match self.scan_token() {
                Ok(t) => t,
                Err(e) => {
                    return Err(e);
                },
            };
            proof {
                lemma_scan_token_bounds(cs, before);
            }
            if matches!(token, Token::NewLine) {
                continue;
            }
            let ghost dv0 = tokens.deep_view();
            tokens.push(token);
            proof {
                assert(tokens.deep_view() =~= dv0.push(token@));
                if let Ok(rest) = spec_scan_from(cs, self.current as int) {
                    assert(dv0 + (seq![token@] + rest) =~= dv0.push(token@) + rest);
                }
            }
        }
        let ghost dv0 = tokens.deep_view();
        tokens.push(Token::Eof);
        proof {
            assert(tokens.deep_view() =~= dv0.push(TokenModel::Eof));
            assert(dv0 + seq![TokenModel::Eof] =~= dv0.push(TokenModel::Eof));
        }
        Ok(tokens)
    }
}

} // verus!

verus! {

/// Whitespace never contributes a token: scanning from a whitespace
/// character yields exactly what scanning from the position after it
/// yields, so whitespace standing between tokens cannot change the
/// token sequence.
pub proof fn lemma_whitespace_skipped(cs: Seq<char>, i: int)
    requires
        0 <= i < cs.len(),
        spec_is_whitespace(cs[i]),
    ensures
        spec_scan_from(cs, i) == spec_scan_from(cs, i + 1),
{
    assert(spec_scan_token(cs, i) == Ok::<(TokenModel, int), LexerErrorModel>((
        TokenModel::NewLine,
        i + 1,
    )));
}

/// The numeric-literal rule captures only spans that it has itself cut
/// at digit boundaries, so no captured span is ever unparsable and
/// scanning never reports `InvalidNumber`.
pub proof fn lemma_scan_never_invalid_number(cs: Seq<char>, i: int)
    ensures
        spec_scan_from(cs, i) matches Err(e) ==> !(e is InvalidNumber),
    decreases cs.len() - i,
{
    if i < cs.len() {
        if let Ok((t, j)) = spec_scan_token(cs, i) {
            lemma_scan_token_bounds(cs, i);
            lemma_scan_never_invalid_number(cs, j);
        }
    }
}

} // verus!
