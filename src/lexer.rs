use vstd::prelude::*;
use crate::text::{chars_of, string_of};
use crate::token::{is_symbol, symbol_token, Tok, Token};

verus! {

pub open spec fn is_space(c: char) -> bool {
    c == ' ' || c == '\t' || c == '\n' || c == '\r'
}

pub open spec fn is_alpha(c: char) -> bool {
    ('a' <= c && c <= 'z') || ('A' <= c && c <= 'Z')
}

pub open spec fn is_digit(c: char) -> bool {
    '0' <= c && c <= '9'
}

/// A character that may appear in a script.
pub open spec fn is_supported(c: char) -> bool {
    is_space(c) || is_alpha(c) || is_digit(c) || c == '"' || c == '\'' || is_symbol(c)
}

/// The first position at or after `i` that does not hold whitespace.
pub open spec fn skip_space(s: Seq<char>, i: int) -> int
    decreases s.len() - i,
{
    if 0 <= i < s.len() && is_space(s[i]) {
        skip_space(s, i + 1)
    } else {
        i
    }
}

/// The end of the run of letters that starts at `i`.
pub open spec fn alpha_end(s: Seq<char>, i: int) -> int
    decreases s.len() - i,
{
    if 0 <= i < s.len() && is_alpha(s[i]) {
        alpha_end(s, i + 1)
    } else {
        i
    }
}

/// The end of the run of digits that starts at `i`.
pub open spec fn digits_end(s: Seq<char>, i: int) -> int
    decreases s.len() - i,
{
    if 0 <= i < s.len() && is_digit(s[i]) {
        digits_end(s, i + 1)
    } else {
        i
    }
}

/// The end of the longest number literal that starts at `i`:
/// digits, then optionally `.` and digits, then optionally an exponent
/// (`e` or `E`, an optional sign, at least one digit).
pub open spec fn number_end(s: Seq<char>, i: int) -> int {
    let a = digits_end(s, i);
    let b = if 0 <= a < s.len() && s[a] == '.' {
        digits_end(s, a + 1)
    } else {
        a
    };
    if 0 <= b < s.len() && (s[b] == 'e' || s[b] == 'E') {
        let c = if b + 1 < s.len() && (s[b + 1] == '+' || s[b + 1] == '-') {
            b + 2
        } else {
            b + 1
        };
        if c < s.len() && is_digit(s[c]) {
            digits_end(s, c)
        } else {
            b
        }
    } else {
        b
    }
}

/// A character that the language does not know.
#[derive(PartialEq, Eq, Structural, Clone, Copy, Debug)]
pub enum LexError {
    UnknownToken { character: char, position: usize },
}

/// The token that starts at or after position `i` of `s`, with the position
/// just past it; whitespace before it is skipped.
pub open spec fn lex_at(s: Seq<char>, i: int) -> Result<(Tok, int), LexError> {
    let p = skip_space(s, i);
    if p >= s.len() {
        Ok((Tok::Eof, p))
    } else if is_digit(s[p]) {
        let e = number_end(s, p);
        Ok((Tok::Number(s.subrange(p, e)), e))
    } else if is_alpha(s[p]) {
        let e = alpha_end(s, p);
        Ok((Tok::Identifier(s.subrange(p, e)), e))
    } else if s[p] == '"' || s[p] == '\'' {
        let e = alpha_end(s, p + 1);
        let n = if e < s.len() && s[e] == s[p] {
            e + 1
        } else {
            e
        };
        Ok((Tok::Str(s.subrange(p + 1, e)), n))
    } else if is_symbol(s[p]) {
        Ok((Tok::Sym(s[p]), p + 1))
    } else {
        Err(LexError::UnknownToken { character: s[p], position: p as usize })
    }
}

/// Whether an executable scan result agrees with the model.
pub open spec fn scan_agrees(r: Result<(Token, usize), LexError>, m: Result<(Tok, int), LexError>) -> bool {
    match m {
        Ok((t, n)) => r is Ok && r->Ok_0.0@ == t && r->Ok_0.1 == n,
        Err(e) => r is Err && r->Err_0 == e,
    }
}

pub proof fn lemma_skip_space_bounds(s: Seq<char>, i: int)
    requires
        0 <= i <= s.len(),
    ensures
        i <= skip_space(s, i) <= s.len(),
    decreases s.len() - i,
{
    if i < s.len() && is_space(s[i]) {
        lemma_skip_space_bounds(s, i + 1);
    }
}

pub proof fn lemma_alpha_end_bounds(s: Seq<char>, i: int)
    requires
        0 <= i <= s.len(),
    ensures
        i <= alpha_end(s, i) <= s.len(),
    decreases s.len() - i,
{
    if i < s.len() && is_alpha(s[i]) {
        lemma_alpha_end_bounds(s, i + 1);
    }
}

pub proof fn lemma_digits_end_bounds(s: Seq<char>, i: int)
    requires
        0 <= i <= s.len(),
    ensures
        i <= digits_end(s, i) <= s.len(),
    decreases s.len() - i,
{
    if i < s.len() && is_digit(s[i]) {
        lemma_digits_end_bounds(s, i + 1);
    }
}

pub proof fn lemma_number_end_bounds(s: Seq<char>, i: int)
    requires
        0 <= i < s.len(),
        is_digit(s[i]),
    ensures
        i < number_end(s, i) <= s.len(),
{
    lemma_digits_end_bounds(s, i + 1);
    let a = digits_end(s, i);
    assert(a == digits_end(s, i + 1));
    if 0 <= a < s.len() && s[a] == '.' {
        lemma_digits_end_bounds(s, a + 1);
    }
    let b = if 0 <= a < s.len() && s[a] == '.' {
        digits_end(s, a + 1)
    } else {
        a
    };
    if 0 <= b < s.len() && (s[b] == 'e' || s[b] == 'E') {
        let c = if b + 1 < s.len() && (s[b + 1] == '+' || s[b + 1] == '-') {
            b + 2
        } else {
            b + 1
        };
        if c < s.len() && is_digit(s[c]) {
            lemma_digits_end_bounds(s, c);
        }
    }
}

/// Every token but the end marker consumes input, and none reads past it.
pub proof fn lemma_lex_at_advances(s: Seq<char>, i: int)
    requires
        0 <= i <= s.len(),
    ensures
        lex_at(s, i) is Ok ==> i <= lex_at(s, i)->Ok_0.1 <= s.len(),
        lex_at(s, i) is Ok ==> (lex_at(s, i)->Ok_0.0 is Eof <==> skip_space(s, i) >= s.len()),
        lex_at(s, i) is Ok && !(lex_at(s, i)->Ok_0.0 is Eof) ==> i < lex_at(s, i)->Ok_0.1,
{
    lemma_skip_space_bounds(s, i);
    let p = skip_space(s, i);
    if p < s.len() {
        if is_digit(s[p]) {
            lemma_number_end_bounds(s, p);
        } else if is_alpha(s[p]) {
            lemma_alpha_end_bounds(s, p + 1);
            assert(alpha_end(s, p) == alpha_end(s, p + 1));
        } else if s[p] == '"' || s[p] == '\'' {
            lemma_alpha_end_bounds(s, p + 1);
        }
    }
}

/// The tokens of `s` from position `i` on, through the end marker, or the
/// first lexical error.
pub open spec fn lex_from(s: Seq<char>, i: nat) -> Result<Seq<Tok>, LexError>
    decreases s.len() - i,
    via lex_from_decreases
{
    match lex_at(s, i as int) {
        Err(e) => Err(e),
        Ok((t, n)) => if t is Eof {
            Ok(seq![Tok::Eof])
        } else {
            match lex_from(s, n as nat) {
                Ok(rest) => Ok(seq![t] + rest),
                Err(e) => Err(e),
            }
        },
    }
}

#[via_fn]
proof fn lex_from_decreases(s: Seq<char>, i: nat) {
    if i <= s.len() {
        lemma_lex_at_advances(s, i as int);
    }
}

/// The model of tokenizing a whole script.
pub open spec fn lex(s: Seq<char>) -> Result<Seq<Tok>, LexError> {
    lex_from(s, 0)
}

pub open spec fn toks(v: Seq<Token>) -> Seq<Tok> {
    v.map_values(|t: Token| t@)
}

/// Splits `source` into tokens; the last one is the end marker.
pub fn tokenize(source: &str) -> (r: Result<Vec<Token>, LexError>)
    ensures
        match lex(source@) {
            Ok(ts) => r is Ok && toks(r->Ok_0@) == ts,
            Err(e) => r == Err::<Vec<Token>, LexError>(e),
        },
{
    let mut tokenizer = Tokenizer::new(source);
    let mut out: Vec<Token> = Vec::new();
    loop
        invariant
            tokenizer.wf(),
            tokenizer.source() == source@,
            0 <= tokenizer.position() <= source@.len(),
            lex(source@) == match lex_from(source@, tokenizer.position() as nat) {
                Ok(rest) => Ok(toks(out@) + rest),
                Err(e) => Err(e),
            },
        decreases source@.len() - tokenizer.position(),
    {
        let ghost before = tokenizer.position();
        proof {
            lemma_lex_at_advances(source@, before);
        }
        match tokenizer.next() {
            Ok(t) => {
                let eof = t.is_eof();
                let ghost prev = out@;
                out.push(t);
                assert(toks(out@) =~= toks(prev) + seq![out@.last()@]);
                if eof {
                    return Ok(out);
                }
                proof {
                    let tv = out@.last()@;
                    assert(lex_from(source@, before as nat) == match lex_from(source@, tokenizer.position() as nat) {
                        Ok(rest) => Ok(seq![tv] + rest),
                        Err(e) => Err::<Seq<Tok>, LexError>(e),
                    });
                    if let Ok(rest) = lex_from(source@, tokenizer.position() as nat) {
                        assert(toks(prev) + (seq![tv] + rest) =~= toks(out@) + rest);
                    }
                }
            },
            Err(e) => {
                return Err(e);
            },
        }
    }
}

pub proof fn lemma_skip_space_stops(s: Seq<char>, i: int)
    requires
        0 <= i <= s.len(),
    ensures
        skip_space(s, i) < s.len() ==> !is_space(s[skip_space(s, i)]),
    decreases s.len() - i,
{
    if i < s.len() && is_space(s[i]) {
        lemma_skip_space_stops(s, i + 1);
    }
}

/// Tokenizing is total over the supported characters: every script made of
/// them yields a token sequence whose one end marker is its last token.
pub proof fn lemma_lex_total(s: Seq<char>)
    requires
        forall|k: int| 0 <= k < s.len() ==> is_supported(#[trigger] s[k]),
    ensures
        lex(s) is Ok,
        lex(s)->Ok_0.len() >= 1,
        lex(s)->Ok_0.last() is Eof,
        forall|k: int| 0 <= k < lex(s)->Ok_0.len() - 1 ==> !(#[trigger] lex(s)->Ok_0[k] is Eof),
{
    lemma_lex_from_total(s, 0);
}

proof fn lemma_lex_from_total(s: Seq<char>, i: nat)
    requires
        i <= s.len(),
        forall|k: int| 0 <= k < s.len() ==> is_supported(#[trigger] s[k]),
    ensures
        lex_from(s, i) is Ok,
        lex_from(s, i)->Ok_0.len() >= 1,
        lex_from(s, i)->Ok_0.last() is Eof,
        forall|k: int|
            0 <= k < lex_from(s, i)->Ok_0.len() - 1 ==> !(#[trigger] lex_from(s, i)->Ok_0[k] is Eof),
    decreases s.len() - i,
{
    lemma_skip_space_bounds(s, i as int);
    lemma_skip_space_stops(s, i as int);
    lemma_lex_at_advances(s, i as int);
    let p = skip_space(s, i as int);
    if p < s.len() {
        assert(is_supported(s[p]));
    }
    assert(lex_at(s, i as int) is Ok);
    let (t, n) = lex_at(s, i as int)->Ok_0;
    if !(t is Eof) {
        lemma_lex_from_total(s, n as nat);
        let rest = lex_from(s, n as nat)->Ok_0;
        let all = seq![t] + rest;
        assert(lex_from(s, i)->Ok_0 == all);
        assert forall|k: int| 0 <= k < all.len() - 1 implies !(#[trigger] all[k] is Eof) by {
            if k > 0 {
                assert(all[k] == rest[k - 1]);
            }
        }
    }
}

/// A cursor over the characters of a script that hands out tokens one at a
/// time.
pub struct Tokenizer {
    code: Vec<char>,
    offset: usize,
}

impl Tokenizer {
    /// The characters being tokenized.
    pub closed spec fn source(&self) -> Seq<char> {
        self.code@
    }

    /// The position of the next character to read.
    pub closed spec fn position(&self) -> int {
        self.offset as int
    }

    pub closed spec fn wf(&self) -> bool {
        self.offset <= self.code@.len()
    }

    pub fn new(code: &str) -> (r: Self)
        ensures
            r.wf(),
            r.source() == code@,
            r.position() == 0,
    {
        Tokenizer { code: chars_of(code), offset: 0 }
    }

    fn digits_end(&self, from: usize) -> (r: usize)
        requires
            from <= self.code@.len(),
        ensures
            r == digits_end(self.code@, from as int),
    {
        let mut i = from;
        while i < self.code.len() && '0' <= self.code[i] && self.code[i] <= '9'
            invariant
                from <= i <= self.code@.len(),
                digits_end(self.code@, from as int) == digits_end(self.code@, i as int),
            decreases self.code@.len() - i,
        {
            i += 1;
        }
        i
    }

    fn alpha_end(&self, from: usize) -> (r: usize)
        requires
            from <= self.code@.len(),
        ensures
            r == alpha_end(self.code@, from as int),
    {
        let mut i = from;
        while i < self.code.len() && (('a' <= self.code[i] && self.code[i] <= 'z') || ('A'
            <= self.code[i] && self.code[i] <= 'Z'))
            invariant
                from <= i <= self.code@.len(),
                alpha_end(self.code@, from as int) == alpha_end(self.code@, i as int),
            decreases self.code@.len() - i,
        {
            i += 1;
        }
        i
    }

    fn number_end(&self, from: usize) -> (r: usize)
        requires
            from <= self.code@.len(),
        ensures
            r == number_end(self.code@, from as int),
    {
        let len = self.code.len();
        let a = self.digits_end(from);
        proof {
            lemma_digits_end_bounds(self.code@, from as int);
        }
        let b = if a < len && self.code[a] == '.' {
            proof {
                lemma_digits_end_bounds(self.code@, a + 1);
            }
            self.digits_end(a + 1)
        } else {
            a
        };
        if b < len && (self.code[b] == 'e' || self.code[b] == 'E') {
            let c = if b + 1 < len && (self.code[b + 1] == '+' || self.code[b + 1] == '-') {
                b + 2
            } else {
                b + 1
            };
            if c < len && '0' <= self.code[c] && self.code[c] <= '9' {
                self.digits_end(c)
            } else {
                b
            }
        } else {
            b
        }
    }

    /// The next token and the position just past it, without moving.
    fn scan(&self) -> (r: Result<(Token, usize), LexError>)
        requires
            self.wf(),
        ensures
            scan_agrees(r, lex_at(self.source(), self.position())),
    {
        let len = self.code.len();
        let mut p = self.offset;
        while p < len && (self.code[p] == ' ' || self.code[p] == '\t' || self.code[p] == '\n'
            || self.code[p] == '\r')
            invariant
                self.offset <= p <= len,
                len == self.code@.len(),
                skip_space(self.code@, self.offset as int) == skip_space(self.code@, p as int),
            decreases len - p,
        {
            p += 1;
        }
        if p >= len {
            return Ok((Token::Eof, p));
        }
        let c = self.code[p];
        if '0' <= c && c <= '9' {
            let e = self.number_end(p);
            proof {
                lemma_number_end_bounds(self.code@, p as int);
            }
            Ok((Token::Number(string_of(&self.code, p, e)), e))
        } else if ('a' <= c && c <= 'z') || ('A' <= c && c <= 'Z') {
            let e = self.alpha_end(p);
            proof {
                lemma_alpha_end_bounds(self.code@, p as int);
            }
            Ok((Token::Identifier(string_of(&self.code, p, e)), e))
        } else if c == '"' || c == '\'' {
            let e = self.alpha_end(p + 1);
            proof {
                lemma_alpha_end_bounds(self.code@, p + 1);
            }
            let n = if e < len && self.code[e] == c {
                e + 1
            } else {
                e
            };
            Ok((Token::String(string_of(&self.code, p + 1, e)), n))
        } else {
            match symbol_token(c) {
                Some(t) => Ok((t, p + 1)),
                None => Err(LexError::UnknownToken { character: c, position: p }),
            }
        }
    }

    /// The next token, without consuming it.
    pub fn peek(&self) -> (r: Result<Token, LexError>)
        requires
            self.wf(),
        ensures
            match lex_at(self.source(), self.position()) {
                Ok((t, _)) => r is Ok && r->Ok_0@ == t,
                Err(e) => r == Err::<Token, LexError>(e),
            },
    {
        match self.scan() {
            Ok((t, _)) => Ok(t),
            Err(e) => Err(e),
        }
    }

    /// Consumes and returns the next token. On an error nothing is consumed.
    pub fn next(&mut self) -> (r: Result<Token, LexError>)
        requires
            old(self).wf(),
        ensures
            final(self).wf(),
            final(self).source() == old(self).source(),
            match lex_at(old(self).source(), old(self).position()) {
                Ok((t, n)) => r is Ok && r->Ok_0@ == t && final(self).position() == n,
                Err(e) => r == Err::<Token, LexError>(e) && final(self).position() == old(self).position(),
            },
    {
        proof {
            lemma_lex_at_advances(self.code@, self.offset as int);
        }
        match self.scan() {
            Ok((t, n)) => {
                self.offset = n;
                Ok(t)
            },
            Err(e) => Err(e),
        }
    }
}

} // verus!
