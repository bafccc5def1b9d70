//! The hand-written lexer.
//!
//! [`Lexer`] turns BSN source text into a flat stream of [`Token`]s. Tokens are [`Copy`] and
//! own no data: the text of a token is recovered from its [`Span`], and literal values are
//! decoded on demand.
//!
//! The lexer never fails. Lexical problems are reported as [`TokenKind::Error`] tokens that
//! always consume at least one character, so tokenizing always terminates.

use vstd::prelude::*;

use crate::chars::{is_digit, is_ident_continue, is_ident_start, is_space, spec_is_digit};
use crate::digits::{radix_value, spec_to_digit, to_digit};
use crate::error::line_end;
use crate::lexical::{
    any_digit, block_comment_end, char_at, escape_at, is_hex_at, lemma_block_comment_end,
    lemma_escape_at, lemma_line_end, lemma_next_lexed, lemma_run_end, lemma_token_here,
    lemma_trivia, lex, lex_from, lex_start, line_comment_end, next_lexed, number_token, raw_closes,
    raw_end, raw_token, run_end, string_end, token_here, trivia, Class, Lexed, Trivia,
};
use crate::span::Span;
use crate::text::{byte_at, byte_len, chars_of, width_of};
use crate::token::{LexError, Token, TokenKind};

verus! {

/// The span of a range of character indices of `s`.
pub open spec fn span_of(s: Seq<char>, start: int, end: int) -> Span {
    Span { start: byte_at(s, start) as u32, end: byte_at(s, end) as u32 }
}

/// The token for a range of character indices of `s`.
pub open spec fn token_of(s: Seq<char>, t: Lexed) -> Token {
    Token { kind: t.kind, span: span_of(s, t.start, t.end) }
}

/// All tokens of `s`, with the byte ranges they cover.
pub open spec fn tokens_of(s: Seq<char>) -> Seq<Token> {
    lex(s).map_values(|t: Lexed| token_of(s, t))
}

/// The BSN lexer.
///
/// Create one with [`Lexer::new`] and pull tokens with [`Lexer::next_token`], or lex a whole
/// document at once with [`Lexer::tokenize`].
pub struct Lexer {
    chars: Vec<char>,
    offsets: Vec<u32>,
    index: usize,
}

impl Lexer {
    /// The text that is lexed.
    pub closed spec fn source(&self) -> Seq<char> {
        self.chars@
    }

    /// The index of the next character to look at.
    pub closed spec fn position(&self) -> int {
        self.index as int
    }

    /// The position lies inside the text, and every character index has its byte offset.
    pub closed spec fn wf(&self) -> bool {
        &&& self.index <= self.chars@.len() < usize::MAX
        &&& byte_len(self.chars@) <= u32::MAX
        &&& self.offsets@.len() == self.chars@.len() + 1
        &&& forall|i: int|
            0 <= i <= self.chars@.len() ==> #[trigger] self.offsets@[i] == byte_at(self.chars@, i)
    }

    /// Creates a lexer over `source`, skipping a leading UTF-8 BOM (`\u{FEFF}`) if present.
    pub fn new(source: &str) -> (r: Self)
        requires
            byte_len(source@) <= u32::MAX,
        ensures
            r.wf(),
            r.source() == source@,
            r.position() == lex_start(source@),
    {
        let chars = chars_of(source);
        let mut offsets: Vec<u32> = Vec::new();
        offsets.push(0);
        let mut at: u32 = 0;
        let mut i: usize = 0;
        assert(chars@.take(0) =~= Seq::<char>::empty());
        while i < chars.len()
            invariant
                i <= chars.len(),
                byte_len(chars@) <= u32::MAX,
                at == byte_at(chars@, i as int),
                offsets@.len() == i + 1,
                forall|k: int| 0 <= k <= i ==> #[trigger] offsets@[k] == byte_at(chars@, k),
            decreases chars.len() - i,
        {
            proof {
                crate::text::lemma_byte_at_step(chars@, i as int);
                crate::text::lemma_byte_at_mono(chars@, 0, i as int + 1);
            }
            at = at + width_of(chars[i]);
            offsets.push(at);
            i = i + 1;
        }
        let index: usize = if chars.len() > 0 && chars[0] == '\u{FEFF}' {
            1
        } else {
            0
        };
        assert(offsets.len() == chars.len() + 1);
        Lexer { chars, offsets, index }
    }

    /// Lexes `source` completely, returning every token followed by exactly one
    /// [`TokenKind::Eof`].
    #[verifier::loop_isolation(false)]
    pub fn tokenize(source: &str) -> (tokens: Vec<Token>)
        requires
            byte_len(source@) <= u32::MAX,
        ensures
            tokens@ == tokens_of(source@),
    {
        let mut lexer = Lexer::new(source);
        let ghost s = source@;
        let mut tokens: Vec<Token> = Vec::new();
        let ghost mut done = Seq::<Lexed>::empty();
        loop
            invariant
                lexer.wf(),
                lexer.source() == s,
                lex(s) == done + lex_from(s, lexer.position()),
                tokens@ == done.map_values(|t: Lexed| token_of(s, t)),
            decreases s.len() - lexer.position(), 
        {
            let ghost at = lexer.position();
            let token = lexer.next_token();
            tokens.push(token);
            proof {
                let t = next_lexed(s, at);
                lemma_next_lexed(s, at);
                done = done.push(t);
                assert(tokens@ =~= done.map_values(|t: Lexed| token_of(s, t)));
                if t.kind != TokenKind::Eof {
                    assert(lex(s) =~= done + lex_from(s, t.end));
                } else {
                    assert(lex(s) =~= done);
                }
            }
            if token.kind == TokenKind::Eof {
                return tokens;
            }
        }
    }

    /// Produces the next token.
    ///
    /// Never fails: lexical problems become [`TokenKind::Error`] tokens. Once the source is
    /// exhausted this returns [`TokenKind::Eof`] forever.
    pub fn next_token(&mut self) -> (token: Token)
        requires
            old(self).wf(),
        ensures
            final(self).wf(),
            final(self).source() == old(self).source(),
            token == token_of(
                old(self).source(),
                next_lexed(old(self).source(), old(self).position()),
            ),
            final(self).position() == next_lexed(old(self).source(), old(self).position()).end,
    {
        let ghost s = self.chars@;
        proof {
            lemma_trivia(s, self.index as int);
            lemma_next_lexed(s, self.index as int);
        }
        if let Some(error) = self.skip_trivia() {
            return error;
        }
        let start: usize = self.index;
        let ch = match self.first() {
            Some(ch) => ch,
            None => {
                return self.token(TokenKind::Eof, start);
            },
        };
        proof {
            lemma_token_here(s, start as int);
        }
        let kind = match ch {
            '(' => TokenKind::LParen,
            ')' => TokenKind::RParen,
            '{' => TokenKind::LBrace,
            '}' => TokenKind::RBrace,
            '[' => TokenKind::LBracket,
            ']' => TokenKind::RBracket,
            ',' => TokenKind::Comma,
            '#' => TokenKind::Hash,
            '@' => TokenKind::At,
            '~' => TokenKind::Tilde,
            '<' => TokenKind::Lt,
            '>' => TokenKind::Gt,
            '-' => TokenKind::Minus,
            '\'' => TokenKind::Error(LexError::CharLiteral),
            '|' => TokenKind::Error(LexError::Closure),
            '!' => TokenKind::Error(LexError::Macro),
            ':' => {
                self.index = self.index + 1;
                if self.at(':') {
                    self.index = self.index + 1;
                    return self.token(TokenKind::ColonColon, start);
                }
                return self.token(TokenKind::Colon, start);
            },
            '"' => {
                return self.string(start);
            },
            _ => {
                if ch == 'r' && (self.at_next('"') || self.at_next('#')) {
                    return self.raw_prefixed(start);
                }
                if is_digit(ch) {
                    return self.number(start);
                }
                if is_ident_start(ch) {
                    self.eat_ident_tail();
                    return self.token(TokenKind::Ident, start);
                }
                TokenKind::Error(LexError::Unknown)
            },
        };
        self.index = self.index + 1;
        self.token(kind, start)
    }

    /// Skips whitespace and comments. Returns an error token if a block comment is unclosed.
    #[verifier::loop_isolation(false)]
    fn skip_trivia(&mut self) -> (r: Option<Token>)
        requires
            old(self).wf(),
        ensures
            final(self).wf(),
            final(self).source() == old(self).source(),
            match trivia(old(self).source(), old(self).position()) {
                Trivia::Done(j) => r is None && final(self).position() == j,
                Trivia::Unterminated(start) => r == Some(
                    Token {
                        kind: TokenKind::Error(LexError::UnterminatedBlockComment),
                        span: span_of(
                            old(self).source(),
                            start,
                            old(self).source().len() as int,
                        ),
                    },
                ) && final(self).position() == old(self).source().len(),
            },
    {
        let ghost s = self.chars@;
        let ghost from = self.index as int;
        loop
            invariant
                self.wf(),
                self.chars@ == s,
                trivia(s, from) == trivia(s, self.index as int),
            decreases s.len() - self.index,
        {
            let ch = match self.first() {
                Some(ch) => ch,
                None => {
                    return None;
                },
            };
            if is_space(ch) {
                self.index = self.index + 1;
                continue;
            }
            if ch == '/' && self.at_next('/') {
                let ghost comment = self.index as int + 2;
                proof {
                    lemma_line_end(s, comment);
                }
                self.index = self.index + 2;
                self.skip_line();
                continue;
            }
            if ch == '/' && self.at_next('*') {
                let start: usize = self.index;
                self.index = self.index + 2;
                proof {
                    lemma_block_comment_end(s, self.index as int, 1);
                }
                if !self.skip_block() {
                    return Some(
                        self.token(TokenKind::Error(LexError::UnterminatedBlockComment), start),
                    );
                }
                continue;
            }
            return None;
        }
    }

    /// Skips the rest of a line comment, with its line feed.
    #[verifier::loop_isolation(false)]
    fn skip_line(&mut self)
        requires
            old(self).wf(),
        ensures
            final(self).wf(),
            final(self).source() == old(self).source(),
            final(self).position() == line_comment_end(old(self).source(), old(self).position()),
    {
        let ghost s = self.chars@;
        let ghost from = self.index as int;
        while self.index < self.chars.len() && self.chars[self.index] != '\n'
            invariant
                self.wf(),
                self.chars@ == s,
                line_end(s, from) == line_end(s, self.index as int),
            decreases s.len() - self.index,
        {
            self.index = self.index + 1;
        }
        if self.index < self.chars.len() {
            self.index = self.index + 1;
        }
    }

    /// Skips the rest of a block comment, with the comments nested in it. Returns `false` if
    /// the text ends first.
    #[verifier::loop_isolation(false)]
    fn skip_block(&mut self) -> (closed: bool)
        requires
            old(self).wf(),
        ensures
            final(self).wf(),
            final(self).source() == old(self).source(),
            match block_comment_end(old(self).source(), old(self).position(), 1) {
                Some(e) => closed && final(self).position() == e,
                None => !closed && final(self).position() == old(self).source().len(),
            },
    {
        let ghost s = self.chars@;
        let ghost from = self.index as int;
        let mut depth: usize = 1;
        while depth > 0
            invariant
                self.wf(),
                self.chars@ == s,
                depth <= self.index + 1,
                block_comment_end(s, from, 1) == block_comment_end(
                    s,
                    self.index as int,
                    depth as nat,
                ),
            decreases s.len() - self.index, depth,
        {
            let ch = match self.first() {
                Some(ch) => ch,
                None => {
                    return false;
                },
            };
            if ch == '/' && self.at_next('*') {
                self.index = self.index + 2;
                depth = depth + 1;
            } else if ch == '*' && self.at_next('/') {
                self.index = self.index + 2;
                depth = depth - 1;
            } else {
                self.index = self.index + 1;
            }
        }
        true
    }

    /// Lexes a normal (non-raw) string literal, starting at the opening quote.
    #[verifier::loop_isolation(false)]
    fn string(&mut self, start: usize) -> (token: Token)
        requires
            old(self).wf(),
            start == old(self).position(),
            start < old(self).source().len(),
            old(self).source()[start as int] == '"',
        ensures
            final(self).wf(),
            final(self).source() == old(self).source(),
            token == token_of(old(self).source(), token_here(old(self).source(), start as int)),
            final(self).position() == token_here(old(self).source(), start as int).end,
    {
        let ghost s = self.chars@;
        self.index = self.index + 1;
        loop
            invariant
                self.wf(),
                self.chars@ == s,
                start < self.index,
                s[start as int] == '"',
                string_end(s, start + 1) == string_end(s, self.index as int),
            decreases s.len() - self.index,
        {
            let escape_start: usize = self.index;
            let ch = match self.first() {
                Some(ch) => ch,
                None => {
                    return self.token(TokenKind::Error(LexError::UnterminatedString), start);
                },
            };
            self.index = self.index + 1;
            if ch == '"' {
                return self.token(TokenKind::Str, start);
            }
            if ch == '\\' {
                proof {
                    lemma_escape_at(s, self.index as int);
                }
                let valid = self.escape();
                if !valid {
                    return self.token(TokenKind::Error(LexError::InvalidEscape), escape_start);
                }
            }
        }
    }

    /// Consumes one escape sequence (after the backslash). Returns `false` if it is invalid.
    fn escape(&mut self) -> (valid: bool)
        requires
            old(self).wf(),
        ensures
            final(self).wf(),
            final(self).source() == old(self).source(),
            (valid, final(self).position()) == escape_at(
                old(self).source(),
                old(self).position(),
            ),
    {
        let ghost s = self.chars@;
        let ghost i = self.index as int;
        let ch = match self.first() {
            Some(ch) => ch,
            None => {
                return false;
            },
        };
        self.index = self.index + 1;
        match ch {
            '\\' | '"' | '\'' | 'n' | 'r' | 't' | '0' => true,
            'x' => {
                let high = match self.hex_digit() {
                    Some(d) => d,
                    None => {
                        return false;
                    },
                };
                self.index = self.index + 1;
                let low = match self.hex_digit() {
                    Some(d) => d,
                    None => {
                        return false;
                    },
                };
                self.index = self.index + 1;
                proof {
                    let t = s.subrange(i + 1, i + 3);
                    assert(t.drop_last() =~= seq![s[i + 1]]);
                    assert(t.drop_last().drop_last() =~= Seq::<char>::empty());
                    reveal_with_fuel(radix_value, 3);
                }
                high * 16 + low <= 0x7F
            },
            'u' => {
                if !self.at('{') {
                    return false;
                }
                self.index = self.index + 1;
                proof {
                    lemma_run_end(s, i + 2, Class::Hex);
                    assert(s.subrange(i + 2, i + 2) =~= Seq::<char>::empty());
                }
                let mut value: u32 = 0;
                let mut digits: usize = 0;
                while digits < 7
                    invariant_except_break
                        self.wf(),
                        self.chars@ == s,
                        s == old(self).chars@,
                        i == old(self).index,
                        digits <= 7,
                        self.index == i + 2 + digits,
                        i >= 0,
                        digits < 7 ==> value == radix_value(s.subrange(i + 2, self.index as int), 16),
                        digits == 0 ==> value == 0,
                        digits == 1 ==> value < 0x10,
                        digits == 2 ==> value < 0x100,
                        digits == 3 ==> value < 0x1000,
                        digits == 4 ==> value < 0x10000,
                        digits == 5 ==> value < 0x100000,
                        digits == 6 ==> value < 0x1000000,
                        run_end(s, i + 2, Class::Hex) == run_end(s, self.index as int, Class::Hex),
                    ensures
                        self.wf(),
                        self.chars@ == s,
                        s == old(self).chars@,
                        i == old(self).index,
                        digits <= 7,
                        self.index == i + 2 + digits,
                        digits < 7 ==> value == radix_value(s.subrange(i + 2, self.index as int), 16)
                            && run_end(s, i + 2, Class::Hex) == self.index,
                        digits == 7 ==> run_end(s, i + 2, Class::Hex) == run_end(
                            s,
                            self.index as int,
                            Class::Hex,
                        ),
                    decreases 7 - digits,
                {
                    match self.hex_digit() {
                        Some(d) => {
                            if digits < 6 {
                                value = value * 16 + d;
                            }
                            proof {
                                let t = s.subrange(i + 2, self.index as int);
                                crate::digits::lemma_radix_value_push(t, s[self.index as int], 16);
                                assert(t.push(s[self.index as int]) =~= s.subrange(
                                    i + 2,
                                    self.index as int + 1,
                                ));
                            }
                            self.index = self.index + 1;
                            digits = digits + 1;
                        },
                        None => {
                            break;
                        },
                    }
                }
                if digits == 7 {
                    proof {
                        lemma_run_end(s, self.index as int, Class::Hex);
                    }
                    return false;
                }
                if digits == 0 || !self.at('}') {
                    return false;
                }
                self.index = self.index + 1;
                char::from_u32(value).is_some()
            },
            _ => false,
        }
    }

    /// The value of the next character as a hexadecimal digit.
    fn hex_digit(&self) -> (r: Option<u32>)
        requires
            self.wf(),
        ensures
            match r {
                Some(d) => {
                    &&& is_hex_at(self.source(), self.position())
                    &&& self.position() < self.source().len()
                    &&& spec_to_digit(self.source()[self.position()], 16) == Some(d as nat)
                    &&& d < 16
                },
                None => !is_hex_at(self.source(), self.position()),
            },
    {
        match self.first() {
            Some(c) => to_digit(c, 16),
            None => None,
        }
    }

    /// Lexes `r"…"`, `r#"…"#` or the rejected raw identifier `r#name`.
    #[verifier::loop_isolation(false)]
    fn raw_prefixed(&mut self, start: usize) -> (token: Token)
        requires
            old(self).wf(),
            start == old(self).position(),
            start + 1 < old(self).source().len(),
        ensures
            final(self).wf(),
            final(self).source() == old(self).source(),
            token == token_of(old(self).source(), raw_token(old(self).source(), start as int)),
            final(self).position() == raw_token(old(self).source(), start as int).end,
    {
        let ghost s = self.chars@;
        let mut probe: usize = start + 1;
        while probe < self.chars.len() && self.chars[probe] == '#'
            invariant
                self.wf(),
                self.chars@ == s,
                start < probe <= s.len(),
                run_end(s, start + 1, Class::Hash) == run_end(s, probe as int, Class::Hash),
            decreases s.len() - probe,
        {
            probe = probe + 1;
        }
        let hashes: usize = probe - (start + 1);
        if !(probe < self.chars.len() && self.chars[probe] == '"') {
            self.index = start + 2;
            return self.token(TokenKind::Error(LexError::RawIdentifier), start);
        }
        self.index = probe + 1;
        let ghost body = self.index as int;
        while self.index < self.chars.len()
            invariant
                self.wf(),
                self.chars@ == s,
                start < body <= self.index,
                0 <= hashes,
                run_end(s, start + 1, Class::Hash) == body - 1,
                char_at(s, body - 1) == Some('"'),
                hashes == body - 1 - (start + 1),
                raw_end(s, body, hashes as int) == raw_end(s, self.index as int, hashes as int),
            decreases s.len() - self.index,
        {
            if self.chars[self.index] == '"' {
                let seen = self.count_hashes(self.index + 1, hashes);
                if seen == hashes {
                    proof {
                        assert(raw_closes(s, self.index as int, hashes as int)) by {
                            assert forall|k: int|
                                self.index < k <= self.index + hashes implies #[trigger] char_at(
                                s,
                                k,
                            ) == Some('#') by {
                                assert(s[k] == '#');
                            }
                        }
                    }
                    self.index = self.index + 1 + hashes;
                    return self.token(TokenKind::Str, start);
                }
                proof {
                    let k = self.index + 1 + seen;
                    assert(char_at(s, k) != Some('#'));
                    assert(!raw_closes(s, self.index as int, hashes as int));
                }
            }
            self.index = self.index + 1;
        }
        self.token(TokenKind::Error(LexError::UnterminatedRawString), start)
    }

    /// The number of `#` characters from `from` on, at most `limit`.
    #[verifier::loop_isolation(false)]
    fn count_hashes(&self, from: usize, limit: usize) -> (seen: usize)
        requires
            self.wf(),
            from <= self.source().len(),
        ensures
            seen <= limit,
            from + seen <= self.source().len(),
            forall|k: int| from <= k < from + seen ==> #[trigger] self.source()[k] == '#',
            seen < limit ==> char_at(self.source(), from + seen) != Some('#'),
    {
        let mut seen: usize = 0;
        while seen < limit && from + seen < self.chars.len() && self.chars[from + seen] == '#'
            invariant
                self.wf(),
                seen <= limit,
                from + seen <= self.chars@.len(),
                forall|k: int| from <= k < from + seen ==> #[trigger] self.chars@[k] == '#',
            decreases limit - seen,
        {
            seen = seen + 1;
        }
        seen
    }

    /// Lexes an integer or float literal.
    fn number(&mut self, start: usize) -> (token: Token)
        requires
            old(self).wf(),
            start == old(self).position(),
            start < old(self).source().len(),
            spec_is_digit(old(self).source()[start as int]),
        ensures
            final(self).wf(),
            final(self).source() == old(self).source(),
            token == token_of(old(self).source(), number_token(old(self).source(), start as int)),
            final(self).position() == number_token(old(self).source(), start as int).end,
    {
        let ghost s = self.chars@;
        let mut is_float: bool = false;
        if self.at('0') && (self.at_next('x') || self.at_next('o') || self.at_next('b')) {
            let radix: u32 = if self.at_next('x') {
                16
            } else if self.at_next('o') {
                8
            } else {
                2
            };
            self.index = self.index + 2;
            let mut any: bool = false;
            while self.index < self.chars.len()
                invariant_except_break
                    self.wf(),
                    self.chars@ == s,
                    s == old(self).chars@,
                    start + 2 <= self.index,
                    radix <= 16,
                    run_end(s, start + 2, Class::Radix(radix as nat)) == run_end(
                        s,
                        self.index as int,
                        Class::Radix(radix as nat),
                    ),
                    any == any_digit(s, start + 2, self.index as int),
                ensures
                    self.wf(),
                    self.chars@ == s,
                    s == old(self).chars@,
                    start + 2 <= self.index,
                    run_end(s, start + 2, Class::Radix(radix as nat)) == self.index,
                    any == any_digit(s, start + 2, self.index as int),
                decreases s.len() - self.index,
            {
                let c = self.chars[self.index];
                if c == '_' {
                    self.index = self.index + 1;
                } else if to_digit(c, radix).is_some() {
                    assert(s[self.index as int] != '_');
                    any = true;
                    self.index = self.index + 1;
                } else {
                    break;
                }
            }
            let stray = match self.first() {
                Some(c) => is_digit(c),
                None => false,
            };
            if !any || stray {
                self.eat_ident_tail();
                return self.token(TokenKind::Error(LexError::InvalidNumber), start);
            }
        } else {
            self.eat_digits();
            if self.at('.') && !self.at_next('.') {
                is_float = true;
                self.index = self.index + 1;
                self.eat_digits();
            }
            if self.at('e') || self.at('E') {
                let mut probe: usize = self.index + 1;
                if probe < self.chars.len() && (self.chars[probe] == '+' || self.chars[probe]
                    == '-') {
                    probe = probe + 1;
                }
                if probe < self.chars.len() && is_digit(self.chars[probe]) {
                    self.index = probe;
                    self.eat_digits();
                    is_float = true;
                }
            }
        }
        let suffix = match self.first() {
            Some(c) => is_ident_start(c),
            None => false,
        };
        if suffix {
            self.eat_ident_tail();
            return self.token(TokenKind::Error(LexError::NumericSuffix), start);
        }
        let kind = if is_float {
            TokenKind::Float
        } else {
            TokenKind::Int
        };
        self.token(kind, start)
    }

    /// Consumes ASCII digits and `_` separators.
    #[verifier::loop_isolation(false)]
    fn eat_digits(&mut self)
        requires
            old(self).wf(),
        ensures
            final(self).wf(),
            final(self).source() == old(self).source(),
            final(self).position() == run_end(
                old(self).source(),
                old(self).position(),
                Class::Decimal,
            ),
    {
        let ghost s = self.chars@;
        let ghost from = self.index as int;
        while self.index < self.chars.len() && (is_digit(self.chars[self.index])
            || self.chars[self.index] == '_')
            invariant
                self.wf(),
                self.chars@ == s,
                run_end(s, from, Class::Decimal) == run_end(s, self.index as int, Class::Decimal),
            decreases s.len() - self.index,
        {
            self.index = self.index + 1;
        }
    }

    /// Consumes an identifier-shaped run of characters.
    #[verifier::loop_isolation(false)]
    fn eat_ident_tail(&mut self)
        requires
            old(self).wf(),
        ensures
            final(self).wf(),
            final(self).source() == old(self).source(),
            final(self).position() == run_end(
                old(self).source(),
                old(self).position(),
                Class::Ident,
            ),
    {
        let ghost s = self.chars@;
        let ghost from = self.index as int;
        while self.index < self.chars.len() && is_ident_continue(self.chars[self.index])
            invariant
                self.wf(),
                self.chars@ == s,
                run_end(s, from, Class::Ident) == run_end(s, self.index as int, Class::Ident),
            decreases s.len() - self.index,
        {
            self.index = self.index + 1;
        }
    }

    /// Builds a token spanning from `start` to the current position.
    fn token(&self, kind: TokenKind, start: usize) -> (token: Token)
        requires
            self.wf(),
            start <= self.source().len(),
        ensures
            token == (Token { kind, span: span_of(self.source(), start as int, self.position()) }),
    {
        Token { kind, span: Span::new(self.offsets[start], self.offsets[self.index]) }
    }

    fn first(&self) -> (r: Option<char>)
        requires
            self.wf(),
        ensures
            r == char_at(self.source(), self.position()),
            r is None ==> self.position() == self.source().len(),
            self.position() == self.index,
    {
        if self.index < self.chars.len() {
            Some(self.chars[self.index])
        } else {
            None
        }
    }

    /// Whether the next character is `c`.
    fn at(&self, c: char) -> (r: bool)
        requires
            self.wf(),
        ensures
            r == (char_at(self.source(), self.position()) == Some(c)),
    {
        self.index < self.chars.len() && self.chars[self.index] == c
    }

    /// Whether the character after the next one is `c`.
    fn at_next(&self, c: char) -> (r: bool)
        requires
            self.wf(),
        ensures
            r == (char_at(self.source(), self.position() + 1) == Some(c)),
    {
        self.index < self.chars.len() && self.index + 1 < self.chars.len() && self.chars[self.index
            + 1] == c
    }
}

} // verus!
