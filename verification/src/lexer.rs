//! The lexer: turns input text into a stream of tokens, one at a time.
//!
//! Between tokens it skips whitespace and `#`-to-end-of-line comments.
//! String literals are delimited by a single or double quote and copied
//! verbatim (the grammar has no escape sequences).  Numbers are maximal
//! runs of digits and decimal points after a digit or minus sign.
//! Words made of letters are matched exactly against `true`, `false`,
//! `null` and the reserved keyword.
//!
//! The specification side is the total function [`token_at`]: for any
//! position in the input it says which token starts there, where it
//! ends, or which lexical error occurs.  [`Lexer::next_token`] is
//! proved to follow it exactly.

use vstd::prelude::*;

use crate::errors::ConvError;
use crate::errors::ErrSpec;
use vstd::string::StrSliceExecFns;
use crate::value::is_digit_char;
use crate::value::is_number_body_char;
use crate::value::valid_number_text;

verus! {

/// The whitespace characters skipped between tokens.
pub open spec fn is_space_char(c: char) -> bool {
    let u = c as u32;
    ||| u == 0x09
    ||| u == 0x0A
    ||| u == 0x0B
    ||| u == 0x0C
    ||| u == 0x0D
    ||| u == 0x20
    ||| u == 0x85
    ||| u == 0xA0
    ||| u == 0x1680
    ||| (0x2000 <= u && u <= 0x200A)
    ||| u == 0x2028
    ||| u == 0x2029
    ||| u == 0x202F
    ||| u == 0x205F
    ||| u == 0x3000
}

/// The letters that continue a bare word: ASCII letters.
pub open spec fn is_alpha_char(c: char) -> bool {
    let u = c as u32;
    (0x41 <= u && u <= 0x5A) || (0x61 <= u && u <= 0x7A)
}

/// The spelling of `true`.
pub open spec fn kw_true() -> Seq<char> {
    seq!['t', 'r', 'u', 'e']
}

/// The spelling of `false`.
pub open spec fn kw_false() -> Seq<char> {
    seq!['f', 'a', 'l', 's', 'e']
}

/// The spelling of `null`.
pub open spec fn kw_null() -> Seq<char> {
    seq!['n', 'u', 'l', 'l']
}

/// The spelling of the reserved keyword.
pub open spec fn kw_reserved() -> Seq<char> {
    seq!['i', 'n', 'c', 'l', 'u', 'd', 'e']
}

/// The index of the first newline at or after `i`, or the input length.
pub open spec fn line_end(s: Seq<char>, i: int) -> int
    decreases s.len() - i,
{
    if i >= s.len() {
        s.len() as int
    } else if s[i] == '\n' {
        i
    } else {
        line_end(s, i + 1)
    }
}

/// Positions reached by [`line_end`] lie between `i` and the length,
/// sit on a newline unless at the end, and skip no newline.
pub proof fn lemma_line_end(s: Seq<char>, i: int)
    requires
        0 <= i <= s.len(),
    ensures
        i <= line_end(s, i) <= s.len(),
        line_end(s, i) < s.len() ==> s[line_end(s, i)] == '\n',
        forall|m: int| i <= m < line_end(s, i) ==> s[m] != '\n',
    decreases s.len() - i,
{
    if i < s.len() && s[i] != '\n' {
        lemma_line_end(s, i + 1);
    }
}

/// The position of the first character of the next token at or after
/// `i`: whitespace and `#` comments are skipped.
pub open spec fn skip_trivia(s: Seq<char>, i: int) -> int
    decreases s.len() - i,
{
    if i < 0 {
        i
    } else if i >= s.len() {
        i
    } else if is_space_char(s[i]) {
        skip_trivia(s, i + 1)
    } else if s[i] == '#' {
        proof {
            lemma_line_end(s, i + 1);
        }
        skip_trivia(s, line_end(s, i + 1))
    } else {
        i
    }
}

/// [`skip_trivia`] stays within bounds and stops on a character that
/// is neither whitespace nor a comment opener.
pub proof fn lemma_skip_trivia(s: Seq<char>, i: int)
    requires
        0 <= i <= s.len(),
    ensures
        i <= skip_trivia(s, i) <= s.len(),
        skip_trivia(s, i) < s.len() ==> !is_space_char(s[skip_trivia(s, i)]) && s[skip_trivia(
            s,
            i,
        )] != '#',
    decreases s.len() - i,
{
    if i < s.len() {
        if is_space_char(s[i]) {
            lemma_skip_trivia(s, i + 1);
        } else if s[i] == '#' {
            lemma_line_end(s, i + 1);
            lemma_skip_trivia(s, line_end(s, i + 1));
        }
    }
}

/// The index of the first `q` at or after `i`, or the input length.
pub open spec fn find_quote(s: Seq<char>, i: int, q: char) -> int
    decreases s.len() - i,
{
    if i >= s.len() {
        s.len() as int
    } else if s[i] == q {
        i
    } else {
        find_quote(s, i + 1, q)
    }
}

/// [`find_quote`] stays within bounds, lands on `q` unless at the end,
/// and skips no `q`.
pub proof fn lemma_find_quote(s: Seq<char>, i: int, q: char)
    requires
        0 <= i <= s.len(),
    ensures
        i <= find_quote(s, i, q) <= s.len(),
        find_quote(s, i, q) < s.len() ==> s[find_quote(s, i, q)] == q,
        forall|m: int| i <= m < find_quote(s, i, q) ==> s[m] != q,
    decreases s.len() - i,
{
    if i < s.len() && s[i] != q {
        lemma_find_quote(s, i + 1, q);
    }
}

/// The end of the maximal run of digits and decimal points from `i`.
pub open spec fn scan_number_end(s: Seq<char>, i: int) -> int
    decreases s.len() - i,
{
    if i >= s.len() {
        s.len() as int
    } else if is_number_body_char(s[i]) {
        scan_number_end(s, i + 1)
    } else {
        i
    }
}

/// [`scan_number_end`] stays within bounds, covers only number body
/// characters, and stops at the first other character.
pub proof fn lemma_scan_number_end(s: Seq<char>, i: int)
    requires
        0 <= i <= s.len(),
    ensures
        i <= scan_number_end(s, i) <= s.len(),
        scan_number_end(s, i) < s.len() ==> !is_number_body_char(s[scan_number_end(s, i)]),
        forall|m: int| i <= m < scan_number_end(s, i) ==> is_number_body_char(s[m]),
    decreases s.len() - i,
{
    if i < s.len() && is_number_body_char(s[i]) {
        lemma_scan_number_end(s, i + 1);
    }
}

/// The end of the maximal run of letters from `i`.
pub open spec fn scan_alpha_end(s: Seq<char>, i: int) -> int
    decreases s.len() - i,
{
    if i >= s.len() {
        s.len() as int
    } else if is_alpha_char(s[i]) {
        scan_alpha_end(s, i + 1)
    } else {
        i
    }
}

/// [`scan_alpha_end`] stays within bounds, covers only letters, and
/// stops at the first non-letter.
pub proof fn lemma_scan_alpha_end(s: Seq<char>, i: int)
    requires
        0 <= i <= s.len(),
    ensures
        i <= scan_alpha_end(s, i) <= s.len(),
        scan_alpha_end(s, i) < s.len() ==> !is_alpha_char(s[scan_alpha_end(s, i)]),
        forall|m: int| i <= m < scan_alpha_end(s, i) ==> is_alpha_char(s[m]),
    decreases s.len() - i,
{
    if i < s.len() && is_alpha_char(s[i]) {
        lemma_scan_alpha_end(s, i + 1);
    }
}

/// One lexical token.
#[derive(Debug)]
pub enum Token {
    /// A quoted string literal, content verbatim.
    Str(String),
    /// A number literal, kept as its text.
    Num(String),
    Bool(bool),
    Null,
    LBrace,
    RBrace,
    LBracket,
    RBracket,
    Comma,
    Colon,
    Equals,
    Dot,
    /// The reserved keyword; no grammar production accepts it.
    Reserved,
    Eof,
}

/// The mathematical model of a [`Token`].
pub enum TokenSpec {
    Str(Seq<char>),
    Num(Seq<char>),
    Bool(bool),
    Null,
    LBrace,
    RBrace,
    LBracket,
    RBracket,
    Comma,
    Colon,
    Equals,
    Dot,
    Reserved,
    Eof,
}

impl View for Token {
    type V = TokenSpec;

    open spec fn view(&self) -> TokenSpec {
        match self {
            Token::Str(s) => TokenSpec::Str(s@),
            Token::Num(s) => TokenSpec::Num(s@),
            Token::Bool(b) => TokenSpec::Bool(*b),
            Token::Null => TokenSpec::Null,
            Token::LBrace => TokenSpec::LBrace,
            Token::RBrace => TokenSpec::RBrace,
            Token::LBracket => TokenSpec::LBracket,
            Token::RBracket => TokenSpec::RBracket,
            Token::Comma => TokenSpec::Comma,
            Token::Colon => TokenSpec::Colon,
            Token::Equals => TokenSpec::Equals,
            Token::Dot => TokenSpec::Dot,
            Token::Reserved => TokenSpec::Reserved,
            Token::Eof => TokenSpec::Eof,
        }
    }
}

/// The outcome of reading one token: the token and the position just
/// after it, or a lexical error.
pub enum LexStep {
    Tok(TokenSpec, int),
    Fail(ErrSpec),
}

/// Which token starts at or after position `i` of `s`, and where it
/// ends; trivia before it is skipped.
pub open spec fn token_at(s: Seq<char>, i: int) -> LexStep {
    let j = skip_trivia(s, i);
    if j >= s.len() {
        LexStep::Tok(TokenSpec::Eof, j)
    } else {
        let c = s[j];
        if c == '{' {
            LexStep::Tok(TokenSpec::LBrace, j + 1)
        } else if c == '}' {
            LexStep::Tok(TokenSpec::RBrace, j + 1)
        } else if c == '[' {
            LexStep::Tok(TokenSpec::LBracket, j + 1)
        } else if c == ']' {
            LexStep::Tok(TokenSpec::RBracket, j + 1)
        } else if c == ',' {
            LexStep::Tok(TokenSpec::Comma, j + 1)
        } else if c == ':' {
            LexStep::Tok(TokenSpec::Colon, j + 1)
        } else if c == '=' {
            LexStep::Tok(TokenSpec::Equals, j + 1)
        } else if c == '.' {
            LexStep::Tok(TokenSpec::Dot, j + 1)
        } else if c == '"' || c == '\'' {
            let q = find_quote(s, j + 1, c);
            if q < s.len() {
                LexStep::Tok(TokenSpec::Str(s.subrange(j + 1, q)), q + 1)
            } else {
                LexStep::Fail(ErrSpec::UnterminatedString)
            }
        } else if is_digit_char(c) || c == '-' {
            let e = scan_number_end(s, j + 1);
            let lex = s.subrange(j, e);
            if valid_number_text(lex) {
                LexStep::Tok(TokenSpec::Num(lex), e)
            } else {
                LexStep::Fail(ErrSpec::InvalidNumber(lex))
            }
        } else if c == 't' || c == 'f' {
            let e = scan_alpha_end(s, j + 1);
            let lex = s.subrange(j, e);
            if lex == kw_true() {
                LexStep::Tok(TokenSpec::Bool(true), e)
            } else if lex == kw_false() {
                LexStep::Tok(TokenSpec::Bool(false), e)
            } else {
                LexStep::Fail(ErrSpec::InvalidBoolean(lex))
            }
        } else if c == 'n' {
            let e = scan_alpha_end(s, j + 1);
            let lex = s.subrange(j, e);
            if lex == kw_null() {
                LexStep::Tok(TokenSpec::Null, e)
            } else {
                LexStep::Fail(ErrSpec::InvalidNull(lex))
            }
        } else if c == 'i' {
            let e = scan_alpha_end(s, j + 1);
            let lex = s.subrange(j, e);
            if lex == kw_reserved() {
                LexStep::Tok(TokenSpec::Reserved, e)
            } else {
                LexStep::Fail(ErrSpec::InvalidKeyword(lex))
            }
        } else {
            LexStep::Fail(ErrSpec::InvalidChar(c))
        }
    }
}

/// A successful token ends within the input, after its start; only the
/// end-of-input token can end where reading began.
pub proof fn lemma_token_at_bounds(s: Seq<char>, i: int)
    requires
        0 <= i <= s.len(),
    ensures
        token_at(s, i) matches LexStep::Tok(t, j) ==> i <= j <= s.len() && (!(t is Eof) ==> i
            < j && skip_trivia(s, i) < j) && (t is Eof ==> j == skip_trivia(s, i)),
{
    lemma_skip_trivia(s, i);
    let j = skip_trivia(s, i);
    if j < s.len() {
        let c = s[j];
        if c == '"' || c == '\'' {
            lemma_find_quote(s, j + 1, c);
        } else if is_digit_char(c) || c == '-' {
            lemma_scan_number_end(s, j + 1);
        } else {
            lemma_scan_alpha_end(s, j + 1);
        }
    }
}

/// The lexer: the input as characters, a copy of the text for lexeme
/// extraction, and a cursor.
pub struct Lexer {
    pub input: Vec<char>,
    pub text: String,
    pub position: usize,
}

impl Lexer {
    /// The cursor is inside the input and both input copies agree.
    pub open spec fn wf(&self) -> bool {
        self.position <= self.input@.len() && self.text@ == self.input@
    }

    /// Build a lexer over the full input text, cursor at the start.
    pub fn new(input: &str) -> (r: Lexer)
        ensures
            r.wf(),
            r.input@ == input@,
            r.position == 0,
    {
        let text = input.to_owned();
        let n = input.unicode_len();
        let mut chars: Vec<char> = Vec::new();
        let mut i: usize = 0;
        while i < n
            invariant
                n == input@.len(),
                i <= n,
                chars@ =~= input@.subrange(0, i as int),
            decreases n - i,
        {
            chars.push(input.get_char(i));
            proof {
                assert(chars@ =~= input@.subrange(0, i + 1 as int));
            }
            i += 1;
        }
        proof {
            assert(chars@ =~= input@);
        }
        Lexer { input: chars, text, position: 0 }
    }

    /// Move the cursor past whitespace and comments, to the start of
    /// the next token.
    pub fn skip_whitespace(&mut self)
        requires
            old(self).wf(),
        ensures
            final(self).wf(),
            final(self).input == old(self).input,
            final(self).text == old(self).text,
            final(self).position as int == skip_trivia(old(self).input@, old(self).position as int),
    {
        loop
            invariant
                self.wf(),
                self.input == old(self).input,
                self.text == old(self).text,
                skip_trivia(self.input@, self.position as int) == skip_trivia(
                    old(self).input@,
                    old(self).position as int,
                ),
            decreases self.input@.len() - self.position,
        {
            if self.position >= self.input.len() {
                return ;
            }
            let ghost s = self.input@;
            let c = self.input[self.position];
            if c == '#' {
                // A comment runs to the end of the line.
                let ghost p1 = self.position + 1 as int;
                self.position = self.position + 1;
                while self.position < self.input.len() && self.input[self.position] != '\n'
                    invariant
                        self.wf(),
                        self.input == old(self).input,
                        self.text == old(self).text,
                        s == self.input@,
                        p1 <= self.position as int <= s.len(),
                        line_end(s, self.position as int) == line_end(s, p1),
                    decreases self.input@.len() - self.position,
                {
                    self.position = self.position + 1;
                }
                proof {
                    lemma_line_end(s, p1);
                    assert(self.position as int == line_end(s, p1));
                }
            } else if is_space(c) {
                self.position = self.position + 1;
            } else {
                return ;
            }
        }
    }
}

impl Lexer {
    /// Whether a number literal the scanner found is one the grammar
    /// accepts.
    fn check_number(t: &str) -> (r: bool)
        ensures
            r == valid_number_text(t@),
    {
        let n = t.unicode_len();
        if n == 0 {
            return false;
        }
        let c0 = t.get_char(0);
        if !(is_digit(c0) || c0 == '-') {
            return false;
        }
        let mut has_digit = is_digit(c0);
        let mut seen_dot = false;
        let mut i: usize = 1;
        while i < n
            invariant
                n == t@.len(),
                1 <= i <= n,
                is_digit_char(t@[0]) || t@[0] == '-',
                has_digit == (exists|m: int| 0 <= m < i && is_digit_char(#[trigger] t@[m])),
                seen_dot == (exists|m: int| 0 <= m < i && #[trigger] t@[m] == '.'),
                forall|m: int| 1 <= m < i ==> is_number_body_char(#[trigger] t@[m]),
                forall|m: int, k: int|
                    0 <= m < k < i && #[trigger] t@[m] == '.' ==> #[trigger] t@[k] != '.',
            decreases n - i,
        {
            let c = t.get_char(i);
            if c == '.' {
                if seen_dot {
                    return false;
                }
                seen_dot = true;
            } else if is_digit(c) {
                has_digit = true;
            } else {
                return false;
            }
            i += 1;
        }
        has_digit
    }

    /// Read the rest of a quoted string literal; the opening quote has
    /// been consumed and `quote` is its character.
    fn read_string(&mut self, quote: char) -> (r: Result<Token, ConvError>)
        requires
            old(self).wf(),
            old(self).position <= old(self).input@.len(),
        ensures
            final(self).wf(),
            final(self).input == old(self).input,
            final(self).text == old(self).text,
            ({
                let s = old(self).input@;
                let start = old(self).position as int;
                let q = find_quote(s, start, quote);
                if q < s.len() {
                    r matches Ok(tok) && tok@ == TokenSpec::Str(s.subrange(start, q)) && final(self).position as int == q + 1
                } else {
                    r matches Err(e) && e@ == ErrSpec::UnterminatedString
                }
            }),
    {
        let ghost s = self.input@;
        let start = self.position;
        while self.position < self.input.len()
            invariant
                self.wf(),
                self.input == old(self).input,
                self.text == old(self).text,
                s == self.input@,
                start <= self.position,
                find_quote(s, start as int, quote) == find_quote(s, self.position as int, quote),
            decreases self.input@.len() - self.position,
        {
            let c = self.input[self.position];
            if c == quote {
                let content = self.text.as_str().substring_char(start, self.position);
                let tok = Token::Str(content.to_owned());
                self.position = self.position + 1;
                return Ok(tok);
            }
            self.position = self.position + 1;
        }
        Err(ConvError::UnterminatedString)
    }

    /// Read the rest of a number literal; `first` is its already
    /// consumed first character.
    fn read_number(&mut self, first: char) -> (r: Result<Token, ConvError>)
        requires
            old(self).wf(),
            1 <= old(self).position <= old(self).input@.len(),
            old(self).input@[old(self).position - 1] == first,
            is_digit_char(first) || first == '-',
        ensures
            final(self).wf(),
            final(self).input == old(self).input,
            final(self).text == old(self).text,
            ({
                let s = old(self).input@;
                let start = old(self).position - 1;
                let e = scan_number_end(s, old(self).position as int);
                let lex = s.subrange(start, e);
                if valid_number_text(lex) {
                    r matches Ok(tok) && tok@ == TokenSpec::Num(lex) && final(self).position as int
                        == e
                } else {
                    r matches Err(err) && err@ == ErrSpec::InvalidNumber(lex)
                }
            }),
    {
        let ghost s = self.input@;
        let start = self.position - 1;
        while self.position < self.input.len() && is_number_body(self.input[self.position])
            invariant
                self.wf(),
                self.input == old(self).input,
                self.text == old(self).text,
                s == self.input@,
                old(self).position <= self.position,
                scan_number_end(s, old(self).position as int) == scan_number_end(
                    s,
                    self.position as int,
                ),
            decreases self.input@.len() - self.position,
        {
            self.position = self.position + 1;
        }
        proof {
            assert(self.position as int == scan_number_end(s, old(self).position as int));
        }
        let lex = self.text.as_str().substring_char(start, self.position);
        if Self::check_number(lex) {
            Ok(Token::Num(lex.to_owned()))
        } else {
            Err(ConvError::InvalidNumber(lex.to_owned()))
        }
    }

    /// Move the cursor past the rest of a run of letters and return
    /// where the run ends.
    fn read_word_end(&mut self) -> (e: usize)
        requires
            old(self).wf(),
            old(self).position <= old(self).input@.len(),
        ensures
            final(self).wf(),
            final(self).input == old(self).input,
            final(self).text == old(self).text,
            final(self).position == e,
            e as int == scan_alpha_end(old(self).input@, old(self).position as int),
    {
        let ghost s = self.input@;
        while self.position < self.input.len() && is_alpha(self.input[self.position])
            invariant
                self.wf(),
                self.input == old(self).input,
                self.text == old(self).text,
                s == self.input@,
                old(self).position <= self.position,
                scan_alpha_end(s, old(self).position as int) == scan_alpha_end(
                    s,
                    self.position as int,
                ),
            decreases self.input@.len() - self.position,
        {
            self.position = self.position + 1;
        }
        self.position
    }

    /// Read the rest of a word starting with `t` or `f` and match it
    /// against the two boolean spellings.
    fn read_boolean(&mut self, first: char) -> (r: Result<Token, ConvError>)
        requires
            old(self).wf(),
            1 <= old(self).position <= old(self).input@.len(),
            old(self).input@[old(self).position - 1] == first,
            first == 't' || first == 'f',
        ensures
            final(self).wf(),
            final(self).input == old(self).input,
            final(self).text == old(self).text,
            ({
                let s = old(self).input@;
                let start = old(self).position - 1;
                let e = scan_alpha_end(s, old(self).position as int);
                let lex = s.subrange(start, e);
                if lex == kw_true() {
                    r matches Ok(tok) && tok@ == TokenSpec::Bool(true) && final(self).position as int == e
                } else if lex == kw_false() {
                    r matches Ok(tok) && tok@ == TokenSpec::Bool(false) && final(self).position as int == e
                } else {
                    r matches Err(err) && err@ == ErrSpec::InvalidBoolean(lex)
                }
            }),
    {
        let ghost s = self.input@;
        let start = self.position - 1;
        let e = self.read_word_end();
        let ghost lex = s.subrange(start as int, e as int);
        proof {
            lemma_scan_alpha_end(s, start + 1);
        }
        if e - start == 4 && self.input[start] == 't' && self.input[start + 1] == 'r'
            && self.input[start + 2] == 'u' && self.input[start + 3] == 'e' {
            proof {
                assert(lex =~= kw_true());
            }
            Ok(Token::Bool(true))
        } else if e - start == 5 && self.input[start] == 'f' && self.input[start + 1] == 'a'
            && self.input[start + 2] == 'l' && self.input[start + 3] == 's' && self.input[start
            + 4] == 'e' {
            proof {
                assert(lex =~= kw_false());
            }
            Ok(Token::Bool(false))
        } else {
            proof {
                let a = start as int;
                let b = e as int;
                assert(lex != kw_true() && lex != kw_false()) by {
                    if lex == kw_true() {
                        assert(lex.len() == 4);
                        assert(b - a == 4);
                        assert(lex[0] == s.subrange(a, b)[0] && s.subrange(a, b)[0] == s[a]);
                        assert(lex[1] == s.subrange(a, b)[1] && s.subrange(a, b)[1] == s[a + 1]);
                        assert(lex[2] == s.subrange(a, b)[2] && s.subrange(a, b)[2] == s[a + 2]);
                        assert(lex[3] == s.subrange(a, b)[3] && s.subrange(a, b)[3] == s[a + 3]);
                    }
                    if lex == kw_false() {
                        assert(lex.len() == 5);
                        assert(b - a == 5);
                        assert(lex[0] == s.subrange(a, b)[0] && s.subrange(a, b)[0] == s[a]);
                        assert(lex[1] == s.subrange(a, b)[1] && s.subrange(a, b)[1] == s[a + 1]);
                        assert(lex[2] == s.subrange(a, b)[2] && s.subrange(a, b)[2] == s[a + 2]);
                        assert(lex[3] == s.subrange(a, b)[3] && s.subrange(a, b)[3] == s[a + 3]);
                        assert(lex[4] == s.subrange(a, b)[4] && s.subrange(a, b)[4] == s[a + 4]);
                    }
                }
            }
            let word = self.text.as_str().substring_char(start, e);
            Err(ConvError::InvalidBoolean(word.to_owned()))
        }
    }

    /// Read the rest of a word starting with `n` and match it against
    /// the null spelling.
    fn read_null(&mut self) -> (r: Result<Token, ConvError>)
        requires
            old(self).wf(),
            1 <= old(self).position <= old(self).input@.len(),
            old(self).input@[old(self).position - 1] == 'n',
        ensures
            final(self).wf(),
            final(self).input == old(self).input,
            final(self).text == old(self).text,
            ({
                let s = old(self).input@;
                let start = old(self).position - 1;
                let e = scan_alpha_end(s, old(self).position as int);
                let lex = s.subrange(start, e);
                if lex == kw_null() {
                    r matches Ok(tok) && tok@ == TokenSpec::Null && final(self).position as int == e
                } else {
                    r matches Err(err) && err@ == ErrSpec::InvalidNull(lex)
                }
            }),
    {
        let ghost s = self.input@;
        let start = self.position - 1;
        let e = self.read_word_end();
        let ghost lex = s.subrange(start as int, e as int);
        proof {
            lemma_scan_alpha_end(s, start + 1);
        }
        if e - start == 4 && self.input[start + 1] == 'u' && self.input[start + 2] == 'l'
            && self.input[start + 3] == 'l' {
            proof {
                assert(lex =~= kw_null());
            }
            Ok(Token::Null)
        } else {
            proof {
                let a = start as int;
                let b = e as int;
                assert(lex != kw_null()) by {
                    if lex == kw_null() {
                        assert(lex.len() == 4);
                        assert(b - a == 4);
                        assert(lex[0] == s.subrange(a, b)[0] && s.subrange(a, b)[0] == s[a]);
                        assert(lex[1] == s.subrange(a, b)[1] && s.subrange(a, b)[1] == s[a + 1]);
                        assert(lex[2] == s.subrange(a, b)[2] && s.subrange(a, b)[2] == s[a + 2]);
                        assert(lex[3] == s.subrange(a, b)[3] && s.subrange(a, b)[3] == s[a + 3]);
                    }
                }
            }
            let word = self.text.as_str().substring_char(start, e);
            Err(ConvError::InvalidNull(word.to_owned()))
        }
    }

    /// Read the rest of a word starting with `i` and match it against
    /// the reserved keyword's spelling.
    fn read_reserved(&mut self) -> (r: Result<Token, ConvError>)
        requires
            old(self).wf(),
            1 <= old(self).position <= old(self).input@.len(),
            old(self).input@[old(self).position - 1] == 'i',
        ensures
            final(self).wf(),
            final(self).input == old(self).input,
            final(self).text == old(self).text,
            ({
                let s = old(self).input@;
                let start = old(self).position - 1;
                let e = scan_alpha_end(s, old(self).position as int);
                let lex = s.subrange(start, e);
                if lex == kw_reserved() {
                    r matches Ok(tok) && tok@ == TokenSpec::Reserved && final(self).position as int
                        == e
                } else {
                    r matches Err(err) && err@ == ErrSpec::InvalidKeyword(lex)
                }
            }),
    {
        let ghost s = self.input@;
        let start = self.position - 1;
        let e = self.read_word_end();
        let ghost lex = s.subrange(start as int, e as int);
        proof {
            lemma_scan_alpha_end(s, start + 1);
        }
        if e - start == 7 && self.input[start + 1] == 'n' && self.input[start + 2] == 'c'
            && self.input[start + 3] == 'l' && self.input[start + 4] == 'u' && self.input[start
            + 5] == 'd' && self.input[start + 6] == 'e' {
            proof {
                assert(lex =~= kw_reserved());
            }
            Ok(Token::Reserved)
        } else {
            proof {
                let a = start as int;
                let b = e as int;
                assert(lex != kw_reserved()) by {
                    if lex == kw_reserved() {
                        assert(lex.len() == 7);
                        assert(b - a == 7);
                        assert(lex[0] == s.subrange(a, b)[0] && s.subrange(a, b)[0] == s[a]);
                        assert(lex[1] == s.subrange(a, b)[1] && s.subrange(a, b)[1] == s[a + 1]);
                        assert(lex[2] == s.subrange(a, b)[2] && s.subrange(a, b)[2] == s[a + 2]);
                        assert(lex[3] == s.subrange(a, b)[3] && s.subrange(a, b)[3] == s[a + 3]);
                        assert(lex[4] == s.subrange(a, b)[4] && s.subrange(a, b)[4] == s[a + 4]);
                        assert(lex[5] == s.subrange(a, b)[5] && s.subrange(a, b)[5] == s[a + 5]);
                        assert(lex[6] == s.subrange(a, b)[6] && s.subrange(a, b)[6] == s[a + 6]);
                    }
                }
            }
            let word = self.text.as_str().substring_char(start, e);
            Err(ConvError::InvalidKeyword(word.to_owned()))
        }
    }

    /// Produce the next token of the input, exactly as [`token_at`]
    /// describes it, or the lexical error it names.
    pub fn next_token(&mut self) -> (r: Result<Token, ConvError>)
        requires
            old(self).wf(),
        ensures
            final(self).wf(),
            final(self).input == old(self).input,
            final(self).text == old(self).text,
            (token_at(old(self).input@, old(self).position as int) matches LexStep::Tok(t, j)
                ==> r matches Ok(tok) && tok@ == t && final(self).position as int == j),
            (token_at(old(self).input@, old(self).position as int) matches LexStep::Fail(e)
                ==> r matches Err(err) && err@ == e),
    {
        let ghost s = self.input@;
        proof {
            lemma_skip_trivia(s, old(self).position as int);
        }
        self.skip_whitespace();
        if self.position >= self.input.len() {
            return Ok(Token::Eof);
        }
        let c = self.input[self.position];
        self.position = self.position + 1;
        if c == '{' {
            Ok(Token::LBrace)
        } else if c == '}' {
            Ok(Token::RBrace)
        } else if c == '[' {
            Ok(Token::LBracket)
        } else if c == ']' {
            Ok(Token::RBracket)
        } else if c == ',' {
            Ok(Token::Comma)
        } else if c == ':' {
            Ok(Token::Colon)
        } else if c == '=' {
            Ok(Token::Equals)
        } else if c == '.' {
            Ok(Token::Dot)
        } else if c == '"' || c == '\'' {
            self.read_string(c)
        } else if is_digit(c) || c == '-' {
            self.read_number(c)
        } else if c == 't' || c == 'f' {
            self.read_boolean(c)
        } else if c == 'n' {
            self.read_null()
        } else if c == 'i' {
            self.read_reserved()
        } else {
            Err(ConvError::InvalidChar(c))
        }
    }
}

/// Whether `c` is one of the whitespace characters the grammar skips.
pub fn is_space(c: char) -> (r: bool)
    ensures
        r == is_space_char(c),
{
    let u = c as u32;
    u == 0x09 || u == 0x0A || u == 0x0B || u == 0x0C || u == 0x0D || u == 0x20 || u == 0x85 || u
        == 0xA0 || u == 0x1680 || (0x2000 <= u && u <= 0x200A) || u == 0x2028 || u == 0x2029 || u
        == 0x202F || u == 0x205F || u == 0x3000
}

/// Whether `c` is an ASCII digit.
pub fn is_digit(c: char) -> (r: bool)
    ensures
        r == is_digit_char(c),
{
    let u = c as u32;
    0x30 <= u && u <= 0x39
}

/// Whether `c` may continue a number literal.
pub fn is_number_body(c: char) -> (r: bool)
    ensures
        r == is_number_body_char(c),
{
    is_digit(c) || c == '.'
}

/// Whether `c` is an ASCII letter.
pub fn is_alpha(c: char) -> (r: bool)
    ensures
        r == is_alpha_char(c),
{
    let u = c as u32;
    (0x41 <= u && u <= 0x5A) || (0x61 <= u && u <= 0x7A)
}

} // verus!
