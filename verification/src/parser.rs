//! The parser: recursive descent over the token stream, one token of
//! lookahead, building a canonical value tree.
//!
//! The specification side is a total recursive description of the
//! grammar over the input characters: [`parse_value_at`] says, for a
//! position, which value starts there, where it ends, or which error
//! occurs.  Object members accept `:` or `=` as separator, commas are
//! optional, duplicate keys are overwritten in place (last write
//! wins), and the reserved keyword is rejected wherever a value is
//! expected.  Where the parser requires a string key, anything else —
//! even text that fails to lex — is a key-must-be-string error; after
//! a complete document, any trailing content that is not pure trivia
//! is a parse-incomplete error.  [`parse_hocon`] is proved to follow
//! [`spec_parse_hocon`] exactly; the root must be an object.

use vstd::prelude::*;

use crate::errors::ConvError;
use crate::errors::ErrSpec;
use crate::lexer::LexStep;
use crate::lexer::Lexer;
use crate::lexer::Token;
use crate::lexer::TokenSpec;
use crate::lexer::lemma_token_at_bounds;
use crate::lexer::skip_trivia;
use crate::lexer::token_at;
use crate::value::ConfigValue;
use crate::value::Member;
use crate::value::SpecVal;
use crate::value::Value;
use crate::value::arr_view;
use crate::value::keys_unique;
use crate::value::lemma_arr_view_push;
use crate::value::spec_has_key;
use crate::value::wf_arr;
use crate::value::wf_members;
use crate::value::wf_val;
use crate::value::members_view;
use crate::value::val_view;
use crate::value::lemma_members_view_index;
use crate::value::lemma_members_view_len;

verus! {

/// The outcome of parsing one value: the value and the position just
/// after its last token, or the error that aborted the parse.
pub enum ParseStep {
    Val(SpecVal, int),
    Fail(ErrSpec),
}

/// The outcome of parsing the members of an object, up to and
/// including its closing brace.
pub enum MembersStep {
    Ms(Seq<(Seq<char>, SpecVal)>, int),
    MsFail(ErrSpec),
}

/// The outcome of parsing the elements of an array, up to and
/// including its closing bracket.
pub enum ElemsStep {
    Es(Seq<SpecVal>, int),
    EsFail(ErrSpec),
}

/// Insert a member: an existing key keeps its place and its value is
/// overwritten (last write wins); a new key is appended.
pub open spec fn spec_upsert(
    ms: Seq<(Seq<char>, SpecVal)>,
    k: Seq<char>,
    v: SpecVal,
) -> Seq<(Seq<char>, SpecVal)>
    decreases ms.len(),
{
    if ms.len() == 0 {
        seq![(k, v)]
    } else if ms[0].0 == k {
        seq![(k, v)] + ms.drop_first()
    } else {
        seq![ms[0]] + spec_upsert(ms.drop_first(), k, v)
    }
}

/// The next parsing position after a value that claimed to end at `j`:
/// `j` itself whenever `j` is a real advance within the input.  This
/// keeps the mutually recursive definitions below visibly decreasing;
/// the advancement lemma shows the fallback arm is never taken.
pub open spec fn next_pos(s: Seq<char>, lo: int, j: int) -> int {
    if lo < j && j <= s.len() {
        j
    } else {
        lo + 1
    }
}

/// The value starting at or after position `i`, and the position just
/// after its last token.
pub open spec fn parse_value_at(s: Seq<char>, i: int) -> ParseStep
    decreases s.len() - i + 1, 0int,
{
    if i < 0 || i > s.len() {
        ParseStep::Fail(ErrSpec::InvalidValue)
    } else {
        match token_at(s, i) {
            LexStep::Fail(e) => ParseStep::Fail(e),
            LexStep::Tok(t, j) => match t {
                TokenSpec::Str(txt) => ParseStep::Val(SpecVal::Str(txt), j),
                TokenSpec::Num(txt) => ParseStep::Val(SpecVal::Num(txt), j),
                TokenSpec::Bool(b) => ParseStep::Val(SpecVal::Bool(b), j),
                TokenSpec::Null => ParseStep::Val(SpecVal::Null, j),
                TokenSpec::LBrace => {
                    proof {
                        lemma_token_at_bounds(s, i);
                    }
                    match parse_members_at(s, j, Seq::empty()) {
                        MembersStep::Ms(ms, j2) => ParseStep::Val(SpecVal::Obj(ms), j2),
                        MembersStep::MsFail(e) => ParseStep::Fail(e),
                    }
                },
                TokenSpec::LBracket => {
                    proof {
                        lemma_token_at_bounds(s, i);
                    }
                    match parse_elems_at(s, j, Seq::empty()) {
                        ElemsStep::Es(es, j2) => ParseStep::Val(SpecVal::Arr(es), j2),
                        ElemsStep::EsFail(e) => ParseStep::Fail(e),
                    }
                },
                _ => ParseStep::Fail(ErrSpec::InvalidValue),
            },
        }
    }
}

/// The members of an object from position `i` (just after `{` or
/// after a previous member), accumulated onto `acc`, up to and past
/// the closing brace.  Whatever stands where a key is required and is
/// not a string literal — a wrong token, or text that does not even
/// lex — is a key-must-be-string error.
pub open spec fn parse_members_at(
    s: Seq<char>,
    i: int,
    acc: Seq<(Seq<char>, SpecVal)>,
) -> MembersStep
    decreases s.len() - i + 1, 1int,
{
    if i < 0 || i > s.len() {
        MembersStep::MsFail(ErrSpec::KeyMustBeString)
    } else {
        match token_at(s, i) {
            LexStep::Fail(e) => MembersStep::MsFail(ErrSpec::KeyMustBeString),
            LexStep::Tok(TokenSpec::RBrace, j) => MembersStep::Ms(acc, j),
            LexStep::Tok(TokenSpec::Str(k), j) => {
                proof {
                    lemma_token_at_bounds(s, i);
                }
                match token_at(s, j) {
                    LexStep::Fail(e) => MembersStep::MsFail(e),
                    LexStep::Tok(TokenSpec::Colon, j2) | LexStep::Tok(TokenSpec::Equals, j2) => {
                        proof {
                            lemma_token_at_bounds(s, j);
                        }
                        match parse_value_at(s, j2) {
                            ParseStep::Fail(e) => MembersStep::MsFail(e),
                            ParseStep::Val(v, j3r) => {
                                let j3 = next_pos(s, j2, j3r);
                                let acc2 = spec_upsert(acc, k, v);
                                match token_at(s, j3) {
                                    LexStep::Fail(e) => MembersStep::MsFail(e),
                                    LexStep::Tok(TokenSpec::Comma, j4) => {
                                        proof {
                                            if j3 <= s.len() {
                                                lemma_token_at_bounds(s, j3);
                                            }
                                        }
                                        parse_members_at(s, j4, acc2)
                                    },
                                    LexStep::Tok(_, _) => parse_members_at(s, j3, acc2),
                                }
                            },
                        }
                    },
                    LexStep::Tok(_, _) => MembersStep::MsFail(ErrSpec::ExpectedSeparator),
                }
            },
            LexStep::Tok(_, _) => MembersStep::MsFail(ErrSpec::KeyMustBeString),
        }
    }
}

/// The elements of an array from position `i` (just after `[` or
/// after a previous element), accumulated onto `acc`, up to and past
/// the closing bracket.
pub open spec fn parse_elems_at(s: Seq<char>, i: int, acc: Seq<SpecVal>) -> ElemsStep
    decreases s.len() - i + 1, 1int,
{
    if i < 0 || i > s.len() {
        ElemsStep::EsFail(ErrSpec::InvalidValue)
    } else {
        match token_at(s, i) {
            LexStep::Fail(e) => ElemsStep::EsFail(e),
            LexStep::Tok(TokenSpec::RBracket, j) => ElemsStep::Es(acc, j),
            LexStep::Tok(_, _) => {
                proof {
                    lemma_token_at_bounds(s, i);
                }
                match parse_value_at(s, i) {
                    ParseStep::Fail(e) => ElemsStep::EsFail(e),
                    ParseStep::Val(v, jr) => {
                        let j = next_pos(s, i, jr);
                        let acc2 = acc.push(v);
                        match token_at(s, j) {
                            LexStep::Fail(e) => ElemsStep::EsFail(e),
                            LexStep::Tok(TokenSpec::Comma, j2) => {
                                proof {
                                    if j <= s.len() {
                                        lemma_token_at_bounds(s, j);
                                    }
                                }
                                parse_elems_at(s, j2, acc2)
                            },
                            LexStep::Tok(_, _) => parse_elems_at(s, j, acc2),
                        }
                    },
                }
            },
        }
    }
}

/// A parsed value ends after where it began, within the input.
pub proof fn lemma_parse_value_advances(s: Seq<char>, i: int)
    requires
        0 <= i <= s.len(),
    ensures
        parse_value_at(s, i) matches ParseStep::Val(v, j) ==> skip_trivia(s, i) < j && i < j
            <= s.len(),
    decreases s.len() - i + 1, 0int,
{
    lemma_token_at_bounds(s, i);
    if let LexStep::Tok(t, j) = token_at(s, i) {
        match t {
            TokenSpec::LBrace => {
                lemma_parse_members_advances(s, j, Seq::empty());
            },
            TokenSpec::LBracket => {
                lemma_parse_elems_advances(s, j, Seq::empty());
            },
            _ => {},
        }
    }
}

/// A parsed member list ends after where it began, within the input.
pub proof fn lemma_parse_members_advances(s: Seq<char>, i: int, acc: Seq<(Seq<char>, SpecVal)>)
    requires
        0 <= i <= s.len(),
    ensures
        parse_members_at(s, i, acc) matches MembersStep::Ms(ms, j) ==> i < j <= s.len(),
    decreases s.len() - i + 1, 1int,
{
    lemma_token_at_bounds(s, i);
    match token_at(s, i) {
        LexStep::Tok(TokenSpec::Str(k), j) => {
            lemma_token_at_bounds(s, j);
            match token_at(s, j) {
                LexStep::Tok(TokenSpec::Colon, j2) | LexStep::Tok(TokenSpec::Equals, j2) => {
                    lemma_parse_value_advances(s, j2);
                    if let ParseStep::Val(v, j3r) = parse_value_at(s, j2) {
                        let j3 = next_pos(s, j2, j3r);
                        let acc2 = spec_upsert(acc, k, v);
                        lemma_token_at_bounds(s, j3);
                        match token_at(s, j3) {
                            LexStep::Tok(TokenSpec::Comma, j4) => {
                                lemma_parse_members_advances(s, j4, acc2);
                            },
                            LexStep::Tok(_, _) => {
                                lemma_parse_members_advances(s, j3, acc2);
                            },
                            LexStep::Fail(_) => {},
                        }
                    }
                },
                _ => {},
            }
        },
        _ => {},
    }
}

/// A parsed element list ends after where it began, within the input.
pub proof fn lemma_parse_elems_advances(s: Seq<char>, i: int, acc: Seq<SpecVal>)
    requires
        0 <= i <= s.len(),
    ensures
        parse_elems_at(s, i, acc) matches ElemsStep::Es(es, j) ==> i < j <= s.len(),
    decreases s.len() - i + 1, 1int,
{
    lemma_token_at_bounds(s, i);
    match token_at(s, i) {
        LexStep::Tok(TokenSpec::RBracket, j) => {},
        LexStep::Tok(_, _) => {
            lemma_parse_value_advances(s, i);
            if let ParseStep::Val(v, jr) = parse_value_at(s, i) {
                let j = next_pos(s, i, jr);
                let acc2 = acc.push(v);
                lemma_token_at_bounds(s, j);
                match token_at(s, j) {
                    LexStep::Tok(TokenSpec::Comma, j2) => {
                        lemma_parse_elems_advances(s, j2, acc2);
                    },
                    LexStep::Tok(_, _) => {
                        lemma_parse_elems_advances(s, j, acc2);
                    },
                    LexStep::Fail(_) => {},
                }
            }
        },
        LexStep::Fail(_) => {},
    }
}

/// The whole-document grammar: one value, after which nothing but
/// trivia may remain; anything else is trailing content.
pub open spec fn parse_document(s: Seq<char>) -> ParseStep {
    match parse_value_at(s, 0) {
        ParseStep::Fail(e) => ParseStep::Fail(e),
        ParseStep::Val(v, j) => match token_at(s, j) {
            LexStep::Tok(TokenSpec::Eof, _) => ParseStep::Val(v, j),
            LexStep::Tok(_, _) => ParseStep::Fail(ErrSpec::ParseIncomplete),
            LexStep::Fail(_) => ParseStep::Fail(ErrSpec::ParseIncomplete),
        },
    }
}

/// What [`parse_hocon`] returns: the members of the root object, or
/// the first error; a complete document whose root is not an object
/// is rejected.
pub open spec fn spec_parse_hocon(s: Seq<char>) -> Result<Seq<(Seq<char>, SpecVal)>, ErrSpec> {
    match parse_document(s) {
        ParseStep::Fail(e) => Err(e),
        ParseStep::Val(v, _) => match v {
            SpecVal::Obj(ms) => Ok(ms),
            _ => Err(ErrSpec::RootNotObject),
        },
    }
}

/// A key occurring in a member model keeps its first position on
/// upsert: the result is an in-place update.
pub proof fn lemma_upsert_found(ms: Seq<(Seq<char>, SpecVal)>, k: Seq<char>, v: SpecVal, idx: int)
    requires
        0 <= idx < ms.len(),
        ms[idx].0 == k,
        forall|m: int| 0 <= m < idx ==> ms[m].0 != k,
    ensures
        spec_upsert(ms, k, v) == ms.update(idx, (k, v)),
    decreases idx,
{
    if idx == 0 {
        assert(spec_upsert(ms, k, v) =~= ms.update(0, (k, v)));
    } else {
        lemma_upsert_found(ms.drop_first(), k, v, idx - 1);
        assert(spec_upsert(ms, k, v) =~= ms.update(idx, (k, v)));
    }
}

/// A key not yet present is appended by upsert.
pub proof fn lemma_upsert_missing(ms: Seq<(Seq<char>, SpecVal)>, k: Seq<char>, v: SpecVal)
    requires
        forall|m: int| 0 <= m < ms.len() ==> ms[m].0 != k,
    ensures
        spec_upsert(ms, k, v) == ms.push((k, v)),
    decreases ms.len(),
{
    if ms.len() == 0 {
        assert(spec_upsert(ms, k, v) =~= ms.push((k, v)));
    } else {
        lemma_upsert_missing(ms.drop_first(), k, v);
        assert(spec_upsert(ms, k, v) =~= ms.push((k, v)));
    }
}

/// Insert a member into a member vector: an existing equal key keeps
/// its place and has its value overwritten, a new key is appended.
pub(crate) fn upsert_member(ms: &mut Vec<Member>, key: String, val: Value)
    ensures
        members_view(final(ms)@) == spec_upsert(members_view(old(ms)@), key@, val_view(val)),
{
    let ghost msv = members_view(ms@);
    proof {
        lemma_members_view_len(ms@);
    }
    let mut i: usize = 0;
    while i < ms.len()
        invariant
            i <= ms@.len(),
            forall|m: int| 0 <= m < i ==> members_view(ms@)[m].0 != key@,
            ms@ == old(ms)@,
        decreases ms@.len() - i,
    {
        proof {
            lemma_members_view_index(ms@, i as int);
        }
        if ms[i].key == key {
            let m = Member { key, value: val };
            let ghost mv = (m.key@, val_view(m.value));
            ms.remove(i);
            ms.insert(i, m);
            proof {
                assert(ms@ =~= old(ms)@.update(i as int, m));
                lemma_upsert_found(msv, mv.0, mv.1, i as int);
                lemma_members_view_len(ms@);
                assert forall|n: int| 0 <= n < ms@.len() implies members_view(ms@)[n] == msv.update(
                    i as int,
                    mv,
                )[n] by {
                    lemma_members_view_index(ms@, n);
                    lemma_members_view_index(old(ms)@, n);
                }
                assert(members_view(ms@) =~= msv.update(i as int, mv));
            }
            return ;
        }
        i += 1;
    }
    let m = Member { key, value: val };
    let ghost mv = (m.key@, val_view(m.value));
    ms.push(m);
    proof {
        lemma_upsert_missing(msv, mv.0, mv.1);
        lemma_members_view_len(ms@);
        assert forall|n: int| 0 <= n < ms@.len() implies members_view(ms@)[n] == msv.push(mv)[n] by {
            lemma_members_view_index(ms@, n);
            if n < msv.len() {
                lemma_members_view_index(old(ms)@, n);
            }
        }
        assert(members_view(ms@) =~= msv.push(mv));
    }
}

/// Copy an error value.
fn clone_err(e: &ConvError) -> (r: ConvError)
    ensures
        r@ == e@,
{
    match e {
        ConvError::InvalidChar(c) => ConvError::InvalidChar(*c),
        ConvError::UnterminatedString => ConvError::UnterminatedString,
        ConvError::InvalidNumber(s) => ConvError::InvalidNumber(s.clone()),
        ConvError::InvalidBoolean(s) => ConvError::InvalidBoolean(s.clone()),
        ConvError::InvalidNull(s) => ConvError::InvalidNull(s.clone()),
        ConvError::InvalidKeyword(s) => ConvError::InvalidKeyword(s.clone()),
        ConvError::InvalidValue => ConvError::InvalidValue,
        ConvError::KeyMustBeString => ConvError::KeyMustBeString,
        ConvError::ExpectedSeparator => ConvError::ExpectedSeparator,
        ConvError::ParseIncomplete => ConvError::ParseIncomplete,
        ConvError::RootNotObject => ConvError::RootNotObject,
    }
}

/// The parser state: the lexer, one buffered lookahead token, and the
/// position the lookahead was read from.  Where the lookahead failed
/// to lex, the error is buffered instead, and whichever grammar rule
/// needs the token decides how to report it.
pub struct Parser {
    pub lexer: Lexer,
    pub current_token: Token,
    pub lex_error: Option<ConvError>,
    pub tok_start: Ghost<int>,
}

impl Parser {
    /// The lexer is well formed and the buffer holds exactly what
    /// lexing from `tok_start` yields: the token that starts there,
    /// or the error.
    pub open spec fn wf(&self) -> bool {
        &&& self.lexer.wf()
        &&& 0 <= self.tok_start@ <= self.lexer.input@.len()
        &&& match self.lex_error {
            Some(e) => token_at(self.lexer.input@, self.tok_start@) == LexStep::Fail(e@),
            None => token_at(self.lexer.input@, self.tok_start@) == LexStep::Tok(
                self.current_token@,
                self.lexer.position as int,
            ),
        }
    }

    /// The input this parser reads.
    pub open spec fn src(&self) -> Seq<char> {
        self.lexer.input@
    }

    /// Build a parser over the input and read the first lookahead
    /// token.
    pub fn new(input: &str) -> (r: Parser)
        ensures
            r.wf(),
            r.src() == input@,
            r.tok_start@ == 0,
    {
        let mut lexer = Lexer::new(input);
        match lexer.next_token() {
            Ok(tok) => Parser { lexer, current_token: tok, lex_error: None, tok_start: Ghost(0) },
            Err(e) => Parser {
                lexer,
                current_token: Token::Eof,
                lex_error: Some(e),
                tok_start: Ghost(0),
            },
        }
    }

    /// Read the next token into the lookahead buffer.
    fn advance(&mut self)
        requires
            old(self).wf(),
            old(self).lex_error is None,
        ensures
            final(self).wf(),
            final(self).src() == old(self).src(),
            final(self).lexer.text == old(self).lexer.text,
            final(self).tok_start@ == old(self).lexer.position as int,
    {
        let ghost p = self.lexer.position as int;
        match self.lexer.next_token() {
            Ok(tok) => {
                self.current_token = tok;
                self.lex_error = None;
                self.tok_start = Ghost(p);
            },
            Err(e) => {
                self.lex_error = Some(e);
                self.tok_start = Ghost(p);
            },
        }
    }

    /// Parse one value starting at the current lookahead token.
    pub fn parse_value(&mut self) -> (r: Result<Value, ConvError>)
        requires
            old(self).wf(),
        ensures
            final(self).src() == old(self).src(),
            final(self).lexer.text == old(self).lexer.text,
            (parse_value_at(old(self).src(), old(self).tok_start@) matches ParseStep::Val(v, j)
                ==> r matches Ok(val) && val@ == v && final(self).wf() && final(self).tok_start@
                == j),
            (parse_value_at(old(self).src(), old(self).tok_start@) matches ParseStep::Fail(e)
                ==> r matches Err(err) && err@ == e),
        decreases old(self).src().len() - old(self).tok_start@ + 1, 1int,
    {
        let ghost s = self.src();
        let ghost i = self.tok_start@;
        proof {
            lemma_token_at_bounds(s, i);
        }
        match &self.lex_error {
            Some(e) => {
                return Err(clone_err(e));
            },
            None => (),
        }
        match &self.current_token {
            Token::Str(txt) => {
                let out = Value::Str(txt.clone());
                self.advance();
                Ok(out)
            },
            Token::Num(txt) => {
                let out = Value::Num(txt.clone());
                self.advance();
                Ok(out)
            },
            Token::Bool(b) => {
                let out = Value::Bool(*b);
                self.advance();
                Ok(out)
            },
            Token::Null => {
                self.advance();
                Ok(Value::Null)
            },
            Token::LBrace => self.parse_object(),
            Token::LBracket => self.parse_array(),
            _ => {
                proof {
                    lemma_token_view_shape(&self.current_token);
                }
                Err(ConvError::InvalidValue)
            },
        }
    }

    /// Parse an object: consume `{`, then members with `:` or `=`
    /// separators and optional commas, then `}`.
    fn parse_object(&mut self) -> (r: Result<Value, ConvError>)
        requires
            old(self).wf(),
            old(self).lex_error is None,
            old(self).current_token is LBrace,
        ensures
            final(self).src() == old(self).src(),
            final(self).lexer.text == old(self).lexer.text,
            (parse_members_at(old(self).src(), old(self).lexer.position as int, Seq::empty())
                matches MembersStep::Ms(msv, j) ==> r matches Ok(val) && val@ == SpecVal::Obj(msv)
                && final(self).wf() && final(self).tok_start@ == j),
            (parse_members_at(old(self).src(), old(self).lexer.position as int, Seq::empty())
                matches MembersStep::MsFail(e) ==> r matches Err(err) && err@ == e),
        decreases old(self).src().len() - old(self).tok_start@ + 1, 0int,
    {
        let ghost s = self.src();
        let ghost j0 = self.lexer.position as int;
        proof {
            lemma_token_at_bounds(s, self.tok_start@);
        }
        let mut members: Vec<Member> = Vec::new();
        self.advance();
        loop
            invariant
                self.wf(),
                self.src() == s,
                self.lexer.text == old(self).lexer.text,
                j0 <= self.tok_start@,
                old(self).tok_start@ < self.tok_start@,
                parse_members_at(s, j0, Seq::empty()) == parse_members_at(
                    s,
                    self.tok_start@,
                    members_view(members@),
                ),
            decreases s.len() - self.tok_start@,
        {
            let ghost i = self.tok_start@;
            proof {
                lemma_token_at_bounds(s, i);
            }
            match &self.lex_error {
                Some(e) => {
                    return Err(ConvError::KeyMustBeString);
                },
                None => (),
            }
            match &self.current_token {
                Token::RBrace => {
                    self.advance();
                    return Ok(Value::Obj(members));
                },
                Token::Str(k) => {
                    let key = k.clone();
                    self.advance();
                    let ghost j = self.tok_start@;
                    proof {
                        lemma_token_at_bounds(s, j);
                    }
                    match &self.lex_error {
                        Some(e) => {
                            return Err(clone_err(e));
                        },
                        None => (),
                    }
                    let sep_ok = matches_separator(&self.current_token);
                    if !sep_ok {
                        proof {
                            lemma_token_view_shape(&self.current_token);
                        }
                        return Err(ConvError::ExpectedSeparator);
                    }
                    self.advance();
                    let ghost j2 = self.tok_start@;
                    let value = match self.parse_value() {
                        Ok(v) => v,
                        Err(e) => {
                            return Err(e);
                        },
                    };
                    proof {
                        lemma_parse_value_advances(s, j2);
                        assert(self.tok_start@ == next_pos(s, j2, self.tok_start@));
                    }
                    upsert_member(&mut members, key, value);
                    proof {
                        lemma_token_at_bounds(s, self.tok_start@);
                    }
                    match &self.lex_error {
                        Some(e) => {
                            return Err(clone_err(e));
                        },
                        None => (),
                    }
                    if matches_comma(&self.current_token) {
                        self.advance();
                    }
                },
                _ => {
                    proof {
                        lemma_token_view_shape(&self.current_token);
                    }
                    return Err(ConvError::KeyMustBeString);
                },
            }
        }
    }

    /// Parse an array: consume `[`, then elements with optional
    /// commas, then `]`.
    fn parse_array(&mut self) -> (r: Result<Value, ConvError>)
        requires
            old(self).wf(),
            old(self).lex_error is None,
            old(self).current_token is LBracket,
        ensures
            final(self).src() == old(self).src(),
            final(self).lexer.text == old(self).lexer.text,
            (parse_elems_at(old(self).src(), old(self).lexer.position as int, Seq::empty())
                matches ElemsStep::Es(esv, j) ==> r matches Ok(val) && val@ == SpecVal::Arr(esv)
                && final(self).wf() && final(self).tok_start@ == j),
            (parse_elems_at(old(self).src(), old(self).lexer.position as int, Seq::empty())
                matches ElemsStep::EsFail(e) ==> r matches Err(err) && err@ == e),
        decreases old(self).src().len() - old(self).tok_start@ + 1, 0int,
    {
        let ghost s = self.src();
        let ghost j0 = self.lexer.position as int;
        proof {
            lemma_token_at_bounds(s, self.tok_start@);
        }
        let mut elems: Vec<Value> = Vec::new();
        self.advance();
        loop
            invariant
                self.wf(),
                self.src() == s,
                self.lexer.text == old(self).lexer.text,
                j0 <= self.tok_start@,
                old(self).tok_start@ < self.tok_start@,
                parse_elems_at(s, j0, Seq::empty()) == parse_elems_at(
                    s,
                    self.tok_start@,
                    arr_view(elems@),
                ),
            decreases s.len() - self.tok_start@,
        {
            let ghost i = self.tok_start@;
            proof {
                lemma_token_at_bounds(s, i);
            }
            match &self.lex_error {
                Some(e) => {
                    return Err(clone_err(e));
                },
                None => (),
            }
            match &self.current_token {
                Token::RBracket => {
                    self.advance();
                    return Ok(Value::Arr(elems));
                },
                _ => {
                    proof {
                        lemma_token_view_shape(&self.current_token);
                    }
                    let value = match self.parse_value() {
                        Ok(v) => v,
                        Err(e) => {
                            return Err(e);
                        },
                    };
                    proof {
                        lemma_parse_value_advances(s, i);
                        assert(self.tok_start@ == next_pos(s, i, self.tok_start@));
                    }
                    let ghost ev = elems@;
                    elems.push(value);
                    proof {
                        lemma_arr_view_push(ev, value);
                        lemma_token_at_bounds(s, self.tok_start@);
                    }
                    match &self.lex_error {
                        Some(e) => {
                            return Err(clone_err(e));
                        },
                        None => (),
                    }
                    if matches_comma(&self.current_token) {
                        self.advance();
                    }
                },
            }
        }
    }

    /// Parse one complete document: a value, after which nothing but
    /// trivia may remain.
    pub fn parse(&mut self) -> (r: Result<Value, ConvError>)
        requires
            old(self).wf(),
            old(self).tok_start@ == 0,
        ensures
            (parse_document(old(self).src()) matches ParseStep::Val(v, j) ==> r matches Ok(val)
                && val@ == v),
            (parse_document(old(self).src()) matches ParseStep::Fail(e) ==> r matches Err(err)
                && err@ == e),
    {
        let value = match self.parse_value() {
            Ok(v) => v,
            Err(e) => {
                return Err(e);
            },
        };
        match &self.lex_error {
            Some(e) => {
                return Err(ConvError::ParseIncomplete);
            },
            None => (),
        }
        proof {
            lemma_token_view_shape(&self.current_token);
        }
        match &self.current_token {
            Token::Eof => Ok(value),
            _ => Err(ConvError::ParseIncomplete),
        }
    }
}

/// A token and its model are built by matching constructors.
proof fn lemma_token_view_shape(t: &Token)
    ensures
        (t is Str <==> t@ is Str),
        (t is Num <==> t@ is Num),
        (t is Bool <==> t@ is Bool),
        (t is Null <==> t@ is Null),
        (t is LBrace <==> t@ is LBrace),
        (t is RBrace <==> t@ is RBrace),
        (t is LBracket <==> t@ is LBracket),
        (t is RBracket <==> t@ is RBracket),
        (t is Comma <==> t@ is Comma),
        (t is Colon <==> t@ is Colon),
        (t is Equals <==> t@ is Equals),
        (t is Dot <==> t@ is Dot),
        (t is Reserved <==> t@ is Reserved),
        (t is Eof <==> t@ is Eof),
{
    match t {
        Token::Str(_) => {},
        Token::Num(_) => {},
        Token::Bool(_) => {},
        Token::Null => {},
        Token::LBrace => {},
        Token::RBrace => {},
        Token::LBracket => {},
        Token::RBracket => {},
        Token::Comma => {},
        Token::Colon => {},
        Token::Equals => {},
        Token::Dot => {},
        Token::Reserved => {},
        Token::Eof => {},
    }
}

/// Whether a token is the comma token.
fn matches_comma(t: &Token) -> (r: bool)
    ensures
        r == (t@ is Comma),
{
    proof {
        lemma_token_view_shape(t);
    }
    match t {
        Token::Comma => true,
        _ => false,
    }
}

/// Whether a token is one of the two member separators.
fn matches_separator(t: &Token) -> (r: bool)
    ensures
        r == (t@ is Colon || t@ is Equals),
{
    proof {
        lemma_token_view_shape(t);
    }
    match t {
        Token::Colon => true,
        Token::Equals => true,
        _ => false,
    }
}

/// Parse a complete configuration document: the root must be an
/// object and the whole input must be consumed.
pub fn parse_hocon(input: &str) -> (r: Result<ConfigValue, ConvError>)
    ensures
        (spec_parse_hocon(input@) matches Ok(ms) ==> r matches Ok(c) && c@ == ms),
        (spec_parse_hocon(input@) matches Err(e) ==> r matches Err(err) && err@ == e),
{
    let mut parser = Parser::new(input);
    let value = match parser.parse() {
        Ok(v) => v,
        Err(e) => {
            return Err(e);
        },
    };
    match value {
        Value::Obj(ms) => Ok(ConfigValue { value: ms }),
        Value::Str(_) => Err(ConvError::RootNotObject),
        Value::Num(_) => Err(ConvError::RootNotObject),
        Value::Bool(_) => Err(ConvError::RootNotObject),
        Value::Null => Err(ConvError::RootNotObject),
        Value::Arr(_) => Err(ConvError::RootNotObject),
    }
}


/// Upsert keeps keys unique and members well formed, and introduces
/// no key beyond the given one.
pub proof fn lemma_upsert_wf(ms: Seq<(Seq<char>, SpecVal)>, k: Seq<char>, v: SpecVal)
    requires
        keys_unique(ms),
        wf_members(ms),
        wf_val(v),
    ensures
        keys_unique(spec_upsert(ms, k, v)),
        wf_members(spec_upsert(ms, k, v)),
        forall|m: int|
            0 <= m < spec_upsert(ms, k, v).len() ==> #[trigger] spec_upsert(ms, k, v)[m].0 == k
                || spec_has_key(ms, spec_upsert(ms, k, v)[m].0),
    decreases ms.len(),
{
    let out = spec_upsert(ms, k, v);
    reveal_with_fuel(wf_members, 3);
    if ms.len() == 0 {
        assert(out =~= seq![(k, v)]);
        assert(out.drop_first() =~= Seq::<(Seq<char>, SpecVal)>::empty());
    } else if ms[0].0 == k {
        let rest = ms.drop_first();
        assert(out =~= seq![(k, v)] + rest);
        assert(out.drop_first() =~= rest);
        assert(out[0] == (k, v));
        assert forall|i: int, j: int| 0 <= i < j < out.len() implies #[trigger] out[i].0
            != #[trigger] out[j].0 by {
            if i == 0 {
                assert(out[j].0 == ms[j].0);
                assert(ms[0].0 != ms[j].0);
            } else {
                assert(out[i].0 == ms[i].0);
                assert(out[j].0 == ms[j].0);
            }
        }
        assert forall|m: int| 0 <= m < out.len() implies #[trigger] out[m].0 == k || spec_has_key(
            ms,
            out[m].0,
        ) by {
            if m > 0 {
                assert(out[m].0 == ms[m].0);
            }
        }
    } else {
        let rest = ms.drop_first();
        assert forall|i: int, j: int| 0 <= i < j < rest.len() implies #[trigger] rest[i].0
            != #[trigger] rest[j].0 by {
            assert(rest[i] == ms[i + 1]);
            assert(rest[j] == ms[j + 1]);
        }
        lemma_upsert_wf(rest, k, v);
        let sub = spec_upsert(rest, k, v);
        assert(out =~= seq![ms[0]] + sub);
        assert(out.drop_first() =~= sub);
        assert(out[0] == ms[0]);
        assert forall|i: int, j: int| 0 <= i < j < out.len() implies #[trigger] out[i].0
            != #[trigger] out[j].0 by {
            if i == 0 {
                assert(out[j].0 == sub[j - 1].0);
                if sub[j - 1].0 == k {
                } else {
                    assert(spec_has_key(rest, sub[j - 1].0));
                    let n = choose|n: int| 0 <= n < rest.len() && #[trigger] rest[n].0 == sub[j
                        - 1].0;
                    assert(rest[n] == ms[n + 1]);
                    assert(ms[0].0 != ms[n + 1].0);
                }
            } else {
                assert(out[i].0 == sub[i - 1].0);
                assert(out[j].0 == sub[j - 1].0);
            }
        }
        assert forall|m: int| 0 <= m < out.len() implies #[trigger] out[m].0 == k || spec_has_key(
            ms,
            out[m].0,
        ) by {
            if m == 0 {
                assert(ms[0].0 == out[0].0);
            } else {
                assert(out[m].0 == sub[m - 1].0);
                if sub[m - 1].0 != k {
                    assert(spec_has_key(rest, sub[m - 1].0));
                    let n = choose|n: int| 0 <= n < rest.len() && #[trigger] rest[n].0 == sub[m
                        - 1].0;
                    assert(rest[n] == ms[n + 1]);
                }
            }
        }
    }
}

/// A well-formed array stays well formed under push of a well-formed
/// value.
pub proof fn lemma_wf_arr_push(es: Seq<SpecVal>, v: SpecVal)
    requires
        wf_arr(es),
        wf_val(v),
    ensures
        wf_arr(es.push(v)),
    decreases es,
{
    reveal_with_fuel(wf_arr, 3);
    if es.len() == 0 {
        assert(es.push(v)[0] == v);
        assert(es.push(v).drop_first() =~= Seq::<SpecVal>::empty());
    } else {
        lemma_wf_arr_push(es.drop_first(), v);
        assert(es.push(v)[0] == es[0]);
        assert(es.push(v).drop_first() =~= es.drop_first().push(v));
    }
}

/// A parsed value satisfies the data model invariants: number
/// literals are texts the grammar accepts, and object keys are
/// unique.
pub proof fn lemma_parse_value_wf(s: Seq<char>, i: int)
    requires
        0 <= i <= s.len(),
    ensures
        parse_value_at(s, i) matches ParseStep::Val(v, j) ==> wf_val(v),
    decreases s.len() - i + 1, 0int,
{
    lemma_token_at_bounds(s, i);
    if let LexStep::Tok(t, j) = token_at(s, i) {
        match t {
            TokenSpec::LBrace => {
                lemma_parse_members_wf(s, j, Seq::empty());
            },
            TokenSpec::LBracket => {
                lemma_parse_elems_wf(s, j, Seq::empty());
            },
            _ => {},
        }
    }
}

/// A parsed member list keeps keys unique and members well formed.
pub proof fn lemma_parse_members_wf(s: Seq<char>, i: int, acc: Seq<(Seq<char>, SpecVal)>)
    requires
        0 <= i <= s.len(),
        keys_unique(acc),
        wf_members(acc),
    ensures
        parse_members_at(s, i, acc) matches MembersStep::Ms(ms, j) ==> keys_unique(ms)
            && wf_members(ms),
    decreases s.len() - i + 1, 1int,
{
    lemma_token_at_bounds(s, i);
    match token_at(s, i) {
        LexStep::Tok(TokenSpec::Str(k), j) => {
            lemma_token_at_bounds(s, j);
            match token_at(s, j) {
                LexStep::Tok(TokenSpec::Colon, j2) | LexStep::Tok(TokenSpec::Equals, j2) => {
                    lemma_parse_value_advances(s, j2);
                    lemma_parse_value_wf(s, j2);
                    if let ParseStep::Val(v, j3r) = parse_value_at(s, j2) {
                        let j3 = next_pos(s, j2, j3r);
                        lemma_upsert_wf(acc, k, v);
                        let acc2 = spec_upsert(acc, k, v);
                        lemma_token_at_bounds(s, j3);
                        match token_at(s, j3) {
                            LexStep::Tok(TokenSpec::Comma, j4) => {
                                lemma_parse_members_wf(s, j4, acc2);
                            },
                            LexStep::Tok(_, _) => {
                                lemma_parse_members_wf(s, j3, acc2);
                            },
                            LexStep::Fail(_) => {},
                        }
                    }
                },
                _ => {},
            }
        },
        _ => {},
    }
}

/// A parsed element list keeps its elements well formed.
pub proof fn lemma_parse_elems_wf(s: Seq<char>, i: int, acc: Seq<SpecVal>)
    requires
        0 <= i <= s.len(),
        wf_arr(acc),
    ensures
        parse_elems_at(s, i, acc) matches ElemsStep::Es(es, j) ==> wf_arr(es),
    decreases s.len() - i + 1, 1int,
{
    lemma_token_at_bounds(s, i);
    match token_at(s, i) {
        LexStep::Tok(TokenSpec::RBracket, j) => {},
        LexStep::Tok(_, _) => {
            lemma_parse_value_advances(s, i);
            lemma_parse_value_wf(s, i);
            if let ParseStep::Val(v, jr) = parse_value_at(s, i) {
                let j = next_pos(s, i, jr);
                lemma_wf_arr_push(acc, v);
                let acc2 = acc.push(v);
                lemma_token_at_bounds(s, j);
                match token_at(s, j) {
                    LexStep::Tok(TokenSpec::Comma, j2) => {
                        lemma_parse_elems_wf(s, j2, acc2);
                    },
                    LexStep::Tok(_, _) => {
                        lemma_parse_elems_wf(s, j, acc2);
                    },
                    LexStep::Fail(_) => {},
                }
            }
        },
        LexStep::Fail(_) => {},
    }
}

/// Every successfully parsed document satisfies the data model
/// invariants: object keys are unique at every level and number
/// literals are texts the grammar accepts.
pub proof fn lemma_parse_hocon_wf(s: Seq<char>)
    ensures
        spec_parse_hocon(s) matches Ok(ms) ==> keys_unique(ms) && wf_members(ms),
{
    lemma_parse_value_wf(s, 0);
}

} // verus!
