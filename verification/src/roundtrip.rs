//! The round-trip law: parsing what the emitter produced yields the
//! very document that was emitted.
//!
//! The law holds for every well-formed document whose texts carry no
//! raw quote or backslash character: the grammar has no escape
//! sequences, so such characters cannot be represented in its string
//! literals.  [`lemma_format_parse_round_trip`] states the law over
//! the same specification functions that the contracts of
//! [`crate::parse_hocon`] and [`crate::format_hocon`] use.

use vstd::prelude::*;

use crate::emitter::emit_elems;
use crate::emitter::emit_members;
use crate::emitter::emit_value;
use crate::emitter::spec_format;
use crate::emitter::two_spaces;
use crate::errors::ErrSpec;
use crate::lexer::LexStep;
use crate::lexer::TokenSpec;
use crate::lexer::find_quote;
use crate::lexer::is_alpha_char;
use crate::lexer::is_space_char;
use crate::lexer::kw_false;
use crate::lexer::kw_null;
use crate::lexer::kw_true;
use crate::lexer::scan_alpha_end;
use crate::lexer::scan_number_end;
use crate::lexer::skip_trivia;
use crate::lexer::token_at;
use crate::parser::ElemsStep;
use crate::parser::MembersStep;
use crate::parser::ParseStep;
use crate::parser::next_pos;
use crate::parser::parse_document;
use crate::parser::parse_elems_at;
use crate::parser::parse_members_at;
use crate::parser::parse_value_at;
use crate::parser::spec_parse_hocon;
use crate::parser::spec_upsert;
use crate::value::SpecVal;
use crate::value::is_number_body_char;
use crate::value::keys_unique;
use crate::value::valid_number_text;
use crate::value::wf_arr;
use crate::value::wf_members;
use crate::value::wf_val;

verus! {

/// Every character of `p` is whitespace.
pub open spec fn all_spaces(p: Seq<char>) -> bool {
    forall|m: int| 0 <= m < p.len() ==> is_space_char(#[trigger] p[m])
}

/// A text free of raw quote and backslash characters, which the
/// grammar's string literals cannot carry.
pub open spec fn clean_text(t: Seq<char>) -> bool {
    forall|m: int| 0 <= m < t.len() ==> #[trigger] t[m] != '"' && t[m] != '\'' && t[m] != '\\'
}

/// A value whose texts, keys included, are clean.
pub open spec fn clean_val(v: SpecVal) -> bool
    decreases v,
{
    match v {
        SpecVal::Str(t) => clean_text(t),
        SpecVal::Num(_) => true,
        SpecVal::Bool(_) => true,
        SpecVal::Null => true,
        SpecVal::Arr(es) => clean_arr(es),
        SpecVal::Obj(ms) => clean_members(ms),
    }
}

/// Cleanliness of every element of an array model.
pub open spec fn clean_arr(es: Seq<SpecVal>) -> bool
    decreases es,
{
    if es.len() == 0 {
        true
    } else {
        clean_val(es[0]) && clean_arr(es.drop_first())
    }
}

/// Cleanliness of every member of an object model: the key text and
/// the value.
pub open spec fn clean_members(ms: Seq<(Seq<char>, SpecVal)>) -> bool
    decreases ms,
{
    if ms.len() == 0 {
        true
    } else {
        clean_text(ms[0].0) && clean_val(ms[0].1) && clean_members(ms.drop_first())
    }
}

/// Trivia skipping runs exactly over a region of spaces.
proof fn lemma_skip_trivia_to(s: Seq<char>, i: int, c: int)
    requires
        0 <= i <= c <= s.len(),
        forall|m: int| i <= m < c ==> is_space_char(#[trigger] s[m]),
        c == s.len() || (!is_space_char(s[c]) && s[c] != '#'),
    ensures
        skip_trivia(s, i) == c,
    decreases c - i,
{
    if i < c {
        lemma_skip_trivia_to(s, i + 1, c);
    }
}

/// The first occurrence of `q` is exactly where the region free of
/// `q` ends.
proof fn lemma_find_quote_to(s: Seq<char>, i: int, c: int, q: char)
    requires
        0 <= i <= c < s.len(),
        forall|m: int| i <= m < c ==> #[trigger] s[m] != q,
        s[c] == q,
    ensures
        find_quote(s, i, q) == c,
    decreases c - i,
{
    if i < c {
        lemma_find_quote_to(s, i + 1, c, q);
    }
}

/// The number scan ends exactly where the number body region ends.
proof fn lemma_scan_number_to(s: Seq<char>, i: int, e: int)
    requires
        0 <= i <= e <= s.len(),
        forall|m: int| i <= m < e ==> is_number_body_char(#[trigger] s[m]),
        e == s.len() || !is_number_body_char(s[e]),
    ensures
        scan_number_end(s, i) == e,
    decreases e - i,
{
    if i < e {
        lemma_scan_number_to(s, i + 1, e);
    }
}

/// The letter scan ends exactly where the letter region ends.
proof fn lemma_scan_alpha_to(s: Seq<char>, i: int, e: int)
    requires
        0 <= i <= e <= s.len(),
        forall|m: int| i <= m < e ==> is_alpha_char(#[trigger] s[m]),
        e == s.len() || !is_alpha_char(s[e]),
    ensures
        scan_alpha_end(s, i) == e,
    decreases e - i,
{
    if i < e {
        lemma_scan_alpha_to(s, i + 1, e);
    }
}

/// A subrange of an established fragment is the matching subrange of
/// the fragment.
proof fn lemma_frag_sub(s: Seq<char>, i: int, frag: Seq<char>, a: int, b: int)
    requires
        0 <= i,
        i + frag.len() <= s.len(),
        s.subrange(i, i + frag.len()) == frag,
        0 <= a <= b <= frag.len(),
    ensures
        s.subrange(i + a, i + b) == frag.subrange(a, b),
{
    assert forall|m: int| 0 <= m < b - a implies s.subrange(i + a, i + b)[m] == frag.subrange(
        a,
        b,
    )[m] by {
        assert(s.subrange(i, i + frag.len())[a + m] == frag[a + m]);
    }
    assert(s.subrange(i + a, i + b) =~= frag.subrange(a, b));
}

/// Each character of an established fragment is the matching
/// character of `s`.
proof fn lemma_frag_char(s: Seq<char>, i: int, frag: Seq<char>, m: int)
    requires
        0 <= i,
        i + frag.len() <= s.len(),
        s.subrange(i, i + frag.len()) == frag,
        0 <= m < frag.len(),
    ensures
        s[i + m] == frag[m],
{
    assert(s.subrange(i, i + frag.len())[m] == frag[m]);
}


/// Skipping one leading whitespace character does not change the next
/// token.
proof fn lemma_token_at_space_step(s: Seq<char>, i: int)
    requires
        0 <= i < s.len(),
        is_space_char(s[i]),
    ensures
        token_at(s, i) == token_at(s, i + 1),
{
    assert(skip_trivia(s, i) == skip_trivia(s, i + 1));
}

/// Skipping one leading whitespace character does not change how a
/// value parses.
proof fn lemma_value_space_step(s: Seq<char>, i: int)
    requires
        0 <= i < s.len(),
        is_space_char(s[i]),
    ensures
        parse_value_at(s, i) == parse_value_at(s, i + 1),
{
    lemma_token_at_space_step(s, i);
    assert(parse_value_at(s, i) == parse_value_at(s, i + 1));
}

/// Skipping one leading whitespace character does not change how a
/// member list parses.
proof fn lemma_members_space_step(s: Seq<char>, i: int, acc: Seq<(Seq<char>, SpecVal)>)
    requires
        0 <= i < s.len(),
        is_space_char(s[i]),
    ensures
        parse_members_at(s, i, acc) == parse_members_at(s, i + 1, acc),
{
    lemma_token_at_space_step(s, i);
    assert(parse_members_at(s, i, acc) == parse_members_at(s, i + 1, acc));
}

/// Skipping one leading whitespace character does not change how an
/// element list parses.
proof fn lemma_elems_space_step(s: Seq<char>, i: int, acc: Seq<SpecVal>)
    requires
        0 <= i < s.len(),
        is_space_char(s[i]),
    ensures
        parse_elems_at(s, i, acc) == parse_elems_at(s, i + 1, acc),
{
    lemma_token_at_space_step(s, i);
    lemma_value_space_step(s, i);
    crate::lexer::lemma_skip_trivia(s, i + 1);
    crate::parser::lemma_parse_value_advances(s, i);
    assert(skip_trivia(s, i) == skip_trivia(s, i + 1));
    assert(parse_elems_at(s, i, acc) == parse_elems_at(s, i + 1, acc));
}

/// The token at the start of a region of spaces followed by a
/// structural character is that character's token.
proof fn lemma_token_after_spaces(s: Seq<char>, i: int, c: int)
    requires
        0 <= i <= c < s.len(),
        forall|m: int| i <= m < c ==> is_space_char(#[trigger] s[m]),
        s[c] == '{' || s[c] == '}' || s[c] == '[' || s[c] == ']' || s[c] == ',' || s[c] == ':'
            || s[c] == '=',
    ensures
        s[c] == '{' ==> token_at(s, i) == LexStep::Tok(TokenSpec::LBrace, c + 1),
        s[c] == '}' ==> token_at(s, i) == LexStep::Tok(TokenSpec::RBrace, c + 1),
        s[c] == '[' ==> token_at(s, i) == LexStep::Tok(TokenSpec::LBracket, c + 1),
        s[c] == ']' ==> token_at(s, i) == LexStep::Tok(TokenSpec::RBracket, c + 1),
        s[c] == ',' ==> token_at(s, i) == LexStep::Tok(TokenSpec::Comma, c + 1),
        s[c] == ':' ==> token_at(s, i) == LexStep::Tok(TokenSpec::Colon, c + 1),
        s[c] == '=' ==> token_at(s, i) == LexStep::Tok(TokenSpec::Equals, c + 1),
{
    lemma_skip_trivia_to(s, i, c);
}

/// The token at a quote, whose clean content closes with the matching
/// quote, is the string token of that content.
proof fn lemma_token_str(s: Seq<char>, i: int, k: Seq<char>)
    requires
        0 <= i,
        i + k.len() + 2 <= s.len(),
        s[i] == '"',
        s.subrange(i + 1, i + 1 + k.len()) == k,
        clean_text(k),
        s[i + 1 + k.len()] == '"',
    ensures
        token_at(s, i) == LexStep::Tok(TokenSpec::Str(k), i + k.len() + 2),
{
    lemma_skip_trivia_to(s, i, i);
    let q2 = i + 1 + k.len();
    assert forall|m: int| i + 1 <= m < q2 implies #[trigger] s[m] != '"' by {
        assert(s.subrange(i + 1, i + 1 + k.len())[m - i - 1] == k[m - i - 1]);
    }
    lemma_find_quote_to(s, i + 1, q2, '"');
    assert(s.subrange(i + 1, q2) == k);
}

/// The token at the start of an emitted number literal, delimited on
/// the right, is the number token of that literal.
proof fn lemma_token_num(s: Seq<char>, i: int, t: Seq<char>)
    requires
        0 <= i,
        i + t.len() <= s.len(),
        s.subrange(i, i + t.len()) == t,
        valid_number_text(t),
        i + t.len() == s.len() || !is_number_body_char(s[i + t.len()]),
    ensures
        token_at(s, i) == LexStep::Tok(TokenSpec::Num(t), i + t.len()),
{
    let e = i + t.len();
    assert(s[i] == t[0]) by {
        assert(s.subrange(i, e)[0] == t[0]);
    }
    lemma_skip_trivia_to(s, i, i);
    assert forall|m: int| i + 1 <= m < e implies is_number_body_char(#[trigger] s[m]) by {
        assert(s.subrange(i, e)[m - i] == t[m - i]);
    }
    lemma_scan_number_to(s, i + 1, e);
    assert(s.subrange(i, e) == t);
}

/// The token at the start of an emitted keyword, delimited on the
/// right, is that keyword's token.
proof fn lemma_token_word(s: Seq<char>, i: int, w: Seq<char>)
    requires
        0 <= i,
        i + w.len() <= s.len(),
        s.subrange(i, i + w.len()) == w,
        w == kw_true() || w == kw_false() || w == kw_null(),
        i + w.len() == s.len() || !is_alpha_char(s[i + w.len()]),
    ensures
        w == kw_true() ==> token_at(s, i) == LexStep::Tok(TokenSpec::Bool(true), i + w.len()),
        w == kw_false() ==> token_at(s, i) == LexStep::Tok(TokenSpec::Bool(false), i + w.len()),
        w == kw_null() ==> token_at(s, i) == LexStep::Tok(TokenSpec::Null, i + w.len()),
{
    let e = i + w.len();
    assert(s[i] == w[0]) by {
        assert(s.subrange(i, e)[0] == w[0]);
    }
    lemma_skip_trivia_to(s, i, i);
    assert forall|m: int| i + 1 <= m < e implies is_alpha_char(#[trigger] s[m]) by {
        assert(s.subrange(i, e)[m - i] == w[m - i]);
    }
    lemma_scan_alpha_to(s, i + 1, e);
    assert(s.subrange(i, e) == w);
    if w == kw_false() {
        assert(s.subrange(i, e) != kw_true());
    }
}


/// The next token is unchanged across a whole region of spaces.
proof fn lemma_token_at_over_spaces(s: Seq<char>, i: int, c: int)
    requires
        0 <= i <= c <= s.len(),
        forall|m: int| i <= m < c ==> is_space_char(#[trigger] s[m]),
    ensures
        token_at(s, i) == token_at(s, c),
    decreases c - i,
{
    if i < c {
        lemma_token_at_space_step(s, i);
        lemma_token_at_over_spaces(s, i + 1, c);
    }
}

/// A value parses the same across a whole region of leading spaces.
proof fn lemma_value_at_over_spaces(s: Seq<char>, i: int, c: int)
    requires
        0 <= i <= c <= s.len(),
        forall|m: int| i <= m < c ==> is_space_char(#[trigger] s[m]),
    ensures
        parse_value_at(s, i) == parse_value_at(s, c),
    decreases c - i,
{
    if i < c {
        lemma_value_space_step(s, i);
        lemma_value_at_over_spaces(s, i + 1, c);
    }
}

/// The first token of an emitted member region: the closing brace
/// when no member is left, else the string token of the first key.
proof fn lemma_members_head_token(
    s: Seq<char>,
    p: int,
    ms: Seq<(Seq<char>, SpecVal)>,
    pre: Seq<char>,
    c: int,
)
    requires
        0 <= p,
        p + emit_members(ms, pre).len() <= c,
        s.subrange(p, p + emit_members(ms, pre).len()) == emit_members(ms, pre),
        c < s.len(),
        s[c] == '}',
        forall|m: int| p + emit_members(ms, pre).len() <= m < c ==> is_space_char(#[trigger] s[m]),
        clean_members(ms),
        all_spaces(pre),
    ensures
        ms.len() == 0 ==> token_at(s, p) == LexStep::Tok(TokenSpec::RBrace, c + 1),
        ms.len() > 0 ==> token_at(s, p) == LexStep::Tok(
            TokenSpec::Str(ms[0].0),
            p + pre.len() + ms[0].0.len() + 2,
        ),
{
    let frag = emit_members(ms, pre);
    if ms.len() == 0 {
        assert(frag.len() == 0);
        lemma_token_after_spaces(s, p, c);
    } else {
        let k = ms[0].0;
        let lp = pre.len() as int;
        let lk = k.len() as int;
        let q = seq!['"'];
        let s3 = seq![' ', '=', ' '];
        let nl = seq!['\n'];
        let vfrag = emit_value(ms[0].1, pre);
        let rfrag = emit_members(ms.drop_first(), pre);
        assert(frag == pre + q + k + q + s3 + vfrag + nl + rfrag);
        assert(frag.len() == lp + lk + 6 + vfrag.len() + rfrag.len());
        assert forall|m: int| 0 <= m < lp implies is_space_char(#[trigger] s[p + m]) by {
            lemma_frag_char(s, p, frag, m);
            assert(frag[m] == pre[m]);
        }
        assert forall|m: int| p <= m < p + lp implies is_space_char(#[trigger] s[m]) by {
            assert(s[p + (m - p)] == s[m]);
        }
        lemma_frag_char(s, p, frag, lp);
        assert(frag[lp] == '"');
        lemma_frag_char(s, p, frag, lp + 1 + lk);
        assert(frag[lp + 1 + lk] == '"');
        lemma_frag_sub(s, p, frag, lp + 1, lp + 1 + lk);
        assert(frag.subrange(lp + 1, lp + 1 + lk) =~= k);
        lemma_token_at_over_spaces(s, p, p + lp);
        lemma_token_str(s, p + lp, k);
    }
}

/// Parsing an emitted value fragment yields the value and stops just
/// after it.
proof fn lemma_rt_value(s: Seq<char>, i: int, v: SpecVal, pre: Seq<char>)
    requires
        0 <= i,
        i + emit_value(v, pre).len() <= s.len(),
        s.subrange(i, i + emit_value(v, pre).len()) == emit_value(v, pre),
        wf_val(v),
        clean_val(v),
        all_spaces(pre),
        i + emit_value(v, pre).len() == s.len() || (!is_number_body_char(
            s[i + emit_value(v, pre).len()],
        ) && !is_alpha_char(s[i + emit_value(v, pre).len()])),
    ensures
        parse_value_at(s, i) == ParseStep::Val(v, i + emit_value(v, pre).len()),
    decreases v,
{
    let frag = emit_value(v, pre);
    let e = i + frag.len();
    match v {
        SpecVal::Str(t) => {
            assert(frag == seq!['"'] + t + seq!['"']);
            lemma_frag_char(s, i, frag, 0);
            assert(frag[0] == '"');
            lemma_frag_char(s, i, frag, t.len() + 1 as int);
            assert(frag[t.len() + 1 as int] == '"');
            lemma_frag_sub(s, i, frag, 1, t.len() + 1 as int);
            assert(frag.subrange(1, t.len() + 1 as int) =~= t);
            lemma_token_str(s, i, t);
        },
        SpecVal::Num(t) => {
            assert(frag == t);
            lemma_token_num(s, i, t);
        },
        SpecVal::Bool(b) => {
            lemma_token_word(s, i, frag);
        },
        SpecVal::Null => {
            lemma_token_word(s, i, frag);
        },
        SpecVal::Obj(ms) => {
            let pre2 = pre + two_spaces();
            let inner = emit_members(ms, pre2);
            assert(frag == seq!['{', '\n'] + inner + pre + seq!['}']);
            assert(frag.len() == inner.len() + pre.len() + 3);
            let c = i + 2 + inner.len() + pre.len();
            lemma_frag_char(s, i, frag, 0);
            assert(frag[0] == '{');
            lemma_frag_char(s, i, frag, 1);
            assert(frag[1] == '\n');
            lemma_frag_char(s, i, frag, c - i);
            assert(frag[c - i] == '}');
            assert forall|m: int| i + 2 + inner.len() <= m < c implies is_space_char(
                #[trigger] s[m],
            ) by {
                lemma_frag_char(s, i, frag, m - i);
                assert(frag[m - i] == pre[m - i - 2 - inner.len()]);
            }
            lemma_frag_sub(s, i, frag, 2, 2 + inner.len() as int);
            assert(frag.subrange(2, 2 + inner.len() as int) =~= inner);
            assert(all_spaces(pre2)) by {
                assert forall|m: int| 0 <= m < pre2.len() implies is_space_char(
                    #[trigger] pre2[m],
                ) by {
                    if m >= pre.len() {
                        assert(pre2[m] == two_spaces()[m - pre.len()]);
                    }
                }
            }
            lemma_token_after_spaces(s, i, i);
            lemma_members_space_step(s, i + 1, Seq::empty());
            lemma_rt_members(s, i + 2, ms, Seq::empty(), pre2, c);
            assert(Seq::empty() + ms =~= ms);
            assert(parse_value_at(s, i) == ParseStep::Val(v, e));
        },
        SpecVal::Arr(es) => {
            let pre2 = pre + two_spaces();
            let inner = emit_elems(es, pre2);
            assert(frag == seq!['[', '\n'] + inner + pre + seq![']']);
            assert(frag.len() == inner.len() + pre.len() + 3);
            let c = i + 2 + inner.len() + pre.len();
            lemma_frag_char(s, i, frag, 0);
            assert(frag[0] == '[');
            lemma_frag_char(s, i, frag, 1);
            assert(frag[1] == '\n');
            lemma_frag_char(s, i, frag, c - i);
            assert(frag[c - i] == ']');
            assert forall|m: int| i + 2 + inner.len() <= m < c implies is_space_char(
                #[trigger] s[m],
            ) by {
                lemma_frag_char(s, i, frag, m - i);
                assert(frag[m - i] == pre[m - i - 2 - inner.len()]);
            }
            lemma_frag_sub(s, i, frag, 2, 2 + inner.len() as int);
            assert(frag.subrange(2, 2 + inner.len() as int) =~= inner);
            assert(all_spaces(pre2)) by {
                assert forall|m: int| 0 <= m < pre2.len() implies is_space_char(
                    #[trigger] pre2[m],
                ) by {
                    if m >= pre.len() {
                        assert(pre2[m] == two_spaces()[m - pre.len()]);
                    }
                }
            }
            lemma_token_after_spaces(s, i, i);
            lemma_elems_space_step(s, i + 1, Seq::empty());
            lemma_rt_elems(s, i + 2, es, Seq::empty(), pre2, c);
            assert(Seq::empty() + es =~= es);
            assert(parse_value_at(s, i) == ParseStep::Val(v, e));
        },
    }
}

/// Parsing an emitted member region, followed by spaces and the
/// closing brace, appends exactly those members and stops after the
/// brace.
proof fn lemma_rt_members(
    s: Seq<char>,
    i: int,
    ms: Seq<(Seq<char>, SpecVal)>,
    acc: Seq<(Seq<char>, SpecVal)>,
    pre: Seq<char>,
    c: int,
)
    requires
        0 <= i,
        i + emit_members(ms, pre).len() <= c,
        s.subrange(i, i + emit_members(ms, pre).len()) == emit_members(ms, pre),
        c < s.len(),
        s[c] == '}',
        forall|m: int| i + emit_members(ms, pre).len() <= m < c ==> is_space_char(#[trigger] s[m]),
        keys_unique(acc + ms),
        wf_members(ms),
        clean_members(ms),
        all_spaces(pre),
    ensures
        parse_members_at(s, i, acc) == MembersStep::Ms(acc + ms, c + 1),
    decreases ms,
{
    let frag = emit_members(ms, pre);
    lemma_members_head_token(s, i, ms, pre, c);
    if ms.len() == 0 {
        assert(acc + ms =~= acc);
        assert(parse_members_at(s, i, acc) == MembersStep::Ms(acc + ms, c + 1));
    } else {
        let k = ms[0].0;
        let v0 = ms[0].1;
        let rest = ms.drop_first();
        let lp = pre.len() as int;
        let lk = k.len() as int;
        let q = seq!['"'];
        let s3 = seq![' ', '=', ' '];
        let nl = seq!['\n'];
        let vfrag = emit_value(v0, pre);
        let lv = vfrag.len() as int;
        let rfrag = emit_members(rest, pre);
        assert(frag == pre + q + k + q + s3 + vfrag + nl + rfrag);
        assert(frag.len() == lp + lk + 6 + lv + rfrag.len());
        // positions of the separator, the value, and the line end
        let jk = i + lp + lk + 2;
        let iv = i + lp + lk + 5;
        let jv = iv + lv;
        lemma_frag_char(s, i, frag, lp + lk + 2);
        assert(frag[lp + lk + 2] == ' ');
        lemma_frag_char(s, i, frag, lp + lk + 3);
        assert(frag[lp + lk + 3] == '=');
        lemma_frag_char(s, i, frag, lp + lk + 4);
        assert(frag[lp + lk + 4] == ' ');
        lemma_frag_char(s, i, frag, lp + lk + 5 + lv);
        assert(frag[lp + lk + 5 + lv] == '\n');
        // the separator token
        lemma_token_after_spaces(s, jk, jk + 1);
        // the member's value
        lemma_frag_sub(s, i, frag, lp + lk + 5, lp + lk + 5 + lv);
        assert(frag.subrange(lp + lk + 5, lp + lk + 5 + lv) =~= vfrag);
        lemma_value_space_step(s, jk + 2);
        lemma_rt_value(s, iv, v0, pre);
        assert(parse_value_at(s, jk + 2) == ParseStep::Val(v0, jv));
        assert(next_pos(s, jk + 2, jv) == jv);
        // the upsert appends, the key being fresh
        assert forall|m: int| 0 <= m < acc.len() implies acc[m].0 != k by {
            assert((acc + ms)[m] == acc[m]);
            assert((acc + ms)[acc.len() as int] == ms[0]);
        }
        crate::parser::lemma_upsert_missing(acc, k, v0);
        let acc2 = acc.push((k, v0));
        assert(spec_upsert(acc, k, v0) == acc2);
        // the token after the value is the next line's first token
        lemma_frag_sub(s, i, frag, lp + lk + 6 + lv, frag.len() as int);
        assert(frag.subrange(lp + lk + 6 + lv, frag.len() as int) =~= rfrag);
        lemma_token_at_space_step(s, jv);
        lemma_members_head_token(s, jv + 1, rest, pre, c);
        lemma_members_space_step(s, jv, acc2);
        // recurse over the remaining members
        assert(acc2 + rest =~= acc + ms);
        lemma_rt_members(s, jv + 1, rest, acc2, pre, c);
        assert(parse_members_at(s, i, acc) == MembersStep::Ms(acc + ms, c + 1));
    }
}

/// Parsing an emitted element region, followed by spaces and the
/// closing bracket, appends exactly those elements and stops after
/// the bracket.
proof fn lemma_rt_elems(
    s: Seq<char>,
    i: int,
    es: Seq<SpecVal>,
    acc: Seq<SpecVal>,
    pre: Seq<char>,
    c: int,
)
    requires
        0 <= i,
        i + emit_elems(es, pre).len() <= c,
        s.subrange(i, i + emit_elems(es, pre).len()) == emit_elems(es, pre),
        c < s.len(),
        s[c] == ']',
        forall|m: int| i + emit_elems(es, pre).len() <= m < c ==> is_space_char(#[trigger] s[m]),
        wf_arr(es),
        clean_arr(es),
        all_spaces(pre),
    ensures
        parse_elems_at(s, i, acc) == ElemsStep::Es(acc + es, c + 1),
    decreases es,
{
    let frag = emit_elems(es, pre);
    if es.len() == 0 {
        lemma_token_after_spaces(s, i, c);
        assert(acc + es =~= acc);
        assert(parse_elems_at(s, i, acc) == ElemsStep::Es(acc + es, c + 1));
    } else {
        let v0 = es[0];
        let rest = es.drop_first();
        let lp = pre.len() as int;
        let vfrag = emit_value(v0, pre);
        let lv = vfrag.len() as int;
        let rfrag = emit_elems(rest, pre);
        assert(frag == pre + vfrag + seq![',', '\n'] + rfrag);
        assert(frag.len() == lp + lv + 2 + rfrag.len());
        let iv = i + lp;
        let jv = iv + lv;
        assert forall|m: int| i <= m < iv implies is_space_char(#[trigger] s[m]) by {
            lemma_frag_char(s, i, frag, m - i);
            assert(frag[m - i] == pre[m - i]);
        }
        lemma_frag_char(s, i, frag, lp + lv);
        assert(frag[lp + lv] == ',');
        lemma_frag_char(s, i, frag, lp + lv + 1);
        assert(frag[lp + lv + 1] == '\n');
        lemma_frag_sub(s, i, frag, lp, lp + lv);
        assert(frag.subrange(lp, lp + lv) =~= vfrag);
        lemma_value_at_over_spaces(s, i, iv);
        lemma_rt_value(s, iv, v0, pre);
        assert(parse_value_at(s, i) == ParseStep::Val(v0, jv));
        assert(next_pos(s, i, jv) == jv);
        // the token at the start is a value token, so the list arm of
        // the grammar applies
        assert(!(token_at(s, i) is Fail));
        assert(!(token_at(s, i) matches LexStep::Tok(t, j) && t is RBracket));
        // the comma after the element
        lemma_token_after_spaces(s, jv, jv);
        // recurse over the remaining elements at the next line
        lemma_frag_sub(s, i, frag, lp + lv + 2, frag.len() as int);
        assert(frag.subrange(lp + lv + 2, frag.len() as int) =~= rfrag);
        lemma_elems_space_step(s, jv + 1, acc.push(v0));
        assert(acc.push(v0) + rest =~= acc + es);
        lemma_rt_elems(s, jv + 2, rest, acc.push(v0), pre, c);
        assert(parse_elems_at(s, i, acc) == ElemsStep::Es(acc + es, c + 1));
    }
}

/// The round-trip law: formatting a well-formed document whose texts
/// carry no raw quote or backslash character, then parsing the
/// result, yields the document unchanged.
pub proof fn lemma_format_parse_round_trip(ms: Seq<(Seq<char>, SpecVal)>)
    requires
        keys_unique(ms),
        wf_members(ms),
        clean_members(ms),
    ensures
        spec_parse_hocon(spec_format(ms)) == Ok::<Seq<(Seq<char>, SpecVal)>, ErrSpec>(ms),
{
    let v = SpecVal::Obj(ms);
    let frag = emit_value(v, Seq::empty());
    let s = spec_format(ms);
    let e = frag.len() as int;
    assert(s == frag + seq!['\n']);
    assert(s.subrange(0, e) =~= frag);
    assert(s[e] == '\n');
    lemma_rt_value(s, 0, v, Seq::empty());
    assert(parse_value_at(s, 0) == ParseStep::Val(v, e));
    lemma_skip_trivia_to(s, e, s.len() as int);
    assert(token_at(s, e) == LexStep::Tok(TokenSpec::Eof, s.len() as int));
    assert(parse_document(s) == ParseStep::Val(v, e));
    assert(spec_parse_hocon(s) == Ok::<Seq<(Seq<char>, SpecVal)>, ErrSpec>(ms));
}

} // verus!
