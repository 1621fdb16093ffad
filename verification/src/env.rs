//! The key-per-line format: one `key=value` pair per line.
//!
//! Parsing trims each line, skips empty lines and `#` comments,
//! splits at the first `=` (lines without one are ignored), trims key
//! and value, and keeps every value as a string; a repeated key keeps
//! its place and its last value.  Formatting writes one `key=value`
//! line for each string-valued member and silently drops the rest:
//! the format has no nested representation, and that lossiness is
//! part of the conversion contract.

use vstd::prelude::*;
use vstd::string::StrSliceExecFns;
use vstd::string::StringExecFns;

use crate::errors::ConvError;
use crate::lexer::is_space_char;
use crate::lexer::is_space;
use crate::parser::spec_upsert;
use crate::parser::upsert_member;
use crate::value::ConfigValue;
use crate::value::Member;
use crate::value::SpecVal;
use crate::value::Value;
use crate::value::members_view;
use crate::value::lemma_members_view_index;
use crate::value::lemma_members_view_len;
use crate::EnvConverter;

verus! {

/// The first occurrence of `q` in `[i, e)`, or `e`.
pub open spec fn find_in(s: Seq<char>, i: int, e: int, q: char) -> int
    decreases e - i,
{
    if i >= e {
        e
    } else if s[i] == q {
        i
    } else {
        find_in(s, i + 1, e, q)
    }
}

/// [`find_in`] stays in range, lands on `q` unless it reached `e`,
/// and skips no `q`.
pub proof fn lemma_find_in(s: Seq<char>, i: int, e: int, q: char)
    requires
        i <= e,
    ensures
        i <= find_in(s, i, e, q) <= e,
        find_in(s, i, e, q) < e ==> s[find_in(s, i, e, q)] == q,
        forall|m: int| i <= m < find_in(s, i, e, q) ==> s[m] != q,
    decreases e - i,
{
    if i < e && s[i] != q {
        lemma_find_in(s, i + 1, e, q);
    }
}

/// The end of the whitespace run starting at `i`, within `[i, e)`.
pub open spec fn ws_run_end(s: Seq<char>, i: int, e: int) -> int
    decreases e - i,
{
    if i >= e {
        e
    } else if is_space_char(s[i]) {
        ws_run_end(s, i + 1, e)
    } else {
        i
    }
}

/// The start of the whitespace run ending at `e`, within `[i, e)`.
pub open spec fn ws_run_start(s: Seq<char>, i: int, e: int) -> int
    decreases e - i,
{
    if e <= i {
        i
    } else if is_space_char(s[e - 1]) {
        ws_run_start(s, i, e - 1)
    } else {
        e
    }
}

/// What one line `[i, e)` contributes: nothing for blank lines,
/// comments and lines without `=`; otherwise the trimmed key and
/// trimmed string value, a repeated key keeping its place with its
/// last value.
pub open spec fn env_line(
    s: Seq<char>,
    i: int,
    e: int,
    acc: Seq<(Seq<char>, SpecVal)>,
) -> Seq<(Seq<char>, SpecVal)> {
    let a = ws_run_end(s, i, e);
    let b = ws_run_start(s, a, e);
    if a >= b {
        acc
    } else if s[a] == '#' {
        acc
    } else {
        let p = find_in(s, a, b, '=');
        if p >= b {
            acc
        } else {
            let k1 = ws_run_end(s, a, p);
            let k2 = ws_run_start(s, k1, p);
            let v1 = ws_run_end(s, p + 1, b);
            let v2 = ws_run_start(s, v1, b);
            spec_upsert(acc, s.subrange(k1, k2), SpecVal::Str(s.subrange(v1, v2)))
        }
    }
}

/// The members read from the lines of `s` starting at `i`, onto
/// `acc`.
pub open spec fn env_parse_at(
    s: Seq<char>,
    i: int,
    acc: Seq<(Seq<char>, SpecVal)>,
) -> Seq<(Seq<char>, SpecVal)>
    decreases s.len() - i + 1,
{
    if i >= s.len() {
        acc
    } else {
        let e = find_in(s, i, s.len() as int, '\n');
        proof {
            lemma_find_in(s, i, s.len() as int, '\n');
        }
        env_parse_at(s, e + 1, env_line(s, i, e, acc))
    }
}

/// The document read from a whole key-per-line text.
pub open spec fn spec_env_parse(s: Seq<char>) -> Seq<(Seq<char>, SpecVal)> {
    env_parse_at(s, 0, Seq::empty())
}

/// The text written for a document: one `key=value` line per
/// string-valued member, other members dropped.
pub open spec fn spec_env_format(ms: Seq<(Seq<char>, SpecVal)>) -> Seq<char>
    decreases ms,
{
    if ms.len() == 0 {
        Seq::empty()
    } else {
        (match ms[0].1 {
            SpecVal::Str(t) => ms[0].0 + seq!['='] + t + seq!['\n'],
            _ => Seq::empty(),
        }) + spec_env_format(ms.drop_first())
    }
}

/// The first position at or after `from` (up to `to`) holding a
/// non-whitespace character.
fn scan_non_space(chars: &Vec<char>, from: usize, to: usize) -> (r: usize)
    requires
        from <= to <= chars@.len(),
    ensures
        r as int == ws_run_end(chars@, from as int, to as int),
        from <= r <= to,
    decreases to - from,
{
    let mut a = from;
    while a < to && is_space(chars[a])
        invariant
            from <= a <= to,
            ws_run_end(chars@, from as int, to as int) == ws_run_end(chars@, a as int, to as int),
        decreases to - a,
    {
        a += 1;
    }
    a
}

/// The position just after the last non-whitespace character in
/// `[from, to)`, or `from` if there is none.
fn scan_back_space(chars: &Vec<char>, from: usize, to: usize) -> (r: usize)
    requires
        from <= to <= chars@.len(),
    ensures
        r as int == ws_run_start(chars@, from as int, to as int),
        from <= r <= to,
{
    let mut b = to;
    while b > from && is_space(chars[b - 1])
        invariant
            from <= b <= to,
            ws_run_start(chars@, from as int, to as int) == ws_run_start(
                chars@,
                from as int,
                b as int,
            ),
        decreases b,
    {
        b -= 1;
    }
    b
}

/// The first occurrence of `q` at or after `from` (up to `to`), or
/// `to`.
fn scan_find(chars: &Vec<char>, from: usize, to: usize, q: char) -> (r: usize)
    requires
        from <= to <= chars@.len(),
    ensures
        r as int == find_in(chars@, from as int, to as int, q),
        from <= r <= to,
{
    let mut p = from;
    while p < to && chars[p] != q
        invariant
            from <= p <= to,
            find_in(chars@, from as int, to as int, q) == find_in(
                chars@,
                p as int,
                to as int,
                q,
            ),
        decreases to - p,
    {
        p += 1;
    }
    p
}

/// The characters of a text, together with an owned copy for
/// substring extraction.
fn text_chars(input: &str) -> (r: (Vec<char>, String))
    ensures
        r.0@ == input@,
        r.1@ == input@,
{
    let text = input.to_owned();
    let n = input.unicode_len();
    let mut chars: Vec<char> = Vec::new();
    let mut i: usize = 0;
    while i < n
        invariant
            n == input@.len(),
            i <= n,
            chars@ =~= input@.subrange(0, i as int),
        decreases n - i,
    {
        chars.push(input.get_char(i));
        proof {
            assert(chars@ =~= input@.subrange(0, i + 1 as int));
        }
        i += 1;
    }
    proof {
        assert(chars@ =~= input@);
    }
    (chars, text)
}

impl EnvConverter {
    /// Read a key-per-line text into a document; reading cannot fail.
    pub fn parse(&self, content: &str) -> (r: Result<ConfigValue, ConvError>)
        ensures
            r matches Ok(c) && c@ == spec_env_parse(content@),
    {
        let (chars, text) = text_chars(content);
        let ghost s = content@;
        let n = chars.len();
        let mut members: Vec<Member> = Vec::new();
        let mut i: usize = 0;
        while i < n
            invariant
                i <= n + 1,
                n == s.len(),
                chars@ == s,
                text@ == s,
                spec_env_parse(s) == env_parse_at(s, i as int, members_view(members@)),
            decreases n + 1 - i,
        {
            let ghost i0 = i as int;
            let ghost accv = members_view(members@);
            let e = scan_find(&chars, i, n, '\n');
            let a = scan_non_space(&chars, i, e);
            let b = scan_back_space(&chars, a, e);
            if a < b && chars[a] != '#' {
                let p = scan_find(&chars, a, b, '=');
                if p < b {
                    let k1 = scan_non_space(&chars, a, p);
                    let k2 = scan_back_space(&chars, k1, p);
                    let v1 = scan_non_space(&chars, p + 1, b);
                    let v2 = scan_back_space(&chars, v1, b);
                    let key = text.as_str().substring_char(k1, k2).to_owned();
                    let val = text.as_str().substring_char(v1, v2).to_owned();
                    upsert_member(&mut members, key, Value::Str(val));
                }
            }
            proof {
                reveal_with_fuel(env_parse_at, 2);
                assert(members_view(members@) == env_line(s, i0, e as int, accv));
                assert(env_parse_at(s, i0, accv) == env_parse_at(
                    s,
                    e as int + 1,
                    members_view(members@),
                ));
            }
            if e < n {
                i = e + 1;
            } else {
                i = n;
            }
        }
        proof {
            assert(env_parse_at(s, i as int, members_view(members@)) == members_view(members@));
        }
        Ok(ConfigValue { value: members })
    }

    /// Write a document as key-per-line text, dropping every member
    /// that is not a plain string; writing cannot fail.
    pub fn format(&self, config: &ConfigValue) -> (r: Result<String, ConvError>)
        ensures
            r matches Ok(t) && t@ == spec_env_format(config@),
    {
        let mut output = String::new();
        env_format_from(&mut output, &config.value, 0);
        proof {
            assert(members_view(config.value@).skip(0) =~= members_view(config.value@));
        }
        Ok(output)
    }
}

/// Append the key-per-line rendering of `members[from..]` to
/// `output`.
fn env_format_from(output: &mut String, members: &Vec<Member>, from: usize)
    requires
        from <= members@.len(),
    ensures
        final(output)@ == old(output)@ + spec_env_format(members_view(members@).skip(from as int)),
    decreases members@.len() - from,
{
    proof {
        lemma_members_view_len(members@);
    }
    if from == members.len() {
        proof {
            assert(members_view(members@).skip(from as int) =~= Seq::empty());
        }
        return ;
    }
    proof {
        reveal_strlit("=");
        reveal_strlit("\n");
        assert(("=")@ =~= seq!['=']);
        assert(("\n")@ =~= seq!['\n']);
        lemma_members_view_index(members@, from as int);
    }
    match &members[from].value {
        Value::Str(t) => {
            output.append(members[from].key.as_str());
            output.append("=");
            output.append(t.as_str());
            output.append("\n");
        },
        Value::Num(_) => (),
        Value::Bool(_) => (),
        Value::Null => (),
        Value::Arr(_) => (),
        Value::Obj(_) => (),
    }
    env_format_from(output, members, from + 1);
    proof {
        let msv = members_view(members@);
        assert(msv.skip(from as int).drop_first() =~= msv.skip(from + 1));
        assert(msv.skip(from as int)[0] == msv[from as int]);
        assert(final(output)@ =~= old(output)@ + spec_env_format(msv.skip(from as int)));
    }
}

} // verus!
