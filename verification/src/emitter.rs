//! The emitter: renders a canonical value tree back into the
//! grammar's textual form.
//!
//! Objects open with `{`, put every member on its own line as
//! `"key" = value`, and close with `}` at the enclosing indentation;
//! arrays put every element on its own line followed by a comma (the
//! parser's permissive comma handling reads them back).  Each nesting
//! level indents by two further spaces, passed down as a prefix text.
//! Strings are emitted verbatim between double quotes, numbers as
//! their literal text, booleans and null by their spellings.
//!
//! The specification side is [`emit_value`]; [`format_hocon`] is
//! proved to produce exactly [`spec_format`] of the document.

use vstd::prelude::*;
use vstd::string::StrSliceExecFns;
use vstd::string::StringExecFns;

use crate::lexer::kw_false;
use crate::lexer::kw_null;
use crate::lexer::kw_true;
use crate::value::ConfigValue;
use crate::value::Member;
use crate::value::SpecVal;
use crate::value::Value;
use crate::value::arr_view;
use crate::value::lemma_arr_view_index;
use crate::value::lemma_arr_view_len;
use crate::value::lemma_members_view_index;
use crate::value::lemma_members_view_len;
use crate::value::members_view;
use crate::value::val_view;

verus! {

/// One indentation step: two spaces.
pub open spec fn two_spaces() -> Seq<char> {
    seq![' ', ' ']
}

/// The text of a value, rendered at the indentation prefix `pre`.
pub open spec fn emit_value(v: SpecVal, pre: Seq<char>) -> Seq<char>
    decreases v,
{
    match v {
        SpecVal::Str(t) => seq!['"'] + t + seq!['"'],
        SpecVal::Num(t) => t,
        SpecVal::Bool(b) => if b {
            kw_true()
        } else {
            kw_false()
        },
        SpecVal::Null => kw_null(),
        SpecVal::Obj(ms) => seq!['{', '\n'] + emit_members(ms, pre + two_spaces()) + pre
            + seq!['}'],
        SpecVal::Arr(es) => seq!['[', '\n'] + emit_elems(es, pre + two_spaces()) + pre + seq![']'],
    }
}

/// The text of object members, one `"key" = value` line each, at the
/// indentation prefix `pre`.
pub open spec fn emit_members(ms: Seq<(Seq<char>, SpecVal)>, pre: Seq<char>) -> Seq<char>
    decreases ms,
{
    if ms.len() == 0 {
        Seq::empty()
    } else {
        pre + seq!['"'] + ms[0].0 + seq!['"'] + seq![' ', '=', ' '] + emit_value(ms[0].1, pre)
            + seq!['\n'] + emit_members(ms.drop_first(), pre)
    }
}

/// The text of array elements, one comma-terminated line each, at the
/// indentation prefix `pre`.
pub open spec fn emit_elems(es: Seq<SpecVal>, pre: Seq<char>) -> Seq<char>
    decreases es,
{
    if es.len() == 0 {
        Seq::empty()
    } else {
        pre + emit_value(es[0], pre) + seq![',', '\n'] + emit_elems(es.drop_first(), pre)
    }
}

/// The text of a whole document: its members inside one brace pair,
/// with a final newline.
pub open spec fn spec_format(ms: Seq<(Seq<char>, SpecVal)>) -> Seq<char> {
    emit_value(SpecVal::Obj(ms), Seq::empty()) + seq!['\n']
}

/// Append the rendering of one value to `output`.
pub fn format_hocon_item(output: &mut String, value: &Value, indent: &String)
    ensures
        final(output)@ == old(output)@ + emit_value(val_view(*value), indent@),
    decreases *value, 0nat,
{
    proof {
        reveal_strlit("\"");
        reveal_strlit("true");
        reveal_strlit("false");
        reveal_strlit("null");
        reveal_strlit("{\n");
        reveal_strlit("}");
        reveal_strlit("[\n");
        reveal_strlit("]");
        reveal_strlit("  ");
        assert(("\"")@ =~= seq!['"']);
        assert(("true")@ =~= kw_true());
        assert(("false")@ =~= kw_false());
        assert(("null")@ =~= kw_null());
        assert(("{\n")@ =~= seq!['{', '\n']);
        assert(("}")@ =~= seq!['}']);
        assert(("[\n")@ =~= seq!['[', '\n']);
        assert(("]")@ =~= seq![']']);
        assert(("  ")@ =~= two_spaces());
    }
    match value {
        Value::Str(t) => {
            output.append("\"");
            output.append(t.as_str());
            output.append("\"");
            proof {
                assert(output@ =~= old(output)@ + emit_value(val_view(*value), indent@));
            }
        },
        Value::Num(t) => {
            output.append(t.as_str());
        },
        Value::Bool(b) => {
            if *b {
                output.append("true");
            } else {
                output.append("false");
            }
        },
        Value::Null => {
            output.append("null");
        },
        Value::Obj(ms) => {
            output.append("{\n");
            let mut deeper = indent.clone();
            deeper.append("  ");
            format_hocon_value(output, ms, 0, &deeper);
            output.append(indent.as_str());
            output.append("}");
            proof {
                assert(members_view(ms@).skip(0) =~= members_view(ms@));
                assert(deeper@ == indent@ + two_spaces());
                assert(output@ =~= old(output)@ + emit_value(val_view(*value), indent@));
            }
        },
        Value::Arr(es) => {
            output.append("[\n");
            let mut deeper = indent.clone();
            deeper.append("  ");
            format_hocon_elems(output, es, 0, &deeper);
            output.append(indent.as_str());
            output.append("]");
            proof {
                assert(arr_view(es@).skip(0) =~= arr_view(es@));
                assert(deeper@ == indent@ + two_spaces());
                assert(output@ =~= old(output)@ + emit_value(val_view(*value), indent@));
            }
        },
    }
}

/// Append the member lines for `members[from..]` to `output`.
pub fn format_hocon_value(output: &mut String, members: &Vec<Member>, from: usize, indent: &String)
    requires
        from <= members@.len(),
    ensures
        final(output)@ == old(output)@ + emit_members(
            members_view(members@).skip(from as int),
            indent@,
        ),
    decreases members@, members@.len() - from,
{
    proof {
        lemma_members_view_len(members@);
    }
    if from == members.len() {
        proof {
            assert(members_view(members@).skip(from as int) =~= Seq::empty());
        }
        return ;
    }
    proof {
        reveal_strlit("\"");
        reveal_strlit(" = ");
        reveal_strlit("\n");
        assert(("\"")@ =~= seq!['"']);
        assert((" = ")@ =~= seq![' ', '=', ' ']);
        assert(("\n")@ =~= seq!['\n']);
        lemma_members_view_index(members@, from as int);
    }
    output.append(indent.as_str());
    output.append("\"");
    output.append(members[from].key.as_str());
    output.append("\"");
    output.append(" = ");
    format_hocon_item(output, &members[from].value, indent);
    output.append("\n");
    format_hocon_value(output, members, from + 1, indent);
    proof {
        let msv = members_view(members@);
        assert(msv.skip(from as int).drop_first() =~= msv.skip(from + 1));
        assert(msv.skip(from as int)[0] == msv[from as int]);
    }
}

/// Append the element lines for `elems[from..]` to `output`.
pub fn format_hocon_elems(output: &mut String, elems: &Vec<Value>, from: usize, indent: &String)
    requires
        from <= elems@.len(),
    ensures
        final(output)@ == old(output)@ + emit_elems(arr_view(elems@).skip(from as int), indent@),
    decreases elems@, elems@.len() - from,
{
    proof {
        lemma_arr_view_len(elems@);
    }
    if from == elems.len() {
        proof {
            assert(arr_view(elems@).skip(from as int) =~= Seq::empty());
        }
        return ;
    }
    proof {
        reveal_strlit(",\n");
        assert((",\n")@ =~= seq![',', '\n']);
        lemma_arr_view_index(elems@, from as int);
    }
    output.append(indent.as_str());
    format_hocon_item(output, &elems[from], indent);
    output.append(",\n");
    format_hocon_elems(output, elems, from + 1, indent);
    proof {
        let esv = arr_view(elems@);
        assert(esv.skip(from as int).drop_first() =~= esv.skip(from + 1));
        assert(esv.skip(from as int)[0] == esv[from as int]);
    }
}

/// Render a whole document: its members between braces, each line
/// indented two spaces per level, with a final newline.
pub fn format_hocon(config: &ConfigValue) -> (r: String)
    ensures
        r@ == spec_format(config@),
{
    proof {
        reveal_strlit("{\n");
        reveal_strlit("}\n");
        reveal_strlit("  ");
        assert(("{\n")@ =~= seq!['{', '\n']);
        assert(("}\n")@ =~= seq!['}', '\n']);
        assert(("  ")@ =~= two_spaces());
        assert(Seq::<char>::empty() + two_spaces() =~= two_spaces());
    }
    let mut level: String = String::new();
    level.append("  ");
    let mut output = String::new();
    output.append("{\n");
    format_hocon_value(&mut output, &config.value, 0, &level);
    output.append("}\n");
    proof {
        assert(members_view(config.value@).skip(0) =~= members_view(config.value@));
        assert(output@ =~= spec_format(config@));
    }
    output
}

} // verus!
