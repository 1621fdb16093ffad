//! Conversion of configuration documents between textual formats.
//!
//! Every format is parsed into one canonical in-memory representation,
//! a tree of [`value::Value`] nodes, and re-emitted from it.  The
//! human-friendly brace-and-key grammar (comments, single or double
//! quotes, `:` or `=` separators, optional commas) has no library
//! behind it: its lexer, parser and emitter live here and are verified.
//! The remaining formats are thin adapters over serialization libraries
//! and stay outside the verified core.

#![verifier::loop_isolation(false)]

use vstd::prelude::*;

pub mod app_state;
pub mod emitter;
pub mod env;
pub mod errors;
pub mod lexer;
pub mod parser;
pub mod roundtrip;
pub mod value;

pub use app_state::FmtoApp;
pub use emitter::format_hocon;
pub use errors::ConvError;
pub use parser::parse_hocon;
pub use value::ConfigValue;
pub use value::Member;
pub use value::Value;
pub use value::value_eq;

verus! {

/// The format tags the converter registry knows about.
#[derive(Debug, Clone, Copy, PartialEq, Eq, Hash, Structural)]
pub enum ConfigFormat {
    Ini,
    Xml,
    Hocon,
    Env,
    Json,
    Yaml,
    Toml,
}

/// Case-insensitive match of a character against a lower-case ASCII
/// letter.
pub open spec fn ci_eq_char(c: char, l: char) -> bool {
    (c as u32) == (l as u32) || (c as u32) + 0x20 == (l as u32)
}

/// Case-insensitive match of a text against a lower-case ASCII word.
pub open spec fn ci_eq(s: Seq<char>, t: Seq<char>) -> bool {
    s.len() == t.len() && (forall|i: int| 0 <= i < s.len() ==> ci_eq_char(#[trigger] s[i], t[i]))
}

/// The format tag a file extension names, compared without regard to
/// letter case; unknown extensions name none.
pub open spec fn spec_from_extension(s: Seq<char>) -> Option<ConfigFormat> {
    if ci_eq(s, seq!['i', 'n', 'i']) {
        Some(ConfigFormat::Ini)
    } else if ci_eq(s, seq!['x', 'm', 'l']) {
        Some(ConfigFormat::Xml)
    } else if ci_eq(s, seq!['c', 'o', 'n', 'f']) || ci_eq(s, seq!['h', 'o', 'c', 'o', 'n']) {
        Some(ConfigFormat::Hocon)
    } else if ci_eq(s, seq!['e', 'n', 'v']) {
        Some(ConfigFormat::Env)
    } else if ci_eq(s, seq!['j', 's', 'o', 'n']) {
        Some(ConfigFormat::Json)
    } else if ci_eq(s, seq!['y', 'a', 'm', 'l']) || ci_eq(s, seq!['y', 'm', 'l']) {
        Some(ConfigFormat::Yaml)
    } else if ci_eq(s, seq!['t', 'o', 'm', 'l']) {
        Some(ConfigFormat::Toml)
    } else {
        None
    }
}

/// The canonical file extension of each format.
pub open spec fn spec_to_extension(f: ConfigFormat) -> Seq<char> {
    match f {
        ConfigFormat::Ini => seq!['i', 'n', 'i'],
        ConfigFormat::Xml => seq!['x', 'm', 'l'],
        ConfigFormat::Hocon => seq!['c', 'o', 'n', 'f'],
        ConfigFormat::Env => seq!['e', 'n', 'v'],
        ConfigFormat::Json => seq!['j', 's', 'o', 'n'],
        ConfigFormat::Yaml => seq!['y', 'a', 'm', 'l'],
        ConfigFormat::Toml => seq!['t', 'o', 'm', 'l'],
    }
}

/// Case-insensitive comparison of a text against a lower-case ASCII
/// word.
fn eq_ignore_case(s: &str, t: &str) -> (r: bool)
    ensures
        r == ci_eq(s@, t@),
{
    let n = s.unicode_len();
    if n != t.unicode_len() {
        return false;
    }
    let mut i: usize = 0;
    while i < n
        invariant
            n == s@.len() && n == t@.len(),
            i <= n,
            forall|m: int| 0 <= m < i ==> ci_eq_char(#[trigger] s@[m], t@[m]),
        decreases n - i,
    {
        let c = s.get_char(i) as u32;
        let l = t.get_char(i) as u32;
        if !(c == l || c + 0x20 == l) {
            return false;
        }
        i += 1;
    }
    true
}

impl ConfigFormat {
    /// The format a file extension names, compared without regard to
    /// letter case; `None` for unrecognized extensions.
    pub fn from_extension(ext: &str) -> (r: Option<Self>)
        ensures
            r == spec_from_extension(ext@),
    {
        proof {
            reveal_strlit("ini");
            reveal_strlit("xml");
            reveal_strlit("conf");
            reveal_strlit("hocon");
            reveal_strlit("env");
            reveal_strlit("json");
            reveal_strlit("yaml");
            reveal_strlit("yml");
            reveal_strlit("toml");
            assert(("ini")@ =~= seq!['i', 'n', 'i']);
            assert(("xml")@ =~= seq!['x', 'm', 'l']);
            assert(("conf")@ =~= seq!['c', 'o', 'n', 'f']);
            assert(("hocon")@ =~= seq!['h', 'o', 'c', 'o', 'n']);
            assert(("env")@ =~= seq!['e', 'n', 'v']);
            assert(("json")@ =~= seq!['j', 's', 'o', 'n']);
            assert(("yaml")@ =~= seq!['y', 'a', 'm', 'l']);
            assert(("yml")@ =~= seq!['y', 'm', 'l']);
            assert(("toml")@ =~= seq!['t', 'o', 'm', 'l']);
        }
        if eq_ignore_case(ext, "ini") {
            Some(ConfigFormat::Ini)
        } else if eq_ignore_case(ext, "xml") {
            Some(ConfigFormat::Xml)
        } else if eq_ignore_case(ext, "conf") || eq_ignore_case(ext, "hocon") {
            Some(ConfigFormat::Hocon)
        } else if eq_ignore_case(ext, "env") {
            Some(ConfigFormat::Env)
        } else if eq_ignore_case(ext, "json") {
            Some(ConfigFormat::Json)
        } else if eq_ignore_case(ext, "yaml") || eq_ignore_case(ext, "yml") {
            Some(ConfigFormat::Yaml)
        } else if eq_ignore_case(ext, "toml") {
            Some(ConfigFormat::Toml)
        } else {
            None
        }
    }

    /// The canonical file extension for this format.
    pub fn to_extension(&self) -> (r: &'static str)
        ensures
            r@ == spec_to_extension(*self),
    {
        proof {
            reveal_strlit("ini");
            reveal_strlit("xml");
            reveal_strlit("conf");
            reveal_strlit("env");
            reveal_strlit("json");
            reveal_strlit("yaml");
            reveal_strlit("toml");
            assert(("ini")@ =~= seq!['i', 'n', 'i']);
            assert(("xml")@ =~= seq!['x', 'm', 'l']);
            assert(("conf")@ =~= seq!['c', 'o', 'n', 'f']);
            assert(("env")@ =~= seq!['e', 'n', 'v']);
            assert(("json")@ =~= seq!['j', 's', 'o', 'n']);
            assert(("yaml")@ =~= seq!['y', 'a', 'm', 'l']);
            assert(("toml")@ =~= seq!['t', 'o', 'm', 'l']);
        }
        match self {
            ConfigFormat::Ini => "ini",
            ConfigFormat::Xml => "xml",
            ConfigFormat::Hocon => "conf",
            ConfigFormat::Env => "env",
            ConfigFormat::Json => "json",
            ConfigFormat::Yaml => "yaml",
            ConfigFormat::Toml => "toml",
        }
    }
}

/// Converter for the list-of-sections format; its real work is done
/// by an outside library, so it lives with the unverified adapters.
pub struct IniConverter;

/// Converter for the hierarchical tag format; its real work is done
/// by an outside library, so it lives with the unverified adapters.
pub struct XmlConverter;

/// Converter for the core grammar; parsing and emission are the
/// verified [`parse_hocon`] and [`format_hocon`].
pub struct HoconConverter;

/// Converter for the key-per-line format.
pub struct EnvConverter;

/// Converter for the structured-data format; its real work is done by
/// an outside library, so it lives with the unverified adapters.
pub struct JsonConverter;

/// Converter for the indentation-based format; its real work is done
/// by an outside library, so it lives with the unverified adapters.
pub struct YamlConverter;

/// Converter for the table-based format; its real work is done by an
/// outside library, so it lives with the unverified adapters.
pub struct TomlConverter;

/// The closed union of converters the registry hands out.
pub enum Converter {
    Ini(IniConverter),
    Xml(XmlConverter),
    Hocon(HoconConverter),
    Env(EnvConverter),
    Json(JsonConverter),
    Yaml(YamlConverter),
    Toml(TomlConverter),
}

/// The converter registry: it resolves a format tag to the converter
/// for that format and holds no state of its own.
pub struct ConfigConverterFactory;

impl ConfigConverterFactory {
    /// The converter for a format tag, one per tag.
    pub fn get_converter(format: ConfigFormat) -> (r: Converter)
        ensures
            format is Ini ==> r is Ini,
            format is Xml ==> r is Xml,
            format is Hocon ==> r is Hocon,
            format is Env ==> r is Env,
            format is Json ==> r is Json,
            format is Yaml ==> r is Yaml,
            format is Toml ==> r is Toml,
    {
        match format {
            ConfigFormat::Ini => Converter::Ini(IniConverter),
            ConfigFormat::Xml => Converter::Xml(XmlConverter),
            ConfigFormat::Hocon => Converter::Hocon(HoconConverter),
            ConfigFormat::Env => Converter::Env(EnvConverter),
            ConfigFormat::Json => Converter::Json(JsonConverter),
            ConfigFormat::Yaml => Converter::Yaml(YamlConverter),
            ConfigFormat::Toml => Converter::Toml(TomlConverter),
        }
    }
}

impl HoconConverter {
    /// Parse a document of the core grammar; the root must be an
    /// object and the whole input must be consumed.
    pub fn parse(&self, content: &str) -> (r: Result<ConfigValue, ConvError>)
        ensures
            (parser::spec_parse_hocon(content@) matches Ok(ms) ==> r matches Ok(c) && c@ == ms),
            (parser::spec_parse_hocon(content@) matches Err(e) ==> r matches Err(err) && err@
                == e),
    {
        parse_hocon(content)
    }

    /// Render a document; emission of a well-formed document cannot
    /// fail.
    pub fn format(&self, config: &ConfigValue) -> (r: Result<String, ConvError>)
        ensures
            r matches Ok(s) && s@ == emitter::spec_format(config@),
    {
        Ok(format_hocon(config))
    }
}

} // verus!
