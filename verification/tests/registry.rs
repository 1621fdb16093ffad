//! Tests of the format registry: extension recognition and converter
//! resolution.

use fmto::ConfigFormat;
use fmto::ConfigConverterFactory;
use fmto::Converter;
use fmto::HoconConverter;

#[test]
fn known_extensions_resolve() {
    assert_eq!(ConfigFormat::from_extension("ini"), Some(ConfigFormat::Ini));
    assert_eq!(ConfigFormat::from_extension("xml"), Some(ConfigFormat::Xml));
    assert_eq!(ConfigFormat::from_extension("conf"), Some(ConfigFormat::Hocon));
    assert_eq!(ConfigFormat::from_extension("hocon"), Some(ConfigFormat::Hocon));
    assert_eq!(ConfigFormat::from_extension("env"), Some(ConfigFormat::Env));
    assert_eq!(ConfigFormat::from_extension("json"), Some(ConfigFormat::Json));
    assert_eq!(ConfigFormat::from_extension("yaml"), Some(ConfigFormat::Yaml));
    assert_eq!(ConfigFormat::from_extension("yml"), Some(ConfigFormat::Yaml));
    assert_eq!(ConfigFormat::from_extension("toml"), Some(ConfigFormat::Toml));
}

#[test]
fn extensions_are_case_insensitive() {
    assert_eq!(ConfigFormat::from_extension("JSON"), Some(ConfigFormat::Json));
    assert_eq!(ConfigFormat::from_extension("Conf"), Some(ConfigFormat::Hocon));
    assert_eq!(ConfigFormat::from_extension("YML"), Some(ConfigFormat::Yaml));
}

#[test]
fn unknown_extension_resolves_to_none() {
    assert_eq!(ConfigFormat::from_extension("txt"), None);
    assert_eq!(ConfigFormat::from_extension(""), None);
    assert_eq!(ConfigFormat::from_extension("jsonx"), None);
}

#[test]
fn to_extension_names_each_format() {
    assert_eq!(ConfigFormat::Ini.to_extension(), "ini");
    assert_eq!(ConfigFormat::Xml.to_extension(), "xml");
    assert_eq!(ConfigFormat::Hocon.to_extension(), "conf");
    assert_eq!(ConfigFormat::Env.to_extension(), "env");
    assert_eq!(ConfigFormat::Json.to_extension(), "json");
    assert_eq!(ConfigFormat::Yaml.to_extension(), "yaml");
    assert_eq!(ConfigFormat::Toml.to_extension(), "toml");
}

#[test]
fn from_and_to_extension_round_trip() {
    let formats = [
        ConfigFormat::Ini,
        ConfigFormat::Xml,
        ConfigFormat::Hocon,
        ConfigFormat::Env,
        ConfigFormat::Json,
        ConfigFormat::Yaml,
        ConfigFormat::Toml,
    ];
    for f in formats {
        assert_eq!(ConfigFormat::from_extension(f.to_extension()), Some(f));
    }
}

#[test]
fn factory_resolves_each_tag() {
    assert!(matches!(
        ConfigConverterFactory::get_converter(ConfigFormat::Hocon),
        Converter::Hocon(_)
    ));
    assert!(matches!(
        ConfigConverterFactory::get_converter(ConfigFormat::Json),
        Converter::Json(_)
    ));
    assert!(matches!(
        ConfigConverterFactory::get_converter(ConfigFormat::Ini),
        Converter::Ini(_)
    ));
}

#[test]
fn hocon_converter_parses_and_formats() {
    let conv = HoconConverter;
    let config = conv.parse("{\"k\": \"v\"}").unwrap();
    let text = conv.format(&config).unwrap();
    assert_eq!(text, "{\n  \"k\" = \"v\"\n}\n");
}
