use std::path::Path;

use metro_draw::cli::{check_conversion, check_report, terminate_line, CheckReport, ExcessiveVerbosity, Format, SameFormat};

fn format_of(path: &str) -> Option<Format> {
    Format::from_extension(Path::new(path).extension().and_then(|e| e.to_str()))
}

#[test]
fn rejects_same_or_unknown_formats() {
    let input = format_of("map.yaml").unwrap();
    let output = format_of("copy.yml").unwrap();
    assert_eq!(check_conversion(input, output), Err(SameFormat { format: "YAML" }));
    assert_eq!(format_of("map.txt"), None);
}

#[test]
fn extensions_select_formats_in_any_letter_case() {
    assert_eq!(format_of("map.yaml"), Some(Format::Yaml));
    assert_eq!(format_of("map.YML"), Some(Format::Yaml));
    assert_eq!(format_of("map.Json"), Some(Format::Json));
    assert_eq!(format_of("map"), None);
    assert_eq!(format_of("map.yaml.bak"), None);
    assert_eq!(Format::from_extension(Some("jsonl")), None);
}

#[test]
fn conversions_must_change_the_format() {
    assert_eq!(check_conversion(Format::Yaml, Format::Json), Ok(()));
    assert_eq!(check_conversion(Format::Json, Format::Yaml), Ok(()));
    assert_eq!(check_conversion(Format::Json, Format::Json), Err(SameFormat { format: "JSON" }));
    assert_eq!(Format::Yaml.name(), "YAML");
}

#[test]
fn check_verbosity_selects_the_report() {
    assert_eq!(check_report(0), Ok(CheckReport::Valid));
    assert_eq!(check_report(1), Ok(CheckReport::CanonicalYaml));
    assert_eq!(check_report(2), Ok(CheckReport::Debug));
    assert_eq!(check_report(3), Err(ExcessiveVerbosity));
    assert_eq!(check_report(255), Err(ExcessiveVerbosity));
}

#[test]
fn output_ends_with_exactly_one_added_line_feed() {
    assert_eq!(terminate_line("a".to_string()), "a\n");
    assert_eq!(terminate_line("a\n".to_string()), "a\n");
    assert_eq!(terminate_line(String::new()), "\n");
}
