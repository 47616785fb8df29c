use metro_draw::manifest_format::inline_yaml_positions;
use metro_draw::names::LocalizedNames;
use metro_draw::text::{compare_text, contains_text, find_text, is_blank, xml_escape, TextOrder};

#[test]
fn xml_escape_replaces_every_markup_character() {
    assert_eq!(xml_escape("a&b<c>d\"e'f"), "a&amp;b&lt;c&gt;d&quot;e&apos;f");
    assert_eq!(xml_escape("plain text"), "plain text");
    assert_eq!(xml_escape(""), "");
    assert_eq!(xml_escape("&amp;"), "&amp;amp;");
    assert_eq!(xml_escape("深圳 <湾>"), "深圳 &lt;湾&gt;");
}

#[test]
fn blank_text_is_only_whitespace() {
    assert!(is_blank(""));
    assert!(is_blank(" \t\r\n\u{a0}\u{2003}\u{3000}"));
    assert!(!is_blank(" a "));
    assert!(!is_blank("\u{200b}"));
}

#[test]
fn texts_compare_as_strings_do() {
    assert_eq!(compare_text("a", "b"), TextOrder::Less);
    assert_eq!(compare_text("ab", "a"), TextOrder::Greater);
    assert_eq!(compare_text("zh-CN", "zh-CN"), TextOrder::Equal);
    assert_eq!(compare_text("Z", "a"), TextOrder::Less);
    assert_eq!(compare_text("é", "z"), TextOrder::Greater);
}

#[test]
fn find_text_gives_the_first_occurrence() {
    let v = vec!["a".to_string(), "b".to_string(), "a".to_string()];
    assert_eq!(find_text(&v, "a"), Some(0));
    assert_eq!(find_text(&v, "b"), Some(1));
    assert_eq!(find_text(&v, "c"), None);
    assert!(contains_text(&v, "b"));
    assert!(!contains_text(&v, ""));
}

#[test]
fn localized_names_behave_as_an_ordered_map() {
    let mut names = LocalizedNames::new();
    assert_eq!(names.len(), 0);
    assert_eq!(names.get("en"), None);

    names.insert("zh-CN".to_string(), vec!["深圳湾".to_string()]);
    names.insert("en".to_string(), vec!["Shenzhen Bay".to_string(), "SZ Bay".to_string()]);
    assert_eq!(names.len(), 2);
    assert_eq!(names.entry(0).0, "en");
    assert_eq!(names.entry(1).0, "zh-CN");
    assert_eq!(names.get("en"), Some(&vec!["Shenzhen Bay".to_string(), "SZ Bay".to_string()]));

    names.insert("en".to_string(), vec!["Bay".to_string()]);
    assert_eq!(names.len(), 2);
    assert_eq!(names.get("en"), Some(&vec!["Bay".to_string()]));
    assert_eq!(names.get("zh-CN"), Some(&vec!["深圳湾".to_string()]));
}

#[test]
fn labels_prefer_english_then_the_first_named_locale_then_the_id() {
    let id = "central".to_string();
    let mut names = LocalizedNames::new();
    assert_eq!(names.label(&id), "central");

    names.insert("zh-CN".to_string(), vec!["中心".to_string()]);
    names.insert("de".to_string(), vec![]);
    assert_eq!(names.label(&id), "中心");

    names.insert("en".to_string(), vec!["Central".to_string()]);
    assert_eq!(names.label(&id), "Central");

    names.insert("en".to_string(), vec![]);
    assert_eq!(names.label(&id), "中心");
}

#[test]
fn inlines_block_positions() {
    let yaml = "stations:\n- id: central\n  position:\n  - 1.0\n  - 2.0\n  names: {}\n".to_string();
    assert_eq!(
        inline_yaml_positions(yaml),
        "stations:\n- id: central\n  position: [1.0, 2.0]\n  names: {}\n"
    );
}

#[test]
fn leaves_other_sequences_and_short_tails_alone() {
    let yaml = "paths:\n- stations:\n  - a\n  - b\nposition:\n- 1.0\n".to_string();
    assert_eq!(inline_yaml_positions(yaml.clone()), yaml);

    let no_newline = "position:\n- 1.0\n- 2.0".to_string();
    assert_eq!(inline_yaml_positions(no_newline), "position: [1.0, 2.0]\n");

    let ends_after = "position:\n- 1.0\n- 2.0\nnext: 1\n".to_string();
    assert_eq!(inline_yaml_positions(ends_after), "position: [1.0, 2.0]\nnext: 1\n");
    assert_eq!(inline_yaml_positions(String::new()), "");
}

#[test]
fn escaped_text_holds_no_raw_markup() {
    let escaped = xml_escape("<a href=\"x\">Tom & Jerry's</a>");
    assert!(!escaped.contains(['<', '>', '"', '\'']));
    assert_eq!(escaped.matches('&').count(), escaped.matches(';').count());
}

#[test]
fn a_second_rewrite_changes_nothing() {
    let inputs = [
        "stations:\n- id: a\n  position:\n  - 1.0\n  - 2.0\nposition:\n- 3.0\n",
        "position:\n- a\nposition:\n- b\n- c\n",
        "x: 1\r\nposition:\r\n- 1\r\n- 2\r\n",
        "",
    ];
    for input in inputs {
        let once = inline_yaml_positions(input.to_string());
        assert_eq!(inline_yaml_positions(once.clone()), once);
    }
    // A kept line ending with a carriage return loses it on a second pass.
    let once = inline_yaml_positions("a\r\r\n".to_string());
    assert_eq!(once, "a\r\n");
    assert_eq!(inline_yaml_positions(once), "a\n");
}
