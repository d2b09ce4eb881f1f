use htmy_rs::format::{value_rule, ValueRule};
use htmy_rs::format::{
    format_attr, format_name, format_value, quoteattr, write_props, xml_escape, PropText, PropValue,
};

#[test]
fn format_name_replaces_underscores() {
    assert_eq!(format_name("data_value"), "data-value");
    assert_eq!(format_name("aria_label_x"), "aria-label-x");
    assert_eq!(format_name("plain"), "plain");
}

#[test]
fn format_name_trims_edge_underscores() {
    assert_eq!(format_name("_class"), "class");
    assert_eq!(format_name("for_"), "for");
    assert_eq!(format_name("__a_b__"), "a_b");
    assert_eq!(format_name("_x_y"), "x_y");
}

#[test]
fn format_name_edge_cases() {
    assert_eq!(format_name(""), "");
    assert_eq!(format_name("_"), "");
    assert_eq!(format_name("___"), "");
    assert_eq!(format_name("a"), "a");
}

#[test]
fn xml_escape_replaces_special_characters() {
    assert_eq!(xml_escape("a<b&c>d"), "a&lt;b&amp;c&gt;d");
    assert_eq!(xml_escape("&amp;"), "&amp;amp;");
    assert_eq!(xml_escape(""), "");
    assert_eq!(xml_escape("plain \"quoted\" 'text'"), "plain \"quoted\" 'text'");
    assert_eq!(xml_escape("héllo ✓"), "héllo ✓");
}

#[test]
fn xml_escape_output_has_no_angle_brackets() {
    let out = xml_escape("<<>><script>alert(1)</script>");
    assert!(!out.contains('<'));
    assert!(!out.contains('>'));
    assert_eq!(out, "&lt;&lt;&gt;&gt;&lt;script&gt;alert(1)&lt;/script&gt;");
}

#[test]
fn quoteattr_plain_value_uses_double_quotes() {
    assert_eq!(quoteattr("abc"), "\"abc\"");
    assert_eq!(quoteattr(""), "\"\"");
    assert_eq!(quoteattr("it's"), "\"it's\"");
}

#[test]
fn quoteattr_double_quote_only_uses_single_quotes() {
    assert_eq!(quoteattr("say \"hi\""), "'say \"hi\"'");
}

#[test]
fn quoteattr_both_quotes_escapes_double_quotes() {
    assert_eq!(quoteattr("a\"b'c"), "\"a&quot;b'c\"");
}

#[test]
fn quoteattr_escapes_whitespace_and_markup() {
    assert_eq!(quoteattr("x\ny\tz\r"), "\"x&#10;y&#9;z&#13;\"");
    assert_eq!(quoteattr("<&>"), "\"&lt;&amp;&gt;\"");
}

#[test]
fn format_value_each_variant() {
    assert_eq!(format_value(&PropValue::Missing), None);
    assert_eq!(format_value(&PropValue::XBoolTrue), Some(String::new()));
    assert_eq!(format_value(&PropValue::XBoolFalse), None);
    assert_eq!(format_value(&PropValue::Bool(true)), Some("true".to_string()));
    assert_eq!(format_value(&PropValue::Bool(false)), Some("false".to_string()));
    assert_eq!(
        format_value(&PropValue::Text("[1, 2]".to_string())),
        Some("[1, 2]".to_string())
    );
}

#[test]
fn format_attr_formats_name_and_value() {
    assert_eq!(
        format_attr("data_x", &PropValue::Text("1".to_string())),
        Some("data-x=\"1\"".to_string())
    );
    assert_eq!(
        format_attr("_class", &PropValue::Text("a \"b\"".to_string())),
        Some("class='a \"b\"'".to_string())
    );
    assert_eq!(format_attr("hidden", &PropValue::XBoolTrue), Some("hidden=\"\"".to_string()));
    assert_eq!(format_attr("checked", &PropValue::Bool(false)), Some("checked=\"false\"".to_string()));
}

#[test]
fn format_attr_skips_missing_values() {
    assert_eq!(format_attr("title", &PropValue::Missing), None);
    assert_eq!(format_attr("hidden", &PropValue::XBoolFalse), None);
}

#[test]
fn write_props_joins_with_spaces() {
    let mut buf = String::from("<div ");
    let props = vec![
        PropText::Standard { name: "class".to_string(), value: PropValue::Text("a".to_string()) },
        PropText::Custom("x=1".to_string()),
    ];
    write_props(&mut buf, &props);
    assert_eq!(buf, "<div class=\"a\" x=1");
}

#[test]
fn write_props_keeps_place_of_skipped_property() {
    let mut buf = String::new();
    let props = vec![
        PropText::Standard { name: "class".to_string(), value: PropValue::Text("a".to_string()) },
        PropText::Standard { name: "title".to_string(), value: PropValue::Missing },
        PropText::Standard { name: "id".to_string(), value: PropValue::Text("b".to_string()) },
    ];
    write_props(&mut buf, &props);
    assert_eq!(buf, "class=\"a\"  id=\"b\"");
}

#[test]
fn write_props_empty_list_writes_nothing() {
    let mut buf = String::from("x");
    write_props(&mut buf, &Vec::new());
    assert_eq!(buf, "x");
}

#[test]
fn unescaping_gives_back_escaped_text() {
    for s in ["a<b&c>d", "&lt;&amp;&gt;", "&&<<>>", "", "plain", "&amp;lt;"] {
        let e = xml_escape(s);
        let back = e.replace("&lt;", "<").replace("&gt;", ">").replace("&amp;", "&");
        assert_eq!(back, s);
    }
}

fn kind() -> htmy_rs::format::ValueKind {
    htmy_rs::format::ValueKind {
        is_none: false,
        is_xbool: false,
        is_xbool_true: false,
        is_bool: false,
        bool_value: false,
        is_date: false,
        is_json: false,
        is_set: false,
        is_str: false,
    }
}

#[test]
fn value_rule_follows_type_order() {
    assert!(matches!(value_rule(&kind()), ValueRule::StrOf));
    let mut k = kind();
    k.is_str = true;
    assert!(matches!(value_rule(&k), ValueRule::AsIs));
    k.is_set = true;
    assert!(matches!(value_rule(&k), ValueRule::JsonOfSet));
    k.is_json = true;
    assert!(matches!(value_rule(&k), ValueRule::Json));
    k.is_date = true;
    assert!(matches!(value_rule(&k), ValueRule::IsoFormat));
    k.is_bool = true;
    k.bool_value = true;
    assert!(matches!(value_rule(&k), ValueRule::Bool(true)));
    k.is_xbool = true;
    assert!(matches!(value_rule(&k), ValueRule::XBoolFalse));
    k.is_xbool_true = true;
    assert!(matches!(value_rule(&k), ValueRule::XBoolTrue));
    k.is_none = true;
    assert!(matches!(value_rule(&k), ValueRule::Missing));
}
