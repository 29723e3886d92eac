use xcr::bundle::bundle_identifier_in;
use xcr::bundle::line_value;
use xcr::config::XcrConfig;
use xcr::run::Xcr;

fn chars(s: &str) -> Vec<char> {
    s.chars().collect()
}

fn value(line: &str) -> String {
    line_value(&chars(line)).into_iter().collect()
}

fn by_the_standard_library(content: &str) -> Option<String> {
    content.lines().find(|line| line.contains("PRODUCT_BUNDLE_IDENTIFIER")).and_then(|line| {
        line.split('=').last().map(|s| {
            s.trim().trim_end_matches(';').trim_matches('"').to_string()
        })
    })
}

#[test]
fn identifier_of_a_settings_line() {
    let content = "// !$*UTF8*$!\n{\n\t\t\t\tPRODUCT_BUNDLE_IDENTIFIER = com.example.myapp;\n\t\t\t\tPRODUCT_NAME = MyApp;\n}\n";
    assert_eq!(bundle_identifier_in(content), Some("com.example.myapp".to_string()));
}

#[test]
fn identifier_in_quotes() {
    let content = "PRODUCT_BUNDLE_IDENTIFIER = \"com.example.my-app\";";
    assert_eq!(bundle_identifier_in(content), Some("com.example.my-app".to_string()));
}

#[test]
fn the_first_line_with_the_key_counts() {
    let content = "a = 1;\nPRODUCT_BUNDLE_IDENTIFIER = first.id;\nPRODUCT_BUNDLE_IDENTIFIER = second.id;\n";
    assert_eq!(bundle_identifier_in(content), Some("first.id".to_string()));
}

#[test]
fn no_line_with_the_key() {
    assert_eq!(bundle_identifier_in(""), None);
    assert_eq!(bundle_identifier_in("PRODUCT_NAME = MyApp;\n"), None);
    assert_eq!(bundle_identifier_in("PRODUCT_BUNDLE\n_IDENTIFIER = x;\n"), None);
}

#[test]
fn a_line_without_an_equals_sign_gives_the_line() {
    assert_eq!(
        bundle_identifier_in("  PRODUCT_BUNDLE_IDENTIFIER  "),
        Some("PRODUCT_BUNDLE_IDENTIFIER".to_string())
    );
}

#[test]
fn the_last_equals_sign_counts() {
    assert_eq!(
        bundle_identifier_in("PRODUCT_BUNDLE_IDENTIFIER = a = b;"),
        Some("b".to_string())
    );
    assert_eq!(bundle_identifier_in("PRODUCT_BUNDLE_IDENTIFIER ="), Some("".to_string()));
}

#[test]
fn carriage_returns_are_white_space() {
    let content = "x\r\nPRODUCT_BUNDLE_IDENTIFIER = com.example.myapp;\r\ny\r\n";
    assert_eq!(bundle_identifier_in(content), Some("com.example.myapp".to_string()));
}

#[test]
fn value_is_trimmed_in_order() {
    assert_eq!(value("K = v"), "v");
    assert_eq!(value("K = v;"), "v");
    assert_eq!(value("K = \"v\";"), "v");
    assert_eq!(value("K = \"v\" ;"), "v\" ");
    assert_eq!(value("K = v;;;"), "v");
    assert_eq!(value("K = ;v;"), ";v");
    assert_eq!(value("K =\t \"\"v\"\" \t"), "v");
    assert_eq!(value("no equals"), "no equals");
    assert_eq!(value(""), "");
}

#[test]
fn identifier_agrees_with_the_standard_library() {
    let contents = [
        "",
        "\n",
        "PRODUCT_BUNDLE_IDENTIFIER = com.example.myapp;",
        "a\nb\n\tPRODUCT_BUNDLE_IDENTIFIER = \"x.y\";\nc",
        "PRODUCT_BUNDLE_IDENTIFIER=plain\r\n",
        "  PRODUCT_BUNDLE_IDENTIFIER = spaced ;  \n",
        "xPRODUCT_BUNDLE_IDENTIFIERx\n",
        "PRODUCT_BUNDLE_IDENTIFIER = \"$(BASE).app\";\nPRODUCT_BUNDLE_IDENTIFIER = other;\n",
        "no key here\n= ;\n",
    ];
    for c in contents {
        assert_eq!(bundle_identifier_in(c), by_the_standard_library(c), "{:?}", c);
    }
}

#[test]
fn the_run_records_what_it_finds() {
    let config = XcrConfig::new("/Users/me/MyApp".to_string(), "CoolApp".to_string(), None).unwrap();
    let mut xcr = Xcr::new(config);
    xcr.find_bundle_identifier("PRODUCT_BUNDLE_IDENTIFIER = com.example.myapp;\n");
    assert_eq!(xcr.config().old_bundle_id(), &Some("com.example.myapp".to_string()));
    assert_eq!(xcr.config().old_name(), "MyApp");
    xcr.find_bundle_identifier("nothing\n");
    assert_eq!(xcr.config().old_bundle_id(), &None);
    xcr.record_bundle_identifier(Some("a.b".to_string()));
    assert_eq!(xcr.config().old_bundle_id(), &Some("a.b".to_string()));
}
