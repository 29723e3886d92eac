use xcr::config::XcrConfig;
use xcr::rewrite::left_alone;
use xcr::rewrite::TextFile;
use xcr::run::Xcr;

fn run(new_id: Option<&str>, old_id: Option<&str>) -> Xcr {
    let config = XcrConfig::new(
        "/Users/me/MyApp".to_string(),
        "CoolApp".to_string(),
        new_id.map(|s| s.to_string()),
    )
    .unwrap();
    let mut xcr = Xcr::new(config);
    xcr.record_bundle_identifier(old_id.map(|s| s.to_string()));
    xcr
}

fn file(path: &str, content: &str) -> TextFile {
    TextFile { path: path.to_string(), content: content.to_string() }
}

#[test]
fn patterns_cover_every_kind_of_file() {
    let xcr = run(None, None);
    assert_eq!(
        xcr.content_patterns(),
        vec![
            "/Users/me/CoolApp/**/*.xcodeproj/project.pbxproj",
            "/Users/me/CoolApp/**/*.xcworkspace/contents.xcworkspacedata",
            "/Users/me/CoolApp/**/*.plist",
            "/Users/me/CoolApp/**/*.swift",
            "/Users/me/CoolApp/**/*.h",
            "/Users/me/CoolApp/**/*.m",
            "/Users/me/CoolApp/**/*.storyboard",
            "/Users/me/CoolApp/**/*.xib",
            "/Users/me/CoolApp/**/*.xcscheme",
        ]
    );
}

#[test]
fn name_is_replaced_everywhere() {
    let xcr = run(None, None);
    assert_eq!(
        xcr.rewrite_content("import MyApp\nclass MyAppDelegate {}\n"),
        Some("import CoolApp\nclass CoolAppDelegate {}\n".to_string())
    );
}

#[test]
fn content_without_the_name_is_not_rewritten() {
    let xcr = run(Some("com.example.coolapp"), Some("com.example.myapp"));
    assert_eq!(xcr.rewrite_content("let x = 1\n"), None);
    assert_eq!(xcr.rewrite_content(""), None);
    assert_eq!(xcr.rewrite_content("myapp MYAPP My App"), None);
}

#[test]
fn identifier_line_stays_without_a_new_identifier() {
    let xcr = run(None, Some("com.example.myapp"));
    let line = "PRODUCT_BUNDLE_IDENTIFIER = com.example.myapp;";
    assert_eq!(xcr.rewrite_content(line), None);
    assert_eq!(
        xcr.rewrite_content("PRODUCT_NAME = MyApp;\nPRODUCT_BUNDLE_IDENTIFIER = com.example.myapp;"),
        Some("PRODUCT_NAME = CoolApp;\nPRODUCT_BUNDLE_IDENTIFIER = com.example.myapp;".to_string())
    );
}

#[test]
fn identifier_stays_where_none_was_found() {
    let xcr = run(Some("com.example.coolapp"), None);
    assert_eq!(xcr.rewrite_content("PRODUCT_BUNDLE_IDENTIFIER = com.example.myapp;"), None);
    assert_eq!(
        xcr.rewrite_content("MyApp com.example.myapp"),
        Some("CoolApp com.example.myapp".to_string())
    );
}

#[test]
fn identifier_is_replaced_where_both_are_known() {
    let xcr = run(Some("com.example.coolapp"), Some("com.example.myapp"));
    assert_eq!(
        xcr.rewrite_content("PRODUCT_BUNDLE_IDENTIFIER = com.example.myapp;"),
        Some("PRODUCT_BUNDLE_IDENTIFIER = com.example.coolapp;".to_string())
    );
}

#[test]
fn name_is_replaced_before_the_identifier() {
    let xcr = run(Some("org.new"), Some("com.MyApp"));
    assert_eq!(xcr.rewrite_content("id com.MyApp"), Some("id com.CoolApp".to_string()));
    let xcr = run(Some("org.new"), Some("com.CoolApp"));
    assert_eq!(xcr.rewrite_content("id com.MyApp"), Some("id org.new".to_string()));
}

#[test]
fn replacement_is_literal_inside_words() {
    let xcr = run(None, None);
    assert_eq!(xcr.rewrite_content("xMyAppy"), Some("xCoolAppy".to_string()));
}

#[test]
fn only_changed_files_are_written() {
    let xcr = run(None, None);
    let files = vec![
        file("/Users/me/CoolApp/a.swift", "import MyApp"),
        file("/Users/me/CoolApp/b.swift", "import Foundation"),
        file("/Users/me/CoolApp/Info.plist", "<string>MyApp</string>"),
        file("/Users/me/CoolApp/c.h", ""),
    ];
    let written = xcr.update_file_contents(&files);
    assert_eq!(written.len(), 2);
    assert_eq!(written[0].path, "/Users/me/CoolApp/a.swift");
    assert_eq!(written[0].content, "import CoolApp");
    assert_eq!(written[1].path, "/Users/me/CoolApp/Info.plist");
    assert_eq!(written[1].content, "<string>CoolApp</string>");
}

#[test]
fn a_hidden_file_that_holds_the_name_is_left_alone() {
    let xcr = run(None, None);
    let files = vec![
        file("/Users/me/CoolApp/.MyApp.swift", "import MyApp"),
        file("/Users/me/CoolApp/.MyApp.plist", "MyApp"),
        file("/Users/me/CoolApp/.hidden/MyApp.swift", "import MyApp"),
        file("/Users/me/CoolApp/.other.swift", "import MyApp"),
    ];
    let written = xcr.update_file_contents(&files);
    assert_eq!(written.len(), 2);
    assert_eq!(written[0].path, "/Users/me/CoolApp/.hidden/MyApp.swift");
    assert_eq!(written[0].content, "import CoolApp");
    assert_eq!(written[1].path, "/Users/me/CoolApp/.other.swift");
    assert!(left_alone("/x/.MyApp.swift", &"MyApp".chars().collect()));
    assert!(!left_alone("/x/MyApp.swift", &"MyApp".chars().collect()));
    assert!(!left_alone("/x/.App.swift", &"MyApp".chars().collect()));
    assert!(!left_alone("/.MyApp/x.swift", &"MyApp".chars().collect()));
}

#[test]
fn nothing_to_write() {
    let xcr = run(None, None);
    assert_eq!(xcr.update_file_contents(&Vec::new()).len(), 0);
    let files = vec![file("/x/a.swift", "a"), file("/x/b.swift", "b")];
    assert_eq!(xcr.update_file_contents(&files).len(), 0);
}

#[test]
fn rewriting_what_was_rewritten_changes_nothing() {
    let xcr = run(Some("com.example.coolapp"), Some("com.example.myapp"));
    let files = vec![file("/x/project.pbxproj", "MyApp com.example.myapp MyApp")];
    let written = xcr.update_file_contents(&files);
    assert_eq!(written.len(), 1);
    assert_eq!(written[0].content, "CoolApp com.example.coolapp CoolApp");
    assert_eq!(xcr.update_file_contents(&written).len(), 0);
}
