use xcr::config::XcrConfig;
use xcr::rename::rename_path;
use xcr::rename::renameable;
use xcr::rename::sort_longest_first;
use xcr::run::Xcr;

fn run_with(old_path: &str, new_name: &str) -> Xcr {
    Xcr::new(XcrConfig::new(old_path.to_string(), new_name.to_string(), None).unwrap())
}

fn run() -> Xcr {
    run_with("/Users/me/MyApp", "CoolApp")
}

fn paths(v: &[&str]) -> Vec<String> {
    v.iter().map(|s| s.to_string()).collect()
}

fn chars(s: &str) -> Vec<char> {
    s.chars().collect()
}

#[test]
fn final_name_decides() {
    let old = chars("MyApp");
    assert!(renameable("/x/CoolApp/MyApp.swift", &old));
    assert!(renameable("/x/CoolApp/MyApp", &old));
    assert!(renameable("/x/CoolApp/TheMyAppTests", &old));
    assert!(!renameable("/x/MyApp/main.swift", &old));
    assert!(!renameable("/x/CoolApp/myapp.swift", &old));
    assert!(!renameable("/x/CoolApp/", &old));
}

#[test]
fn hidden_names_are_not_renamed() {
    let old = chars("MyApp");
    assert!(!renameable("/x/CoolApp/.MyApp", &old));
    assert!(!renameable("/x/CoolApp/.MyApp.swift", &old));
    assert!(!renameable(".MyApp", &old));
    assert!(renameable("/x/.hidden/MyApp.swift", &old));
    assert!(renameable("/x/CoolApp/My.MyApp", &old));
}

#[test]
fn only_the_final_name_is_renamed() {
    let old = chars("MyApp");
    let new = chars("CoolApp");
    assert_eq!(rename_path("/x/MyApp/MyApp.swift", &old, &new), "/x/MyApp/CoolApp.swift");
    assert_eq!(rename_path("/x/MyApp/MyAppMyApp", &old, &new), "/x/MyApp/CoolAppCoolApp");
    assert_eq!(rename_path("MyApp.xcodeproj", &old, &new), "CoolApp.xcodeproj");
    assert_eq!(rename_path("/x/MyApp/main.swift", &old, &new), "/x/MyApp/main.swift");
}

#[test]
fn collect_keeps_the_order_of_the_listing() {
    let entries = paths(&[
        "/Users/me/CoolApp/MyApp.xcodeproj",
        "/Users/me/CoolApp/MyApp.xcodeproj/project.pbxproj",
        "/Users/me/CoolApp/.MyApp",
        "/Users/me/CoolApp/MyApp",
        "/Users/me/CoolApp/MyApp/MyAppDelegate.swift",
        "/Users/me/CoolApp/MyApp/main.swift",
        "/Users/me/CoolApp/README.md",
    ]);
    assert_eq!(
        run().collect_items_to_rename(&entries),
        paths(&[
            "/Users/me/CoolApp/MyApp.xcodeproj",
            "/Users/me/CoolApp/MyApp",
            "/Users/me/CoolApp/MyApp/MyAppDelegate.swift",
        ])
    );
}

#[test]
fn longest_path_first() {
    let sorted = sort_longest_first(&paths(&["/a", "/a/bb/ccc", "/a/bb", "/a/bb/c"]));
    assert_eq!(sorted, paths(&["/a/bb/ccc", "/a/bb/c", "/a/bb", "/a"]));
}

#[test]
fn paths_of_one_length_keep_their_order() {
    let sorted = sort_longest_first(&paths(&["/b1", "/a1", "/c22", "/a2", "/b22", "/x"]));
    assert_eq!(sorted, paths(&["/c22", "/b22", "/b1", "/a1", "/a2", "/x"]));
}

#[test]
fn length_is_counted_in_bytes() {
    let sorted = sort_longest_first(&paths(&["/abc", "/éé", "/日本"]));
    assert_eq!(sorted, paths(&["/日本", "/éé", "/abc"]));
}

#[test]
fn sorting_agrees_with_the_standard_library() {
    let items = paths(&["/x/MyApp", "/x/MyApp/MyApp.swift", "/x/MyAppTests", "/x/MyApp.xcodeproj", "/x/a/MyApp", "/x/b/MyApp"]);
    let mut expected = items.clone();
    expected.sort_by(|a, b| b.len().cmp(&a.len()));
    assert_eq!(sort_longest_first(&items), expected);
    assert_eq!(sort_longest_first(&Vec::new()), Vec::<String>::new());
}

#[test]
fn nested_directory_and_file_are_both_renamed_inside_first() {
    let entries = paths(&[
        "/Users/me/CoolApp/MyApp",
        "/Users/me/CoolApp/MyApp/MyApp.swift",
    ]);
    let plan = run().rename_files_in_new_project(&entries);
    assert_eq!(plan.len(), 2);
    assert_eq!(plan[0].from, "/Users/me/CoolApp/MyApp/MyApp.swift");
    assert_eq!(plan[0].to, "/Users/me/CoolApp/MyApp/CoolApp.swift");
    assert_eq!(plan[1].from, "/Users/me/CoolApp/MyApp");
    assert_eq!(plan[1].to, "/Users/me/CoolApp/CoolApp");
}

#[test]
fn no_source_lies_below_an_earlier_source() {
    let entries = paths(&[
        "/r/MyApp",
        "/r/MyApp/MyApp",
        "/r/MyApp/MyApp/MyApp",
        "/r/MyApp/MyApp/MyApp/MyApp.swift",
        "/r/MyApp.xcodeproj",
        "/r/MyApp.xcodeproj/MyApp.xcscheme",
        "/r/other/MyApp.h",
    ]);
    let plan = run().rename_files_in_new_project(&entries);
    assert_eq!(plan.len(), 7);
    for i in 0..plan.len() {
        for j in (i + 1)..plan.len() {
            let below = format!("{}/", plan[i].from);
            assert!(!plan[j].from.starts_with(&below), "{} after {}", plan[j].from, plan[i].from);
            assert!(plan[i].from.len() >= plan[j].from.len());
        }
    }
}

#[test]
fn hidden_entry_is_never_a_source() {
    let entries = paths(&["/r/.MyApp", "/r/.MyApp/MyApp.swift", "/r/.MyApp.swift"]);
    let plan = run().rename_files_in_new_project(&entries);
    assert_eq!(plan.len(), 1);
    assert_eq!(plan[0].from, "/r/.MyApp/MyApp.swift");
    assert_eq!(plan[0].to, "/r/.MyApp/CoolApp.swift");
}

#[test]
fn renaming_again_does_nothing() {
    let entries = paths(&["/r/MyApp", "/r/MyApp/MyApp.swift", "/r/MyApp.xcodeproj"]);
    let xcr = run();
    let plan = xcr.rename_files_in_new_project(&entries);
    assert_eq!(plan.len(), 3);
    let after = paths(&["/r/CoolApp", "/r/CoolApp/CoolApp.swift", "/r/CoolApp.xcodeproj"]);
    assert_eq!(xcr.rename_files_in_new_project(&after).len(), 0);
    assert_eq!(xcr.collect_items_to_rename(&after).len(), 0);
}

#[test]
fn a_new_name_that_holds_the_old_one_is_renamed_again() {
    let xcr = run_with("/Users/me/App", "MyApp");
    let plan = xcr.rename_files_in_new_project(&paths(&["/r/App.swift"]));
    assert_eq!(plan[0].to, "/r/MyApp.swift");
    let again = xcr.rename_files_in_new_project(&paths(&["/r/MyApp.swift"]));
    assert_eq!(again.len(), 1);
    assert_eq!(again[0].to, "/r/MyMyApp.swift");
}

#[test]
fn nothing_to_rename() {
    let xcr = run();
    assert_eq!(xcr.rename_files_in_new_project(&Vec::new()).len(), 0);
    assert_eq!(xcr.rename_files_in_new_project(&paths(&["/r/a", "/r/b/c"])).len(), 0);
}
