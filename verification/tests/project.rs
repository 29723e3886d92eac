use xcr::config::XcrConfig;
use xcr::project::ProjectError;
use xcr::run::Xcr;

fn run(new_id: Option<&str>) -> Xcr {
    Xcr::new(
        XcrConfig::new(
            "/Users/me/MyApp".to_string(),
            "CoolApp".to_string(),
            new_id.map(|s| s.to_string()),
        )
        .unwrap(),
    )
}

fn paths(v: &[&str]) -> Vec<String> {
    v.iter().map(|s| s.to_string()).collect()
}

#[test]
fn patterns_for_the_project() {
    let xcr = run(None);
    assert_eq!(xcr.project_pattern(), "/Users/me/MyApp/*.xcodeproj");
    assert_eq!(xcr.settings_file_pattern(), "/Users/me/MyApp/*.xcodeproj/project.pbxproj");
    assert_eq!(xcr.copied_project_pattern(), "/Users/me/CoolApp/*.xcodeproj");
}

#[test]
fn the_first_project_found_is_the_project() {
    let xcr = run(None);
    let found = paths(&["/Users/me/MyApp/MyApp.xcodeproj", "/Users/me/MyApp/Other.xcodeproj"]);
    assert_eq!(xcr.validate_project(&found), Ok("/Users/me/MyApp/MyApp.xcodeproj".to_string()));
    assert_eq!(xcr.settings_file(&found), Ok("/Users/me/MyApp/MyApp.xcodeproj".to_string()));
}

#[test]
fn a_tree_without_a_project_is_a_failure() {
    let xcr = run(None);
    assert_eq!(xcr.validate_project(&Vec::new()), Err(ProjectError::ProjectNotFound));
    assert_eq!(xcr.settings_file(&Vec::new()), Err(ProjectError::SettingsFileNotFound));
}

#[test]
fn no_commands_without_a_new_identifier() {
    let xcr = run(None);
    assert_eq!(xcr.update_project_settings(&Vec::new()).unwrap().len(), 0);
    let found = paths(&["/Users/me/CoolApp/CoolApp.xcodeproj"]);
    assert_eq!(xcr.update_project_settings(&found).unwrap().len(), 0);
}

#[test]
fn commands_for_a_new_identifier() {
    let xcr = run(Some("com.example.coolapp"));
    let found = paths(&["/Users/me/CoolApp/CoolApp.xcodeproj"]);
    let commands = xcr.update_project_settings(&found).unwrap();
    assert_eq!(commands.len(), 2);
    assert_eq!(commands[0].program, "sudo");
    assert_eq!(
        commands[0].arguments,
        paths(&["xcode-select", "-s", "/Applications/Xcode.app/Contents/Developer"])
    );
    assert_eq!(commands[1].program, "xcodebuild");
    assert_eq!(
        commands[1].arguments,
        paths(&[
            "-project",
            "/Users/me/CoolApp/CoolApp.xcodeproj",
            "PRODUCT_BUNDLE_IDENTIFIER=com.example.coolapp",
        ])
    );
}

#[test]
fn a_copy_without_a_project_is_a_failure() {
    let xcr = run(Some("com.example.coolapp"));
    assert_eq!(
        xcr.update_project_settings(&Vec::new()).unwrap_err(),
        ProjectError::CopiedProjectNotFound
    );
}

#[test]
fn failures_in_words() {
    let xcr = run(None);
    assert_eq!(xcr.describe(ProjectError::ProjectNotFound), "No .xcodeproj found in /Users/me/MyApp");
    assert_eq!(xcr.describe(ProjectError::SettingsFileNotFound), "Could not find project.pbxproj");
    assert_eq!(xcr.describe(ProjectError::CopiedProjectNotFound), "No .xcodeproj found");
}
