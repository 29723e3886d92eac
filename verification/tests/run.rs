use xcr::config::XcrConfig;
use xcr::run::Action;
use xcr::run::Event;
use xcr::run::Phase;
use xcr::run::Xcr;

fn run(new_id: Option<&str>) -> Xcr {
    Xcr::new(
        XcrConfig::new(
            "/Users/me/MyApp".to_string(),
            "CoolApp".to_string(),
            new_id.map(|s| s.to_string()),
        )
        .unwrap(),
    )
}

fn after(new_id: Option<&str>, events: &[Event]) -> (Xcr, Vec<Action>) {
    let mut xcr = run(new_id);
    let mut actions = vec![xcr.action()];
    for e in events {
        actions.push(xcr.execute(*e));
    }
    (xcr, actions)
}

#[test]
fn a_run_begins_by_validating() {
    let xcr = run(None);
    assert_eq!(xcr.phase(), Phase::Validating);
    assert_eq!(xcr.action(), Action::ValidateProject);
    assert_eq!(xcr.config().old_name(), "MyApp");
}

#[test]
fn steps_in_sequence_with_a_new_identifier() {
    let (xcr, actions) = after(Some("com.example.coolapp"), &[Event::Completed; 6]);
    assert_eq!(
        actions,
        vec![
            Action::ValidateProject,
            Action::FindBundleIdentifier,
            Action::CopyProject,
            Action::UpdateFileContents,
            Action::RenameFiles,
            Action::UpdateProjectSettings,
            Action::ReportSuccess,
        ]
    );
    assert_eq!(xcr.phase(), Phase::Done);
}

#[test]
fn settings_are_left_alone_without_a_new_identifier() {
    let (xcr, actions) = after(None, &[Event::Completed; 5]);
    assert_eq!(
        actions,
        vec![
            Action::ValidateProject,
            Action::FindBundleIdentifier,
            Action::CopyProject,
            Action::UpdateFileContents,
            Action::RenameFiles,
            Action::ReportSuccess,
        ]
    );
    assert_eq!(xcr.phase(), Phase::Done);
    assert!(!actions.contains(&Action::UpdateProjectSettings));
}

#[test]
fn an_existing_destination_is_left_untouched() {
    let (xcr, actions) =
        after(Some("x.y"), &[Event::Completed, Event::Completed, Event::DestinationExists]);
    assert_eq!(xcr.phase(), Phase::Failed);
    assert_eq!(
        actions.last(),
        Some(&Action::ReportFailure { step: Phase::Copying, cleanup_failed: false })
    );
    assert!(!actions.contains(&Action::RemoveDestination));
    assert!(!actions.contains(&Action::UpdateFileContents));
}

#[test]
fn a_failure_before_the_copy_removes_nothing() {
    let (xcr, actions) = after(None, &[Event::Failed]);
    assert_eq!(xcr.phase(), Phase::Failed);
    assert_eq!(
        actions,
        vec![
            Action::ValidateProject,
            Action::ReportFailure { step: Phase::Validating, cleanup_failed: false },
        ]
    );
    let (_, actions) = after(None, &[Event::Completed, Event::Failed]);
    assert_eq!(
        actions.last(),
        Some(&Action::ReportFailure { step: Phase::BundleIdLookup, cleanup_failed: false })
    );
    assert!(!actions.contains(&Action::RemoveDestination));
}

#[test]
fn a_failure_from_the_copy_on_removes_the_destination() {
    let steps = [
        Phase::Copying,
        Phase::RewritingContent,
        Phase::RenamingPaths,
        Phase::UpdatingSettings,
    ];
    for (k, step) in steps.iter().enumerate() {
        let mut events = vec![Event::Completed; 2 + k];
        events.push(Event::Failed);
        let (mut xcr, actions) = after(Some("x.y"), &events);
        assert_eq!(xcr.phase(), Phase::CleaningUp);
        assert_eq!(actions.last(), Some(&Action::RemoveDestination));
        assert_eq!(
            xcr.execute(Event::Completed),
            Action::ReportFailure { step: *step, cleanup_failed: false }
        );
        assert_eq!(xcr.phase(), Phase::Failed);
    }
}

#[test]
fn a_failed_removal_is_what_is_reported() {
    let (mut xcr, _) = after(None, &[Event::Completed, Event::Completed, Event::Completed, Event::Failed]);
    assert_eq!(xcr.action(), Action::RemoveDestination);
    assert_eq!(
        xcr.execute(Event::Failed),
        Action::ReportFailure { step: Phase::RewritingContent, cleanup_failed: true }
    );
}

#[test]
fn the_first_failure_skips_what_remains() {
    let (mut xcr, _) = after(Some("x.y"), &[Event::Completed, Event::Failed]);
    for e in [Event::Completed, Event::Failed, Event::DestinationExists, Event::Completed] {
        assert_eq!(
            xcr.execute(e),
            Action::ReportFailure { step: Phase::BundleIdLookup, cleanup_failed: false }
        );
        assert_eq!(xcr.phase(), Phase::Failed);
    }
}

#[test]
fn a_finished_run_stays_finished() {
    let (mut xcr, _) = after(None, &[Event::Completed; 5]);
    for e in [Event::Completed, Event::Failed, Event::DestinationExists] {
        assert_eq!(xcr.execute(e), Action::ReportSuccess);
        assert_eq!(xcr.phase(), Phase::Done);
    }
}

#[test]
fn the_run_keeps_its_configuration() {
    let (xcr, _) = after(Some("x.y"), &[Event::Completed, Event::Completed, Event::Failed]);
    assert_eq!(xcr.config().project_path(), "/Users/me/MyApp");
    assert_eq!(xcr.config().new_project_path(), "/Users/me/CoolApp");
    assert_eq!(xcr.config().new_bundle_id(), &Some("x.y".to_string()));
}
