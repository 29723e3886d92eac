//! Finding the project inside a tree, and the commands that write the new
//! bundle identifier to its build settings.

use vstd::prelude::*;
use vstd::string::StringExecFns;
use crate::run::Xcr;
use crate::text::texts;

verus! {

/// Why a step that needs the project cannot go on.
#[derive(Debug, Clone, Copy, PartialEq, Eq, Structural)]
pub enum ProjectError {
    /// The source tree holds no project.
    ProjectNotFound,
    /// The project holds no settings file.
    SettingsFileNotFound,
    /// The copy holds no project.
    CopiedProjectNotFound,
}

/// A command to run: the program and its arguments.
#[derive(Debug)]
pub struct Invocation {
    pub program: String,
    pub arguments: Vec<String>,
}

/// A command, as plain text.
pub struct InvocationView {
    pub program: Seq<char>,
    pub arguments: Seq<Seq<char>>,
}

impl View for Invocation {
    type V = InvocationView;

    open spec fn view(&self) -> InvocationView {
        InvocationView { program: self.program@, arguments: texts(self.arguments@) }
    }
}

/// The commands of a list, as plain text.
pub open spec fn invocation_views(v: Seq<Invocation>) -> Seq<InvocationView> {
    Seq::new(v.len(), |i: int| v[i]@)
}

/// The pattern for the project directly under `root`.
pub open spec fn project_pattern_under(root: Seq<char>) -> Seq<char> {
    root + "/*.xcodeproj"@
}

/// The pattern for the settings file of the project directly under `root`.
pub open spec fn settings_pattern_under(root: Seq<char>) -> Seq<char> {
    root + "/*.xcodeproj/project.pbxproj"@
}

/// The build setting that gives the product the bundle identifier `id`.
pub open spec fn bundle_id_setting(id: Seq<char>) -> Seq<char> {
    "PRODUCT_BUNDLE_IDENTIFIER="@ + id
}

/// The commands that write the bundle identifier `id` to the settings of
/// the project at `project`: the developer directory is selected, then the
/// build tool is run on the project with the identifier as a setting.
pub open spec fn settings_commands(project: Seq<char>, id: Seq<char>) -> Seq<InvocationView> {
    seq![
        InvocationView {
            program: "sudo"@,
            arguments: seq![
                "xcode-select"@,
                "-s"@,
                "/Applications/Xcode.app/Contents/Developer"@,
            ],
        },
        InvocationView {
            program: "xcodebuild"@,
            arguments: seq!["-project"@, project, bundle_id_setting(id)],
        },
    ]
}

/// What is found first, or `missing` where nothing was found.
fn first_found(found: &Vec<String>, missing: ProjectError) -> (r: Result<String, ProjectError>)
    ensures
        match r {
            Ok(p) => found.len() > 0 && p@ == found@[0]@,
            Err(e) => found.len() == 0 && e == missing,
        },
{
    if found.len() == 0 {
        Err(missing)
    } else {
        Ok(found[0].clone())
    }
}

impl Xcr {
    /// The pattern for the project in the source tree.
    pub fn project_pattern(&self) -> (r: String)
        ensures
            r@ == project_pattern_under(self.config_view().project_path),
    {
        let mut r = self.config().project_path().clone();
        r.append("/*.xcodeproj");
        r
    }

    /// The pattern for the settings file of the project in the source tree.
    pub fn settings_file_pattern(&self) -> (r: String)
        ensures
            r@ == settings_pattern_under(self.config_view().project_path),
    {
        let mut r = self.config().project_path().clone();
        r.append("/*.xcodeproj/project.pbxproj");
        r
    }

    /// The pattern for the project in the copy.
    pub fn copied_project_pattern(&self) -> (r: String)
        ensures
            r@ == project_pattern_under(self.config_view().new_project_path),
    {
        let mut r = self.config().new_project_path().clone();
        r.append("/*.xcodeproj");
        r
    }

    /// The project of the source tree: the first of the paths `found` that
    /// match the project pattern. A tree without a project is a failure.
    pub fn validate_project(&self, found: &Vec<String>) -> (r: Result<String, ProjectError>)
        ensures
            match r {
                Ok(p) => found.len() > 0 && p@ == found@[0]@,
                Err(e) => found.len() == 0 && e == ProjectError::ProjectNotFound,
            },
    {
        first_found(found, ProjectError::ProjectNotFound)
    }

    /// The settings file of the project: the first of the paths `found`
    /// that match the pattern for it. A project without one is a failure.
    pub fn settings_file(&self, found: &Vec<String>) -> (r: Result<String, ProjectError>)
        ensures
            match r {
                Ok(p) => found.len() > 0 && p@ == found@[0]@,
                Err(e) => found.len() == 0 && e == ProjectError::SettingsFileNotFound,
            },
    {
        first_found(found, ProjectError::SettingsFileNotFound)
    }

    /// The commands that write the new bundle identifier to the build
    /// settings of the copied project, the first of the paths `found` that
    /// match the pattern for it.
    ///
    /// Where no new identifier was asked for there is nothing to run,
    /// whatever was found. Where one was, a copy without a project is a
    /// failure.
    pub fn update_project_settings(&self, found: &Vec<String>) -> (r: Result<
        Vec<Invocation>,
        ProjectError,
    >)
        ensures
            match r {
                Ok(commands) => match self.config_view().new_bundle_id {
                    None => commands.len() == 0,
                    Some(id) => found.len() > 0 && invocation_views(commands@)
                        == settings_commands(found@[0]@, id),
                },
                Err(e) => self.config_view().new_bundle_id is Some && found.len() == 0 && e
                    == ProjectError::CopiedProjectNotFound,
            },
    {
        let mut commands: Vec<Invocation> = Vec::new();
        match self.config().new_bundle_id() {
            None => Ok(commands),
            Some(id) => {
                if found.len() == 0 {
                    return Err(ProjectError::CopiedProjectNotFound);
                }
                let mut select: Vec<String> = Vec::new();
                select.push("xcode-select".to_string());
                select.push("-s".to_string());
                select.push("/Applications/Xcode.app/Contents/Developer".to_string());
                let mut setting = "PRODUCT_BUNDLE_IDENTIFIER=".to_string();
                setting.append(id.as_str());
                let mut build: Vec<String> = Vec::new();
                build.push("-project".to_string());
                build.push(found[0].clone());
                build.push(setting);
                assert(texts(select@) =~= settings_commands(found@[0]@, id@)[0].arguments);
                assert(texts(build@) =~= settings_commands(found@[0]@, id@)[1].arguments);
                commands.push(Invocation { program: "sudo".to_string(), arguments: select });
                commands.push(Invocation { program: "xcodebuild".to_string(), arguments: build });
                assert(invocation_views(commands@) =~= settings_commands(found@[0]@, id@));
                Ok(commands)
            },
        }
    }

    /// The failure `e` in words.
    pub fn describe(&self, e: ProjectError) -> (r: String)
        ensures
            r@ == match e {
                ProjectError::ProjectNotFound => "No .xcodeproj found in "@
                    + self.config_view().project_path,
                ProjectError::SettingsFileNotFound => "Could not find project.pbxproj"@,
                ProjectError::CopiedProjectNotFound => "No .xcodeproj found"@,
            },
    {
        match e {
            ProjectError::ProjectNotFound => {
                let mut r = "No .xcodeproj found in ".to_string();
                r.append(self.config().project_path().as_str());
                r
            },
            ProjectError::SettingsFileNotFound => "Could not find project.pbxproj".to_string(),
            ProjectError::CopiedProjectNotFound => "No .xcodeproj found".to_string(),
        }
    }
}

} // verus!
