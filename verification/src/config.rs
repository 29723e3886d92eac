//! The configuration of one run: where the project is, what it is called,
//! and what it is to be called.

use vstd::prelude::*;
use crate::path::file_name;
use crate::path::parent;
use crate::path::joined;
use crate::path::file_name_of;
use crate::path::parent_of;
use crate::path::join;
use crate::text::to_chars;

verus! {

/// What a configuration holds, as plain text.
pub struct ConfigView {
    pub project_path: Seq<char>,
    pub old_name: Seq<char>,
    pub new_name: Seq<char>,
    pub old_bundle_id: Option<Seq<char>>,
    pub new_bundle_id: Option<Seq<char>>,
    pub new_project_path: Seq<char>,
}

/// Why a project path gives no configuration.
#[derive(Debug, Clone, Copy, PartialEq, Eq, Structural)]
pub enum ConfigError {
    /// The path has no final name that could be a directory's.
    InvalidProjectPath,
    /// The path has no directory part to put the copy in.
    NoParentDirectory,
}

/// The text of an optional string.
pub open spec fn text_of(o: Option<String>) -> Option<Seq<char>> {
    match o {
        Some(s) => Some(s@),
        None => None,
    }
}

/// A name that a directory can have: not empty, and neither `.` nor `..`.
pub open spec fn is_entry_name(name: Seq<char>) -> bool {
    &&& name.len() > 0
    &&& name != seq!['.']
    &&& name != seq!['.', '.']
}

/// The configuration for a project at `project_path`, or why there is none.
///
/// The old name is the path's final name; the copy goes beside the project,
/// under the new name.
pub open spec fn resolved(
    project_path: Seq<char>,
    new_name: Seq<char>,
    new_bundle_id: Option<Seq<char>>,
) -> Result<ConfigView, ConfigError> {
    if !is_entry_name(file_name(project_path)) {
        Err(ConfigError::InvalidProjectPath)
    } else {
        match parent(project_path) {
            None => Err(ConfigError::NoParentDirectory),
            Some(dir) => Ok(
                ConfigView {
                    project_path,
                    old_name: file_name(project_path),
                    new_name,
                    old_bundle_id: None,
                    new_bundle_id,
                    new_project_path: joined(dir, new_name),
                },
            ),
        }
    }
}

impl ConfigView {
    /// The old name comes from the project path and the destination lies
    /// beside the project.
    pub open spec fn well_formed(self) -> bool {
        &&& is_entry_name(self.old_name)
        &&& self.old_name == file_name(self.project_path)
        &&& parent(self.project_path) is Some
        &&& self.new_project_path == joined(parent(self.project_path)->0, self.new_name)
    }
}

/// Where the project is, its old and new name, and its old and new bundle
/// identifier.
#[derive(Debug)]
pub struct XcrConfig {
    project_path: String,
    old_name: String,
    new_name: String,
    old_bundle_id: Option<String>,
    new_bundle_id: Option<String>,
    new_project_path: String,
}

impl View for XcrConfig {
    type V = ConfigView;

    closed spec fn view(&self) -> ConfigView {
        ConfigView {
            project_path: self.project_path@,
            old_name: self.old_name@,
            new_name: self.new_name@,
            old_bundle_id: text_of(self.old_bundle_id),
            new_bundle_id: text_of(self.new_bundle_id),
            new_project_path: self.new_project_path@,
        }
    }
}

impl ConfigError {
    /// The failure in words.
    pub fn message(&self) -> (r: String)
        ensures
            r@ == match *self {
                ConfigError::InvalidProjectPath => "Invalid project path"@,
                ConfigError::NoParentDirectory => "Project path has no parent directory"@,
            },
    {
        match self {
            ConfigError::InvalidProjectPath => "Invalid project path".to_string(),
            ConfigError::NoParentDirectory => "Project path has no parent directory".to_string(),
        }
    }
}

impl XcrConfig {
    #[verifier::type_invariant]
    spec fn inv(&self) -> bool {
        self@.well_formed()
    }

    /// The configuration for the project at the resolved path `project_path`.
    ///
    /// Fails where the path has no usable final name, and where it has no
    /// directory part. No bundle identifier has been discovered yet.
    pub fn new(project_path: String, new_name: String, new_bundle_id: Option<String>) -> (r:
        Result<XcrConfig, ConfigError>)
        ensures
            match r {
                Ok(c) => resolved(project_path@, new_name@, text_of(new_bundle_id)) == Ok::<
                    ConfigView,
                    ConfigError,
                >(c@),
                Err(e) => resolved(project_path@, new_name@, text_of(new_bundle_id)) == Err::<
                    ConfigView,
                    ConfigError,
                >(e),
            },
    {
        let old_name = file_name_of(project_path.as_str());
        let n = to_chars(old_name.as_str());
        if n.len() == 0 || (n.len() == 1 && n[0] == '.') || (n.len() == 2 && n[0] == '.' && n[1]
            == '.') {
            proof {
                if n.len() == 1 {
                    assert(n@ =~= seq!['.']);
                }
                if n.len() == 2 {
                    assert(n@ =~= seq!['.', '.']);
                }
            }
            return Err(ConfigError::InvalidProjectPath);
        }
        match parent_of(project_path.as_str()) {
            None => Err(ConfigError::NoParentDirectory),
            Some(dir) => {
                let new_project_path = join(dir.as_str(), new_name.as_str());
                Ok(
                    XcrConfig {
                        project_path,
                        old_name,
                        new_name,
                        old_bundle_id: None,
                        new_bundle_id,
                        new_project_path,
                    },
                )
            },
        }
    }

    /// The resolved path of the project that is copied.
    pub fn project_path(&self) -> (r: &String)
        ensures
            r@ == self@.project_path,
    {
        &self.project_path
    }

    /// The project's present name: never empty.
    pub fn old_name(&self) -> (r: &String)
        ensures
            r@ == self@.old_name,
            self@.well_formed(),
    {
        proof {
            use_type_invariant(self);
        }
        &self.old_name
    }

    /// The name that the copy gets.
    pub fn new_name(&self) -> (r: &String)
        ensures
            r@ == self@.new_name,
    {
        &self.new_name
    }

    /// The bundle identifier found in the project, if one was.
    pub fn old_bundle_id(&self) -> (r: &Option<String>)
        ensures
            text_of(*r) == self@.old_bundle_id,
    {
        &self.old_bundle_id
    }

    /// The bundle identifier asked for, if one was.
    pub fn new_bundle_id(&self) -> (r: &Option<String>)
        ensures
            text_of(*r) == self@.new_bundle_id,
    {
        &self.new_bundle_id
    }

    /// Where the copy goes: beside the project, under the new name.
    pub fn new_project_path(&self) -> (r: &String)
        ensures
            r@ == self@.new_project_path,
            self@.well_formed(),
    {
        proof {
            use_type_invariant(self);
        }
        &self.new_project_path
    }

    /// Records the bundle identifier found in the project, or that none was.
    pub fn set_old_bundle_id(&mut self, id: Option<String>)
        ensures
            final(self)@ == (ConfigView { old_bundle_id: text_of(id), ..old(self)@ }),
        no_unwind
    {
        proof {
            use_type_invariant(&*self);
        }
        self.old_bundle_id = id;
    }
}

} // verus!
