use vstd::prelude::*;

pub mod aggregate;
pub mod controller;
pub mod language;
pub mod markers;
pub mod matcher;
pub mod paths;
pub mod project;

verus! {

/// One build or cache directory found under a project root, with its
/// recursive size in bytes.
#[derive(Clone, Debug)]
pub struct ProjectDir {
    pub dir: ProjectTypes,
    pub size: u64,
}

/// The closed vocabulary of recognized build/cache directory names.
#[derive(Clone, Copy, Debug, PartialEq, Eq, Structural)]
pub enum ProjectTypes {
    Git,
    NodeModules,
    Target,
    _Build,
    Build,
    Dist,
    Vendor,
    Out,
    ZigOut,
}

/// A discovered project with its classified build directories.
#[derive(Debug)]
pub struct Project {
    pub name: String,
    pub path: String,
    pub full_build_size: u64,
    pub has_build_dirs: bool,
    pub build_dirs: Vec<ProjectDir>,
    pub language: String,
}

/// The scan's failure outcomes.
#[derive(Debug)]
pub enum AppError {
    IoError(String),
    NoneError(()),
    Cancel(String),
}

impl From<()> for AppError {
    fn from(value: ()) -> (r: Self) {
        AppError::NoneError(value)
    }
}

impl vstd::std_specs::convert::FromSpecImpl<()> for AppError {
    open spec fn obeys_from_spec() -> bool {
        true
    }

    open spec fn from_spec(value: ()) -> Self {
        AppError::NoneError(value)
    }
}

} // verus!
