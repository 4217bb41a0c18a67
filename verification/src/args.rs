//! The caller-facing configuration values: output format, workspace
//! detection mode, traversal level, and the assembled argument record.
//! Parsing a command line into these is the surrounding program's business.

use vstd::prelude::*;

use crate::errors::Error;

verus! {

/// Which diagram language to emit.
#[derive(Clone, Copy)]
pub enum OutputFormat {
    C4,
    Graphviz,
}

/// Whether to read the manifest as a workspace, as a single package, or to
/// decide from what the manifest holds.
#[derive(Clone, Copy)]
pub enum DetectWorkspace {
    Yes,
    No,
    Auto,
}

/// What a traversal starts from: the module tree of one named crate, or
/// every crate of the metadata map in turn.
pub enum Level {
    Module { crate_name: String },
    Crate,
}

/// The caller's choices for one invocation.
pub struct Args {
    pub project_path: String,
    pub output_path: String,
    pub output_format: OutputFormat,
    pub detect_workspace: DetectWorkspace,
    pub filter: Option<String>,
}

/// Which adapter an invocation runs.
pub enum ParseMode {
    Workspace,
    Package,
}

/// Decides, from the detection mode and what the manifest holds, whether to
/// parse a workspace or a package, or which error to report.
pub fn select_parse_mode(detect: &DetectWorkspace, has_workspace: bool, has_package: bool) -> (r:
    Result<ParseMode, Error>)
    ensures
        r == (match *detect {
            DetectWorkspace::Yes => if has_workspace {
                Result::<ParseMode, Error>::Ok(ParseMode::Workspace)
            } else {
                Result::<ParseMode, Error>::Err(Error::NoWorkspaceFound)
            },
            DetectWorkspace::No => if has_package {
                Result::<ParseMode, Error>::Ok(ParseMode::Package)
            } else {
                Result::<ParseMode, Error>::Err(Error::NoPackageFound)
            },
            DetectWorkspace::Auto => if has_workspace {
                Result::<ParseMode, Error>::Ok(ParseMode::Workspace)
            } else if has_package {
                Result::<ParseMode, Error>::Ok(ParseMode::Package)
            } else {
                Result::<ParseMode, Error>::Err(Error::NoPackageFound)
            },
        }),
{
    match detect {
        DetectWorkspace::Yes => {
            if has_workspace {
                Ok(ParseMode::Workspace)
            } else {
                Err(Error::NoWorkspaceFound)
            }
        },
        DetectWorkspace::No => {
            if has_package {
                Ok(ParseMode::Package)
            } else {
                Err(Error::NoPackageFound)
            }
        },
        DetectWorkspace::Auto => {
            if has_workspace {
                Ok(ParseMode::Workspace)
            } else if has_package {
                Ok(ParseMode::Package)
            } else {
                Err(Error::NoPackageFound)
            }
        },
    }
}

} // verus!
