//! Command-line modes: what the parsed arguments ask for, checked against
//! the file system.
//!
//! ```text
//! ygg <file>                       show one file
//! ygg <dir>                        show a tree + code
//! ygg <dir> --git                  add git timeline
//! ygg diff <ref1> <ref2> [path]    diff two refs (not yet implemented)
//! ```

use vstd::prelude::*;

verus! {

/// The parsed command line.
#[derive(Debug, Clone, PartialEq, Eq)]
pub struct Cli {
    /// File or directory to view; required unless a subcommand is used.
    pub path: Option<String>,
    /// Git-aware mode for a directory view.
    pub git: bool,
    pub command: Option<Command>,
}

#[derive(Debug, Clone, PartialEq, Eq)]
pub enum Command {
    /// Semantic diff between two git refs.
    Diff(DiffArgs),
}

#[derive(Debug, Clone, PartialEq, Eq)]
pub struct DiffArgs {
    pub ref1: String,
    pub ref2: String,
    pub path: Option<String>,
}

/// What the rest of the program should do.
#[derive(Debug, Clone, PartialEq, Eq)]
pub enum Mode {
    /// Show a single file.
    File { path: String },
    /// Show a directory tree and a code pane, optionally git-aware.
    Directory { path: String, git: bool },
    /// Diff between two refs.
    Diff { ref1: String, ref2: String, path: Option<String> },
}

#[derive(Debug, Clone, PartialEq, Eq)]
pub enum CliError {
    PathMissing,
    PathNotFound(String),
    ExpectedFileGotDir(String),
    DiffModeNotImplemented,
}

impl CliError {
    /// The message shown to the user.
    pub fn message(&self) -> (m: String)
        ensures
            m@ == match self {
                CliError::PathMissing => "no path given — usage: ygg <path> or ygg diff <ref1> <ref2> [path]"@,
                CliError::PathNotFound(p) => "path does not exist: "@ + p@,
                CliError::ExpectedFileGotDir(p) => "expected a file, got a directory: "@ + p@,
                CliError::DiffModeNotImplemented => "`ygg diff` mode is not yet implemented (planned for M6)"@,
            },
    {
        match self {
            CliError::PathMissing => String::from_str(
                "no path given — usage: ygg <path> or ygg diff <ref1> <ref2> [path]",
            ),
            CliError::PathNotFound(p) => String::from_str("path does not exist: ").concat(p.as_str()),
            CliError::ExpectedFileGotDir(p) => String::from_str(
                "expected a file, got a directory: ",
            ).concat(p.as_str()),
            CliError::DiffModeNotImplemented => String::from_str(
                "`ygg diff` mode is not yet implemented (planned for M6)",
            ),
        }
    }
}

/// Questions about paths on the file system, so that resolving a command
/// line can be driven by a scripted file system as well as the real one.
pub trait FsProbe {
    /// Whether something exists at path `p`.
    spec fn spec_path_exists(&self, p: Seq<char>) -> bool;

    /// Whether path `p` is a regular file.
    spec fn spec_is_file(&self, p: Seq<char>) -> bool;

    /// Whether path `p` is a directory.
    spec fn spec_is_dir(&self, p: Seq<char>) -> bool;

    fn path_exists(&self, p: &str) -> (b: bool)
        ensures
            b == self.spec_path_exists(p@),
    ;

    fn is_file(&self, p: &str) -> (b: bool)
        ensures
            b == self.spec_is_file(p@),
    ;

    fn is_dir(&self, p: &str) -> (b: bool)
        ensures
            b == self.spec_is_dir(p@),
    ;
}

/// The mode a command line resolves to, given what the file system says
/// of its path: whether it is found, is a directory, is a regular file.
/// A diff is refused; a path that exists but is neither a directory nor
/// a regular file (a broken symlink, say) is refused as not a file.
pub open spec fn resolution(cli: Cli, found: bool, is_dir: bool, is_file: bool) -> Result<Mode, CliError> {
    match cli.command {
        Some(Command::Diff(_)) => Err(CliError::DiffModeNotImplemented),
        None => match cli.path {
            None => Err(CliError::PathMissing),
            Some(p) => if !found {
                Err(CliError::PathNotFound(p))
            } else if is_dir {
                Ok(Mode::Directory { path: p, git: cli.git })
            } else if !is_file {
                Err(CliError::ExpectedFileGotDir(p))
            } else {
                Ok(Mode::File { path: p })
            },
        },
    }
}

impl Cli {
    /// Resolve against the given answers of the file system.
    pub fn resolve_with(self, found: bool, is_dir: bool, is_file: bool) -> (r: Result<Mode, CliError>)
        ensures
            r == resolution(self, found, is_dir, is_file),
    {
        if let Some(Command::Diff(_)) = self.command {
            return Err(CliError::DiffModeNotImplemented);
        }
        let path = match self.path {
            Some(p) => p,
            None => {
                return Err(CliError::PathMissing);
            },
        };
        if !found {
            return Err(CliError::PathNotFound(path));
        }
        if is_dir {
            return Ok(Mode::Directory { path, git: self.git });
        }
        if !is_file {
            return Err(CliError::ExpectedFileGotDir(path));
        }
        Ok(Mode::File { path })
    }

    /// Resolve the parsed command line into a `Mode`, asking `fs` about
    /// the path: the resolution for what `fs` says of that path. A diff
    /// and a missing path are refused without asking.
    pub fn resolve<F: FsProbe>(self, fs: &F) -> (r: Result<Mode, CliError>)
        ensures
            self.command is Some ==> r == Err::<Mode, CliError>(CliError::DiffModeNotImplemented),
            self.command is None && self.path is None ==> r == Err::<Mode, CliError>(CliError::PathMissing),
            self.command is None ==> (self.path matches Some(p) ==> r == resolution(
                self,
                fs.spec_path_exists(p@),
                fs.spec_is_dir(p@),
                fs.spec_is_file(p@),
            )),
    {
        let ghost cli = self;
        let (e, d, f) = match (&self.command, &self.path) {
            (None, Some(p)) => {
                let e = fs.path_exists(p.as_str());
                let d = e && fs.is_dir(p.as_str());
                let f = e && !d && fs.is_file(p.as_str());
                (e, d, f)
            },
            _ => (false, false, false),
        };
        let r = self.resolve_with(e, d, f);
        assert(r == resolution(cli, e, d, f));
        r
    }
}

} // verus!
