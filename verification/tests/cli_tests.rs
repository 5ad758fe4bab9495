use std::collections::HashSet;
use ygg::cli::{Cli, CliError, Command, DiffArgs, FsProbe, Mode};

struct ScriptedFs {
    files: HashSet<String>,
    dirs: HashSet<String>,
}

impl ScriptedFs {
    fn new(files: &[&str], dirs: &[&str]) -> Self {
        Self {
            files: files.iter().map(|s| s.to_string()).collect(),
            dirs: dirs.iter().map(|s| s.to_string()).collect(),
        }
    }
}

impl FsProbe for ScriptedFs {
    fn spec_path_exists(&self, _: vstd::seq::Seq<char>) -> bool {
        unreachable!("asked only in proofs")
    }
    fn spec_is_file(&self, _: vstd::seq::Seq<char>) -> bool {
        unreachable!("asked only in proofs")
    }
    fn spec_is_dir(&self, _: vstd::seq::Seq<char>) -> bool {
        unreachable!("asked only in proofs")
    }
    fn path_exists(&self, p: &str) -> bool {
        self.files.contains(p) || self.dirs.contains(p)
    }
    fn is_file(&self, p: &str) -> bool {
        self.files.contains(p)
    }
    fn is_dir(&self, p: &str) -> bool {
        self.dirs.contains(p)
    }
}

fn cli(path: Option<&str>, git: bool) -> Cli {
    Cli { path: path.map(|p| p.to_string()), git, command: None }
}

#[test]
fn resolve_file_ok() {
    let fs = ScriptedFs::new(&["hello.py"], &[]);
    assert_eq!(cli(Some("hello.py"), false).resolve(&fs), Ok(Mode::File { path: "hello.py".to_string() }));
}

#[test]
fn resolve_missing_path() {
    let fs = ScriptedFs::new(&[], &[]);
    assert_eq!(
        cli(Some("missing.py"), false).resolve(&fs),
        Err(CliError::PathNotFound("missing.py".to_string()))
    );
}

#[test]
fn resolve_directory_ok() {
    let fs = ScriptedFs::new(&[], &["some_dir"]);
    assert_eq!(
        cli(Some("some_dir"), false).resolve(&fs),
        Ok(Mode::Directory { path: "some_dir".to_string(), git: false })
    );
}

#[test]
fn resolve_directory_with_git() {
    let fs = ScriptedFs::new(&[], &["some_dir"]);
    assert_eq!(
        cli(Some("some_dir"), true).resolve(&fs),
        Ok(Mode::Directory { path: "some_dir".to_string(), git: true })
    );
}

#[test]
fn resolve_diff_not_yet_implemented() {
    let fs = ScriptedFs::new(&[], &[]);
    let c = Cli {
        path: None,
        git: false,
        command: Some(Command::Diff(DiffArgs { ref1: "HEAD~1".into(), ref2: "HEAD".into(), path: None })),
    };
    assert_eq!(c.resolve(&fs), Err(CliError::DiffModeNotImplemented));
}

#[test]
fn resolve_without_path_is_an_error() {
    let fs = ScriptedFs::new(&[], &[]);
    assert_eq!(cli(None, false).resolve(&fs), Err(CliError::PathMissing));
}

#[test]
fn resolve_existing_non_file_is_refused() {
    // Exists, but is neither a directory nor a regular file.
    struct Odd;
    impl FsProbe for Odd {
        fn spec_path_exists(&self, _: vstd::seq::Seq<char>) -> bool {
            unreachable!("asked only in proofs")
        }
        fn spec_is_file(&self, _: vstd::seq::Seq<char>) -> bool {
            unreachable!("asked only in proofs")
        }
        fn spec_is_dir(&self, _: vstd::seq::Seq<char>) -> bool {
            unreachable!("asked only in proofs")
        }
        fn path_exists(&self, _: &str) -> bool {
            true
        }
        fn is_file(&self, _: &str) -> bool {
            false
        }
        fn is_dir(&self, _: &str) -> bool {
            false
        }
    }
    assert_eq!(
        cli(Some("link"), false).resolve(&Odd),
        Err(CliError::ExpectedFileGotDir("link".to_string()))
    );
}

#[test]
fn resolve_with_given_answers() {
    assert_eq!(
        cli(Some("p"), true).resolve_with(true, true, false),
        Ok(Mode::Directory { path: "p".to_string(), git: true })
    );
    assert_eq!(cli(Some("p"), false).resolve_with(true, false, true), Ok(Mode::File { path: "p".to_string() }));
}

#[test]
fn error_messages() {
    assert_eq!(CliError::PathNotFound("x.py".into()).message(), "path does not exist: x.py");
    assert_eq!(CliError::ExpectedFileGotDir("d".into()).message(), "expected a file, got a directory: d");
    assert_eq!(
        CliError::PathMissing.message(),
        "no path given — usage: ygg <path> or ygg diff <ref1> <ref2> [path]"
    );
    assert_eq!(
        CliError::DiffModeNotImplemented.message(),
        "`ygg diff` mode is not yet implemented (planned for M6)"
    );
}
