use vstd::prelude::*;
use crate::merge_types::FileConflict;
use crate::text::push_str;

verus! {

/// What a diff compares.
#[derive(Debug, Clone, Copy, PartialEq, Eq, Structural)]
pub enum DiffMode {
    /// Working tree against the index (the default).
    WorkingVsIndex,
    /// Index against HEAD.
    IndexVsHead,
    /// Working tree against a commit.
    WorkingVsCommit,
    /// Two commits.
    CommitVsCommit,
}

/// Options of the diff command.
#[derive(Debug, Clone)]
pub struct DiffOptions {
    pub mode: DiffMode,
    pub commit1: Option<String>,
    pub commit2: Option<String>,
    /// Paths to restrict the diff to (none: all files).
    pub paths: Vec<String>,
    pub use_color: bool,
    pub show_stats: bool,
}

impl Default for DiffOptions {
    fn default() -> (r: DiffOptions)
        ensures
            r.mode == DiffMode::WorkingVsIndex,
            r.commit1.is_none(),
            r.commit2.is_none(),
            r.paths@.len() == 0,
            r.use_color,
            !r.show_stats,
    {
        DiffOptions {
            mode: DiffMode::WorkingVsIndex,
            commit1: None,
            commit2: None,
            paths: Vec::new(),
            use_color: true,
            show_stats: false,
        }
    }
}

/// Options of garbage collection.
#[derive(Debug, Clone)]
pub struct GcOptions {
    pub aggressive: bool,
    /// Prune unreachable objects older than this many days.
    pub prune_days: Option<u32>,
    pub dry_run: bool,
}

impl Default for GcOptions {
    fn default() -> (r: GcOptions)
        ensures
            !r.aggressive,
            r.prune_days == Some(14u32),
            !r.dry_run,
    {
        GcOptions { aggressive: false, prune_days: Some(14), dry_run: false }
    }
}

/// How the log shows commits.
#[derive(Debug, Clone, Copy, PartialEq, Eq, Structural)]
pub enum LogFormat {
    Full,
    Oneline,
    Short,
}

/// Options of the merge command.
#[derive(Debug, Clone)]
pub struct MergeOptions {
    /// Branch or commit to merge.
    pub target: String,
    /// Abort a merge in progress.
    pub abort: bool,
    /// Go on after conflicts were resolved.
    pub continue_merge: bool,
    /// Always create a merge commit.
    pub no_ff: bool,
    /// Fail unless a fast-forward is possible.
    pub ff_only: bool,
    pub message: Option<String>,
}

impl Default for MergeOptions {
    fn default() -> (r: MergeOptions)
        ensures
            r.target@.len() == 0,
            !r.abort,
            !r.continue_merge,
            !r.no_ff,
            !r.ff_only,
            r.message.is_none(),
    {
        MergeOptions {
            target: String::new(),
            abort: false,
            continue_merge: false,
            no_ff: false,
            ff_only: false,
            message: None,
        }
    }
}

/// How a merge ended.
#[derive(Debug)]
pub enum MergeOutcome {
    /// The branch moved forward; no merge commit.
    FastForward { from: String, to: String },
    /// A merge commit was made.
    Success { merge_commit: String, files_changed: usize },
    /// Conflicts wait to be resolved.
    Conflicts { conflicts: Vec<FileConflict> },
    /// Nothing to merge.
    AlreadyUpToDate,
}

/// The identity recorded in commits.
#[derive(Debug, Clone)]
pub struct User {
    pub name: String,
    pub email: String,
}

/// Repository configuration.
#[derive(Debug, Clone)]
pub struct Config {
    pub user: User,
}

impl Default for Config {
    fn default() -> (r: Config)
        ensures
            r.user.name@ == "Unknown"@,
            r.user.email@ == "unknown@example.com"@,
    {
        Config { user: User { name: "Unknown".to_owned(), email: "unknown@example.com".to_owned() } }
    }
}

impl Config {
    /// `name <email>`.
    pub fn get_user_string(&self) -> (r: String)
        ensures
            r@ == self.user.name@ + " <"@ + self.user.email@ + ">"@,
    {
        let mut s = String::new();
        push_str(&mut s, self.user.name.as_str());
        push_str(&mut s, " <");
        push_str(&mut s, self.user.email.as_str());
        push_str(&mut s, ">");
        s
    }
}

/// The value of a configuration key: `user.name` or `user.email`;
/// `InvalidInput` for any other key.
pub fn get_config(config: &Config, key: &str) -> (r: Result<String, crate::error::ErrorKind>)
    ensures
        key@ == "user.name"@ ==> r is Ok && r.unwrap()@ == config.user.name@,
        key@ == "user.email"@ ==> r is Ok && r.unwrap()@ == config.user.email@,
        key@ != "user.name"@ && key@ != "user.email"@ ==> r == Err::<String, crate::error::ErrorKind>(crate::error::ErrorKind::InvalidInput),
{
    proof {
        reveal_strlit("user.name");
        reveal_strlit("user.email");
        assert("user.name"@.len() != "user.email"@.len());
    }
    let k = key.to_owned();
    let name_key = "user.name".to_owned();
    let email_key = "user.email".to_owned();
    if k == name_key {
        Ok(config.user.name.clone())
    } else if k == email_key {
        Ok(config.user.email.clone())
    } else {
        Err(crate::error::ErrorKind::InvalidInput)
    }
}

/// Sets a configuration key: `user.name` or `user.email`; `InvalidInput`
/// for any other key, leaving the configuration as it was.
pub fn set_config(config: &mut Config, key: &str, value: &str) -> (r: Result<(), crate::error::ErrorKind>)
    ensures
        key@ == "user.name"@ ==> r is Ok && final(config).user.name@ == value@ && final(config).user.email == old(config).user.email,
        key@ == "user.email"@ ==> r is Ok && final(config).user.email@ == value@ && final(config).user.name == old(config).user.name,
        key@ != "user.name"@ && key@ != "user.email"@ ==> r == Err::<(), crate::error::ErrorKind>(crate::error::ErrorKind::InvalidInput) && *final(config) == *old(config),
{
    proof {
        reveal_strlit("user.name");
        reveal_strlit("user.email");
        assert("user.name"@.len() != "user.email"@.len());
    }
    let k = key.to_owned();
    let name_key = "user.name".to_owned();
    let email_key = "user.email".to_owned();
    if k == name_key {
        config.user.name = value.to_owned();
        Ok(())
    } else if k == email_key {
        config.user.email = value.to_owned();
        Ok(())
    } else {
        Err(crate::error::ErrorKind::InvalidInput)
    }
}

/// Kinds of object in a pack.
#[derive(Debug, Clone, Copy, PartialEq, Eq, Structural)]
pub enum PackObjectType {
    Commit,
    Tree,
    Blob,
    Tag,
    OfsDelta,
    RefDelta,
}

impl PackObjectType {
    /// The type code a pack stores for this kind.
    pub fn code(&self) -> (r: u8)
        ensures
            *self == PackObjectType::Commit ==> r == 1,
            *self == PackObjectType::Tree ==> r == 2,
            *self == PackObjectType::Blob ==> r == 3,
            *self == PackObjectType::Tag ==> r == 4,
            *self == PackObjectType::OfsDelta ==> r == 6,
            *self == PackObjectType::RefDelta ==> r == 7,
    {
        match self {
            PackObjectType::Commit => 1,
            PackObjectType::Tree => 2,
            PackObjectType::Blob => 3,
            PackObjectType::Tag => 4,
            PackObjectType::OfsDelta => 6,
            PackObjectType::RefDelta => 7,
        }
    }
}

/// One object of a pack.
#[derive(Debug)]
pub struct PackEntry {
    pub obj_type: PackObjectType,
    /// Uncompressed size.
    pub size: usize,
    /// Compressed data.
    pub data: Vec<u8>,
    pub hash: String,
}

/// The objects of a pack.
#[derive(Debug)]
pub struct PackFile {
    pub entries: Vec<PackEntry>,
    pub count: u32,
}

impl PackFile {
    /// An empty pack.
    pub fn new() -> (r: PackFile)
        ensures
            r.entries@.len() == 0,
            r.count == 0,
    {
        PackFile { entries: Vec::new(), count: 0 }
    }

    /// Adds an object to the pack.
    pub fn add_entry(&mut self, entry: PackEntry)
        requires
            old(self).count < u32::MAX,
        ensures
            final(self).entries@ == old(self).entries@.push(entry),
            final(self).count == old(self).count + 1,
    {
        self.entries.push(entry);
        self.count = self.count + 1;
    }
}

} // verus!
