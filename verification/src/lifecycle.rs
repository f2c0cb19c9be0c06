//! Creating and resolving a project identity, as decisions over what the
//! filesystem shows.
//!
//! The library does no I/O of its own. [`initialize`] and [`start`] return a
//! machine together with the first [`Action`] to perform. The caller performs
//! each action on the real paths and reports what happened as an [`Event`];
//! `step` then decides the next action, until an [`Action::Finish`] holds the
//! result. Paths are named by their role ([`Target`]); the caller resolves
//! them under the code repository and the memory repository it was given.
//!
//! A manifest is written by creating a temporary sibling and renaming it into
//! place, so a reader never observes a half-written file. An existing manifest
//! is only ever read.
use vstd::prelude::*;

use crate::error::{
    malformed_error, persistence, persistence_error, Error, ErrorView,
};
use crate::identity::{Project, ProjectId, ProjectView, MANIFEST_FILE_NAME, PARTIAL_SUFFIX};
use crate::manifest::{
    check_manifest_file, manifest_bytes_outcome, manifest_file_problem, manifest_from_bytes,
    render, render_text, ManifestView,
};
use crate::text::{join_path_text, join_text};
use crate::timestamp::{format_utc, utc_text};
use crate::uuid::{is_uuid_v4_text, stamp_version, uuid_text};

verus! {

/// What a path names on disk, following symbolic links. A path that cannot
/// be inspected counts as missing.
#[derive(Clone, Copy, Debug, PartialEq, Eq, Structural)]
pub enum PathKind {
    Missing,
    Directory,
    Other,
}

/// The part of writing the temporary manifest that failed.
#[derive(Clone, Copy, Debug, PartialEq, Eq, Structural)]
pub enum WriteStage {
    /// Creating (or truncating) the file.
    Create,
    /// Writing the text.
    Write,
    /// Syncing the file to disk.
    Sync,
}

/// A path, named by its role.
#[derive(Debug)]
pub enum Target {
    /// The code repository.
    CodeRepository,
    /// The manifest at the root of the code repository.
    Manifest,
    /// The memory repository.
    MemoryRepository,
    /// The directory of one project inside the memory repository.
    ProjectDirectory(ProjectId),
}

/// What a [`Target`] names.
pub enum TargetView {
    CodeRepository,
    Manifest,
    MemoryRepository,
    ProjectDirectory(Seq<char>),
}

impl View for Target {
    type V = TargetView;

    open spec fn view(&self) -> TargetView {
        match self {
            Target::CodeRepository => TargetView::CodeRepository,
            Target::Manifest => TargetView::Manifest,
            Target::MemoryRepository => TargetView::MemoryRepository,
            Target::ProjectDirectory(id) => TargetView::ProjectDirectory(id@),
        }
    }
}

/// One filesystem step the caller performs, and reports as an [`Event`].
#[derive(Debug)]
pub enum Action<T> {
    /// Report what the path is, as [`Event::Kind`].
    Inspect(Target),
    /// Read the manifest's metadata: [`Event::Metadata`] or [`Event::Failed`].
    InspectManifestFile,
    /// Read the manifest's bytes: [`Event::Bytes`] or [`Event::Failed`].
    ReadManifest,
    /// Read sixteen bytes from the system's random source:
    /// [`Event::Random`] or [`Event::Failed`].
    ReadRandom,
    /// Read the system clock: [`Event::Clock`].
    ReadClock,
    /// Create the directory, readable by its owner only (mode `0o700`):
    /// [`Event::Completed`] or [`Event::Failed`].
    CreateDirectory(Target),
    /// Create or truncate the temporary manifest, write this text to it and
    /// sync it: [`Event::Completed`] or [`Event::WriteFailed`].
    WriteTemporary(String),
    /// Remove the temporary manifest, ignoring failure: [`Event::Completed`].
    RemoveTemporary,
    /// Rename the temporary manifest to the manifest: [`Event::Completed`]
    /// or [`Event::Failed`].
    RenameTemporary,
    /// Sync the code repository directory, ignoring failure:
    /// [`Event::Completed`].
    SyncCodeRepository,
    /// Remove the directory if it is empty, ignoring failure:
    /// [`Event::Completed`].
    RemoveIfEmpty(Target),
    /// Nothing more to do: the result.
    Finish(Result<T, Error>),
}

/// What an [`Action`] asks for.
pub enum ActionView<V> {
    Inspect(TargetView),
    InspectManifestFile,
    ReadManifest,
    ReadRandom,
    ReadClock,
    CreateDirectory(TargetView),
    WriteTemporary(Seq<char>),
    RemoveTemporary,
    RenameTemporary,
    SyncCodeRepository,
    RemoveIfEmpty(TargetView),
    Finish(Result<V, ErrorView>),
}

impl<T: View> View for Action<T> {
    type V = ActionView<T::V>;

    open spec fn view(&self) -> ActionView<T::V> {
        match self {
            Action::Inspect(t) => ActionView::Inspect(t@),
            Action::InspectManifestFile => ActionView::InspectManifestFile,
            Action::ReadManifest => ActionView::ReadManifest,
            Action::ReadRandom => ActionView::ReadRandom,
            Action::ReadClock => ActionView::ReadClock,
            Action::CreateDirectory(t) => ActionView::CreateDirectory(t@),
            Action::WriteTemporary(text) => ActionView::WriteTemporary(text@),
            Action::RemoveTemporary => ActionView::RemoveTemporary,
            Action::RenameTemporary => ActionView::RenameTemporary,
            Action::SyncCodeRepository => ActionView::SyncCodeRepository,
            Action::RemoveIfEmpty(t) => ActionView::RemoveIfEmpty(t@),
            Action::Finish(Ok(v)) => ActionView::Finish(Ok(v@)),
            Action::Finish(Err(e)) => ActionView::Finish(Err(e@)),
        }
    }
}

/// What the caller found when it performed an [`Action`].
#[derive(Debug)]
pub enum Event {
    /// What the inspected path is.
    Kind(PathKind),
    /// The manifest's metadata: whether it is a regular file, and its length
    /// in bytes.
    Metadata { is_file: bool, len: u64 },
    /// The manifest's bytes.
    Bytes(Vec<u8>),
    /// Sixteen random bytes.
    Random([u8; 16]),
    /// Seconds since the Unix epoch, or `None` when the clock is before it.
    Clock(Option<u64>),
    /// The action was done, or, where failure is ignored, attempted.
    Completed,
    /// The action failed with this system error text.
    Failed(String),
    /// Writing the temporary manifest failed at this stage, with this
    /// system error text.
    WriteFailed(WriteStage, String),
}

/// What an [`Event`] reports.
pub enum EventView {
    Kind(PathKind),
    Metadata(bool, u64),
    Bytes(Seq<u8>),
    Random(Seq<u8>),
    Clock(Option<u64>),
    Completed,
    Failed(Seq<char>),
    WriteFailed(WriteStage, Seq<char>),
}

impl View for Event {
    type V = EventView;

    open spec fn view(&self) -> EventView {
        match self {
            Event::Kind(k) => EventView::Kind(*k),
            Event::Metadata { is_file, len } => EventView::Metadata(*is_file, *len),
            Event::Bytes(b) => EventView::Bytes(b@),
            Event::Random(b) => EventView::Random(b@),
            Event::Clock(c) => EventView::Clock(*c),
            Event::Completed => EventView::Completed,
            Event::Failed(d) => EventView::Failed(d@),
            Event::WriteFailed(stage, d) => EventView::WriteFailed(*stage, d@),
        }
    }
}

// ---------------------------------------------------------------------
// Texts of paths and errors
// ---------------------------------------------------------------------

/// Text of the manifest's path in the code repository `code`.
pub open spec fn manifest_text(code: Seq<char>) -> Seq<char> {
    join_text(code, ".agent-knowledge.toml"@)
}

/// Text of the temporary manifest's path in the code repository `code`.
pub open spec fn partial_text(code: Seq<char>) -> Seq<char> {
    join_text(code, ".agent-knowledge.toml"@ + ".partial"@)
}

/// Text of the directory of project `id` in the memory repository `memory`.
pub open spec fn project_directory_text(memory: Seq<char>, id: Seq<char>) -> Seq<char> {
    join_text(memory, id)
}

/// The error for a code repository that is not a directory.
pub open spec fn code_missing_error(code: Seq<char>) -> ErrorView {
    ErrorView::Persistence("code repository does not exist: "@ + code)
}

/// What a failure to read the manifest reports.
pub open spec fn read_manifest_error(code: Seq<char>, detail: Seq<char>) -> ErrorView {
    persistence_error("read "@ + manifest_text(code), detail)
}

/// The error when every candidate id names a directory that already exists.
pub open spec fn no_free_id_error() -> ErrorView {
    ErrorView::Persistence("could not allocate a project id whose memory directory is free"@)
}

/// The error for a clock set before the Unix epoch.
pub open spec fn clock_error() -> ErrorView {
    ErrorView::Persistence("system clock is before the Unix epoch"@)
}

/// The error for a memory repository path that is not a directory.
pub open spec fn memory_not_directory_error(memory: Seq<char>) -> ErrorView {
    ErrorView::Persistence("memory repository is not a directory: "@ + memory)
}

/// The error for a project directory path that is not a directory.
pub open spec fn project_not_directory_error(memory: Seq<char>, id: Seq<char>) -> ErrorView {
    ErrorView::Persistence(
        "project memory path is not a directory: "@ + project_directory_text(memory, id),
    )
}

/// The error for a project directory that is missing when a client starts.
pub open spec fn project_missing_error(memory: Seq<char>, id: Seq<char>) -> ErrorView {
    ErrorView::Persistence(
        "project memory directory is missing: "@ + project_directory_text(memory, id),
    )
}

/// The error for a failed stage of writing the temporary manifest.
pub open spec fn write_error(code: Seq<char>, stage: WriteStage, detail: Seq<char>) -> ErrorView {
    let verb = match stage {
        WriteStage::Create => "create "@,
        WriteStage::Write => "write "@,
        WriteStage::Sync => "sync "@,
    };
    persistence_error(verb + partial_text(code), detail)
}

/// How many candidate ids are tried before giving up.
pub const ID_ATTEMPTS: u32 = 8;

fn code_missing(code: &str) -> (e: Error)
    ensures
        e@ == code_missing_error(code@),
{
    let mut text = String::from_str("code repository does not exist: ");
    text.append(code);
    Error::Persistence(text)
}

fn manifest_path_text(code: &str) -> (r: String)
    ensures
        r@ == manifest_text(code@),
{
    join_path_text(code, MANIFEST_FILE_NAME)
}

fn read_manifest_failure(code: &str, detail: &str) -> (e: Error)
    ensures
        e@ == read_manifest_error(code@, detail@),
{
    let mut context = String::from_str("read ");
    let path = manifest_path_text(code);
    context.append(path.as_str());
    persistence(context.as_str(), detail)
}

fn project_directory_path_text(memory: &str, id: &ProjectId) -> (r: String)
    ensures
        r@ == project_directory_text(memory@, id@),
{
    join_path_text(memory, id.as_str())
}

fn create_failure(path: &str, detail: &str) -> (e: Error)
    ensures
        e@ == persistence_error("create "@ + path@, detail@),
{
    let mut context = String::from_str("create ");
    context.append(path);
    persistence(context.as_str(), detail)
}

fn labelled(label: &str, path: &str) -> (e: Error)
    ensures
        e@ == ErrorView::Persistence(label@ + path@),
{
    let mut text = String::from_str(label);
    text.append(path);
    Error::Persistence(text)
}

fn write_failure(code: &str, stage: WriteStage, detail: &str) -> (e: Error)
    ensures
        e@ == write_error(code@, stage, detail@),
{
    let mut context = match stage {
        WriteStage::Create => String::from_str("create "),
        WriteStage::Write => String::from_str("write "),
        WriteStage::Sync => String::from_str("sync "),
    };
    let mut name = String::from_str(MANIFEST_FILE_NAME);
    name.append(PARTIAL_SUFFIX);
    let path = join_path_text(code, name.as_str());
    context.append(path.as_str());
    persistence(context.as_str(), detail)
}

// ---------------------------------------------------------------------
// Initializing a project
// ---------------------------------------------------------------------

/// Where an initialization stands: what it waits for, and what it carries.
///
/// `origin` is `None` when the manifest already existed, and `Some` of the
/// creation time of a manifest still to be written.
#[derive(Debug)]
pub enum InitStage {
    AwaitCode,
    AwaitManifestPresence,
    AwaitManifestMetadata,
    AwaitManifestBytes,
    /// Candidate ids tried so far.
    AwaitRandom(u32),
    AwaitCandidate(u32, ProjectId),
    AwaitClock(ProjectId),
    EnsureMemory(ProjectId, Option<String>),
    CreatingMemory(ProjectId, Option<String>),
    EnsureProject(ProjectId, Option<String>),
    CreatingProject(ProjectId, Option<String>),
    Writing(ProjectId),
    Renaming(ProjectId),
    Syncing(ProjectId),
    RemovingTemporary(ProjectId, Error),
    Abandoning(Error),
    Finished,
}

/// What an [`InitStage`] holds.
pub enum InitStageView {
    AwaitCode,
    AwaitManifestPresence,
    AwaitManifestMetadata,
    AwaitManifestBytes,
    AwaitRandom(u32),
    AwaitCandidate(u32, Seq<char>),
    AwaitClock(Seq<char>),
    EnsureMemory(Seq<char>, Option<Seq<char>>),
    CreatingMemory(Seq<char>, Option<Seq<char>>),
    EnsureProject(Seq<char>, Option<Seq<char>>),
    CreatingProject(Seq<char>, Option<Seq<char>>),
    Writing(Seq<char>),
    Renaming(Seq<char>),
    Syncing(Seq<char>),
    RemovingTemporary(Seq<char>, ErrorView),
    Abandoning(ErrorView),
    Finished,
}

/// `Some` of the characters, or `None`.
pub open spec fn opt_text(o: Option<String>) -> Option<Seq<char>> {
    match o {
        Some(t) => Some(t@),
        None => None,
    }
}

impl View for InitStage {
    type V = InitStageView;

    open spec fn view(&self) -> InitStageView {
        match self {
            InitStage::AwaitCode => InitStageView::AwaitCode,
            InitStage::AwaitManifestPresence => InitStageView::AwaitManifestPresence,
            InitStage::AwaitManifestMetadata => InitStageView::AwaitManifestMetadata,
            InitStage::AwaitManifestBytes => InitStageView::AwaitManifestBytes,
            InitStage::AwaitRandom(n) => InitStageView::AwaitRandom(*n),
            InitStage::AwaitCandidate(n, id) => InitStageView::AwaitCandidate(*n, id@),
            InitStage::AwaitClock(id) => InitStageView::AwaitClock(id@),
            InitStage::EnsureMemory(id, o) => InitStageView::EnsureMemory(id@, opt_text(*o)),
            InitStage::CreatingMemory(id, o) => InitStageView::CreatingMemory(id@, opt_text(*o)),
            InitStage::EnsureProject(id, o) => InitStageView::EnsureProject(id@, opt_text(*o)),
            InitStage::CreatingProject(id, o) => InitStageView::CreatingProject(
                id@,
                opt_text(*o),
            ),
            InitStage::Writing(id) => InitStageView::Writing(id@),
            InitStage::Renaming(id) => InitStageView::Renaming(id@),
            InitStage::Syncing(id) => InitStageView::Syncing(id@),
            InitStage::RemovingTemporary(id, e) => InitStageView::RemovingTemporary(id@, e@),
            InitStage::Abandoning(e) => InitStageView::Abandoning(e@),
            InitStage::Finished => InitStageView::Finished,
        }
    }
}

/// Creation of a project identity in the code repository `code`, with its
/// records in the memory repository `memory` (both given as path text).
#[derive(Debug)]
pub struct Initialization {
    code: String,
    memory: String,
    stage: InitStage,
}

/// What an [`Initialization`] holds.
pub struct InitializationView {
    pub code: Seq<char>,
    pub memory: Seq<char>,
    pub stage: InitStageView,
}

impl View for Initialization {
    type V = InitializationView;

    closed spec fn view(&self) -> InitializationView {
        InitializationView { code: self.code@, memory: self.memory@, stage: self.stage@ }
    }
}

/// Whether an initialization at `stage` takes the event `e`: the kind of
/// event its pending action reports.
pub open spec fn init_accepts(stage: InitStageView, e: EventView) -> bool {
    match stage {
        InitStageView::AwaitCode | InitStageView::AwaitManifestPresence
        | InitStageView::AwaitCandidate(..) | InitStageView::EnsureMemory(..)
        | InitStageView::EnsureProject(..) => e is Kind,
        InitStageView::AwaitManifestMetadata => e is Metadata || e is Failed,
        InitStageView::AwaitManifestBytes => e is Bytes || e is Failed,
        InitStageView::AwaitRandom(_) => e is Random || e is Failed,
        InitStageView::AwaitClock(_) => e is Clock,
        InitStageView::CreatingMemory(..) | InitStageView::CreatingProject(..)
        | InitStageView::Renaming(_) => e is Completed || e is Failed,
        InitStageView::Writing(_) => e is Completed || e is WriteFailed,
        InitStageView::Syncing(_) | InitStageView::RemovingTemporary(..)
        | InitStageView::Abandoning(_) => e is Completed,
        InitStageView::Finished => false,
    }
}

/// Once both directories are there: a known manifest is done; a new one is
/// written, created and updated at `origin`.
pub open spec fn init_after_directories(id: Seq<char>, origin: Option<Seq<char>>) -> (
    InitStageView,
    ActionView<Seq<char>>,
) {
    match origin {
        None => (InitStageView::Finished, ActionView::Finish(Ok(id))),
        Some(t) => (InitStageView::Writing(id), ActionView::WriteTemporary(render_text(id, t, t))),
    }
}

/// The stage an initialization goes to, and the action it asks for, when at
/// `stage` the event `e` is reported.
pub open spec fn init_next(code: Seq<char>, memory: Seq<char>, stage: InitStageView, e: EventView) -> (
    InitStageView,
    ActionView<Seq<char>>,
) {
    let fail = |err: ErrorView| (InitStageView::Finished, ActionView::<Seq<char>>::Finish(Err(err)));
    match (stage, e) {
        (InitStageView::AwaitCode, EventView::Kind(k)) => if k == PathKind::Directory {
            (
                InitStageView::AwaitManifestPresence,
                ActionView::Inspect(TargetView::Manifest),
            )
        } else {
            fail(code_missing_error(code))
        },
        (InitStageView::AwaitManifestPresence, EventView::Kind(k)) => if k != PathKind::Missing {
            (InitStageView::AwaitManifestMetadata, ActionView::InspectManifestFile)
        } else {
            (InitStageView::AwaitRandom(0), ActionView::ReadRandom)
        },
        (InitStageView::AwaitManifestMetadata, EventView::Metadata(is_file, len)) => match manifest_file_problem(
            is_file,
            len,
        ) {
            Some(err) => fail(err),
            None => (InitStageView::AwaitManifestBytes, ActionView::ReadManifest),
        },
        (InitStageView::AwaitManifestMetadata, EventView::Failed(d)) => fail(
            read_manifest_error(code, d),
        ),
        (InitStageView::AwaitManifestBytes, EventView::Bytes(b)) => match manifest_bytes_outcome(
            b,
        ) {
            Err(err) => fail(err),
            Ok(m) => (
                InitStageView::EnsureMemory(m.id, None),
                ActionView::Inspect(TargetView::MemoryRepository),
            ),
        },
        (InitStageView::AwaitManifestBytes, EventView::Failed(d)) => fail(
            read_manifest_error(code, d),
        ),
        (InitStageView::AwaitRandom(n), EventView::Random(b)) => (
            InitStageView::AwaitCandidate(n, uuid_text(stamp_version(b))),
            ActionView::Inspect(TargetView::ProjectDirectory(uuid_text(stamp_version(b)))),
        ),
        (InitStageView::AwaitRandom(_), EventView::Failed(d)) => fail(
            persistence_error("read /dev/urandom"@, d),
        ),
        (InitStageView::AwaitCandidate(n, id), EventView::Kind(k)) => if k == PathKind::Missing {
            (InitStageView::AwaitClock(id), ActionView::ReadClock)
        } else if n + 1 < 8 {
            (InitStageView::AwaitRandom((n + 1) as u32), ActionView::ReadRandom)
        } else {
            fail(no_free_id_error())
        },
        (InitStageView::AwaitClock(id), EventView::Clock(c)) => match c {
            Some(secs) => (
                InitStageView::EnsureMemory(id, Some(utc_text(secs as nat))),
                ActionView::Inspect(TargetView::MemoryRepository),
            ),
            None => fail(clock_error()),
        },
        (InitStageView::EnsureMemory(id, o), EventView::Kind(k)) => if k == PathKind::Missing {
            (
                InitStageView::CreatingMemory(id, o),
                ActionView::CreateDirectory(TargetView::MemoryRepository),
            )
        } else if k == PathKind::Directory {
            (
                InitStageView::EnsureProject(id, o),
                ActionView::Inspect(TargetView::ProjectDirectory(id)),
            )
        } else {
            fail(memory_not_directory_error(memory))
        },
        (InitStageView::CreatingMemory(id, o), EventView::Completed) => (
            InitStageView::EnsureProject(id, o),
            ActionView::Inspect(TargetView::ProjectDirectory(id)),
        ),
        (InitStageView::CreatingMemory(_, _), EventView::Failed(d)) => fail(
            persistence_error("create "@ + memory, d),
        ),
        (InitStageView::EnsureProject(id, o), EventView::Kind(k)) => if k == PathKind::Directory {
            init_after_directories(id, o)
        } else if k == PathKind::Other {
            fail(project_not_directory_error(memory, id))
        } else {
            (
                InitStageView::CreatingProject(id, o),
                ActionView::CreateDirectory(TargetView::ProjectDirectory(id)),
            )
        },
        (InitStageView::CreatingProject(id, o), EventView::Completed) => init_after_directories(
            id,
            o,
        ),
        (InitStageView::CreatingProject(id, _), EventView::Failed(d)) => fail(
            persistence_error("create "@ + project_directory_text(memory, id), d),
        ),
        (InitStageView::Writing(id), EventView::Completed) => (
            InitStageView::Renaming(id),
            ActionView::RenameTemporary,
        ),
        (InitStageView::Writing(id), EventView::WriteFailed(stage, d)) => (
            InitStageView::RemovingTemporary(id, write_error(code, stage, d)),
            ActionView::RemoveTemporary,
        ),
        (InitStageView::Renaming(id), EventView::Completed) => (
            InitStageView::Syncing(id),
            ActionView::SyncCodeRepository,
        ),
        (InitStageView::Renaming(id), EventView::Failed(d)) => (
            InitStageView::RemovingTemporary(
                id,
                persistence_error("rename manifest into "@ + code, d),
            ),
            ActionView::RemoveTemporary,
        ),
        (InitStageView::Syncing(id), _) => (InitStageView::Finished, ActionView::Finish(Ok(id))),
        (InitStageView::RemovingTemporary(id, err), _) => (
            InitStageView::Abandoning(err),
            ActionView::RemoveIfEmpty(TargetView::ProjectDirectory(id)),
        ),
        (InitStageView::Abandoning(err), _) => fail(err),
        // not taken: `step` requires the event to be one the stage accepts
        _ => (stage, ActionView::Finish(Err(ErrorView::NotInitialized))),
    }
}

/// Begins creating the identity manifest of the code repository `code`, if
/// it does not have one, with the project's records in the memory
/// repository `memory` (both path text, as shown in messages).
///
/// A valid existing manifest is left unchanged and its id is the result. A
/// malformed manifest, or one whose `version` this client does not support,
/// is left byte-for-byte unchanged and the result is
/// [`Error::InvalidIdentity`].
pub fn initialize(code: &str, memory: &str) -> (r: (Initialization, Action<ProjectId>))
    ensures
        r.0@.code == code@,
        r.0@.memory == memory@,
        r.0@.stage == InitStageView::AwaitCode,
        r.1@ == ActionView::<Seq<char>>::Inspect(TargetView::CodeRepository),
{
    (
        Initialization {
            code: String::from_str(code),
            memory: String::from_str(memory),
            stage: InitStage::AwaitCode,
        },
        Action::Inspect(Target::CodeRepository),
    )
}

impl Initialization {
    /// Whether the pending action reports events like `event`.
    pub fn accepts(&self, event: &Event) -> (r: bool)
        ensures
            r == init_accepts(self@.stage, event@),
    {
        match &self.stage {
            InitStage::AwaitCode | InitStage::AwaitManifestPresence | InitStage::AwaitCandidate(
                ..,
            )
            | InitStage::EnsureMemory(..) | InitStage::EnsureProject(..) => matches!(event, Event::Kind(_)),
            InitStage::AwaitManifestMetadata => matches!(event, Event::Metadata { .. } | Event::Failed(_)),
            InitStage::AwaitManifestBytes => matches!(event, Event::Bytes(_) | Event::Failed(_)),
            InitStage::AwaitRandom(_) => matches!(event, Event::Random(_) | Event::Failed(_)),
            InitStage::AwaitClock(_) => matches!(event, Event::Clock(_)),
            InitStage::CreatingMemory(..) | InitStage::CreatingProject(..)
            | InitStage::Renaming(_) => matches!(event, Event::Completed | Event::Failed(_)),
            InitStage::Writing(_) => matches!(event, Event::Completed | Event::WriteFailed(..)),
            InitStage::Syncing(_) | InitStage::RemovingTemporary(..) | InitStage::Abandoning(_) => matches!(event, Event::Completed),
            InitStage::Finished => false,
        }
    }

    /// Decides what follows `event`, the report of the pending action.
    pub fn step(self, event: Event) -> (r: (Initialization, Action<ProjectId>))
        requires
            init_accepts(self@.stage, event@),
        ensures
            r.0@.code == self@.code,
            r.0@.memory == self@.memory,
            (r.0@.stage, r.1@) == init_next(self@.code, self@.memory, self@.stage, event@),
    {
        let Initialization { code, memory, stage } = self;
        let (next, action) = match (stage, event) {
            (InitStage::AwaitCode, Event::Kind(k)) => {
                if k == PathKind::Directory {
                    (InitStage::AwaitManifestPresence, Action::Inspect(Target::Manifest))
                } else {
                    (InitStage::Finished, Action::Finish(Err(code_missing(code.as_str()))))
                }
            },
            (InitStage::AwaitManifestPresence, Event::Kind(k)) => {
                if k != PathKind::Missing {
                    (InitStage::AwaitManifestMetadata, Action::InspectManifestFile)
                } else {
                    (InitStage::AwaitRandom(0), Action::ReadRandom)
                }
            },
            (InitStage::AwaitManifestMetadata, Event::Metadata { is_file, len }) => {
                match check_manifest_file(is_file, len) {
                    Some(err) => (InitStage::Finished, Action::Finish(Err(err))),
                    None => (InitStage::AwaitManifestBytes, Action::ReadManifest),
                }
            },
            (InitStage::AwaitManifestMetadata, Event::Failed(d)) => {
                (
                    InitStage::Finished,
                    Action::Finish(Err(read_manifest_failure(code.as_str(), d.as_str()))),
                )
            },
            (InitStage::AwaitManifestBytes, Event::Bytes(b)) => {
                match manifest_from_bytes(b.as_slice()) {
                    Err(err) => (InitStage::Finished, Action::Finish(Err(err))),
                    Ok(m) => (
                        InitStage::EnsureMemory(m.id, None),
                        Action::Inspect(Target::MemoryRepository),
                    ),
                }
            },
            (InitStage::AwaitManifestBytes, Event::Failed(d)) => {
                (
                    InitStage::Finished,
                    Action::Finish(Err(read_manifest_failure(code.as_str(), d.as_str()))),
                )
            },
            (InitStage::AwaitRandom(n), Event::Random(b)) => {
                let id = ProjectId::from_random_bytes(b);
                let target = Target::ProjectDirectory(id.clone());
                (InitStage::AwaitCandidate(n, id), Action::Inspect(target))
            },
            (InitStage::AwaitRandom(_), Event::Failed(d)) => {
                (
                    InitStage::Finished,
                    Action::Finish(Err(persistence("read /dev/urandom", d.as_str()))),
                )
            },
            (InitStage::AwaitCandidate(n, id), Event::Kind(k)) => {
                if k == PathKind::Missing {
                    (InitStage::AwaitClock(id), Action::ReadClock)
                } else if n < ID_ATTEMPTS - 1 {
                    (InitStage::AwaitRandom(n + 1), Action::ReadRandom)
                } else {
                    (
                        InitStage::Finished,
                        Action::Finish(
                            Err(
                                Error::Persistence(
                                    String::from_str(
                                        "could not allocate a project id whose memory directory is free",
                                    ),
                                ),
                            ),
                        ),
                    )
                }
            },
            (InitStage::AwaitClock(id), Event::Clock(c)) => {
                match c {
                    Some(secs) => (
                        InitStage::EnsureMemory(id, Some(format_utc(secs))),
                        Action::Inspect(Target::MemoryRepository),
                    ),
                    None => (
                        InitStage::Finished,
                        Action::Finish(
                            Err(
                                Error::Persistence(
                                    String::from_str("system clock is before the Unix epoch"),
                                ),
                            ),
                        ),
                    ),
                }
            },
            (InitStage::EnsureMemory(id, o), Event::Kind(k)) => {
                if k == PathKind::Missing {
                    (InitStage::CreatingMemory(id, o), Action::CreateDirectory(Target::MemoryRepository))
                } else if k == PathKind::Directory {
                    let target = Target::ProjectDirectory(id.clone());
                    (InitStage::EnsureProject(id, o), Action::Inspect(target))
                } else {
                    (
                        InitStage::Finished,
                        Action::Finish(
                            Err(labelled("memory repository is not a directory: ", memory.as_str())),
                        ),
                    )
                }
            },
            (InitStage::CreatingMemory(id, o), Event::Completed) => {
                let target = Target::ProjectDirectory(id.clone());
                (InitStage::EnsureProject(id, o), Action::Inspect(target))
            },
            (InitStage::CreatingMemory(_, _), Event::Failed(d)) => {
                (
                    InitStage::Finished,
                    Action::Finish(Err(create_failure(memory.as_str(), d.as_str()))),
                )
            },
            (InitStage::EnsureProject(id, o), Event::Kind(k)) => {
                if k == PathKind::Directory {
                    after_directories(id, o)
                } else if k == PathKind::Other {
                    let path = project_directory_path_text(memory.as_str(), &id);
                    (
                        InitStage::Finished,
                        Action::Finish(
                            Err(labelled("project memory path is not a directory: ", path.as_str())),
                        ),
                    )
                } else {
                    let target = Target::ProjectDirectory(id.clone());
                    (InitStage::CreatingProject(id, o), Action::CreateDirectory(target))
                }
            },
            (InitStage::CreatingProject(id, o), Event::Completed) => after_directories(id, o),
            (InitStage::CreatingProject(id, _), Event::Failed(d)) => {
                let path = project_directory_path_text(memory.as_str(), &id);
                (
                    InitStage::Finished,
                    Action::Finish(Err(create_failure(path.as_str(), d.as_str()))),
                )
            },
            (InitStage::Writing(id), Event::Completed) => {
                (InitStage::Renaming(id), Action::RenameTemporary)
            },
            (InitStage::Writing(id), Event::WriteFailed(stage, d)) => {
                let err = write_failure(code.as_str(), stage, d.as_str());
                (InitStage::RemovingTemporary(id, err), Action::RemoveTemporary)
            },
            (InitStage::Renaming(id), Event::Completed) => {
                (InitStage::Syncing(id), Action::SyncCodeRepository)
            },
            (InitStage::Renaming(id), Event::Failed(d)) => {
                let mut context = String::from_str("rename manifest into ");
                context.append(code.as_str());
                let err = persistence(context.as_str(), d.as_str());
                (InitStage::RemovingTemporary(id, err), Action::RemoveTemporary)
            },
            (InitStage::Syncing(id), _) => (InitStage::Finished, Action::Finish(Ok(id))),
            (InitStage::RemovingTemporary(id, err), _) => {
                (InitStage::Abandoning(err), Action::RemoveIfEmpty(Target::ProjectDirectory(id)))
            },
            (InitStage::Abandoning(err), _) => (InitStage::Finished, Action::Finish(Err(err))),
            (stage, _) => (stage, Action::Finish(Err(Error::NotInitialized))),
        };
        (Initialization { code, memory, stage: next }, action)
    }
}

/// The stage and action once both directories exist.
fn after_directories(id: ProjectId, origin: Option<String>) -> (r: (InitStage, Action<ProjectId>))
    ensures
        (r.0@, r.1@) == init_after_directories(id@, opt_text(origin)),
{
    match origin {
        None => (InitStage::Finished, Action::Finish(Ok(id))),
        Some(t) => {
            let text = render(&id, t.as_str(), t.as_str());
            (InitStage::Writing(id), Action::WriteTemporary(text))
        },
    }
}

// ---------------------------------------------------------------------
// Starting a client
// ---------------------------------------------------------------------

/// Where resolving a project stands.
#[derive(Debug)]
pub enum StartStage {
    AwaitCode,
    AwaitManifestPresence,
    AwaitManifestMetadata,
    AwaitManifestBytes,
    AwaitProjectDirectory(crate::manifest::Manifest),
    Finished,
}

/// What a [`StartStage`] holds.
pub enum StartStageView {
    AwaitCode,
    AwaitManifestPresence,
    AwaitManifestMetadata,
    AwaitManifestBytes,
    AwaitProjectDirectory(ManifestView),
    Finished,
}

impl View for StartStage {
    type V = StartStageView;

    open spec fn view(&self) -> StartStageView {
        match self {
            StartStage::AwaitCode => StartStageView::AwaitCode,
            StartStage::AwaitManifestPresence => StartStageView::AwaitManifestPresence,
            StartStage::AwaitManifestMetadata => StartStageView::AwaitManifestMetadata,
            StartStage::AwaitManifestBytes => StartStageView::AwaitManifestBytes,
            StartStage::AwaitProjectDirectory(m) => StartStageView::AwaitProjectDirectory(m@),
            StartStage::Finished => StartStageView::Finished,
        }
    }
}

/// Resolution of the project bound to the code repository `code`, whose
/// records are in the memory repository `memory` (both path text).
#[derive(Debug)]
pub struct Resolution {
    code: String,
    memory: String,
    stage: StartStage,
}

/// What a [`Resolution`] holds.
pub struct ResolutionView {
    pub code: Seq<char>,
    pub memory: Seq<char>,
    pub stage: StartStageView,
}

impl View for Resolution {
    type V = ResolutionView;

    closed spec fn view(&self) -> ResolutionView {
        ResolutionView { code: self.code@, memory: self.memory@, stage: self.stage@ }
    }
}

/// Whether a resolution at `stage` takes the event `e`.
pub open spec fn start_accepts(stage: StartStageView, e: EventView) -> bool {
    match stage {
        StartStageView::AwaitCode | StartStageView::AwaitManifestPresence
        | StartStageView::AwaitProjectDirectory(_) => e is Kind,
        StartStageView::AwaitManifestMetadata => e is Metadata || e is Failed,
        StartStageView::AwaitManifestBytes => e is Bytes || e is Failed,
        StartStageView::Finished => false,
    }
}

/// The stage a resolution goes to, and the action it asks for, when at
/// `stage` the event `e` is reported.
pub open spec fn start_next(code: Seq<char>, memory: Seq<char>, stage: StartStageView, e: EventView) -> (
    StartStageView,
    ActionView<ProjectView>,
) {
    let fail = |err: ErrorView| (StartStageView::Finished, ActionView::<ProjectView>::Finish(Err(err)));
    match (stage, e) {
        (StartStageView::AwaitCode, EventView::Kind(k)) => if k == PathKind::Directory {
            (
                StartStageView::AwaitManifestPresence,
                ActionView::Inspect(TargetView::Manifest),
            )
        } else {
            fail(code_missing_error(code))
        },
        (StartStageView::AwaitManifestPresence, EventView::Kind(k)) => if k == PathKind::Missing {
            fail(ErrorView::NotInitialized)
        } else {
            (StartStageView::AwaitManifestMetadata, ActionView::InspectManifestFile)
        },
        (StartStageView::AwaitManifestMetadata, EventView::Metadata(is_file, len)) => match manifest_file_problem(
            is_file,
            len,
        ) {
            Some(err) => fail(err),
            None => (StartStageView::AwaitManifestBytes, ActionView::ReadManifest),
        },
        (StartStageView::AwaitManifestMetadata, EventView::Failed(d)) => fail(
            read_manifest_error(code, d),
        ),
        (StartStageView::AwaitManifestBytes, EventView::Bytes(b)) => match manifest_bytes_outcome(
            b,
        ) {
            Err(err) => fail(err),
            Ok(m) => (
                StartStageView::AwaitProjectDirectory(m),
                ActionView::Inspect(TargetView::ProjectDirectory(m.id)),
            ),
        },
        (StartStageView::AwaitManifestBytes, EventView::Failed(d)) => fail(
            read_manifest_error(code, d),
        ),
        (StartStageView::AwaitProjectDirectory(m), EventView::Kind(k)) => if k
            == PathKind::Directory {
            (
                StartStageView::Finished,
                ActionView::Finish(
                    Ok(
                        ProjectView {
                            id: m.id,
                            created: m.created,
                            updated: m.updated,
                            memory_directory: project_directory_text(memory, m.id),
                        },
                    ),
                ),
            )
        } else {
            fail(project_missing_error(memory, m.id))
        },
        // not taken: `step` requires the event to be one the stage accepts
        _ => (stage, ActionView::Finish(Err(ErrorView::NotInitialized))),
    }
}

/// Begins resolving the project bound to the code repository `code`, with
/// its records in the memory repository `memory` (both path text).
///
/// This is the client start. Without a manifest the result is
/// [`Error::NotInitialized`] and there is no [`Project`] on which to read or
/// write knowledge. An existing but unusable manifest is
/// [`Error::InvalidIdentity`] and is not modified.
pub fn start(code: &str, memory: &str) -> (r: (Resolution, Action<Project>))
    ensures
        r.0@.code == code@,
        r.0@.memory == memory@,
        r.0@.stage == StartStageView::AwaitCode,
        r.1@ == ActionView::<ProjectView>::Inspect(TargetView::CodeRepository),
{
    (
        Resolution {
            code: String::from_str(code),
            memory: String::from_str(memory),
            stage: StartStage::AwaitCode,
        },
        Action::Inspect(Target::CodeRepository),
    )
}

impl Resolution {
    #[verifier::type_invariant]
    spec fn holds_valid_manifest(self) -> bool {
        self.stage@ matches StartStageView::AwaitProjectDirectory(m) ==> crate::manifest::manifest_valid(m)
    }

    /// Whether the pending action reports events like `event`.
    pub fn accepts(&self, event: &Event) -> (r: bool)
        ensures
            r == start_accepts(self@.stage, event@),
    {
        match &self.stage {
            StartStage::AwaitCode | StartStage::AwaitManifestPresence
            | StartStage::AwaitProjectDirectory(_) => matches!(event, Event::Kind(_)),
            StartStage::AwaitManifestMetadata => matches!(event, Event::Metadata { .. } | Event::Failed(_)),
            StartStage::AwaitManifestBytes => matches!(event, Event::Bytes(_) | Event::Failed(_)),
            StartStage::Finished => false,
        }
    }

    /// Decides what follows `event`, the report of the pending action.
    pub fn step(self, event: Event) -> (r: (Resolution, Action<Project>))
        requires
            start_accepts(self@.stage, event@),
        ensures
            r.0@.code == self@.code,
            r.0@.memory == self@.memory,
            (r.0@.stage, r.1@) == start_next(self@.code, self@.memory, self@.stage, event@),
    {
        proof {
            use_type_invariant(&self);
        }
        let Resolution { code, memory, stage } = self;
        let (next, action) = match (stage, event) {
            (StartStage::AwaitCode, Event::Kind(k)) => {
                if k == PathKind::Directory {
                    (StartStage::AwaitManifestPresence, Action::Inspect(Target::Manifest))
                } else {
                    (StartStage::Finished, Action::Finish(Err(code_missing(code.as_str()))))
                }
            },
            (StartStage::AwaitManifestPresence, Event::Kind(k)) => {
                if k == PathKind::Missing {
                    (StartStage::Finished, Action::Finish(Err(Error::NotInitialized)))
                } else {
                    (StartStage::AwaitManifestMetadata, Action::InspectManifestFile)
                }
            },
            (StartStage::AwaitManifestMetadata, Event::Metadata { is_file, len }) => {
                match check_manifest_file(is_file, len) {
                    Some(err) => (StartStage::Finished, Action::Finish(Err(err))),
                    None => (StartStage::AwaitManifestBytes, Action::ReadManifest),
                }
            },
            (StartStage::AwaitManifestMetadata, Event::Failed(d)) => {
                (
                    StartStage::Finished,
                    Action::Finish(Err(read_manifest_failure(code.as_str(), d.as_str()))),
                )
            },
            (StartStage::AwaitManifestBytes, Event::Bytes(b)) => {
                match manifest_from_bytes(b.as_slice()) {
                    Err(err) => (StartStage::Finished, Action::Finish(Err(err))),
                    Ok(m) => {
                        proof {
                            crate::manifest::lemma_manifest_outcome_valid(
                                vstd::utf8::decode_utf8(b@),
                            );
                        }
                        let target = Target::ProjectDirectory(m.id.clone());
                        (StartStage::AwaitProjectDirectory(m), Action::Inspect(target))
                    },
                }
            },
            (StartStage::AwaitManifestBytes, Event::Failed(d)) => {
                (
                    StartStage::Finished,
                    Action::Finish(Err(read_manifest_failure(code.as_str(), d.as_str()))),
                )
            },
            (StartStage::AwaitProjectDirectory(m), Event::Kind(k)) => {
                let path = project_directory_path_text(memory.as_str(), &m.id);
                if k == PathKind::Directory {
                    let crate::manifest::Manifest { id, created, updated } = m;
                    (
                        StartStage::Finished,
                        Action::Finish(Ok(Project::new(id, created, updated, path))),
                    )
                } else {
                    (
                        StartStage::Finished,
                        Action::Finish(
                            Err(labelled("project memory directory is missing: ", path.as_str())),
                        ),
                    )
                }
            },
            (stage, _) => (stage, Action::Finish(Err(Error::NotInitialized))),
        };
        (Resolution { code, memory, stage: next }, action)
    }
}

// ---------------------------------------------------------------------
// What every run keeps
// ---------------------------------------------------------------------

/// Whether `a` writes, renames over or removes a manifest file.
pub open spec fn touches_manifest<V>(a: ActionView<V>) -> bool {
    a is WriteTemporary || a is RenameTemporary || a is RemoveTemporary
}

/// Whether `a` only reads: it creates, writes and removes nothing.
pub open spec fn only_reads<V>(a: ActionView<V>) -> bool {
    a is Inspect || a is InspectManifestFile || a is ReadManifest || a is Finish
}

/// Stages an initialization reaches once it has found a manifest: reading
/// it, then making sure the directories of the project `id` it names exist.
pub open spec fn keeps_existing(stage: InitStageView) -> bool {
    match stage {
        InitStageView::AwaitManifestMetadata | InitStageView::AwaitManifestBytes
        | InitStageView::Finished => true,
        InitStageView::EnsureMemory(_, o) | InitStageView::CreatingMemory(_, o)
        | InitStageView::EnsureProject(_, o) | InitStageView::CreatingProject(_, o) => o is None,
        _ => false,
    }
}

/// The id an initialization that found a manifest carries, if any.
pub open spec fn existing_id(stage: InitStageView) -> Option<Seq<char>> {
    match stage {
        InitStageView::EnsureMemory(id, None) | InitStageView::CreatingMemory(id, None)
        | InitStageView::EnsureProject(id, None) | InitStageView::CreatingProject(id, None) => Some(
            id,
        ),
        _ => None,
    }
}

/// Once initialization finds a manifest, whatever is reported next, no
/// action writes, renames over or removes a manifest file, the project id it
/// carries stays the one read from the manifest, and the only success it can
/// report is that id.
pub proof fn lemma_existing_manifest_is_kept(
    code: Seq<char>,
    memory: Seq<char>,
    stage: InitStageView,
    e: EventView,
)
    requires
        keeps_existing(stage),
        init_accepts(stage, e),
    ensures
        keeps_existing(init_next(code, memory, stage, e).0),
        !touches_manifest(init_next(code, memory, stage, e).1),
        existing_id(stage) matches Some(id) ==> (existing_id(init_next(code, memory, stage, e).0)
            matches Some(next_id) ==> next_id == id),
        existing_id(stage) matches Some(id) ==> (init_next(code, memory, stage, e).1 matches ActionView::Finish(
            Ok(x),
        ) ==> x == id),
        existing_id(stage) matches Some(id) ==> (init_next(code, memory, stage, e).1 matches ActionView::CreateDirectory(
            TargetView::ProjectDirectory(x),
        ) ==> x == id),
{
}

/// The manifest only ever appears whole: the one action that puts a
/// manifest in place renames the temporary sibling, and it is asked for only
/// once writing and syncing that sibling completed.
pub proof fn lemma_manifest_appears_whole(
    code: Seq<char>,
    memory: Seq<char>,
    stage: InitStageView,
    e: EventView,
)
    requires
        init_accepts(stage, e),
    ensures
        init_next(code, memory, stage, e).1 is RenameTemporary ==> (stage is Writing && e
            is Completed),
        init_next(code, memory, stage, e).1 is WriteTemporary ==> (stage is EnsureProject
            || stage is CreatingProject),
{
}

/// An initialization that finds a manifest keeps it; when the manifest reads
/// back as `m`, the initialization carries `m`'s id, and before that no
/// directory is created.
pub proof fn lemma_found_manifest_is_read_first(
    code: Seq<char>,
    memory: Seq<char>,
    k: PathKind,
    is_file: bool,
    len: u64,
    b: Seq<u8>,
)
    requires
        k != PathKind::Missing,
    ensures
        keeps_existing(init_next(code, memory, InitStageView::AwaitManifestPresence, EventView::Kind(k)).0),
        init_next(code, memory, InitStageView::AwaitManifestPresence, EventView::Kind(k)).1
            == ActionView::<Seq<char>>::InspectManifestFile,
        only_reads(init_next(code, memory, InitStageView::AwaitManifestMetadata, EventView::Metadata(is_file, len)).1),
        only_reads(init_next(code, memory, InitStageView::AwaitManifestBytes, EventView::Bytes(b)).1),
        manifest_bytes_outcome(b) matches Ok(m) ==> existing_id(
            init_next(code, memory, InitStageView::AwaitManifestBytes, EventView::Bytes(b)).0,
        ) == Some(m.id),
        manifest_bytes_outcome(b) matches Err(err) ==> init_next(
            code,
            memory,
            InitStageView::AwaitManifestBytes,
            EventView::Bytes(b),
        ) == (InitStageView::Finished, ActionView::<Seq<char>>::Finish(Err(err))),
{
}

/// Whether the ids and creation times an initialization carries are valid.
pub open spec fn init_valid(stage: InitStageView) -> bool {
    match stage {
        InitStageView::AwaitCandidate(_, id) | InitStageView::AwaitClock(id)
        | InitStageView::Writing(id) | InitStageView::Renaming(id) | InitStageView::Syncing(id)
        | InitStageView::RemovingTemporary(id, _) => is_uuid_v4_text(id),
        InitStageView::EnsureMemory(id, o) | InitStageView::CreatingMemory(id, o)
        | InitStageView::EnsureProject(id, o) | InitStageView::CreatingProject(id, o) => is_uuid_v4_text(id) && (o matches Some(t) ==> crate::timestamp::is_utc_timestamp_text(t)),
        _ => true,
    }
}

/// Whether a report is one an initialization takes: the kind its pending
/// action reports, sixteen random bytes, and a clock before the year 10000.
pub open spec fn init_event_ok(stage: InitStageView, e: EventView) -> bool {
    &&& init_accepts(stage, e)
    &&& (e matches EventView::Random(b) ==> b.len() == 16)
    &&& (e matches EventView::Clock(Some(secs)) ==> secs < 253402300800)
}

/// Every run of an initialization carries canonical ids and valid creation
/// times; the UTF-8 bytes of every manifest it writes read back as the id it
/// then returns, created and updated at the same time.
pub proof fn lemma_written_manifest_reads_back(
    code: Seq<char>,
    memory: Seq<char>,
    stage: InitStageView,
    e: EventView,
)
    requires
        init_valid(stage),
        init_event_ok(stage, e),
    ensures
        init_valid(init_next(code, memory, stage, e).0),
        init_next(code, memory, stage, e).1 matches ActionView::WriteTemporary(text) ==> (
        manifest_bytes_outcome(vstd::utf8::encode_utf8(text)) matches Ok(m) && m.created
            == m.updated && init_next(code, memory, stage, e).0 == InitStageView::Writing(m.id)),
        init_next(code, memory, stage, e).1 matches ActionView::Finish(Ok(id)) ==> is_uuid_v4_text(
            id,
        ),
{
    match (stage, e) {
        (InitStageView::AwaitManifestBytes, EventView::Bytes(b)) => {
            if vstd::utf8::valid_utf8(b) {
                crate::manifest::lemma_manifest_outcome_valid(vstd::utf8::decode_utf8(b));
            }
        },
        (InitStageView::AwaitRandom(_), EventView::Random(b)) => {
            crate::uuid::lemma_stamped_bytes_are_uuid_v4(b);
        },
        (InitStageView::AwaitClock(_), EventView::Clock(Some(secs))) => {
            crate::timestamp::lemma_formatted_time_is_valid(secs as nat);
        },
        (InitStageView::EnsureProject(id, Some(t)), _) => {
            crate::manifest::lemma_render_then_parse(id, t, t);
            vstd::utf8::encode_utf8_valid_utf8(render_text(id, t, t));
            vstd::utf8::encode_utf8_decode_utf8(render_text(id, t, t));
        },
        (InitStageView::CreatingProject(id, Some(t)), _) => {
            crate::manifest::lemma_render_then_parse(id, t, t);
            vstd::utf8::encode_utf8_valid_utf8(render_text(id, t, t));
            vstd::utf8::encode_utf8_decode_utf8(render_text(id, t, t));
        },
        _ => {},
    }
}

/// Resolving a project only reads: it creates, writes and removes nothing.
pub proof fn lemma_start_only_reads(
    code: Seq<char>,
    memory: Seq<char>,
    stage: StartStageView,
    e: EventView,
)
    ensures
        only_reads(start_next(code, memory, stage, e).1),
{
}

/// A code repository without a manifest resolves to no project: the result
/// is `NotInitialized`.
pub proof fn lemma_uninitialized_is_refused(code: Seq<char>, memory: Seq<char>)
    ensures
        start_next(
            code,
            memory,
            StartStageView::AwaitManifestPresence,
            EventView::Kind(PathKind::Missing),
        ) == (StartStageView::Finished, ActionView::<ProjectView>::Finish(
            Err(ErrorView::NotInitialized),
        )),
{
}

/// A resolved project is the one its manifest names, with its records in
/// the directory named after that id, whatever the code repository's path.
pub proof fn lemma_resolved_project_is_the_manifest(
    code: Seq<char>,
    memory: Seq<char>,
    m: ManifestView,
    e: EventView,
)
    ensures
        start_next(code, memory, StartStageView::AwaitProjectDirectory(m), e).1 matches ActionView::Finish(
            Ok(p),
        ) ==> p == (ProjectView {
            id: m.id,
            created: m.created,
            updated: m.updated,
            memory_directory: project_directory_text(memory, m.id),
        }),
{
}

/// Distinct project ids name distinct directories of a memory repository.
pub proof fn lemma_projects_are_isolated(memory: Seq<char>, id1: Seq<char>, id2: Seq<char>)
    requires
        id1 != id2,
    ensures
        project_directory_text(memory, id1) != project_directory_text(memory, id2),
{
    let base = if memory.len() == 0 || memory.last() == '/' {
        memory
    } else {
        memory + seq!['/']
    };
    assert(project_directory_text(memory, id1) == base + id1);
    assert(project_directory_text(memory, id2) == base + id2);
    if base + id1 == base + id2 {
        assert(id1 == (base + id1).subrange(base.len() as int, (base + id1).len() as int));
        assert(id2 == (base + id2).subrange(base.len() as int, (base + id2).len() as int));
    }
}

/// What an initialization writes for `id`, created at `t`, resolves back to
/// project `id` with its records in `id`'s directory of the memory
/// repository, from any code repository path that holds those bytes: the
/// same path, a moved repository or a fresh checkout that kept the manifest.
pub proof fn lemma_written_manifest_resolves(
    code: Seq<char>,
    memory: Seq<char>,
    id: Seq<char>,
    t: Seq<char>,
)
    requires
        is_uuid_v4_text(id),
        crate::timestamp::is_utc_timestamp_text(t),
    ensures
        ({
            let m = ManifestView { id: id, created: t, updated: t };
            &&& start_next(
                code,
                memory,
                StartStageView::AwaitManifestBytes,
                EventView::Bytes(vstd::utf8::encode_utf8(render_text(id, t, t))),
            ) == (StartStageView::AwaitProjectDirectory(m), ActionView::<ProjectView>::Inspect(
                TargetView::ProjectDirectory(id),
            ))
            &&& start_next(
                code,
                memory,
                StartStageView::AwaitProjectDirectory(m),
                EventView::Kind(PathKind::Directory),
            ).1 == ActionView::<ProjectView>::Finish(
                Ok(
                    ProjectView {
                        id: id,
                        created: t,
                        updated: t,
                        memory_directory: project_directory_text(memory, id),
                    },
                ),
            )
        }),
{
    crate::manifest::lemma_render_then_parse(id, t, t);
    vstd::utf8::encode_utf8_valid_utf8(render_text(id, t, t));
    vstd::utf8::encode_utf8_decode_utf8(render_text(id, t, t));
}

/// No entry of one project's directory is an entry of another's: for two
/// distinct canonical ids, every path joined under the one project's
/// directory differs from every path joined under the other's.
pub proof fn lemma_records_are_isolated(
    memory: Seq<char>,
    id1: Seq<char>,
    id2: Seq<char>,
    n1: Seq<char>,
    n2: Seq<char>,
)
    requires
        is_uuid_v4_text(id1),
        is_uuid_v4_text(id2),
        id1 != id2,
    ensures
        join_text(project_directory_text(memory, id1), n1) != join_text(
            project_directory_text(memory, id2),
            n2,
        ),
{
    let base = if memory.len() == 0 || memory.last() == '/' {
        memory
    } else {
        memory + seq!['/']
    };
    let d1 = project_directory_text(memory, id1);
    let d2 = project_directory_text(memory, id2);
    assert(d1 == base + id1);
    assert(d2 == base + id2);
    assert(d1.last() == id1[35]);
    assert(d2.last() == id2[35]);
    assert(crate::uuid::is_lower_hex(id1[35]));
    assert(crate::uuid::is_lower_hex(id2[35]));
    let p1 = join_text(d1, n1);
    let p2 = join_text(d2, n2);
    assert(p1 == d1 + seq!['/'] + n1);
    assert(p2 == d2 + seq!['/'] + n2);
    if p1 == p2 {
        assert(p1.subrange(0, d1.len() as int) == d1);
        assert(p2.subrange(0, d2.len() as int) == d2);
        assert(d1.subrange(base.len() as int, d1.len() as int) == id1);
        assert(d2.subrange(base.len() as int, d2.len() as int) == id2);
    }
}

/// Two projects resolved from manifests with distinct ids in one memory
/// repository have distinct memory directories, and no path inside the one
/// is a path inside the other: what one project's records are read from is
/// never written through the other's handle.
pub proof fn lemma_resolved_projects_are_isolated(
    code1: Seq<char>,
    code2: Seq<char>,
    memory: Seq<char>,
    m1: ManifestView,
    m2: ManifestView,
    e1: EventView,
    e2: EventView,
)
    requires
        crate::manifest::manifest_valid(m1),
        crate::manifest::manifest_valid(m2),
        m1.id != m2.id,
    ensures
        start_next(code1, memory, StartStageView::AwaitProjectDirectory(m1), e1).1 matches ActionView::Finish(
            Ok(p1),
        ) ==> (start_next(code2, memory, StartStageView::AwaitProjectDirectory(m2), e2).1 matches ActionView::Finish(
            Ok(p2),
        ) ==> p1.memory_directory != p2.memory_directory && forall|n1: Seq<char>, n2: Seq<char>|
            #[trigger] join_text(p1.memory_directory, n1) != #[trigger] join_text(
                p2.memory_directory,
                n2,
            )),
{
    lemma_projects_are_isolated(memory, m1.id, m2.id);
    assert forall|n1: Seq<char>, n2: Seq<char>|
        #[trigger] join_text(project_directory_text(memory, m1.id), n1) != #[trigger] join_text(
            project_directory_text(memory, m2.id),
            n2,
        ) by {
        lemma_records_are_isolated(memory, m1.id, m2.id, n1, n2);
    }
}

/// What a directory holds in a store of files keyed by path: for each name,
/// what is kept at the path that joins the name under `dir`. The listing a
/// caller takes of a project's memory directory reports these entries, and
/// [`crate::records::lemma_search_answer_is_unique`] shows that a search
/// answers from that listing alone.
pub open spec fn entries_in<V>(files: Map<Seq<char>, V>, dir: Seq<char>) -> Map<Seq<char>, V> {
    Map::new(
        |name: Seq<char>| files.contains_key(join_text(dir, name)),
        |name: Seq<char>| files[join_text(dir, name)],
    )
}

/// Searching one project never sees another: for two projects resolved from
/// manifests with distinct ids in one memory repository, creating, changing
/// or removing a file in the second project's memory directory leaves what
/// the first project's memory directory holds, and so the first project's
/// search, unchanged.
pub proof fn lemma_search_is_isolated<V>(
    code1: Seq<char>,
    code2: Seq<char>,
    memory: Seq<char>,
    m1: ManifestView,
    m2: ManifestView,
    e1: EventView,
    e2: EventView,
    files: Map<Seq<char>, V>,
    name: Seq<char>,
    value: V,
)
    requires
        crate::manifest::manifest_valid(m1),
        crate::manifest::manifest_valid(m2),
        m1.id != m2.id,
    ensures
        start_next(code1, memory, StartStageView::AwaitProjectDirectory(m1), e1).1 matches ActionView::Finish(
            Ok(p1),
        ) ==> (start_next(code2, memory, StartStageView::AwaitProjectDirectory(m2), e2).1 matches ActionView::Finish(
            Ok(p2),
        ) ==> entries_in(
            files.insert(join_text(p2.memory_directory, name), value),
            p1.memory_directory,
        ) == entries_in(files, p1.memory_directory) && entries_in(
            files.remove(join_text(p2.memory_directory, name)),
            p1.memory_directory,
        ) == entries_in(files, p1.memory_directory)),
{
    let d1 = project_directory_text(memory, m1.id);
    let d2 = project_directory_text(memory, m2.id);
    let inside = join_text(d2, name);
    assert forall|n: Seq<char>| #[trigger] join_text(d1, n) != inside by {
        lemma_records_are_isolated(memory, m1.id, m2.id, n, name);
    }
    assert(entries_in(files.insert(inside, value), d1) =~= entries_in(files, d1));
    assert(entries_in(files.remove(inside), d1) =~= entries_in(files, d1));
}

/// The project directory is looked at only once the memory repository is
/// known to be a directory: initialization goes on to the project directory
/// only right after it saw the memory repository as a directory or created
/// it, and it creates a project directory only after it looked at that
/// directory.
pub proof fn lemma_project_directory_follows_memory(
    code: Seq<char>,
    memory: Seq<char>,
    stage: InitStageView,
    e: EventView,
)
    requires
        init_accepts(stage, e),
    ensures
        init_next(code, memory, stage, e).0 matches InitStageView::EnsureProject(id, o) ==> (
        stage == InitStageView::EnsureMemory(id, o) && e == EventView::Kind(PathKind::Directory))
            || (stage == InitStageView::CreatingMemory(id, o) && e == EventView::Completed),
        init_next(code, memory, stage, e).1 matches ActionView::Inspect(
            TargetView::ProjectDirectory(id),
        ) ==> ((init_next(code, memory, stage, e).0 matches InitStageView::EnsureProject(x, _)
            && x == id) || (init_next(code, memory, stage, e).0 matches InitStageView::AwaitCandidate(
            _,
            x,
        ) && x == id)),
        init_next(code, memory, stage, e).1 matches ActionView::CreateDirectory(
            TargetView::ProjectDirectory(id),
        ) ==> (stage matches InitStageView::EnsureProject(x, _) && x == id),
{
}

/// A found manifest on a machine where the memory repository does not exist
/// yet: initialization inspects the memory repository, creates it, inspects
/// the project directory, creates it, and returns the manifest's id.
pub proof fn lemma_found_manifest_creates_both_directories(
    code: Seq<char>,
    memory: Seq<char>,
    b: Seq<u8>,
    m: ManifestView,
)
    requires
        manifest_bytes_outcome(b) == Ok::<ManifestView, ErrorView>(m),
    ensures
        ({
            let s1 = init_next(code, memory, InitStageView::AwaitManifestBytes, EventView::Bytes(b));
            let s2 = init_next(code, memory, s1.0, EventView::Kind(PathKind::Missing));
            let s3 = init_next(code, memory, s2.0, EventView::Completed);
            let s4 = init_next(code, memory, s3.0, EventView::Kind(PathKind::Missing));
            let s5 = init_next(code, memory, s4.0, EventView::Completed);
            &&& s1.1 == ActionView::<Seq<char>>::Inspect(TargetView::MemoryRepository)
            &&& s2.1 == ActionView::<Seq<char>>::CreateDirectory(TargetView::MemoryRepository)
            &&& s3.1 == ActionView::<Seq<char>>::Inspect(TargetView::ProjectDirectory(m.id))
            &&& s4.1 == ActionView::<Seq<char>>::CreateDirectory(
                TargetView::ProjectDirectory(m.id),
            )
            &&& s5 == (InitStageView::Finished, ActionView::<Seq<char>>::Finish(Ok(m.id)))
        }),
{
}

/// A found manifest whose memory repository and project directory exist
/// initializes to the manifest's id, creating nothing.
pub proof fn lemma_found_manifest_with_directories_is_its_id(
    code: Seq<char>,
    memory: Seq<char>,
    b: Seq<u8>,
    m: ManifestView,
)
    requires
        manifest_bytes_outcome(b) == Ok::<ManifestView, ErrorView>(m),
    ensures
        ({
            let s1 = init_next(code, memory, InitStageView::AwaitManifestBytes, EventView::Bytes(b));
            let s2 = init_next(code, memory, s1.0, EventView::Kind(PathKind::Directory));
            let s3 = init_next(code, memory, s2.0, EventView::Kind(PathKind::Directory));
            &&& s1.1 == ActionView::<Seq<char>>::Inspect(TargetView::MemoryRepository)
            &&& s2.1 == ActionView::<Seq<char>>::Inspect(TargetView::ProjectDirectory(m.id))
            &&& s3 == (InitStageView::Finished, ActionView::<Seq<char>>::Finish(Ok(m.id)))
        }),
{
}

/// Resolving any manifest that reads back as `m`, with its project directory
/// present, gives the project `m` names: its id, its creation time and its
/// last update time, each as the manifest records it.
pub proof fn lemma_resolved_project_keeps_manifest_fields(
    code: Seq<char>,
    memory: Seq<char>,
    b: Seq<u8>,
    m: ManifestView,
)
    requires
        manifest_bytes_outcome(b) == Ok::<ManifestView, ErrorView>(m),
    ensures
        ({
            let s1 = start_next(code, memory, StartStageView::AwaitManifestBytes, EventView::Bytes(b));
            let s2 = start_next(code, memory, s1.0, EventView::Kind(PathKind::Directory));
            &&& s1.1 == ActionView::<ProjectView>::Inspect(TargetView::ProjectDirectory(m.id))
            &&& s2.1 matches ActionView::Finish(Ok(p))
            &&& s2.1->Finish_0->Ok_0.id == m.id
            &&& s2.1->Finish_0->Ok_0.created == m.created
            &&& s2.1->Finish_0->Ok_0.updated == m.updated
            &&& s2.1->Finish_0->Ok_0.memory_directory == project_directory_text(memory, m.id)
        }),
{
}

/// Success is reported only once the project directory is known to exist:
/// initialization returns an id only right after it saw the project
/// directory as a directory or created it, or after the new manifest was
/// put in place; resolving returns a project only right after it saw the
/// project directory as a directory.
pub proof fn lemma_success_needs_the_project_directory(
    code: Seq<char>,
    memory: Seq<char>,
    init_stage: InitStageView,
    start_stage: StartStageView,
    e: EventView,
)
    requires
        init_accepts(init_stage, e),
    ensures
        init_next(code, memory, init_stage, e).1 is Finish && init_next(
            code,
            memory,
            init_stage,
            e,
        ).1->Finish_0 is Ok ==> (init_stage is EnsureProject && e == EventView::Kind(
            PathKind::Directory,
        )) || (init_stage is CreatingProject && e == EventView::Completed) || init_stage is Syncing,
        start_next(code, memory, start_stage, e).1 is Finish && start_next(
            code,
            memory,
            start_stage,
            e,
        ).1->Finish_0 is Ok ==> start_stage is AwaitProjectDirectory && e == EventView::Kind(
            PathKind::Directory,
        ),
{
}

} // verus!
