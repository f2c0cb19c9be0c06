//! The project identity scenarios, run against an in-memory filesystem that
//! performs the actions the library asks for.

use std::collections::BTreeMap;

use agent_knowledge::lifecycle::{Initialization, Resolution};
use agent_knowledge::{
    initialize, start, Action, DirectoryEntry, Error, Event, Listing, PathKind, Project, ProjectId,
    Target, WriteStage, MANIFEST_FILE_NAME,
};

#[derive(Clone, Debug, PartialEq)]
enum Node {
    Directory { mode: u32 },
    File(Vec<u8>),
}

/// A filesystem of absolute paths without symbolic links.
struct Disk {
    nodes: BTreeMap<String, Node>,
    random_calls: u8,
    clock: Option<u64>,
    fail_writes: Option<WriteStage>,
}

impl Disk {
    fn new() -> Self {
        let mut nodes = BTreeMap::new();
        nodes.insert("/".to_string(), Node::Directory { mode: 0o755 });
        Disk { nodes, random_calls: 0, clock: Some(1_790_100_000), fail_writes: None }
    }

    fn directory(&mut self, path: &str) -> String {
        self.nodes.insert(path.to_string(), Node::Directory { mode: 0o755 });
        path.to_string()
    }

    fn write(&mut self, path: &str, bytes: &[u8]) {
        self.nodes.insert(path.to_string(), Node::File(bytes.to_vec()));
    }

    fn read(&self, path: &str) -> Option<Vec<u8>> {
        match self.nodes.get(path) {
            Some(Node::File(bytes)) => Some(bytes.clone()),
            _ => None,
        }
    }

    fn holds(&self, path: &str) -> bool {
        self.nodes.contains_key(path)
    }

    fn parent(path: &str) -> String {
        match path.rfind('/') {
            Some(0) => "/".to_string(),
            Some(i) => path[..i].to_string(),
            None => ".".to_string(),
        }
    }

    fn children(&self, path: &str) -> Vec<String> {
        let prefix = format!("{path}/");
        self.nodes
            .keys()
            .filter(|k| k.starts_with(&prefix) && !k[prefix.len()..].contains('/'))
            .map(|k| k[prefix.len()..].to_string())
            .collect()
    }

    fn rename_tree(&mut self, from: &str, to: &str) {
        let moved: Vec<(String, Node)> = self
            .nodes
            .iter()
            .filter(|(k, _)| *k == from || k.starts_with(&format!("{from}/")))
            .map(|(k, v)| (k.clone(), v.clone()))
            .collect();
        for (k, v) in moved {
            self.nodes.remove(&k);
            self.nodes.insert(format!("{to}{}", &k[from.len()..]), v);
        }
    }

    fn resolve(target: &Target, code: &str, memory: &str) -> String {
        match target {
            Target::CodeRepository => code.to_string(),
            Target::Manifest => format!("{code}/{MANIFEST_FILE_NAME}"),
            Target::MemoryRepository => memory.to_string(),
            Target::ProjectDirectory(id) => format!("{memory}/{}", id.as_str()),
        }
    }

    fn kind(&self, path: &str) -> PathKind {
        match self.nodes.get(path) {
            None => PathKind::Missing,
            Some(Node::Directory { .. }) => PathKind::Directory,
            Some(Node::File(_)) => PathKind::Other,
        }
    }

    fn perform<T>(&mut self, action: &Action<T>, code: &str, memory: &str) -> Event {
        let manifest = format!("{code}/{MANIFEST_FILE_NAME}");
        let partial = format!("{manifest}.partial");
        match action {
            Action::Inspect(target) => Event::Kind(self.kind(&Self::resolve(target, code, memory))),
            Action::InspectManifestFile => match self.nodes.get(&manifest) {
                None => Event::Failed("No such file or directory (os error 2)".to_string()),
                Some(Node::File(bytes)) => Event::Metadata { is_file: true, len: bytes.len() as u64 },
                Some(Node::Directory { .. }) => Event::Metadata { is_file: false, len: 4096 },
            },
            Action::ReadManifest => match self.read(&manifest) {
                Some(bytes) => Event::Bytes(bytes),
                None => Event::Failed("No such file or directory (os error 2)".to_string()),
            },
            Action::ReadRandom => {
                self.random_calls += 1;
                Event::Random([self.random_calls; 16])
            }
            Action::ReadClock => Event::Clock(self.clock),
            Action::CreateDirectory(target) => {
                let path = Self::resolve(target, code, memory);
                if self.kind(&Self::parent(&path)) != PathKind::Directory {
                    Event::Failed("No such file or directory (os error 2)".to_string())
                } else {
                    self.nodes.insert(path, Node::Directory { mode: 0o700 });
                    Event::Completed
                }
            }
            Action::WriteTemporary(text) => {
                if let Some(stage) = self.fail_writes {
                    return Event::WriteFailed(stage, "No space left on device (os error 28)".to_string());
                }
                self.write(&partial, text.as_bytes());
                Event::Completed
            }
            Action::RemoveTemporary => {
                self.nodes.remove(&partial);
                Event::Completed
            }
            Action::RenameTemporary => match self.nodes.remove(&partial) {
                Some(node) => {
                    self.nodes.insert(manifest, node);
                    Event::Completed
                }
                None => Event::Failed("No such file or directory (os error 2)".to_string()),
            },
            Action::SyncCodeRepository => Event::Completed,
            Action::RemoveIfEmpty(target) => {
                let path = Self::resolve(target, code, memory);
                if self.children(&path).is_empty() {
                    self.nodes.remove(&path);
                }
                Event::Completed
            }
            Action::Finish(_) => unreachable!(),
        }
    }

    fn initialize(&mut self, code: &str, memory: &str) -> Result<ProjectId, Error> {
        let (mut machine, mut action): (Initialization, Action<ProjectId>) = initialize(code, memory);
        loop {
            if let Action::Finish(result) = action {
                return result;
            }
            let event = self.perform(&action, code, memory);
            assert!(machine.accepts(&event));
            let (next, next_action) = machine.step(event);
            machine = next;
            action = next_action;
        }
    }

    fn start(&mut self, code: &str, memory: &str) -> Result<Project, Error> {
        let (mut machine, mut action): (Resolution, Action<Project>) = start(code, memory);
        loop {
            if let Action::Finish(result) = action {
                return result;
            }
            let before = self.nodes.clone();
            let event = self.perform(&action, code, memory);
            assert_eq!(self.nodes, before, "resolving a project changes nothing on disk");
            assert!(machine.accepts(&event));
            let (next, next_action) = machine.step(event);
            machine = next;
            action = next_action;
        }
    }

    fn search(&self, project: &Project) -> Result<Vec<String>, Error> {
        let dir = project.memory_directory();
        let listing = if self.kind(dir) != PathKind::Directory {
            Listing::Unreadable("No such file or directory (os error 2)".to_string())
        } else {
            Listing::Entries(
                self.children(dir)
                    .into_iter()
                    .map(|name| match self.nodes.get(&format!("{dir}/{name}")) {
                        Some(Node::File(_)) => DirectoryEntry::File(name),
                        _ => DirectoryEntry::Other,
                    })
                    .collect(),
            )
        };
        project.search(&listing)
    }
}

fn field<'a>(text: &'a str, key: &str) -> &'a str {
    text.lines()
        .find_map(|line| line.strip_prefix(&format!("{key} = ")))
        .unwrap()
}

fn manifest_text(disk: &Disk, code: &str) -> String {
    String::from_utf8(disk.read(&format!("{code}/{MANIFEST_FILE_NAME}")).unwrap()).unwrap()
}

/// Initializing a project writes an immutable manifest
#[test]
fn initializing_a_project_writes_an_immutable_manifest() {
    let mut disk = Disk::new();
    let code = disk.directory("/root/code");
    let memory = "/root/memory".to_string();
    disk.directory("/root");

    let id = disk.initialize(&code, &memory).unwrap();

    assert_eq!(MANIFEST_FILE_NAME, ".agent-knowledge.toml");
    let text = manifest_text(&disk, &code);
    assert_eq!(field(&text, "id"), format!("\"{}\"", id.as_str()));
    assert_eq!(field(&text, "version"), "1");
    assert_eq!(
        field(&text, "created"),
        field(&text, "updated"),
        "a new manifest records one creation time"
    );
    assert_eq!(field(&text, "created"), "\"2026-09-22T18:00:00Z\"");
    assert!(text.ends_with('\n'));
    assert!(!disk.holds(&format!("{code}/{MANIFEST_FILE_NAME}.partial")));

    let project_directory = format!("{memory}/{}", id.as_str());
    assert_eq!(disk.nodes.get(&project_directory), Some(&Node::Directory { mode: 0o700 }));

    let resolved = disk.start(&code, &memory).unwrap();
    assert_eq!(resolved.id(), &id);
    assert_eq!(resolved.created(), resolved.updated());
    assert_eq!(resolved.memory_directory(), project_directory);
    assert_eq!(disk.search(&resolved).unwrap(), Vec::<String>::new());
}

/// Initializing twice keeps the original id
#[test]
fn initializing_twice_keeps_the_original_id() {
    let mut disk = Disk::new();
    disk.directory("/root");
    let code = disk.directory("/root/code");
    let memory = "/root/memory".to_string();

    let original = disk.initialize(&code, &memory).unwrap();
    let before = disk.read(&format!("{code}/{MANIFEST_FILE_NAME}")).unwrap();
    let again = disk.initialize(&code, &memory).unwrap();

    assert_eq!(again, original);
    assert_eq!(disk.read(&format!("{code}/{MANIFEST_FILE_NAME}")).unwrap(), before);
    assert_eq!(disk.children(&memory), vec![original.as_str().to_string()]);
}

/// An invalid manifest is never overwritten
#[test]
fn an_invalid_manifest_is_never_overwritten() {
    let mut disk = Disk::new();
    disk.directory("/root");
    let code = disk.directory("/root/code");
    let memory = "/root/memory".to_string();
    let manifest = format!("{code}/{MANIFEST_FILE_NAME}");
    let original = b"this is not a manifest\n";
    disk.write(&manifest, original);

    let error = disk.initialize(&code, &memory).unwrap_err();

    assert!(
        error.to_string().contains("malformed"),
        "the error should say what is wrong, got: {error:?}"
    );
    assert!(matches!(error, Error::InvalidIdentity(_)));
    assert_eq!(disk.read(&manifest).unwrap(), original);
    assert!(
        !disk.holds(&memory) || disk.children(&memory).is_empty(),
        "a rejected manifest must not allocate a project directory"
    );
}

/// Identity survives a path change
#[test]
fn identity_survives_a_path_change() {
    let mut disk = Disk::new();
    disk.directory("/root");
    let code = disk.directory("/root/code");
    let memory = "/root/memory".to_string();
    let id = disk.initialize(&code, &memory).unwrap();
    let directory = disk.start(&code, &memory).unwrap().memory_directory().to_string();
    disk.write(&format!("{directory}/decision.md"), b"kept");

    let moved = "/root/moved-code";
    disk.rename_tree(&code, moved);
    let project = disk.start(moved, &memory).unwrap();

    assert_eq!(project.id().as_str(), id.as_str());
    assert_eq!(disk.search(&project).unwrap(), vec!["decision.md".to_string()]);
}

/// Identity survives a fresh checkout that keeps the manifest
#[test]
fn identity_survives_a_fresh_checkout_that_keeps_the_manifest() {
    let mut disk = Disk::new();
    disk.directory("/root");
    let code = disk.directory("/root/code");
    let memory = "/root/memory".to_string();
    let id = disk.initialize(&code, &memory).unwrap();
    let directory = disk.start(&code, &memory).unwrap().memory_directory().to_string();
    disk.write(&format!("{directory}/procedure.md"), b"kept");

    let checkout = disk.directory("/root/checkout");
    let bytes = disk.read(&format!("{code}/{MANIFEST_FILE_NAME}")).unwrap();
    disk.write(&format!("{checkout}/{MANIFEST_FILE_NAME}"), &bytes);
    let project = disk.start(&checkout, &memory).unwrap();

    assert_eq!(project.id(), &id);
    assert_eq!(disk.search(&project).unwrap(), vec!["procedure.md".to_string()]);
}

/// An uninitialized project exposes no normal tools
#[test]
fn an_uninitialized_project_exposes_no_normal_tools() {
    let mut disk = Disk::new();
    disk.directory("/root");
    let code = disk.directory("/root/code");
    let memory = "/root/memory".to_string();

    let error = disk.start(&code, &memory).unwrap_err();

    assert_eq!(error.to_string(), "project is not initialized");
    assert!(matches!(error, Error::NotInitialized));
    assert!(!disk.holds(&format!("{code}/{MANIFEST_FILE_NAME}")));
    assert!(!disk.holds(&memory));
    // `search` is a method on the handle `start` refused to return, and it
    // takes no project id, so there is no tool to call against this directory.
    let _bound_search: fn(&Project, &Listing) -> Result<Vec<String>, Error> = Project::search;
}

/// Two projects cannot read each other
#[test]
fn two_projects_cannot_read_each_other() {
    let mut disk = Disk::new();
    disk.directory("/root");
    let memory = "/root/memory".to_string();
    let first_code = disk.directory("/root/first");
    let second_code = disk.directory("/root/second");
    let first_id = disk.initialize(&first_code, &memory).unwrap();
    let second_id = disk.initialize(&second_code, &memory).unwrap();
    assert_ne!(first_id, second_id);

    let first = disk.start(&first_code, &memory).unwrap();
    let second = disk.start(&second_code, &memory).unwrap();
    disk.write(&format!("{}/only-first.md", first.memory_directory()), b"one");
    disk.write(&format!("{}/only-second.md", second.memory_directory()), b"two");

    assert_eq!(disk.search(&first).unwrap(), vec!["only-first.md".to_string()]);
    assert_eq!(disk.search(&second).unwrap(), vec!["only-second.md".to_string()]);
    let _no_project_argument: fn(&Project, &Listing) -> Result<Vec<String>, Error> =
        Project::search;
    let _id_is_not_a_parameter: fn(&ProjectId) -> &str = ProjectId::as_str;
}

#[test]
fn a_missing_code_repository_is_reported() {
    let mut disk = Disk::new();
    let error = disk.initialize("/nowhere", "/memory").unwrap_err();
    assert_eq!(error.to_string(), "code repository does not exist: /nowhere");
    let error = disk.start("/nowhere", "/memory").unwrap_err();
    assert!(matches!(&error, Error::Persistence(_)));
}

#[test]
fn a_missing_project_directory_is_reported_at_start() {
    let mut disk = Disk::new();
    disk.directory("/root");
    let code = disk.directory("/root/code");
    let id = disk.initialize(&code, "/root/memory").unwrap();
    disk.nodes.remove(&format!("/root/memory/{}", id.as_str()));
    let error = disk.start(&code, "/root/memory").unwrap_err();
    assert_eq!(
        error.to_string(),
        format!("project memory directory is missing: /root/memory/{}", id.as_str())
    );
}

#[test]
fn a_memory_repository_that_is_a_file_is_refused() {
    let mut disk = Disk::new();
    disk.directory("/root");
    let code = disk.directory("/root/code");
    disk.write("/root/memory", b"");
    let error = disk.initialize(&code, "/root/memory").unwrap_err();
    assert_eq!(error.to_string(), "memory repository is not a directory: /root/memory");
    assert!(!disk.holds(&format!("{code}/{MANIFEST_FILE_NAME}")));
}

#[test]
fn a_failed_write_leaves_no_manifest_and_no_directory() {
    let mut disk = Disk::new();
    disk.directory("/root");
    let code = disk.directory("/root/code");
    disk.fail_writes = Some(WriteStage::Write);
    let error = disk.initialize(&code, "/root/memory").unwrap_err();
    assert_eq!(
        error.to_string(),
        "write /root/code/.agent-knowledge.toml.partial: No space left on device (os error 28)"
    );
    assert!(!disk.holds(&format!("{code}/{MANIFEST_FILE_NAME}")));
    assert!(!disk.holds(&format!("{code}/{MANIFEST_FILE_NAME}.partial")));
    assert!(disk.children("/root/memory").is_empty());
}

#[test]
fn a_clock_before_the_epoch_is_refused() {
    let mut disk = Disk::new();
    disk.directory("/root");
    let code = disk.directory("/root/code");
    disk.clock = None;
    let error = disk.initialize(&code, "/root/memory").unwrap_err();
    assert_eq!(error.to_string(), "system clock is before the Unix epoch");
}

#[test]
fn an_id_whose_directory_is_taken_is_not_used() {
    let mut disk = Disk::new();
    disk.directory("/root");
    let code = disk.directory("/root/code");
    disk.directory("/root/memory");
    let taken = ProjectId::from_random_bytes([1; 16]);
    disk.directory(&format!("/root/memory/{}", taken.as_str()));
    let id = disk.initialize(&code, "/root/memory").unwrap();
    assert_eq!(id, ProjectId::from_random_bytes([2; 16]));
}

#[test]
fn eight_taken_ids_give_up() {
    let mut disk = Disk::new();
    disk.directory("/root");
    let code = disk.directory("/root/code");
    disk.directory("/root/memory");
    for byte in 1..=8u8 {
        let taken = ProjectId::from_random_bytes([byte; 16]);
        disk.directory(&format!("/root/memory/{}", taken.as_str()));
    }
    let error = disk.initialize(&code, "/root/memory").unwrap_err();
    assert_eq!(
        error.to_string(),
        "could not allocate a project id whose memory directory is free"
    );
    assert_eq!(disk.random_calls, 8);
}

#[test]
fn changes_in_another_project_leave_a_search_unchanged() {
    let mut disk = Disk::new();
    disk.directory("/root");
    let memory = "/root/memory".to_string();
    let first_code = disk.directory("/root/first");
    let second_code = disk.directory("/root/second");
    disk.initialize(&first_code, &memory).unwrap();
    disk.initialize(&second_code, &memory).unwrap();
    let first = disk.start(&first_code, &memory).unwrap();
    let second = disk.start(&second_code, &memory).unwrap();
    disk.write(&format!("{}/b.md", first.memory_directory()), b"b");
    disk.write(&format!("{}/a.md", first.memory_directory()), b"a");
    let before = disk.search(&first).unwrap();
    assert_eq!(before, vec!["a.md".to_string(), "b.md".to_string()]);

    let other = format!("{}/notes.md", second.memory_directory());
    disk.write(&other, b"created");
    assert_eq!(disk.search(&first).unwrap(), before);
    disk.write(&other, b"changed");
    assert_eq!(disk.search(&first).unwrap(), before);
    disk.nodes.remove(&other);
    assert_eq!(disk.search(&first).unwrap(), before);
    assert!(disk.search(&second).unwrap().is_empty());
}
