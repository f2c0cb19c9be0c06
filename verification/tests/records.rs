use agent_knowledge::lifecycle::Resolution;
use agent_knowledge::{start, Action, DirectoryEntry, Error, Event, Listing, PathKind, Project};

const MANIFEST: &[u8] = b"id = \"550e8400-e29b-41d4-a716-446655440000\"\nversion = 1\ncreated = \"2026-09-22T18:00:00Z\"\nupdated = \"2026-09-22T18:00:00Z\"\n";

fn project(memory: &str) -> Project {
    let (mut machine, mut action): (Resolution, Action<Project>) = start("/code", memory);
    loop {
        let event = match &action {
            Action::Finish(_) => break,
            Action::Inspect(_) => Event::Kind(PathKind::Directory),
            Action::InspectManifestFile => Event::Metadata { is_file: true, len: MANIFEST.len() as u64 },
            Action::ReadManifest => Event::Bytes(MANIFEST.to_vec()),
            _ => unreachable!(),
        };
        let (next, next_action) = machine.step(event);
        machine = next;
        action = next_action;
    }
    match action {
        Action::Finish(result) => result.unwrap(),
        _ => unreachable!(),
    }
}

#[test]
fn records_are_the_regular_files_sorted_by_name() {
    let project = project("/memory");
    assert_eq!(
        project.memory_directory(),
        "/memory/550e8400-e29b-41d4-a716-446655440000"
    );
    let listing = Listing::Entries(vec![
        DirectoryEntry::File("zeta.md".to_string()),
        DirectoryEntry::Other,
        DirectoryEntry::File("Beta.md".to_string()),
        DirectoryEntry::File("alpha.md".to_string()),
        DirectoryEntry::File("alpha.md.bak".to_string()),
        DirectoryEntry::File("ä.md".to_string()),
    ]);
    assert_eq!(
        project.search(&listing).unwrap(),
        vec!["Beta.md", "alpha.md", "alpha.md.bak", "zeta.md", "ä.md"]
    );
}

#[test]
fn the_first_unreadable_entry_fails_the_listing() {
    let project = project("/memory/");
    let dir = project.memory_directory().to_string();
    assert_eq!(dir, "/memory/550e8400-e29b-41d4-a716-446655440000");
    let listing = Listing::Entries(vec![
        DirectoryEntry::File("a.md".to_string()),
        DirectoryEntry::Uninspectable(format!("{dir}/b.md"), "denied".to_string()),
        DirectoryEntry::NonUtf8File,
    ]);
    let error = project.search(&listing).unwrap_err();
    assert_eq!(error.to_string(), format!("inspect {dir}/b.md: denied"));
    let listing = Listing::Entries(vec![DirectoryEntry::NonUtf8File, DirectoryEntry::Unreadable("x".to_string())]);
    let error = project.search(&listing).unwrap_err();
    assert_eq!(error.to_string(), format!("record file name is not valid UTF-8 in {dir}"));
    let listing = Listing::Entries(vec![DirectoryEntry::Unreadable("gone".to_string())]);
    assert_eq!(project.search(&listing).unwrap_err().to_string(), format!("read {dir}: gone"));
    let error = project.search(&Listing::Unreadable("gone".to_string())).unwrap_err();
    assert!(matches!(&error, Error::Persistence(_)));
    assert_eq!(error.to_string(), format!("read {dir}: gone"));
}

#[test]
fn an_empty_directory_has_no_records() {
    let project = project("memory");
    assert_eq!(project.memory_directory(), "memory/550e8400-e29b-41d4-a716-446655440000");
    assert_eq!(project.search(&Listing::Entries(Vec::new())).unwrap(), Vec::<String>::new());
}
