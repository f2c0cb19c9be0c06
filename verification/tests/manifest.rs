use agent_knowledge::error::{malformed, persistence, unsupported_version};
use agent_knowledge::manifest::{check_manifest_file, manifest_from_bytes};
use agent_knowledge::{parse_manifest, render, Error, ProjectId, FORMAT_VERSION};

const ID: &str = "550e8400-e29b-41d4-a716-446655440000";
const TIME: &str = "2026-09-22T18:00:00Z";

fn invalid_text(result: Result<agent_knowledge::Manifest, Error>) -> String {
    match result {
        Err(Error::InvalidIdentity(detail)) => detail,
        other => panic!("expected an invalid identity, got {other:?}"),
    }
}

#[test]
fn unsupported_version_is_rejected_without_rewriting_fields() {
    let text = "\
id = \"550e8400-e29b-41d4-a716-446655440000\"
version = 2
created = \"2026-09-22T18:00:00Z\"
updated = \"2026-09-22T18:00:00Z\"
";
    let error = parse_manifest(text).unwrap_err();
    let message = error.to_string();
    assert!(message.contains("version 2"));
    assert!(message.contains("not supported"));
    assert_ne!(FORMAT_VERSION, 2);
}

#[test]
fn a_rendered_manifest_reads_back() {
    let id = ProjectId::parse(ID).unwrap();
    let text = render(&id, TIME, "2026-09-23T01:02:03Z");
    assert_eq!(
        text,
        "id = \"550e8400-e29b-41d4-a716-446655440000\"\nversion = 1\ncreated = \"2026-09-22T18:00:00Z\"\nupdated = \"2026-09-23T01:02:03Z\"\n"
    );
    let manifest = parse_manifest(&text).unwrap();
    assert_eq!(manifest.id, id);
    assert_eq!(manifest.created, TIME);
    assert_eq!(manifest.updated, "2026-09-23T01:02:03Z");
}

#[test]
fn comments_blank_lines_order_and_whitespace_are_accepted() {
    let text = "# identity\r\n\r\n  updated = \"2026-09-22T18:00:00Z\"\t\r\n\u{a0}created=\"2026-09-22T18:00:00Z\"\nversion =1\n\u{3000}id\u{2003}=  \"550e8400-e29b-41d4-a716-446655440000\"";
    let manifest = parse_manifest(text).unwrap();
    assert_eq!(manifest.id.as_str(), ID);
    assert_eq!(manifest.created, TIME);
}

#[test]
fn each_problem_is_reported_with_its_line() {
    assert_eq!(
        invalid_text(parse_manifest("version = 1\nthis is not a manifest\n")),
        "identity manifest is malformed: line 2: expected key = value"
    );
    assert_eq!(
        invalid_text(parse_manifest("\n\nname = \"x\"\n")),
        "identity manifest is malformed: line 3: unknown key name"
    );
    assert_eq!(
        invalid_text(parse_manifest("version = 1\nversion = 1\n")),
        "identity manifest is malformed: line 2: duplicate key version"
    );
    assert_eq!(
        invalid_text(parse_manifest("id = 550e8400\n")),
        "identity manifest is malformed: expected a double-quoted string"
    );
    assert_eq!(
        invalid_text(parse_manifest("id = \"a\\\"b\"\n")),
        "identity manifest is malformed: escapes are not accepted in manifest strings"
    );
    assert_eq!(
        invalid_text(parse_manifest("id = \"550E8400-E29B-41D4-A716-446655440000\"\n")),
        "identity manifest is malformed: id must be a lowercase UUID version 4, for example 550e8400-e29b-41d4-a716-446655440000"
    );
    assert_eq!(
        invalid_text(parse_manifest("version = one\n")),
        "identity manifest is malformed: version must be an integer"
    );
    assert_eq!(
        invalid_text(parse_manifest("version = \n")),
        "identity manifest is malformed: version must be an integer"
    );
    assert_eq!(
        invalid_text(parse_manifest("version = 01\n")),
        "identity manifest is malformed: version must not have a leading zero"
    );
    assert_eq!(
        invalid_text(parse_manifest("version = 18446744073709551616\n")),
        "identity manifest is malformed: version is out of range"
    );
    assert_eq!(
        invalid_text(parse_manifest("created = \"2026-09-22 18:00:00\"\n")),
        "identity manifest is malformed: timestamp must be YYYY-MM-DDTHH:MM:SSZ in UTC"
    );
}

#[test]
fn missing_fields_are_named_in_order() {
    assert_eq!(
        invalid_text(parse_manifest("")),
        "identity manifest is malformed: missing version"
    );
    assert_eq!(
        invalid_text(parse_manifest("version = 1\n")),
        "identity manifest is malformed: missing id"
    );
    assert_eq!(
        invalid_text(parse_manifest(&format!("version = 1\nid = \"{ID}\"\n"))),
        "identity manifest is malformed: missing created"
    );
    assert_eq!(
        invalid_text(parse_manifest(&format!(
            "version = 1\nid = \"{ID}\"\ncreated = \"{TIME}\"\n"
        ))),
        "identity manifest is malformed: missing updated"
    );
    assert_eq!(
        invalid_text(parse_manifest("version = 18446744073709551615\n")),
        "identity manifest version 18446744073709551615 is not supported; leave the file unchanged and upgrade the client"
    );
}

#[test]
fn the_manifest_file_is_checked_before_its_text() {
    assert!(check_manifest_file(true, 64 * 1024).is_none());
    match check_manifest_file(true, 64 * 1024 + 1) {
        Some(Error::InvalidIdentity(detail)) => {
            assert_eq!(detail, "identity manifest is malformed: file is too large")
        }
        other => panic!("unexpected {other:?}"),
    }
    match check_manifest_file(false, 10) {
        Some(Error::InvalidIdentity(detail)) => {
            assert_eq!(detail, "identity manifest is malformed: manifest path is not a file")
        }
        other => panic!("unexpected {other:?}"),
    }
    assert_eq!(
        invalid_text(manifest_from_bytes(&[0x69, 0x64, 0xff, 0x0a])),
        "identity manifest is malformed: file is not UTF-8"
    );
    let text = format!("id = \"{ID}\"\nversion = 1\ncreated = \"{TIME}\"\nupdated = \"{TIME}\"\n");
    assert_eq!(manifest_from_bytes(text.as_bytes()).unwrap().id.as_str(), ID);
}

#[test]
fn error_texts() {
    assert_eq!(Error::NotInitialized.to_string(), "project is not initialized");
    assert_eq!(
        malformed("reason").to_string(),
        "identity manifest is malformed: reason"
    );
    assert_eq!(
        unsupported_version(7).to_string(),
        "identity manifest version 7 is not supported; leave the file unchanged and upgrade the client"
    );
    let error = persistence("read /dev/urandom", "denied");
    assert!(matches!(&error, Error::Persistence(_)));
    assert_eq!(error.to_string(), "read /dev/urandom: denied");
}
