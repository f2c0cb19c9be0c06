//! Project identity.
//!
//! The code repository holds one manifest, `.agent-knowledge.toml`. The
//! memory repository holds one directory per project id. Callers pass the
//! memory repository path; its name and location are not decided here.
use vstd::prelude::*;

use crate::error::{malformed, malformed_error, Error, ErrorView};
use crate::text::{chars_of, string_from_chars};
use crate::timestamp::is_utc_timestamp_text;
use crate::uuid::{
    format_uuid, is_uuid_v4_text, lemma_stamped_bytes_are_uuid_v4, stamp_version,
    stamp_version_bits, uuid_text, uuid_text_valid,
};

verus! {

/// File name of the identity manifest at the root of a code repository.
pub const MANIFEST_FILE_NAME: &'static str = ".agent-knowledge.toml";

/// Identity format version this client writes and accepts.
pub const FORMAT_VERSION: u64 = 1;

/// Largest manifest, in bytes, that a client reads.
pub const MAX_MANIFEST_BYTES: u64 = 64 * 1024;

/// Suffix of the temporary sibling a manifest is written to before it is
/// renamed into place.
pub const PARTIAL_SUFFIX: &'static str = ".partial";

/// What a malformed id is told.
pub open spec fn id_reason() -> Seq<char> {
    "id must be a lowercase UUID version 4, for example 550e8400-e29b-41d4-a716-446655440000"@
}

/// Immutable id of one code repository's memory.
///
/// Produced by `initialize` or read back through [`Project::id`]. No normal
/// operation takes a project id as an argument.
#[derive(Debug, PartialEq, Eq)]
pub struct ProjectId(String);

impl View for ProjectId {
    type V = Seq<char>;

    closed spec fn view(&self) -> Seq<char> {
        self.0@
    }
}

impl Clone for ProjectId {
    fn clone(&self) -> (r: Self)
        ensures
            r@ == self@,
    {
        proof {
            use_type_invariant(self);
        }
        ProjectId(self.0.clone())
    }
}

impl ProjectId {
    #[verifier::type_invariant]
    spec fn is_canonical(self) -> bool {
        is_uuid_v4_text(self.0@)
    }

    /// The canonical lowercase UUID text stored in the manifest and used as
    /// the memory directory name.
    pub fn as_str(&self) -> (r: &str)
        ensures
            r@ == self@,
            is_uuid_v4_text(self@),
    {
        proof {
            use_type_invariant(self);
        }
        self.0.as_str()
    }

    /// A fresh id from sixteen random bytes: the version-4 and variant bits
    /// are set and the bytes are written as canonical UUID text.
    pub fn from_random_bytes(bytes: [u8; 16]) -> (r: ProjectId)
        ensures
            r@ == uuid_text(stamp_version(bytes@)),
            is_uuid_v4_text(r@),
    {
        let stamped = stamp_version_bits(bytes);
        proof {
            lemma_stamped_bytes_are_uuid_v4(bytes@);
        }
        ProjectId(format_uuid(&stamped))
    }

    /// The id written by the characters `value`, which must be canonical.
    pub fn parse_chars(value: &[char]) -> (r: Result<ProjectId, Error>)
        ensures
            is_uuid_v4_text(value@) ==> (r matches Ok(id) && id@ == value@),
            !is_uuid_v4_text(value@) ==> (r matches Err(e) && e@ == malformed_error(id_reason())),
    {
        if !uuid_text_valid(value) {
            return Err(
                malformed(
                    "id must be a lowercase UUID version 4, for example 550e8400-e29b-41d4-a716-446655440000",
                ),
            );
        }
        Ok(ProjectId(string_from_chars(value)))
    }

    /// The id written by `value`, which must be a canonical lowercase UUID
    /// version 4.
    pub fn parse(value: &str) -> (r: Result<ProjectId, Error>)
        ensures
            is_uuid_v4_text(value@) ==> (r matches Ok(id) && id@ == value@),
            !is_uuid_v4_text(value@) ==> (r matches Err(e) && e@ == malformed_error(id_reason())),
    {
        let cs = chars_of(value);
        ProjectId::parse_chars(cs.as_slice())
    }
}

/// What a [`Project`] holds.
pub struct ProjectView {
    pub id: Seq<char>,
    pub created: Seq<char>,
    pub updated: Seq<char>,
    pub memory_directory: Seq<char>,
}

/// A code repository whose identity manifest was resolved.
///
/// The handle is bound to one project. Record operations do not accept a
/// different project id.
#[derive(Debug)]
pub struct Project {
    id: ProjectId,
    created: String,
    updated: String,
    memory_directory: String,
}

impl View for Project {
    type V = ProjectView;

    closed spec fn view(&self) -> ProjectView {
        ProjectView {
            id: self.id@,
            created: self.created@,
            updated: self.updated@,
            memory_directory: self.memory_directory@,
        }
    }
}

impl Project {
    #[verifier::type_invariant]
    spec fn has_valid_times(self) -> bool {
        is_utc_timestamp_text(self.created@) && is_utc_timestamp_text(self.updated@)
    }

    /// A handle for the project `id` whose records are in `memory_directory`.
    pub(crate) fn new(id: ProjectId, created: String, updated: String, memory_directory: String) -> (r: Project)
        requires
            is_utc_timestamp_text(created@),
            is_utc_timestamp_text(updated@),
        ensures
            r@ == (ProjectView {
                id: id@,
                created: created@,
                updated: updated@,
                memory_directory: memory_directory@,
            }),
    {
        Project { id, created, updated, memory_directory }
    }

    /// The id stored in the manifest.
    pub fn id(&self) -> (r: &ProjectId)
        ensures
            r@ == self@.id,
    {
        &self.id
    }

    /// Creation timestamp from the manifest, `YYYY-MM-DDTHH:MM:SSZ`.
    pub fn created(&self) -> (r: &str)
        ensures
            r@ == self@.created,
            is_utc_timestamp_text(r@),
    {
        proof {
            use_type_invariant(self);
        }
        self.created.as_str()
    }

    /// Update timestamp from the manifest, `YYYY-MM-DDTHH:MM:SSZ`.
    ///
    /// A valid manifest is never rewritten, so this stays equal to
    /// [`Self::created`] for every manifest this client wrote.
    pub fn updated(&self) -> (r: &str)
        ensures
            r@ == self@.updated,
            is_utc_timestamp_text(r@),
    {
        proof {
            use_type_invariant(self);
        }
        self.updated.as_str()
    }

    /// Directory of this project's records inside the memory repository.
    ///
    /// The path is the one resolved for this handle. It is not a way to name
    /// a different project.
    pub fn memory_directory(&self) -> (r: &str)
        ensures
            r@ == self@.memory_directory,
    {
        self.memory_directory.as_str()
    }
}

} // verus!
