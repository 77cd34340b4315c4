//! The enumerations that are stored by name, and their names.

use crate::text::same_text;
use vstd::prelude::*;

verus! {

/// A stored name that no variant of the expected enumeration has.
#[derive(Clone, Debug)]
pub struct InvalidName {
    pub enumeration: &'static str,
    pub name: String,
}

impl InvalidName {
    pub open spec fn spec_message(&self) -> Seq<char> {
        "invalid "@ + self.enumeration@ + " value: "@ + self.name@
    }

    /// What was wrong, in words.
    pub fn message(&self) -> (text: String)
        ensures
            text@ == self.spec_message(),
    {
        String::from_str("invalid ").concat(self.enumeration).concat(" value: ").concat(
            self.name.as_str(),
        )
    }
}

/// Whether a document lives in the knowledge directory or an arbitrary resource path.
#[derive(Clone, Copy, Debug, PartialEq, Eq, Structural)]
pub enum DocCategory {
    KnowledgeFile,
    Resource,
}

impl DocCategory {
    pub const KNOWLEDGE: &'static str = "knowledge_file";

    pub const RESOURCE: &'static str = "resource";

    /// The name that a value is stored under.
    pub open spec fn name(self) -> Seq<char> {
        match self {
            DocCategory::KnowledgeFile => "knowledge_file"@,
            DocCategory::Resource => "resource"@,
        }
    }

    /// The name that this value is stored under.
    pub fn as_str(&self) -> (name: &'static str)
        ensures
            name@ == self.name(),
    {
        match self {
            DocCategory::KnowledgeFile => DocCategory::KNOWLEDGE,
            DocCategory::Resource => DocCategory::RESOURCE,
        }
    }

    /// The value stored under the name `s`, if there is one.
    pub fn try_from_str(s: &str) -> (value: Option<DocCategory>)
        ensures
            match value {
                Some(value) => s@ == value.name(),
                None => forall|value: DocCategory| s@ != #[trigger] value.name(),
            },
    {
        if same_text(s, DocCategory::KNOWLEDGE) {
            Some(DocCategory::KnowledgeFile)
        } else if same_text(s, DocCategory::RESOURCE) {
            Some(DocCategory::Resource)
        } else {
            None
        }
    }

    /// Reads a stored name.
    pub fn decode(s: &str) -> (value: Result<DocCategory, InvalidName>)
        ensures
            match value {
                Ok(value) => s@ == value.name(),
                Err(error) => (forall|value: DocCategory| s@ != #[trigger] value.name())
                    && error.enumeration@ == "DocCategory"@ && error.name@ == s@,
            },
    {
        match DocCategory::try_from_str(s) {
            Some(value) => Ok(value),
            None => Err(InvalidName { enumeration: "DocCategory", name: s.to_owned() }),
        }
    }

    /// Different values have different names, so a stored value reads back as itself.
    pub proof fn lemma_names_differ(a: DocCategory, b: DocCategory)
        ensures
            a.name() == b.name() <==> a == b,
    {
        reveal_strlit("knowledge_file");
        reveal_strlit("resource");
        assert("knowledge_file"@.len() != "resource"@.len());
    }
}

/// The state of the embedding of a chunk of a document for a model.
#[derive(Clone, Copy, Debug, PartialEq, Eq, Structural)]
pub enum EmbedState {
    Pending,
    Embedded,
    Stale,
}

impl EmbedState {
    pub const PENDING: &'static str = "pending";

    pub const EMBEDDED: &'static str = "embedded";

    pub const STALE: &'static str = "stale";

    /// The name that a value is stored under.
    pub open spec fn name(self) -> Seq<char> {
        match self {
            EmbedState::Pending => "pending"@,
            EmbedState::Embedded => "embedded"@,
            EmbedState::Stale => "stale"@,
        }
    }

    /// The name that this value is stored under.
    pub fn as_str(&self) -> (name: &'static str)
        ensures
            name@ == self.name(),
    {
        match self {
            EmbedState::Pending => EmbedState::PENDING,
            EmbedState::Embedded => EmbedState::EMBEDDED,
            EmbedState::Stale => EmbedState::STALE,
        }
    }

    /// The value stored under the name `s`, if there is one.
    pub fn try_from_str(s: &str) -> (value: Option<EmbedState>)
        ensures
            match value {
                Some(value) => s@ == value.name(),
                None => forall|value: EmbedState| s@ != #[trigger] value.name(),
            },
    {
        if same_text(s, EmbedState::PENDING) {
            Some(EmbedState::Pending)
        } else if same_text(s, EmbedState::EMBEDDED) {
            Some(EmbedState::Embedded)
        } else if same_text(s, EmbedState::STALE) {
            Some(EmbedState::Stale)
        } else {
            None
        }
    }

    /// Reads a stored name.
    pub fn decode(s: &str) -> (value: Result<EmbedState, InvalidName>)
        ensures
            match value {
                Ok(value) => s@ == value.name(),
                Err(error) => (forall|value: EmbedState| s@ != #[trigger] value.name())
                    && error.enumeration@ == "EmbedState"@ && error.name@ == s@,
            },
    {
        match EmbedState::try_from_str(s) {
            Some(value) => Ok(value),
            None => Err(InvalidName { enumeration: "EmbedState", name: s.to_owned() }),
        }
    }

    /// Different values have different names, so a stored value reads back as itself.
    pub proof fn lemma_names_differ(a: EmbedState, b: EmbedState)
        ensures
            a.name() == b.name() <==> a == b,
    {
        reveal_strlit("pending");
        reveal_strlit("embedded");
        reveal_strlit("stale");
        assert("pending"@.len() != "embedded"@.len());
        assert("pending"@.len() != "stale"@.len());
        assert("embedded"@.len() != "stale"@.len());
    }
}

/// Whether an embedding stands for a chunk of content or for a filename.
#[derive(Clone, Copy, Debug, PartialEq, Eq, Structural)]
pub enum ChunkType {
    Content,
    Filename,
}

impl ChunkType {
    pub const CONTENT: &'static str = "content";

    pub const FILENAME: &'static str = "filename";

    /// The name that a value is stored under.
    pub open spec fn name(self) -> Seq<char> {
        match self {
            ChunkType::Content => "content"@,
            ChunkType::Filename => "filename"@,
        }
    }

    /// The name that this value is stored under.
    pub fn as_str(&self) -> (name: &'static str)
        ensures
            name@ == self.name(),
    {
        match self {
            ChunkType::Content => ChunkType::CONTENT,
            ChunkType::Filename => ChunkType::FILENAME,
        }
    }

    /// The value stored under the name `s`, if there is one.
    pub fn try_from_str(s: &str) -> (value: Option<ChunkType>)
        ensures
            match value {
                Some(value) => s@ == value.name(),
                None => forall|value: ChunkType| s@ != #[trigger] value.name(),
            },
    {
        if same_text(s, ChunkType::CONTENT) {
            Some(ChunkType::Content)
        } else if same_text(s, ChunkType::FILENAME) {
            Some(ChunkType::Filename)
        } else {
            None
        }
    }

    /// Reads a stored name.
    pub fn decode(s: &str) -> (value: Result<ChunkType, InvalidName>)
        ensures
            match value {
                Ok(value) => s@ == value.name(),
                Err(error) => (forall|value: ChunkType| s@ != #[trigger] value.name())
                    && error.enumeration@ == "ChunkType"@ && error.name@ == s@,
            },
    {
        match ChunkType::try_from_str(s) {
            Some(value) => Ok(value),
            None => Err(InvalidName { enumeration: "ChunkType", name: s.to_owned() }),
        }
    }

    /// Different values have different names, so a stored value reads back as itself.
    pub proof fn lemma_names_differ(a: ChunkType, b: ChunkType)
        ensures
            a.name() == b.name() <==> a == b,
    {
        reveal_strlit("content");
        reveal_strlit("filename");
        assert("content"@.len() != "filename"@.len());
    }
}

/// What a queued job does.
#[derive(Clone, Copy, Debug, PartialEq, Eq, Structural)]
pub enum JobType {
    IngestFolder,
    IngestFolderGit,
    EmbedDocument,
}

impl JobType {
    pub const INGEST_FOLDER: &'static str = "ingest_folder";

    pub const INGEST_FOLDER_GIT: &'static str = "ingest_folder_git";

    pub const EMBED_DOCUMENT: &'static str = "embed_document";

    /// The name that a value is stored under.
    pub open spec fn name(self) -> Seq<char> {
        match self {
            JobType::IngestFolder => "ingest_folder"@,
            JobType::IngestFolderGit => "ingest_folder_git"@,
            JobType::EmbedDocument => "embed_document"@,
        }
    }

    /// The name that this value is stored under.
    pub fn as_str(&self) -> (name: &'static str)
        ensures
            name@ == self.name(),
    {
        match self {
            JobType::IngestFolder => JobType::INGEST_FOLDER,
            JobType::IngestFolderGit => JobType::INGEST_FOLDER_GIT,
            JobType::EmbedDocument => JobType::EMBED_DOCUMENT,
        }
    }

    /// The value stored under the name `s`, if there is one.
    pub fn try_from_str(s: &str) -> (value: Option<JobType>)
        ensures
            match value {
                Some(value) => s@ == value.name(),
                None => forall|value: JobType| s@ != #[trigger] value.name(),
            },
    {
        if same_text(s, JobType::INGEST_FOLDER) {
            Some(JobType::IngestFolder)
        } else if same_text(s, JobType::INGEST_FOLDER_GIT) {
            Some(JobType::IngestFolderGit)
        } else if same_text(s, JobType::EMBED_DOCUMENT) {
            Some(JobType::EmbedDocument)
        } else {
            None
        }
    }

    /// Reads a stored name.
    pub fn decode(s: &str) -> (value: Result<JobType, InvalidName>)
        ensures
            match value {
                Ok(value) => s@ == value.name(),
                Err(error) => (forall|value: JobType| s@ != #[trigger] value.name())
                    && error.enumeration@ == "JobType"@ && error.name@ == s@,
            },
    {
        match JobType::try_from_str(s) {
            Some(value) => Ok(value),
            None => Err(InvalidName { enumeration: "JobType", name: s.to_owned() }),
        }
    }

    /// Different values have different names, so a stored value reads back as itself.
    pub proof fn lemma_names_differ(a: JobType, b: JobType)
        ensures
            a.name() == b.name() <==> a == b,
    {
        reveal_strlit("ingest_folder");
        reveal_strlit("ingest_folder_git");
        reveal_strlit("embed_document");
        assert("ingest_folder"@.len() != "ingest_folder_git"@.len());
        assert("ingest_folder"@.len() != "embed_document"@.len());
        assert("ingest_folder_git"@.len() != "embed_document"@.len());
    }
}

/// The names that values are stored under, letter by letter: what was stored can be read for
/// as long as these stay as they are.
pub proof fn lemma_stored_names()
    ensures
        DocCategory::KnowledgeFile.name() == seq!['k', 'n', 'o', 'w', 'l', 'e', 'd', 'g', 'e', '_', 'f', 'i', 'l', 'e'],
        DocCategory::Resource.name() == seq!['r', 'e', 's', 'o', 'u', 'r', 'c', 'e'],
        EmbedState::Pending.name() == seq!['p', 'e', 'n', 'd', 'i', 'n', 'g'],
        EmbedState::Embedded.name() == seq!['e', 'm', 'b', 'e', 'd', 'd', 'e', 'd'],
        EmbedState::Stale.name() == seq!['s', 't', 'a', 'l', 'e'],
        ChunkType::Content.name() == seq!['c', 'o', 'n', 't', 'e', 'n', 't'],
        ChunkType::Filename.name() == seq!['f', 'i', 'l', 'e', 'n', 'a', 'm', 'e'],
        JobType::IngestFolder.name() == seq!['i', 'n', 'g', 'e', 's', 't', '_', 'f', 'o', 'l', 'd', 'e', 'r'],
        JobType::IngestFolderGit.name() == seq!['i', 'n', 'g', 'e', 's', 't', '_', 'f', 'o', 'l', 'd', 'e', 'r', '_', 'g', 'i', 't'],
        JobType::EmbedDocument.name() == seq!['e', 'm', 'b', 'e', 'd', '_', 'd', 'o', 'c', 'u', 'm', 'e', 'n', 't'],
{
    reveal_strlit("knowledge_file");
    assert(DocCategory::KnowledgeFile.name() =~= seq!['k', 'n', 'o', 'w', 'l', 'e', 'd', 'g', 'e', '_', 'f', 'i', 'l', 'e']);
    reveal_strlit("resource");
    assert(DocCategory::Resource.name() =~= seq!['r', 'e', 's', 'o', 'u', 'r', 'c', 'e']);
    reveal_strlit("pending");
    assert(EmbedState::Pending.name() =~= seq!['p', 'e', 'n', 'd', 'i', 'n', 'g']);
    reveal_strlit("embedded");
    assert(EmbedState::Embedded.name() =~= seq!['e', 'm', 'b', 'e', 'd', 'd', 'e', 'd']);
    reveal_strlit("stale");
    assert(EmbedState::Stale.name() =~= seq!['s', 't', 'a', 'l', 'e']);
    reveal_strlit("content");
    assert(ChunkType::Content.name() =~= seq!['c', 'o', 'n', 't', 'e', 'n', 't']);
    reveal_strlit("filename");
    assert(ChunkType::Filename.name() =~= seq!['f', 'i', 'l', 'e', 'n', 'a', 'm', 'e']);
    reveal_strlit("ingest_folder");
    assert(JobType::IngestFolder.name() =~= seq!['i', 'n', 'g', 'e', 's', 't', '_', 'f', 'o', 'l', 'd', 'e', 'r']);
    reveal_strlit("ingest_folder_git");
    assert(JobType::IngestFolderGit.name() =~= seq!['i', 'n', 'g', 'e', 's', 't', '_', 'f', 'o', 'l', 'd', 'e', 'r', '_', 'g', 'i', 't']);
    reveal_strlit("embed_document");
    assert(JobType::EmbedDocument.name() =~= seq!['e', 'm', 'b', 'e', 'd', '_', 'd', 'o', 'c', 'u', 'm', 'e', 'n', 't']);
}

} // verus!
