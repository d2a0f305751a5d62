use vstd::prelude::*;
use vstd::string::*;

verus! {

/// A stored document as the embedding surface reports it.
#[derive(Debug, Clone)]
pub struct DocumentInfo {
    pub id: String,
    pub source_type: String,
    pub file_path: String,
    pub content_hash: String,
    pub ingested_at: i64,
    pub modified_at: i64,
    pub metadata_json: String,
    pub title: String,
    pub content: Option<String>,
}

/// A file-system change as the embedding surface reports it.
#[derive(Debug, Clone)]
pub struct FileEvent {
    pub event_type: String,
    pub file_path: String,
    pub timestamp: i64,
    pub metadata_json: Option<String>,
}

/// What the engine watches and extracts.
#[derive(Debug, Clone)]
pub struct IngestionConfig {
    pub watch_paths: Vec<String>,
    pub file_patterns: Vec<String>,
    pub exclude_patterns: Vec<String>,
    pub auto_extract_entities: bool,
    pub auto_build_relationships: bool,
}

/// Whether content is encrypted at rest, and how.
#[derive(Debug, Clone)]
pub struct EncryptionConfig {
    pub enabled: bool,
    pub algorithm: String,
    pub key_derivation: String,
}

/// The engine's configuration.
#[derive(Debug, Clone)]
pub struct CoreConfig {
    pub db_path: String,
    pub ingestion_config: IngestionConfig,
    pub encryption_config: Option<EncryptionConfig>,
}

/// The failures the engine reports, each with a message.
#[derive(Debug, Clone)]
pub enum AutoOrganizeError {
    InvalidConfig(String),
    DatabaseError(String),
    FileSystemError(String),
    EncryptionError(String),
    IngestionError(String),
    SearchError(String),
}

impl AutoOrganizeError {
    /// The heading that the error's message starts with.
    pub open spec fn heading(&self) -> Seq<char> {
        match self {
            AutoOrganizeError::InvalidConfig(_) => "Invalid configuration: "@,
            AutoOrganizeError::DatabaseError(_) => "Database error: "@,
            AutoOrganizeError::FileSystemError(_) => "File system error: "@,
            AutoOrganizeError::EncryptionError(_) => "Encryption error: "@,
            AutoOrganizeError::IngestionError(_) => "Ingestion error: "@,
            AutoOrganizeError::SearchError(_) => "Search error: "@,
        }
    }

    /// The detail the error carries.
    pub open spec fn detail(&self) -> Seq<char> {
        match self {
            AutoOrganizeError::InvalidConfig(m) => m@,
            AutoOrganizeError::DatabaseError(m) => m@,
            AutoOrganizeError::FileSystemError(m) => m@,
            AutoOrganizeError::EncryptionError(m) => m@,
            AutoOrganizeError::IngestionError(m) => m@,
            AutoOrganizeError::SearchError(m) => m@,
        }
    }

    /// The human-readable message: the heading, then the detail.
    pub fn to_message(&self) -> (r: String)
        ensures
            r@ == self.heading() + self.detail(),
    {
        let (mut out, detail) = match self {
            AutoOrganizeError::InvalidConfig(m) => (String::from_str("Invalid configuration: "), m),
            AutoOrganizeError::DatabaseError(m) => (String::from_str("Database error: "), m),
            AutoOrganizeError::FileSystemError(m) => (String::from_str("File system error: "), m),
            AutoOrganizeError::EncryptionError(m) => (String::from_str("Encryption error: "), m),
            AutoOrganizeError::IngestionError(m) => (String::from_str("Ingestion error: "), m),
            AutoOrganizeError::SearchError(m) => (String::from_str("Search error: "), m),
        };
        out.append(detail.as_str());
        out
    }
}

} // verus!
