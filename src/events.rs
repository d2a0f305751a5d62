use vstd::prelude::*;

verus! {

/// A change to a watched file as the event channel carries it.
#[derive(Debug, Clone)]
pub struct FileChangeEvent {
    pub path: String,
    pub event_type: FileEventType,
    pub timestamp: u64,
    pub metadata: Option<FileMetadata>,
}

/// The kinds of change the event channel carries.
#[derive(Debug, Clone)]
pub enum FileEventType {
    Created,
    Modified,
    Deleted,
    Renamed { old_path: String },
    Moved { from: String, to: String },
}

/// What the file system says of a changed file.
#[derive(Debug, Clone)]
pub struct FileMetadata {
    pub size: u64,
    pub modified_time: u64,
    pub file_type: String,
    pub permissions: u32,
}

} // verus!
